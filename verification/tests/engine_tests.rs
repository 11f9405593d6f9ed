use babel::data::{FilterConfig, UserAction, UserMessage, Words};
use babel::room::ChatRoom;
use babel::words::generate_allowed_and_banned_words;

fn make_words() -> Words {
    Words {
        normal: vec!["hello".to_string(), "world".to_string()],
        censored: vec![
            vec!["alpha".to_string()],
            vec!["beta".to_string()],
            vec!["gamma".to_string()],
            vec!["delta".to_string()],
        ],
    }
}

fn scenario_room() -> ChatRoom {
    // allowed = ["hello", "world"], banned A = ["world"]
    let config = FilterConfig {
        banned_words: vec![("A".to_string(), vec!["world".to_string()])],
    };
    let mut room = ChatRoom::new_for_test(
        "scenario".to_string(),
        &config,
        vec!["hello".to_string(), "world".to_string()],
    );
    room.receiver_censor = true;
    room.sender_censor = false;
    room.shadow_ban = false;
    room
}

#[test]
fn test_vocabulary_filter_keeps_only_allowed_words() {
    let mut room = scenario_room();
    room.add_participant("alice".to_string(), "A".to_string());

    let action = UserAction::SendMessage("hello world cat".to_string());
    let (msg, _) = room.process_action(&"alice".to_string(), &"A".to_string(), action);
    let message = msg.unwrap();
    assert_eq!(message.content, "hello world");

    // A viewer in country A sees "world" censored.
    let view_a = room.censor_message_for(&message, &"A".to_string());
    assert!(view_a.was_censored);
    assert_eq!(view_a.content, "hello ***");

    // A viewer in country C (no bans) sees the stored content unchanged.
    let view_c = room.censor_message_for(&message, &"C".to_string());
    assert!(!view_c.was_censored);
    assert_eq!(view_c.content, "hello world");
}

#[test]
fn test_message_outside_vocabulary_is_dropped_silently() {
    let mut room = scenario_room();
    room.add_participant("alice".to_string(), "A".to_string());

    let action = UserAction::SendMessage("cat dog".to_string());
    let (msg, notifs) = room.process_action(&"alice".to_string(), &"A".to_string(), action);
    assert!(msg.is_none());
    assert!(notifs.is_empty());

    // The id counter did not move: the next accepted message takes id 1.
    let action = UserAction::SendMessage("hello".to_string());
    let (msg, _) = room.process_action(&"alice".to_string(), &"A".to_string(), action);
    assert_eq!(msg.unwrap().id, 1);
}

#[test]
fn test_send_message_array_filters_like_send_message() {
    let mut room = scenario_room();
    room.add_participant("alice".to_string(), "A".to_string());

    let action = UserAction::SendMessageArray(vec![
        "hello".to_string(),
        "cat".to_string(),
        "world".to_string(),
    ]);
    let (msg, _) = room.process_action(&"alice".to_string(), &"A".to_string(), action);
    assert_eq!(msg.unwrap().content, "hello world");
}

#[test]
fn test_leave_room_removes_participant_once() {
    let mut room = scenario_room();
    room.add_participant("alice".to_string(), "A".to_string());

    let (msg, notifs) =
        room.process_action(&"alice".to_string(), &"A".to_string(), UserAction::LeaveRoom);
    assert!(msg.is_none());
    assert_eq!(notifs.len(), 1);
    assert_eq!(notifs[0].message, "alice left the room");
    assert!(room.is_empty());

    // Leaving again does nothing and says nothing.
    let (_, notifs) =
        room.process_action(&"alice".to_string(), &"A".to_string(), UserAction::LeaveRoom);
    assert!(notifs.is_empty());
}

#[test]
fn test_readd_participant_is_noop() {
    let mut room = scenario_room();
    assert!(room.add_participant("alice".to_string(), "A".to_string()));
    assert!(!room.add_participant("alice".to_string(), "B".to_string()));
    assert_eq!(room.participants().len(), 1);
    assert_eq!(room.participants()[0].country, "A");
}

#[test]
fn test_batch_preserves_enqueue_order_across_senders() {
    let mut room = scenario_room();
    let batch = vec![
        UserMessage {
            user_id: "alice".to_string(),
            country: "A".to_string(),
            action: UserAction::SendMessage("hello".to_string()),
        },
        UserMessage {
            user_id: "bob".to_string(),
            country: "B".to_string(),
            action: UserAction::SendMessage("world".to_string()),
        },
    ];
    let update = room.process_actions(&batch);

    assert_eq!(update.new_messages.len(), 2);
    assert_eq!(update.new_messages[0].sender_id, "alice");
    assert_eq!(update.new_messages[1].sender_id, "bob");
    assert!(update.new_messages[0].id < update.new_messages[1].id);

    // Both unseen senders joined first, each with a notification.
    assert_eq!(update.notifications.len(), 2);
    assert_eq!(update.notifications[0].message, "alice joined the room");
    assert_eq!(update.notifications[1].message, "bob joined the room");
    assert!(!update.room_closed);
}

#[test]
fn test_room_closes_when_empty_after_producing_messages() {
    let mut room = scenario_room();
    let batch = vec![
        UserMessage {
            user_id: "alice".to_string(),
            country: "A".to_string(),
            action: UserAction::SendMessage("hello".to_string()),
        },
        UserMessage {
            user_id: "alice".to_string(),
            country: "A".to_string(),
            action: UserAction::LeaveRoom,
        },
    ];
    let update = room.process_actions(&batch);
    assert_eq!(update.new_messages.len(), 1);
    assert!(update.room_closed);
}

#[test]
fn test_room_without_messages_does_not_close() {
    let mut room = scenario_room();

    // A fresh room processing an empty batch stays open.
    let update = room.process_actions(&vec![]);
    assert!(!update.room_closed);

    // A batch of only a leave produces no message, so no close either.
    let batch = vec![UserMessage {
        user_id: "alice".to_string(),
        country: "A".to_string(),
        action: UserAction::LeaveRoom,
    }];
    let update = room.process_actions(&batch);
    assert!(update.new_messages.is_empty());
    assert!(!update.room_closed);
}

#[test]
fn test_new_room_seeds_instructions_message() {
    let config = FilterConfig { banned_words: vec![] };
    let room = ChatRoom::new("fresh".to_string(), &config, &make_words());

    assert_eq!(room.room_id(), &"fresh".to_string());
    assert!(room.is_empty());
    assert_eq!(room.messages.len(), 1);
    assert_eq!(room.messages[0].id, 1);
    assert_eq!(room.messages[0].sender_id, "SYSTEM");
    assert!(room.messages[0].content.contains("censorship firewall"));

    // The system message is never censored, whoever looks.
    let state = room.get_censored_state_for(&"A".to_string());
    assert_eq!(state.recent_messages.len(), 1);
    assert!(!state.recent_messages[0].was_censored);
}

#[test]
fn test_generated_words_draw_from_material() {
    let words = make_words();
    let countries = vec![
        "A".to_string(),
        "B".to_string(),
        "C".to_string(),
        "D".to_string(),
    ];
    let (allowed, banned) = generate_allowed_and_banned_words(&words, &countries);

    // Vocabulary: the everyday words followed by one pick per puzzle group.
    assert_eq!(allowed.len(), 6);
    assert_eq!(&allowed[0..2], &["hello".to_string(), "world".to_string()]);
    assert_eq!(allowed[2], "alpha");
    assert_eq!(allowed[3], "beta");
    assert_eq!(allowed[4], "gamma");
    assert_eq!(allowed[5], "delta");

    // Each of the four countries gets exactly one banned word from the picks.
    assert_eq!(banned.len(), 4);
    let picks = &allowed[2..6];
    for (i, country) in ["A", "B", "C", "D"].iter().enumerate() {
        assert_eq!(&banned[i].0, country);
        assert_eq!(banned[i].1.len(), 1);
        assert!(picks.contains(&banned[i].1[0]));
    }
}

#[test]
fn test_notes_summary_pluralization() {
    let mut room = scenario_room();
    room.add_participant("eve".to_string(), "A".to_string());
    let note_map = vec![("B".to_string(), vec!["x".to_string()])];
    let (_, notifs) = room.process_action(
        &"eve".to_string(),
        &"A".to_string(),
        UserAction::SubmitNotes(note_map),
    );
    assert_eq!(
        notifs[0].message,
        "eve shared exploration notes (1 country, 1 word)"
    );
}

#[test]
fn test_batch_snapshot_carries_victory_state() {
    let mut room = scenario_room();

    // A batch with one participant and no correct notes: victory not yet.
    let batch = vec![UserMessage {
        user_id: "alice".to_string(),
        country: "A".to_string(),
        action: UserAction::SendMessage("hello".to_string()),
    }];
    let update = room.process_actions(&batch);
    let v = update.victory.expect("snapshot must carry the victory state");
    assert!(!v.achieved);
    assert!(v.unlocked_at.is_none());
    assert_eq!(v.player_progress.len(), 1);
    assert_eq!(v.player_progress[0].total_required, 1);
    assert_eq!(v.player_progress[0].discovered_count, 0);

    // Submitting the winning note flips victory in the same batch's snapshot.
    let batch = vec![UserMessage {
        user_id: "alice".to_string(),
        country: "A".to_string(),
        action: UserAction::SubmitNotes(vec![("A".to_string(), vec!["world".to_string()])]),
    }];
    let update = room.process_actions(&batch);
    let v = update.victory.expect("snapshot must carry the victory state");
    assert!(v.achieved);
    assert!(v.unlocked_at.is_some());
    assert!(v.player_progress[0].completed);
    let unlocked_at = v.unlocked_at;

    // Victory stays achieved on later batches, with the same timestamp.
    let update = room.process_actions(&vec![]);
    let v = update.victory.unwrap();
    assert!(v.achieved);
    assert_eq!(v.unlocked_at, unlocked_at);
}
