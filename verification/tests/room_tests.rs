use babel::data::{FilterConfig, UserAction, Words};
use babel::room::ChatRoom;

fn make_test_config() -> FilterConfig {
    FilterConfig {
        banned_words: vec![
            ("A".to_string(), vec!["freedom".to_string()]),
            ("B".to_string(), vec!["monarchy".to_string()]),
        ],
    }
}

fn make_words() -> Words {
    Words {
        normal: vec!["hello".to_string(), "world".to_string()],
        censored: vec![
            vec!["alpha".to_string()],
            vec!["beta".to_string()],
            vec!["gamma".to_string()],
            vec!["delta".to_string()],
        ],
    }
}

#[test]
fn test_send_note_generates_notification() {
    let config = make_test_config();
    let mut room = ChatRoom::new("test_room".to_string(), &config, &make_words());

    let user_id = "alice".to_string();
    let country = "A".to_string();
    room.add_participant(user_id.clone(), country.clone());

    // A note with suspected banned words
    let note_map = vec![
        (
            "A".to_string(),
            vec!["freedom".to_string(), "democracy".to_string()],
        ),
        ("B".to_string(), vec!["monarchy".to_string()]),
    ];

    let action = UserAction::SubmitNotes(note_map.clone());
    let (message, notifications) = room.process_action(&user_id, &country, action);

    // Should not create a message
    assert!(message.is_none());

    // Should generate a notification
    assert_eq!(notifications.len(), 1);
    assert!(notifications[0].message.contains("alice"));
    assert!(notifications[0].message.contains("exploration notes"));
    assert!(notifications[0].message.contains("2 countries"));
    assert!(notifications[0].message.contains("3 words"));

    // Should store the notes
    let stored_note = room.get_player_note(&user_id);
    assert!(stored_note.is_some());
    assert_eq!(stored_note.unwrap(), &note_map);
}

#[test]
fn test_send_note_empty_map() {
    let config = make_test_config();
    let mut room = ChatRoom::new("test_room".to_string(), &config, &make_words());

    let user_id = "bob".to_string();
    let country = "B".to_string();
    room.add_participant(user_id.clone(), country.clone());

    // Send an empty note
    let note_map = vec![];
    let action = UserAction::SubmitNotes(note_map);
    let (message, notifications) = room.process_action(&user_id, &country, action);

    // Should not create a message
    assert!(message.is_none());

    // Should still generate a notification with 0 countries and 0 words
    assert_eq!(notifications.len(), 1);
    assert!(notifications[0].message.contains("bob"));
    assert!(notifications[0].message.contains("0 countries"));
    assert!(notifications[0].message.contains("0 words"));
}

#[test]
fn test_send_note_single_country() {
    let config = make_test_config();
    let mut room = ChatRoom::new("test_room".to_string(), &config, &make_words());

    let user_id = "charlie".to_string();
    let country = "C".to_string();
    room.add_participant(user_id.clone(), country.clone());

    // Send note for single country
    let note_map = vec![(
        "D".to_string(),
        vec![
            "word1".to_string(),
            "word2".to_string(),
            "word3".to_string(),
        ],
    )];

    let action = UserAction::SubmitNotes(note_map);
    let (message, notifications) = room.process_action(&user_id, &country, action);

    assert!(message.is_none());
    assert_eq!(notifications.len(), 1);
    assert!(notifications[0].message.contains("charlie"));
    assert!(notifications[0].message.contains("1 country"));
    assert!(notifications[0].message.contains("3 words"));
}

#[test]
fn test_send_note_single_word() {
    let config = make_test_config();
    let mut room = ChatRoom::new("test_room".to_string(), &config, &make_words());

    let user_id = "diana".to_string();
    let country = "D".to_string();
    room.add_participant(user_id.clone(), country.clone());

    // Send note with single word
    let note_map = vec![("A".to_string(), vec!["freedom".to_string()])];

    let action = UserAction::SubmitNotes(note_map);
    let (message, notifications) = room.process_action(&user_id, &country, action);

    assert!(message.is_none());
    assert_eq!(notifications.len(), 1);
    assert!(notifications[0].message.contains("diana"));
    assert!(notifications[0].message.contains("1 country"));
    assert!(notifications[0].message.contains("1 word"));
}

#[test]
fn test_send_note_updates_latest() {
    let config = make_test_config();
    let mut room = ChatRoom::new("test_room".to_string(), &config, &make_words());

    let user_id = "alice".to_string();
    let country = "A".to_string();
    room.add_participant(user_id.clone(), country.clone());

    // Send first note
    let note_map1 = vec![("A".to_string(), vec!["freedom".to_string()])];
    let action1 = UserAction::SubmitNotes(note_map1.clone());
    room.process_action(&user_id, &country, action1);

    // Verify first note is stored
    assert_eq!(room.get_player_note(&user_id).unwrap(), &note_map1);

    // Send second note (should replace first)
    let note_map2 = vec![(
        "B".to_string(),
        vec!["monarchy".to_string(), "tradition".to_string()],
    )];
    let action2 = UserAction::SubmitNotes(note_map2.clone());
    room.process_action(&user_id, &country, action2);

    // Verify only latest note is stored
    let stored_note = room.get_player_note(&user_id).unwrap();
    assert_eq!(stored_note, &note_map2);
    assert_ne!(stored_note, &note_map1);

    // Verify we only have one entry per user
    assert_eq!(room.get_player_notes().len(), 1);
}

/// A room with controlled censorship settings: country "A" has "freedom"
/// banned, country "B" has "monarchy" banned.
fn make_censorship_test_room() -> ChatRoom {
    let config = make_test_config();
    ChatRoom::new_for_test(
        "test_room".to_string(),
        &config,
        vec![
            "hello".to_string(),
            "freedom".to_string(),
            "monarchy".to_string(),
            "world".to_string(),
        ],
    )
}

#[test]
fn test_receiver_censorship_censors_banned_words() {
    let mut room = make_censorship_test_room();
    room.receiver_censor = true;
    room.sender_censor = false;
    room.shadow_ban = false;

    // User from country C sends "freedom" (banned in A)
    room.add_participant("alice".to_string(), "C".to_string());
    let action = UserAction::SendMessage("freedom".to_string());
    let (msg, _) = room.process_action(&"alice".to_string(), &"C".to_string(), action);
    let message = msg.unwrap();

    // When viewed by country A, "freedom" should be censored
    let censored = room.censor_message_for(&message, &"A".to_string());
    assert!(censored.was_censored);
    assert_eq!(censored.content, "***");

    // When viewed by country B, "freedom" should NOT be censored
    let uncensored = room.censor_message_for(&message, &"B".to_string());
    assert!(!uncensored.was_censored);
    assert_eq!(uncensored.content, "freedom");
}

#[test]
fn test_sender_censorship_censors_based_on_sender_country() {
    let mut room = make_censorship_test_room();
    room.receiver_censor = false;
    room.sender_censor = true;
    room.shadow_ban = false;

    // User from country A sends "freedom" (banned in A)
    room.add_participant("alice".to_string(), "A".to_string());
    let action = UserAction::SendMessage("freedom".to_string());
    let (msg, _) = room.process_action(&"alice".to_string(), &"A".to_string(), action);
    let message = msg.unwrap();

    // When viewed by anyone, "freedom" should be censored because sender is from A
    let censored = room.censor_message_for(&message, &"C".to_string());
    assert!(censored.was_censored);
    assert_eq!(censored.content, "***");

    // User from country B sends "freedom" (not banned in B)
    let action2 = UserAction::SendMessage("freedom".to_string());
    let (msg2, _) = room.process_action(&"alice".to_string(), &"B".to_string(), action2);
    let message2 = msg2.unwrap();

    // Should NOT be censored because sender B doesn't have "freedom" banned
    let uncensored = room.censor_message_for(&message2, &"C".to_string());
    assert!(!uncensored.was_censored);
    assert_eq!(uncensored.content, "freedom");
}

#[test]
fn test_shadow_ban_shows_own_messages_uncensored() {
    let mut room = make_censorship_test_room();
    room.receiver_censor = true;
    room.sender_censor = false;
    room.shadow_ban = true;

    // User from country A sends "freedom" (banned in A)
    room.add_participant("alice".to_string(), "A".to_string());
    let action = UserAction::SendMessage("freedom".to_string());
    let (msg, _) = room.process_action(&"alice".to_string(), &"A".to_string(), action);
    let message = msg.unwrap();

    // When viewed by the sender's country, the message is uncensored
    let own_view = room.censor_message_for(&message, &"A".to_string());
    assert!(!own_view.was_censored);
    assert_eq!(own_view.content, "freedom");

    // Without shadow mode the same view is censored
    room.shadow_ban = false;
    let other_view = room.censor_message_for(&message, &"A".to_string());
    assert!(other_view.was_censored);
    assert_eq!(other_view.content, "***");
}

#[test]
fn test_allowed_countries_bypass_censorship() {
    let mut room = make_censorship_test_room();
    room.receiver_censor = true;
    room.sender_censor = true;
    room.shadow_ban = false;
    room.allowed.push("A".to_string());

    // User from country A sends "freedom" (banned in A, but A is in allowed)
    room.add_participant("alice".to_string(), "A".to_string());
    let action = UserAction::SendMessage("freedom".to_string());
    let (msg, _) = room.process_action(&"alice".to_string(), &"A".to_string(), action);
    let message = msg.unwrap();

    // Sender censorship should be bypassed for country A
    let view_by_b = room.censor_message_for(&message, &"B".to_string());
    assert!(!view_by_b.was_censored);

    // Receiver censorship should also be bypassed when viewer is A
    let view_by_a = room.censor_message_for(&message, &"A".to_string());
    assert!(!view_by_a.was_censored);
}

#[test]
fn test_get_censored_state_applies_per_country_view() {
    let mut room = make_censorship_test_room();
    room.receiver_censor = true;
    room.sender_censor = false;
    room.shadow_ban = false;

    room.add_participant("alice".to_string(), "C".to_string());
    room.add_participant("bob".to_string(), "A".to_string());

    // Send messages with words banned in different countries
    let action1 = UserAction::SendMessage("freedom".to_string()); // banned in A
    room.process_action(&"alice".to_string(), &"C".to_string(), action1);

    let action2 = UserAction::SendMessage("monarchy".to_string()); // banned in B
    room.process_action(&"alice".to_string(), &"C".to_string(), action2);

    // Get state for country A - "freedom" should be censored
    let state_a = room.get_censored_state_for(&"A".to_string());
    assert_eq!(state_a.recent_messages.len(), 2);
    assert_eq!(state_a.recent_messages[0].content, "***"); // freedom censored
    assert_eq!(state_a.recent_messages[1].content, "monarchy"); // monarchy visible

    // Get state for country B - "monarchy" should be censored
    let state_b = room.get_censored_state_for(&"B".to_string());
    assert_eq!(state_b.recent_messages[0].content, "freedom"); // freedom visible
    assert_eq!(state_b.recent_messages[1].content, "***"); // monarchy censored

    // Get state for country C - nothing censored (no banned words for C)
    let state_c = room.get_censored_state_for(&"C".to_string());
    assert_eq!(state_c.recent_messages[0].content, "freedom");
    assert_eq!(state_c.recent_messages[1].content, "monarchy");
}

#[test]
fn test_combined_sender_and_receiver_censorship() {
    let mut room = make_censorship_test_room();
    room.receiver_censor = true;
    room.sender_censor = true;
    room.shadow_ban = false;

    room.add_participant("alice".to_string(), "A".to_string());

    // User from A sends "monarchy" (banned in B, not A)
    let action = UserAction::SendMessage("monarchy".to_string());
    let (msg, _) = room.process_action(&"alice".to_string(), &"A".to_string(), action);
    let message = msg.unwrap();

    // Viewed by B: receiver_censor applies (monarchy banned in B)
    let view_b = room.censor_message_for(&message, &"B".to_string());
    assert!(view_b.was_censored);

    // Viewed by C: no censorship (not banned for sender A or receiver C)
    let view_c = room.censor_message_for(&message, &"C".to_string());
    assert!(!view_c.was_censored);
}

#[test]
fn test_no_censorship_when_both_flags_disabled() {
    let mut room = make_censorship_test_room();
    room.receiver_censor = false;
    room.sender_censor = false;
    room.shadow_ban = false;

    room.add_participant("alice".to_string(), "A".to_string());

    // User from A sends "freedom" (normally banned in A)
    let action = UserAction::SendMessage("freedom".to_string());
    let (msg, _) = room.process_action(&"alice".to_string(), &"A".to_string(), action);
    let message = msg.unwrap();

    // Should not be censored for anyone
    let view_a = room.censor_message_for(&message, &"A".to_string());
    assert!(!view_a.was_censored);
    assert_eq!(view_a.content, "freedom");

    let view_b = room.censor_message_for(&message, &"B".to_string());
    assert!(!view_b.was_censored);
    assert_eq!(view_b.content, "freedom");
}
