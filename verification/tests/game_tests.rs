use babel::data::{FilterConfig, Message, Participant};
use babel::game::solve_answer;
use babel::game::CensorshipGame;

fn make_test_config() -> FilterConfig {
    FilterConfig {
        banned_words: vec![
            ("A".to_string(), vec!["freedom".to_string()]),
            ("B".to_string(), vec!["monarchy".to_string()]),
        ],
    }
}

#[test]
fn test_is_word_allowed() {
    let config = make_test_config();
    let game = CensorshipGame::new_for_test(
        &config,
        vec!["hello".to_string(), "world".to_string()],
        false,
        false,
        false,
    );

    assert!(game.is_word_allowed("hello"));
    assert!(game.is_word_allowed("world"));
    assert!(!game.is_word_allowed("foo"));
}

#[test]
fn test_submit_and_get_player_notes() {
    let config = make_test_config();
    let mut game = CensorshipGame::new_for_test(&config, vec![], false, false, false);

    let user_id = "alice".to_string();
    let notes = vec![("A".to_string(), vec!["freedom".to_string()])];

    game.submit_player_notes(&user_id, notes.clone());

    assert_eq!(game.get_player_notes(&user_id), Some(&notes));
    assert_eq!(game.get_all_player_notes().len(), 1);
}

#[test]
fn test_calculate_player_progress() {
    let config = make_test_config();
    let mut game = CensorshipGame::new_for_test(&config, vec![], false, false, false);

    let participants = vec![Participant {
        user_id: "alice".to_string(),
        country: "A".to_string(),
        joined_at: 0,
    }];

    // No notes submitted yet
    let progress = game.calculate_player_progress(&participants);
    assert_eq!(progress.len(), 1);
    assert_eq!(progress[0].discovered_count, 0);
    assert_eq!(progress[0].total_required, 1); // Only "freedom" for country A

    // Submit correct note
    let notes = vec![("A".to_string(), vec!["freedom".to_string()])];
    game.submit_player_notes(&"alice".to_string(), notes);

    let progress = game.calculate_player_progress(&participants);
    assert_eq!(progress[0].discovered_count, 1);
    assert!(progress[0].completed);
}

#[test]
fn test_check_victory() {
    let config = make_test_config();
    let mut game = CensorshipGame::new_for_test(&config, vec![], false, false, false);

    let participants = vec![Participant {
        user_id: "alice".to_string(),
        country: "A".to_string(),
        joined_at: 0,
    }];

    // Victory not achieved yet
    assert!(!game.check_victory(&participants));

    // Submit correct notes
    let notes = vec![("A".to_string(), vec!["freedom".to_string()])];
    game.submit_player_notes(&"alice".to_string(), notes);

    // Victory achieved
    assert!(game.check_victory(&participants));

    // Subsequent calls should still return true
    assert!(game.check_victory(&participants));
}

#[test]
fn test_censor_message_receiver_mode() {
    let config = make_test_config();
    let game = CensorshipGame::new_for_test(&config, vec![], false, true, false);

    let message = Message {
        id: 1,
        sender_id: "alice".to_string(),
        sender_country: "C".to_string(),
        content: "freedom".to_string(),
        timestamp: 0,
    };

    // Viewed by country A (has "freedom" banned)
    let (content, was_censored) = game.censor_message_for(&message, &"A".to_string());
    assert!(was_censored);
    assert_eq!(content, "***");

    // Viewed by country B (doesn't have "freedom" banned)
    let (content, was_censored) = game.censor_message_for(&message, &"B".to_string());
    assert!(!was_censored);
    assert_eq!(content, "freedom");
}

#[test]
fn test_unlock_all_countries() {
    let config = make_test_config();
    let mut game = CensorshipGame::new_for_test(&config, vec![], true, true, false);

    let message = Message {
        id: 1,
        sender_id: "alice".to_string(),
        sender_country: "A".to_string(),
        content: "freedom".to_string(),
        timestamp: 0,
    };

    // Before unlock, censored
    let (_, was_censored) = game.censor_message_for(&message, &"B".to_string());
    assert!(was_censored);

    // After unlock, not censored
    game.unlock_all_countries();
    let (content, was_censored) = game.censor_message_for(&message, &"B".to_string());
    assert!(!was_censored);
    assert_eq!(content, "freedom");
}

#[test]
fn test_universe_shrinks_with_population() {
    let config = FilterConfig {
        banned_words: vec![
            ("A".to_string(), vec!["x".to_string()]),
            ("B".to_string(), vec!["y".to_string()]),
        ],
    };
    let game = CensorshipGame::new_for_test(&config, vec![], false, false, false);

    let both = vec![
        Participant { user_id: "alice".to_string(), country: "A".to_string(), joined_at: 0 },
        Participant { user_id: "bob".to_string(), country: "B".to_string(), joined_at: 0 },
    ];
    let progress = game.calculate_player_progress(&both);
    assert_eq!(progress[0].total_required, 2);
    assert_eq!(progress[1].total_required, 2);

    let only_a = vec![Participant {
        user_id: "alice".to_string(),
        country: "A".to_string(),
        joined_at: 0,
    }];
    let progress = game.calculate_player_progress(&only_a);
    assert_eq!(progress[0].total_required, 1);
}

#[test]
fn test_victory_needs_every_participant() {
    let config = FilterConfig {
        banned_words: vec![
            ("A".to_string(), vec!["x".to_string()]),
            ("B".to_string(), vec!["y".to_string()]),
        ],
    };
    let mut game = CensorshipGame::new_for_test(&config, vec![], false, false, false);

    let participants = vec![
        Participant { user_id: "alice".to_string(), country: "A".to_string(), joined_at: 0 },
        Participant { user_id: "bob".to_string(), country: "B".to_string(), joined_at: 0 },
    ];

    let full_notes = vec![
        ("A".to_string(), vec!["x".to_string()]),
        ("B".to_string(), vec!["y".to_string()]),
    ];

    game.submit_player_notes(&"alice".to_string(), full_notes.clone());
    assert!(!game.check_victory(&participants));

    game.submit_player_notes(&"bob".to_string(), full_notes);
    assert!(game.check_victory(&participants));
}

#[test]
fn test_victory_never_reverts() {
    let config = make_test_config();
    let mut game = CensorshipGame::new_for_test(&config, vec![], false, false, false);

    let participants = vec![Participant {
        user_id: "alice".to_string(),
        country: "A".to_string(),
        joined_at: 0,
    }];
    let notes = vec![("A".to_string(), vec!["freedom".to_string()])];
    game.submit_player_notes(&"alice".to_string(), notes);
    assert!(game.check_victory(&participants));

    // Replace the winning notes with useless ones: victory stays.
    game.submit_player_notes(&"alice".to_string(), vec![]);
    assert!(game.check_victory(&participants));
    let state = game.get_victory_state(&participants);
    assert!(state.achieved);
    assert!(state.unlocked_at.is_some());
}

#[test]
fn test_empty_room_has_no_victory() {
    let config = make_test_config();
    let mut game = CensorshipGame::new_for_test(&config, vec![], false, false, false);
    assert!(!game.check_victory(&vec![]));
}

#[test]
fn test_progress_matching_is_case_insensitive() {
    let config = make_test_config();
    let mut game = CensorshipGame::new_for_test(&config, vec![], false, false, false);

    let participants = vec![Participant {
        user_id: "alice".to_string(),
        country: "A".to_string(),
        joined_at: 0,
    }];
    let notes = vec![("A".to_string(), vec!["FrEeDoM".to_string()])];
    game.submit_player_notes(&"alice".to_string(), notes);

    let progress = game.calculate_player_progress(&participants);
    assert_eq!(progress[0].discovered_count, 1);
    assert!(progress[0].completed);
}

#[test]
fn test_solve_answer_requires_exact_sets() {
    let banned = vec![
        ("A".to_string(), vec!["x".to_string(), "y".to_string()]),
        ("B".to_string(), vec!["z".to_string()]),
    ];

    // Exact answer, different order inside a country's word set.
    let good = vec![
        ("B".to_string(), vec!["z".to_string()]),
        ("A".to_string(), vec!["y".to_string(), "x".to_string()]),
    ];
    assert!(solve_answer(&banned, &good));

    // Missing a country.
    let short = vec![("A".to_string(), vec!["x".to_string(), "y".to_string()])];
    assert!(!solve_answer(&banned, &short));

    // Wrong word for one country.
    let wrong = vec![
        ("A".to_string(), vec!["x".to_string(), "y".to_string()]),
        ("B".to_string(), vec!["w".to_string()]),
    ];
    assert!(!solve_answer(&banned, &wrong));

    // Unknown country named.
    let unknown = vec![
        ("A".to_string(), vec!["x".to_string(), "y".to_string()]),
        ("C".to_string(), vec!["z".to_string()]),
    ];
    assert!(!solve_answer(&banned, &unknown));
}

#[test]
fn test_all_notes_solve_needs_everyone_correct() {
    let banned = vec![("A".to_string(), vec!["x".to_string()])];
    let right = vec![("A".to_string(), vec!["x".to_string()])];
    let wrong = vec![("A".to_string(), vec!["y".to_string()])];

    let all_right = vec![
        ("alice".to_string(), right.clone()),
        ("bob".to_string(), right.clone()),
    ];
    assert!(babel::game::all_notes_solve(&banned, &all_right));

    let one_wrong = vec![
        ("alice".to_string(), right),
        ("bob".to_string(), wrong),
    ];
    assert!(!babel::game::all_notes_solve(&banned, &one_wrong));
}

#[test]
fn test_solve_answer_rejects_duplicate_countries() {
    let banned = vec![
        ("A".to_string(), vec!["x".to_string()]),
        ("B".to_string(), vec!["y".to_string()]),
    ];
    // Right length, but one correct country named twice and the other missing.
    let duplicated = vec![
        ("A".to_string(), vec!["x".to_string()]),
        ("A".to_string(), vec!["x".to_string()]),
    ];
    assert!(!solve_answer(&banned, &duplicated));
}
