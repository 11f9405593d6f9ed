use babel::data::FilterConfig;
use babel::filter::CensorshipFilter;

fn make_config() -> FilterConfig {
    FilterConfig {
        banned_words: vec![
            ("A".to_string(), vec!["bad".to_string(), "evil".to_string()]),
            ("B".to_string(), vec!["wrong".to_string()]),
        ],
    }
}

#[test]
fn test_censor_sender_words() {
    let config = make_config();
    let filter = CensorshipFilter::new(&config);

    let sender = "A".to_string();
    let receiver = "C".to_string();
    let (result, censored) = filter.censor_message("This is bad", Some(&sender), Some(&receiver));
    assert!(censored);
    assert_eq!(result, "This is ***");
}

#[test]
fn test_censor_receiver_words() {
    let config = make_config();
    let filter = CensorshipFilter::new(&config);

    let sender = "C".to_string();
    let receiver = "B".to_string();
    let (result, censored) = filter.censor_message("This is wrong", Some(&sender), Some(&receiver));
    assert!(censored);
    assert_eq!(result, "This is ***");
}

#[test]
fn test_censor_both_filters() {
    let config = make_config();
    let filter = CensorshipFilter::new(&config);

    let sender = "A".to_string();
    let receiver = "B".to_string();
    let (result, censored) = filter.censor_message("bad and wrong", Some(&sender), Some(&receiver));
    assert!(censored);
    assert_eq!(result, "*** and ***");
}

#[test]
fn test_no_censorship() {
    let config = make_config();
    let filter = CensorshipFilter::new(&config);

    let sender = "A".to_string();
    let receiver = "B".to_string();
    let (result, censored) = filter.censor_message("Hello world", Some(&sender), Some(&receiver));
    assert!(!censored);
    assert_eq!(result, "Hello world");
}

#[test]
fn test_censoring_is_idempotent() {
    let config = make_config();
    let filter = CensorshipFilter::new(&config);

    let sender = "A".to_string();
    let receiver = "B".to_string();
    let (once, censored) =
        filter.censor_message("bad evil wrong words", Some(&sender), Some(&receiver));
    assert!(censored);
    let (twice, censored_again) = filter.censor_message(&once, Some(&sender), Some(&receiver));
    assert_eq!(once, twice);
    assert!(!censored_again);
}

#[test]
fn test_case_insensitive_matching() {
    let config = make_config();
    let filter = CensorshipFilter::new(&config);

    let sender = "A".to_string();
    let receiver = "C".to_string();
    for variant in ["bad", "BAD", "Bad", "bAd"] {
        let (result, censored) = filter.censor_message(variant, Some(&sender), Some(&receiver));
        assert!(censored);
        assert_eq!(result, "***");
    }
}

#[test]
fn test_overlapping_occurrences_replaced_non_overlapping() {
    let config = FilterConfig {
        banned_words: vec![("A".to_string(), vec!["aa".to_string()])],
    };
    let filter = CensorshipFilter::new(&config);
    let sender = "A".to_string();
    let (result, censored) = filter.censor_message("aaa", Some(&sender), None);
    assert!(censored);
    assert_eq!(result, "***a");
}

#[test]
fn test_unknown_country_is_uncensored() {
    let config = make_config();
    let filter = CensorshipFilter::new(&config);
    let sender = "Z".to_string();
    let (result, censored) = filter.censor_message("bad wrong", Some(&sender), None);
    assert!(!censored);
    assert_eq!(result, "bad wrong");
}
