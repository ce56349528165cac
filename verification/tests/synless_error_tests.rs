use synless::synless_error::SynlessError;

#[test]
fn test_synless_error_messages() {
    let e = SynlessError::new_fatal(
        "Failed to open file",
        vec!["bad path".to_string(), "permission denied".to_string()],
    );
    assert!(e.is_fatal_to_script);
    assert_eq!(e.long_message, "Failed to open file: bad path: permission denied");
    assert_eq!(e.short_message, "permission denied");
    assert_eq!(e.to_string(), "Failed to open file: bad path: permission denied");

    let e = SynlessError::new_non_fatal("Oops", vec!["it broke".to_string()]);
    assert!(!e.is_fatal_to_script);
    assert_eq!(e.long_message, "Oops: it broke");
    assert_eq!(e.short_message, "it broke");
}
