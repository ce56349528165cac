use synless::infra::SynlessBug;
use synless::infra::format_bug;

#[test]
fn test_format_bug() {
    let report = format_bug("src/a.rs:1:2".to_string(), "first\r\nsecond\nthird\n".to_string());
    assert_eq!(
        report,
        "\n*** Bug in Synless.\
         \n*** Please open an issue at https://github.com/justinpombrio/synless/issues.\
         \n*** Location:\
         \n***   src/a.rs:1:2\
         \n*** Error message:\
         \n***   first\
         \n***   second\
         \n***   third\n"
    );
}

#[test]
fn test_format_bug_empty_message() {
    let report = format_bug("here".to_string(), String::new());
    assert!(report.ends_with("\n*** Error message:\n"));
    let report = format_bug("here".to_string(), "\n\nx\r".to_string());
    assert!(report.ends_with("\n*** Error message:\n***   \n***   \n***   x\r\n"));
}

#[test]
fn test_bug_gives_the_value() {
    assert_eq!(Some(3).bug(), 3);
    assert_eq!(Some("x").bug_msg("there is an x"), "x");
    let ok: Result<u8, String> = Ok(7);
    assert_eq!(ok.bug(), 7);
    let ok: Result<u8, String> = Ok(8);
    assert_eq!(ok.bug_msg("eight"), 8);
}
