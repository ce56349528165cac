use synless::grammar::LanguageError;
use synless::notation_set::check_notation_names;

fn strings(names: &[&str]) -> Vec<String> {
    names.iter().map(|n| n.to_string()).collect()
}

#[test]
fn test_notations_in_grammar_order() {
    let r = check_notation_names("json", &strings(&["a", "b"]), &strings(&["b", "a", "$hole"]));
    assert_eq!(r, Ok(vec![1, 0, 2]));
}

#[test]
fn test_duplicate_notation() {
    let r = check_notation_names("json", &strings(&["a", "b", "b", "a"]), &strings(&["a", "b"]));
    assert_eq!(r, Err(LanguageError::DuplicateNotation("json".to_string(), "b".to_string())));
    // The hole's notation is always given, so the set may not list it.
    let r = check_notation_names("json", &strings(&["$hole"]), &strings(&["$hole"]));
    assert_eq!(r, Err(LanguageError::DuplicateNotation("json".to_string(), "$hole".to_string())));
}

#[test]
fn test_missing_notation() {
    let r = check_notation_names("json", &strings(&["a"]), &strings(&["a", "b", "c", "$hole"]));
    assert_eq!(r, Err(LanguageError::MissingNotation("b".to_string())));
    // A construct listed twice finds its notation taken the second time.
    let r = check_notation_names("json", &strings(&["a"]), &strings(&["a", "a", "$hole"]));
    assert_eq!(r, Err(LanguageError::MissingNotation("a".to_string())));
    // Without the hole among the constructs, its notation is left over.
    let r = check_notation_names("json", &strings(&["a"]), &strings(&["a"]));
    assert_eq!(r, Err(LanguageError::UndefinedNotation("json".to_string(), "$hole".to_string())));
}

#[test]
fn test_undefined_notation() {
    let r = check_notation_names("json", &strings(&["a", "z"]), &strings(&["a", "$hole"]));
    assert_eq!(r, Err(LanguageError::UndefinedNotation("json".to_string(), "z".to_string())));
}

#[test]
fn test_notation_error_messages() {
    assert_eq!(
        LanguageError::DuplicateNotation("json".to_string(), "b".to_string()).to_string(),
        "Duplicate notation for construct 'b' in notation set 'json'"
    );
    assert_eq!(
        LanguageError::UndefinedNotation("json".to_string(), "z".to_string()).to_string(),
        "Notation set 'json' has a notation for 'z', which is not a construct"
    );
}
