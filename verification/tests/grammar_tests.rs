use synless::grammar::{AritySpec, ConstructSpec, GrammarBuilder, LanguageError, SortSpec};

fn construct(name: &str) -> ConstructSpec {
    ConstructSpec {
        name: name.to_string(),
        arity: AritySpec::Texty,
        key: None,
    }
}

#[test]
fn test_add_constructs_and_sorts() {
    let mut g = GrammarBuilder::new("json".to_string());
    assert_eq!(g.add_construct(construct("true")), Ok(()));
    assert_eq!(g.add_construct(construct("false")), Ok(()));
    assert_eq!(
        g.add_sort(
            "bool".to_string(),
            SortSpec(vec!["true".to_string(), "false".to_string()])
        ),
        Ok(())
    );
    let list = ConstructSpec {
        name: "list".to_string(),
        arity: AritySpec::Listy(SortSpec(vec!["bool".to_string()])),
        key: Some('['),
    };
    assert_eq!(g.add_construct(list), Ok(()));
}

#[test]
fn test_duplicate_names() {
    let mut g = GrammarBuilder::new("json".to_string());
    assert_eq!(g.add_construct(construct("null")), Ok(()));
    assert_eq!(
        g.add_construct(construct("null")),
        Err(LanguageError::DuplicateConstruct("null".to_string()))
    );
    assert_eq!(
        g.add_sort("null".to_string(), SortSpec(vec![])),
        Err(LanguageError::DuplicateConstructAndSort("null".to_string()))
    );
    assert_eq!(g.add_sort("value".to_string(), SortSpec(vec![])), Ok(()));
    assert_eq!(
        g.add_sort("value".to_string(), SortSpec(vec![])),
        Err(LanguageError::DuplicateSort("value".to_string()))
    );
    assert_eq!(
        g.add_construct(construct("value")),
        Err(LanguageError::DuplicateConstructAndSort("value".to_string()))
    );
}

#[test]
fn test_language_error_messages() {
    assert_eq!(
        LanguageError::MissingNotation("x".to_string()).to_string(),
        "Missing notation for construct 'x'"
    );
    assert_eq!(
        LanguageError::DuplicateKey('k', "a".to_string(), "b".to_string()).to_string(),
        "Duplicate key 'k' used for both construct 'a' and construct 'b"
    );
    assert_eq!(
        LanguageError::DuplicateConstruct("c".to_string()).to_string(),
        "Duplicate name 'c' used for two constructs"
    );
    assert_eq!(
        LanguageError::DuplicateSort("s".to_string()).to_string(),
        "Duplicate name 's' used for two sorts"
    );
    assert_eq!(
        LanguageError::DuplicateConstructAndSort("n".to_string()).to_string(),
        "Duplicate name 'n' used for both a construct and a sort"
    );
    assert_eq!(
        LanguageError::UndefinedConstructOrSort("u".to_string()).to_string(),
        "Name 'u' is not a known construct or sort"
    );
}
