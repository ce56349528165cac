use synless::text::Text;

#[test]
fn test_edit() {
    let mut t = Text::new();
    t.insert(0, 'b');
    t.insert(0, 'a');
    t.insert(2, 'd');
    assert_eq!(t.as_str(), "abd");
    assert_eq!(t.num_chars(), 3);
    assert_eq!(t.as_str(), "abd");
    assert_eq!(t.num_chars(), 3);

    t.insert(2, 'c');
    assert_eq!(t.as_str(), "abcd");

    t.insert(4, 'e');
    assert_eq!(t.as_str(), "abcde");

    assert_eq!(t.num_chars(), 5);
    assert_eq!(t.as_str(), "abcde");

    assert_eq!(t.delete(2), 'c');
    assert_eq!(t.as_str(), "abde");

    assert_eq!(t.delete(1), 'b');
    assert_eq!(t.as_str(), "ade");

    assert_eq!(t.delete(0), 'a');
    assert_eq!(t.num_chars(), 2);
    assert_eq!(t.as_str(), "de");

    assert_eq!(t.delete(1), 'e');
    assert_eq!(t.as_str(), "d");
    assert_eq!(t.num_chars(), 1);

    assert_eq!(t.delete(0), 'd');
    assert_eq!(t.num_chars(), 0);
    assert_eq!(t.as_str(), "");

    t.insert(0, 'a');
    assert_eq!(t.delete(0), 'a');
    assert_eq!(t.as_str(), "");
    assert_eq!(t.num_chars(), 0);
}

#[test]
fn test_text_multibyte() {
    let mut t = Text::new();
    t.insert(0, 'é');
    t.insert(1, '→');
    t.insert(0, 'x');
    assert_eq!(t.as_str(), "xé→");
    assert_eq!(t.num_chars(), 3);
    assert_eq!(t.as_split_str(1), ("x", "é→"));
    assert_eq!(t.as_split_str(0), ("", "xé→"));
    assert_eq!(t.as_split_str(3), ("xé→", ""));
    assert_eq!(t.delete(1), 'é');
    assert_eq!(t.as_str(), "x→");
}

#[test]
fn test_text_set_and_default() {
    let mut t = Text::default();
    assert_eq!(t.num_chars(), 0);
    t.set("hello".to_string());
    assert_eq!(t.as_str(), "hello");
    assert_eq!(t.num_chars(), 5);
    // Inserting then deleting at the same index gives the text back.
    t.insert(2, 'z');
    assert_eq!(t.as_str(), "hezllo");
    assert_eq!(t.delete(2), 'z');
    assert_eq!(t.as_str(), "hello");
}
