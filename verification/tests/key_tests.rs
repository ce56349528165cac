use synless::key::{Key, KeyCode, KeyModifiers};

fn mods(ctrl: bool, alt: bool, shift: bool) -> KeyModifiers {
    KeyModifiers { ctrl, alt, shift }
}

#[test]
fn test_key_parse_named_and_chars() {
    let k = Key::from_str("C-x").unwrap();
    assert_eq!(k.code(), KeyCode::Char('x'));
    assert_eq!(k.modifiers(), mods(true, false, false));

    let k = Key::from_str("A-S-F5").unwrap();
    assert_eq!(k.code(), KeyCode::F(5));
    assert_eq!(k.modifiers(), mods(false, true, true));

    let k = Key::from_str("space").unwrap();
    assert_eq!(k.code(), KeyCode::Char(' '));

    let k = Key::from_str("C-A-S-enter").unwrap();
    assert_eq!(k.code(), KeyCode::Enter);
    assert_eq!(k.modifiers(), mods(true, true, true));

    assert_eq!(Key::from_str("pg_dn").unwrap().code(), KeyCode::PageDown);
    assert_eq!(Key::from_str("F").unwrap().code(), KeyCode::Char('F'));
    assert_eq!(Key::from_str("F255").unwrap().code(), KeyCode::F(255));
}

#[test]
fn test_key_parse_errors() {
    assert!(Key::from_str("").is_err());
    assert!(Key::from_str("xy").is_err());
    assert!(Key::from_str("F256").is_err());
    assert!(Key::from_str("Fx").is_err());
    // A character key may not carry shift.
    assert!(Key::from_str("S-x").is_err());
    assert!(Key::from_str("C-").is_err());
}

#[test]
fn test_key_new() {
    assert!(Key::new(KeyCode::Char('a'), mods(false, false, true)).is_none());
    let k = Key::new(KeyCode::Tab, mods(false, false, true)).unwrap();
    assert_eq!(k.code(), KeyCode::Tab);
    assert_eq!(k.modifiers(), mods(false, false, true));
}

#[test]
fn test_key_to_string() {
    let k = Key::new(KeyCode::Char('x'), mods(true, true, false)).unwrap();
    assert_eq!(k.to_string(), "C-A-x");
    let k = Key::new(KeyCode::F(12), mods(false, false, true)).unwrap();
    assert_eq!(k.to_string(), "S-F12");
    let k = Key::new(KeyCode::Char(' '), mods(false, false, false)).unwrap();
    assert_eq!(k.to_string(), "space");
    let k = Key::new(KeyCode::Left, mods(false, false, false)).unwrap();
    assert_eq!(k.to_string(), "←");
    let k = Key::new(KeyCode::Backspace, mods(true, false, false)).unwrap();
    assert_eq!(k.to_string(), "C-bksp");
}

#[test]
fn test_key_round_trip() {
    for text in ["C-x", "A-S-F5", "space", "bksp", "C-A-S-pg_up", "esc", "ins", "del", "tab", "Q"] {
        let k = Key::from_str(text).unwrap();
        assert_eq!(k.to_string(), text);
        assert_eq!(Key::from_str(&k.to_string()).unwrap(), k);
    }
}

#[test]
fn test_key_arrow_char_does_not_round_trip() {
    // A character key that looks like an arrow is written like the arrow key,
    // and reads back as the arrow key.
    let k = Key::new(KeyCode::Char('←'), mods(false, false, false)).unwrap();
    assert_eq!(k.to_string(), "←");
    assert_eq!(Key::from_str("←").unwrap().code(), KeyCode::Left);
    assert_eq!(Key::from_str("left").unwrap().code(), KeyCode::Left);
    assert_eq!(Key::from_str("↓").unwrap().code(), KeyCode::Down);
}
