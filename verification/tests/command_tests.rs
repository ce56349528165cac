use synless::command::{command_for_key, Command};
use synless::key::{Key, KeyCode, KeyModifiers};
use synless::language::Language;
use synless::typed_construct::{Construct, Signature};

fn plain(code: KeyCode) -> Key {
    Key::new(code, KeyModifiers { ctrl: false, alt: false, shift: false }).unwrap()
}

fn example_language() -> Language {
    let mut lang = Language::new();
    lang.add('p', Construct::new("plus", "Expr", Signature::Forest(vec![], None)));
    lang.add('j', Construct::new("join", "Expr", Signature::Forest(vec![], None)));
    lang
}

#[test]
fn test_command_names() {
    assert_eq!(Command::Right.to_string(), "Right");
    assert_eq!(Command::LeftChar.to_string(), "LeftChar");
    assert_eq!(Command::EnterText.to_string(), "EnterText");
    assert_eq!(
        Command::ReplaceTree("list".to_string()).to_string(),
        "ReplaceTree"
    );
    assert_eq!(Command::InsertChar('x').to_string(), "InsertChar");
    assert_eq!(Command::DeleteChar.to_string(), "DeleteChar");
}

#[test]
fn test_command_for_key_tree_mode() {
    let lang = example_language();
    assert_eq!(command_for_key(false, plain(KeyCode::Up), &lang), Some(Command::Up));
    assert_eq!(command_for_key(false, plain(KeyCode::Down), &lang), Some(Command::Down));
    assert_eq!(command_for_key(false, plain(KeyCode::Left), &lang), Some(Command::Left));
    assert_eq!(command_for_key(false, plain(KeyCode::Right), &lang), Some(Command::Right));
    assert_eq!(command_for_key(false, plain(KeyCode::Backspace), &lang), Some(Command::DeleteTree));
    assert_eq!(command_for_key(false, plain(KeyCode::Enter), &lang), Some(Command::EnterText));
    // `j` adds a child, even where the language binds it to a construct.
    assert_eq!(command_for_key(false, plain(KeyCode::Char('j')), &lang), Some(Command::AddChild));
    assert_eq!(
        command_for_key(false, plain(KeyCode::Char('p')), &lang),
        Some(Command::ReplaceTree("plus".to_string()))
    );
    assert_eq!(command_for_key(false, plain(KeyCode::Char('q')), &lang), None);
    assert_eq!(command_for_key(false, plain(KeyCode::Tab), &lang), None);
    assert_eq!(command_for_key(false, plain(KeyCode::Esc), &lang), None);
}

#[test]
fn test_command_for_key_text_mode() {
    let lang = example_language();
    assert_eq!(command_for_key(true, plain(KeyCode::Enter), &lang), Some(Command::ExitText));
    assert_eq!(command_for_key(true, plain(KeyCode::Backspace), &lang), Some(Command::DeleteChar));
    assert_eq!(command_for_key(true, plain(KeyCode::Left), &lang), Some(Command::LeftChar));
    assert_eq!(command_for_key(true, plain(KeyCode::Right), &lang), Some(Command::RightChar));
    assert_eq!(command_for_key(true, plain(KeyCode::Char('p')), &lang), Some(Command::InsertChar('p')));
    assert_eq!(command_for_key(true, plain(KeyCode::Char('j')), &lang), Some(Command::InsertChar('j')));
    assert_eq!(command_for_key(true, plain(KeyCode::Up), &lang), None);
    assert_eq!(command_for_key(true, plain(KeyCode::F(2)), &lang), None);
}

#[test]
fn test_command_for_key_with_modifiers() {
    let lang = example_language();
    let ctrl_p = Key::new(KeyCode::Char('p'), KeyModifiers { ctrl: true, alt: false, shift: false }).unwrap();
    let alt_up = Key::new(KeyCode::Up, KeyModifiers { ctrl: false, alt: true, shift: false }).unwrap();
    assert_eq!(command_for_key(false, ctrl_p, &lang), None);
    assert_eq!(command_for_key(true, ctrl_p, &lang), None);
    assert_eq!(command_for_key(false, alt_up, &lang), None);
}
