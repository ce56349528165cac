use synless::coord::Pos;
use synless::key::{Event, KeyCode, KeyModifiers, MouseButton};
use synless::term_input::{
    event_from_terminal, key_from_terminal, modifiers_from_terminal, mouse_from_terminal, TermEvent,
    TermKeyCode, TermKeyEvent, TermModifiers, TermMouseButton, TermMouseEvent,
};

fn tmods(ctrl: bool, alt: bool, shift: bool) -> TermModifiers {
    TermModifiers { ctrl, alt, shift, other: false }
}

fn press(code: TermKeyCode, modifiers: TermModifiers) -> TermKeyEvent {
    TermKeyEvent { code, modifiers, is_press: true }
}

#[test]
fn test_key_from_terminal() {
    let k = key_from_terminal(press(TermKeyCode::BackTab, tmods(false, false, false))).unwrap();
    assert_eq!(k.code(), KeyCode::Tab);
    assert_eq!(k.modifiers(), KeyModifiers { ctrl: false, alt: false, shift: true });

    let k = key_from_terminal(press(TermKeyCode::Char('X'), tmods(true, false, true))).unwrap();
    assert_eq!(k.code(), KeyCode::Char('X'));
    assert_eq!(k.modifiers(), KeyModifiers { ctrl: true, alt: false, shift: false });

    // No character key carries shift: the terminal reports the shifted character.
    let k = key_from_terminal(press(TermKeyCode::Char('!'), tmods(false, false, true))).unwrap();
    assert_eq!(k.code(), KeyCode::Char('!'));
    assert!(!k.modifiers().shift);
    let k = key_from_terminal(press(TermKeyCode::Char('a'), tmods(false, true, true))).unwrap();
    assert_eq!(k.code(), KeyCode::Char('a'));
    assert_eq!(k.modifiers(), KeyModifiers { ctrl: false, alt: true, shift: false });
    assert_eq!(k.to_string(), "A-a");
    // Other keys keep their shift.
    let k = key_from_terminal(press(TermKeyCode::Enter, tmods(false, false, true))).unwrap();
    assert!(k.modifiers().shift);

    let k = key_from_terminal(press(TermKeyCode::F(7), tmods(false, true, false))).unwrap();
    assert_eq!(k.code(), KeyCode::F(7));
    assert_eq!(k.to_string(), "A-F7");

    assert!(key_from_terminal(press(TermKeyCode::Other, tmods(false, false, false))).is_err());
    let mut release = press(TermKeyCode::Enter, tmods(false, false, false));
    release.is_press = false;
    assert!(key_from_terminal(release).is_err());
    let superkey = TermModifiers { ctrl: false, alt: false, shift: false, other: true };
    assert!(key_from_terminal(press(TermKeyCode::Enter, superkey)).is_err());
    assert!(modifiers_from_terminal(superkey).is_err());
}

#[test]
fn test_mouse_and_events_from_terminal() {
    let m = mouse_from_terminal(TermMouseEvent { down: Some(TermMouseButton::Left), column: 3, row: 9 })
        .unwrap();
    assert_eq!(m.click_pos, Pos { row: 9, col: 3 });
    assert_eq!(m.button, MouseButton::Left);
    assert!(mouse_from_terminal(TermMouseEvent { down: Some(TermMouseButton::Middle), column: 0, row: 0 })
        .is_err());
    assert!(mouse_from_terminal(TermMouseEvent { down: None, column: 0, row: 0 }).is_err());

    assert!(event_from_terminal(TermEvent::FocusGained).is_err());
    assert!(event_from_terminal(TermEvent::FocusLost).is_err());
    assert!(matches!(event_from_terminal(TermEvent::Resize(80, 24)), Ok(Event::Resize)));
    match event_from_terminal(TermEvent::Paste("hi".to_string())) {
        Ok(Event::Paste(s)) => assert_eq!(s, "hi"),
        _ => panic!("expected a paste"),
    }
    match event_from_terminal(TermEvent::Key(press(TermKeyCode::Esc, tmods(false, false, false)))) {
        Ok(Event::Key(k)) => assert_eq!(k.code(), KeyCode::Esc),
        _ => panic!("expected a key"),
    }
    match event_from_terminal(TermEvent::Mouse(TermMouseEvent {
        down: Some(TermMouseButton::Right),
        column: 1,
        row: 2,
    })) {
        Ok(Event::Mouse(m)) => assert_eq!(m.button, MouseButton::Right),
        _ => panic!("expected a click"),
    }
}
