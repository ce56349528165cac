//! Turning terminal input events into the editor's keys and mouse events.
//! The events are given as plain values (see the types below); reading them
//! from the terminal is done outside the library.

use vstd::prelude::*;
use crate::coord::{Col, Pos, Row};
use crate::key::{valid_key, Event, Key, KeyCode, KeyModifiers, MouseButton, MouseEvent};

verus! {

/// A key as the terminal reports it.
#[derive(Debug, Clone, Copy, PartialEq, Eq, Structural)]
pub enum TermKeyCode {
    Backspace,
    Enter,
    Left,
    Right,
    Up,
    Down,
    Home,
    End,
    PageUp,
    PageDown,
    Tab,
    /// Shift-tab.
    BackTab,
    Delete,
    Insert,
    F(u8),
    Char(char),
    Esc,
    /// Any other key (media keys, lone modifier keys, and so on).
    Other,
}

/// The modifier flags the terminal reports with a key.
#[derive(Debug, Clone, Copy, PartialEq, Eq, Structural)]
pub struct TermModifiers {
    pub ctrl: bool,
    pub alt: bool,
    pub shift: bool,
    /// Whether any other modifier (super, hyper, meta) is held.
    pub other: bool,
}

/// A key event as the terminal reports it.
#[derive(Debug, Clone, Copy, PartialEq, Eq, Structural)]
pub struct TermKeyEvent {
    pub code: TermKeyCode,
    pub modifiers: TermModifiers,
    /// A key press (not a release or a repeat).
    pub is_press: bool,
}

/// A mouse button as the terminal reports it.
#[derive(Debug, Clone, Copy, PartialEq, Eq, Structural)]
pub enum TermMouseButton {
    Left,
    Right,
    Middle,
}

/// A mouse event as the terminal reports it.
#[derive(Debug, Clone, Copy, PartialEq, Eq, Structural)]
pub struct TermMouseEvent {
    /// The button pressed, if this event is a button press.
    pub down: Option<TermMouseButton>,
    pub column: u16,
    pub row: u16,
}

/// An event as the terminal reports it.
pub enum TermEvent {
    FocusGained,
    FocusLost,
    Key(TermKeyEvent),
    Mouse(TermMouseEvent),
    Paste(String),
    Resize(u16, u16),
}

/// The editor's modifiers for the terminal's flags; `Err` if a flag other
/// than ctrl, alt and shift is set.
pub fn modifiers_from_terminal(m: TermModifiers) -> (r: Result<KeyModifiers, ()>)
    ensures
        m.other ==> r is Err,
        !m.other ==> r == Ok::<KeyModifiers, ()>(
            KeyModifiers { ctrl: m.ctrl, alt: m.alt, shift: m.shift },
        ),
{
    if m.other {
        return Err(());
    }
    Ok(KeyModifiers { ctrl: m.ctrl, alt: m.alt, shift: m.shift })
}

/// The key code and modifiers the editor sees for a terminal key: shift-tab
/// is tab with shift, and a character never carries shift (the terminal
/// already reports the shifted character).
/// `None` for keys the editor does not use.
pub open spec fn key_from_terminal_spec(code: TermKeyCode, m: KeyModifiers) -> Option<(KeyCode, KeyModifiers)> {
    match code {
        TermKeyCode::Backspace => Some((KeyCode::Backspace, m)),
        TermKeyCode::Enter => Some((KeyCode::Enter, m)),
        TermKeyCode::Left => Some((KeyCode::Left, m)),
        TermKeyCode::Right => Some((KeyCode::Right, m)),
        TermKeyCode::Up => Some((KeyCode::Up, m)),
        TermKeyCode::Down => Some((KeyCode::Down, m)),
        TermKeyCode::Home => Some((KeyCode::Home, m)),
        TermKeyCode::End => Some((KeyCode::End, m)),
        TermKeyCode::PageUp => Some((KeyCode::PageUp, m)),
        TermKeyCode::PageDown => Some((KeyCode::PageDown, m)),
        TermKeyCode::Tab => Some((KeyCode::Tab, m)),
        TermKeyCode::BackTab => Some((KeyCode::Tab, KeyModifiers { shift: true, ..m })),
        TermKeyCode::Delete => Some((KeyCode::Delete, m)),
        TermKeyCode::Insert => Some((KeyCode::Insert, m)),
        TermKeyCode::F(n) => Some((KeyCode::F(n), m)),
        TermKeyCode::Char(c) => Some((KeyCode::Char(c), KeyModifiers { shift: false, ..m })),
        TermKeyCode::Esc => Some((KeyCode::Esc, m)),
        TermKeyCode::Other => None,
    }
}

/// Each terminal key gives the editor key of the same name, with the same
/// modifiers: Home gives Home, F5 gives F5, and so on. Shift-tab is tab with
/// shift, a character key drops shift, and keys the editor does not use give
/// nothing.
pub proof fn lemma_terminal_key_names(m: KeyModifiers)
    ensures
        key_from_terminal_spec(TermKeyCode::Backspace, m) == Some((KeyCode::Backspace, m)),
        key_from_terminal_spec(TermKeyCode::Enter, m) == Some((KeyCode::Enter, m)),
        key_from_terminal_spec(TermKeyCode::Left, m) == Some((KeyCode::Left, m)),
        key_from_terminal_spec(TermKeyCode::Right, m) == Some((KeyCode::Right, m)),
        key_from_terminal_spec(TermKeyCode::Up, m) == Some((KeyCode::Up, m)),
        key_from_terminal_spec(TermKeyCode::Down, m) == Some((KeyCode::Down, m)),
        key_from_terminal_spec(TermKeyCode::Home, m) == Some((KeyCode::Home, m)),
        key_from_terminal_spec(TermKeyCode::End, m) == Some((KeyCode::End, m)),
        key_from_terminal_spec(TermKeyCode::PageUp, m) == Some((KeyCode::PageUp, m)),
        key_from_terminal_spec(TermKeyCode::PageDown, m) == Some((KeyCode::PageDown, m)),
        key_from_terminal_spec(TermKeyCode::Tab, m) == Some((KeyCode::Tab, m)),
        key_from_terminal_spec(TermKeyCode::Delete, m) == Some((KeyCode::Delete, m)),
        key_from_terminal_spec(TermKeyCode::Insert, m) == Some((KeyCode::Insert, m)),
        key_from_terminal_spec(TermKeyCode::Esc, m) == Some((KeyCode::Esc, m)),
        forall|n: u8| #[trigger]
            key_from_terminal_spec(TermKeyCode::F(n), m) == Some((KeyCode::F(n), m)),
        forall|c: char| #[trigger]
            key_from_terminal_spec(TermKeyCode::Char(c), m) == Some(
                (KeyCode::Char(c), KeyModifiers { ctrl: m.ctrl, alt: m.alt, shift: false }),
            ),
        key_from_terminal_spec(TermKeyCode::BackTab, m) == Some(
            (KeyCode::Tab, KeyModifiers { ctrl: m.ctrl, alt: m.alt, shift: true }),
        ),
        key_from_terminal_spec(TermKeyCode::Other, m) is None,
{
}

/// The editor's key for a terminal key event; `Err` for releases and
/// repeats, for unsupported modifiers, and for keys the editor does not use.
pub fn key_from_terminal(event: TermKeyEvent) -> (r: Result<Key, ()>)
    ensures
        !event.is_press || event.modifiers.other ==> r is Err,
        event.is_press && !event.modifiers.other ==> match key_from_terminal_spec(
            event.code,
            KeyModifiers {
                ctrl: event.modifiers.ctrl,
                alt: event.modifiers.alt,
                shift: event.modifiers.shift,
            },
        ) {
            Some(kv) => r matches Ok(k) && k@ == kv,
            None => r is Err,
        },
        r matches Ok(k) ==> valid_key(k@.0, k@.1),
{
    if !event.is_press {
        return Err(());
    }
    let mut modifiers = modifiers_from_terminal(event.modifiers)?;
    let code = match event.code {
        TermKeyCode::Backspace => KeyCode::Backspace,
        TermKeyCode::Enter => KeyCode::Enter,
        TermKeyCode::Left => KeyCode::Left,
        TermKeyCode::Right => KeyCode::Right,
        TermKeyCode::Up => KeyCode::Up,
        TermKeyCode::Down => KeyCode::Down,
        TermKeyCode::Home => KeyCode::Home,
        TermKeyCode::End => KeyCode::End,
        TermKeyCode::PageUp => KeyCode::PageUp,
        TermKeyCode::PageDown => KeyCode::PageDown,
        TermKeyCode::Tab => KeyCode::Tab,
        TermKeyCode::BackTab => {
            // Represent BackTab as shift+Tab, for normalization.
            modifiers.shift = true;
            KeyCode::Tab
        },
        TermKeyCode::Delete => KeyCode::Delete,
        TermKeyCode::Insert => KeyCode::Insert,
        TermKeyCode::F(num) => KeyCode::F(num),
        TermKeyCode::Char(c) => {
            // A character key never carries shift: the character is
            // already the shifted one.
            modifiers.shift = false;
            KeyCode::Char(c)
        },
        TermKeyCode::Esc => KeyCode::Esc,
        TermKeyCode::Other => {
            return Err(());
        },
    };
    Ok(Key::from_parts(code, modifiers))
}

/// The mouse event a terminal mouse event gives, if any.
pub open spec fn mouse_from_terminal_result(event: TermMouseEvent) -> Option<MouseEvent> {
    match event.down {
        Some(TermMouseButton::Left) => Some(
            MouseEvent {
                click_pos: Pos { row: event.row as Row, col: event.column as Col },
                button: MouseButton::Left,
            },
        ),
        Some(TermMouseButton::Right) => Some(
            MouseEvent {
                click_pos: Pos { row: event.row as Row, col: event.column as Col },
                button: MouseButton::Right,
            },
        ),
        _ => None,
    }
}

/// The editor's mouse event for a terminal mouse event: a press of the left
/// or right button. `Err` for anything else.
pub fn mouse_from_terminal(event: TermMouseEvent) -> (r: Result<MouseEvent, ()>)
    ensures
        match mouse_from_terminal_result(event) {
            Some(me) => r == Ok::<MouseEvent, ()>(me),
            None => r is Err,
        },
{
    if let Some(button) = event.down {
        let button = match button {
            TermMouseButton::Left => MouseButton::Left,
            TermMouseButton::Right => MouseButton::Right,
            TermMouseButton::Middle => {
                return Err(());
            },
        };
        Ok(MouseEvent { click_pos: Pos { row: event.row as Row, col: event.column as Col }, button })
    } else {
        Err(())
    }
}

/// The editor's event for a terminal event; `Err` if the editor does not use it.
pub fn event_from_terminal(event: TermEvent) -> (r: Result<Event, ()>)
    ensures
        match event {
            TermEvent::FocusGained => r is Err,
            TermEvent::FocusLost => r is Err,
            TermEvent::Paste(s) => r matches Ok(Event::Paste(t)) && t == s,
            TermEvent::Resize(..) => r matches Ok(Event::Resize),
            TermEvent::Mouse(m) => match mouse_from_terminal_result(m) {
                Some(me) => r matches Ok(Event::Mouse(x)) && x == me,
                None => r is Err,
            },
            TermEvent::Key(k) => (!k.is_press || k.modifiers.other ==> r is Err) && (k.is_press
                && !k.modifiers.other ==> match key_from_terminal_spec(
                k.code,
                KeyModifiers { ctrl: k.modifiers.ctrl, alt: k.modifiers.alt, shift: k.modifiers.shift },
            ) {
                Some(kv) => r matches Ok(Event::Key(key)) && key@ == kv,
                None => r is Err,
            }),
        },
{
    match event {
        TermEvent::FocusGained | TermEvent::FocusLost => Err(()),
        TermEvent::Paste(s) => Ok(Event::Paste(s)),
        TermEvent::Resize(..) => Ok(Event::Resize),
        TermEvent::Mouse(mouse_event) => Ok(Event::Mouse(mouse_from_terminal(mouse_event)?)),
        TermEvent::Key(key_event) => Ok(Event::Key(key_from_terminal(key_event)?)),
    }
}

} // verus!
