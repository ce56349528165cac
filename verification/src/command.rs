//! The commands the editor can carry out on a document, and the command each
//! key press gives.

use vstd::prelude::*;
use crate::key::{Key, KeyCode, KeyModifiers};
use crate::language::Language;

verus! {

/// A command on the document: moving the cursor, switching between tree and
/// text mode, or editing.
#[derive(Clone, Debug, PartialEq, Eq)]
pub enum Command {
    // Tree navigation
    Right,
    Left,
    Up,
    Down,
    // Text navigation
    RightChar,
    LeftChar,
    // Modes
    EnterText,
    ExitText,
    // Tree editing
    AddChild,
    DeleteTree,
    ReplaceTree(String),
    // Text editing
    InsertChar(char),
    DeleteChar,
}

/// The name a command is shown with: its variant's name.
pub open spec fn command_name(c: Command) -> Seq<char> {
    match c {
        Command::Right => "Right"@,
        Command::Left => "Left"@,
        Command::Up => "Up"@,
        Command::Down => "Down"@,
        Command::RightChar => "RightChar"@,
        Command::LeftChar => "LeftChar"@,
        Command::EnterText => "EnterText"@,
        Command::ExitText => "ExitText"@,
        Command::AddChild => "AddChild"@,
        Command::DeleteTree => "DeleteTree"@,
        Command::ReplaceTree(_) => "ReplaceTree"@,
        Command::InsertChar(_) => "InsertChar"@,
        Command::DeleteChar => "DeleteChar"@,
    }
}

impl Command {
    /// The name this command is shown with.
    pub fn to_string(&self) -> (s: String)
        ensures
            s@ == command_name(*self),
    {
        let name: &str = match self {
            Command::Right => "Right",
            Command::Left => "Left",
            Command::Up => "Up",
            Command::Down => "Down",
            Command::RightChar => "RightChar",
            Command::LeftChar => "LeftChar",
            Command::EnterText => "EnterText",
            Command::ExitText => "ExitText",
            Command::AddChild => "AddChild",
            Command::DeleteTree => "DeleteTree",
            Command::ReplaceTree(_) => "ReplaceTree",
            Command::InsertChar(_) => "InsertChar",
            Command::DeleteChar => "DeleteChar",
        };
        name.to_string()
    }
}

/// A command as contracts speak of it: the construct that replaces the tree
/// is given by its name's text.
pub enum CommandV {
    Right,
    Left,
    Up,
    Down,
    RightChar,
    LeftChar,
    EnterText,
    ExitText,
    AddChild,
    DeleteTree,
    ReplaceTree(Seq<char>),
    InsertChar(char),
    DeleteChar,
}

impl View for Command {
    type V = CommandV;

    open spec fn view(&self) -> CommandV {
        match self {
            Command::Right => CommandV::Right,
            Command::Left => CommandV::Left,
            Command::Up => CommandV::Up,
            Command::Down => CommandV::Down,
            Command::RightChar => CommandV::RightChar,
            Command::LeftChar => CommandV::LeftChar,
            Command::EnterText => CommandV::EnterText,
            Command::ExitText => CommandV::ExitText,
            Command::AddChild => CommandV::AddChild,
            Command::DeleteTree => CommandV::DeleteTree,
            Command::ReplaceTree(name) => CommandV::ReplaceTree(name@),
            Command::InsertChar(c) => CommandV::InsertChar(*c),
            Command::DeleteChar => CommandV::DeleteChar,
        }
    }
}

/// An optional command, viewed.
pub open spec fn command_option_view(c: Option<Command>) -> Option<CommandV> {
    match c {
        Some(cmd) => Some(cmd@),
        None => None,
    }
}

/// No modifier key is held.
pub open spec fn no_modifiers(m: KeyModifiers) -> bool {
    !m.ctrl && !m.alt && !m.shift
}

/// The command that pressing `code` with modifiers `m` gives, with `keymap`
/// binding characters to construct names. In tree mode the arrows move the
/// cursor, `j` adds a child, Backspace deletes the tree, Enter starts editing
/// text, and a character that the keymap binds replaces the tree with that
/// construct. In text mode Enter stops editing text, Backspace deletes a
/// character, the left and right arrows move by a character, and any other
/// character is inserted. Every other key, and every key pressed with a
/// modifier held, gives no command.
pub open spec fn key_command(
    text_mode: bool,
    code: KeyCode,
    m: KeyModifiers,
    keymap: Map<char, Seq<char>>,
) -> Option<CommandV> {
    if !no_modifiers(m) {
        None
    } else if !text_mode {
        match code {
            KeyCode::Up => Some(CommandV::Up),
            KeyCode::Down => Some(CommandV::Down),
            KeyCode::Left => Some(CommandV::Left),
            KeyCode::Right => Some(CommandV::Right),
            KeyCode::Backspace => Some(CommandV::DeleteTree),
            KeyCode::Enter => Some(CommandV::EnterText),
            KeyCode::Char(ch) => if ch == 'j' {
                Some(CommandV::AddChild)
            } else if keymap.contains_key(ch) {
                Some(CommandV::ReplaceTree(keymap[ch]))
            } else {
                None
            },
            _ => None,
        }
    } else {
        match code {
            KeyCode::Enter => Some(CommandV::ExitText),
            KeyCode::Backspace => Some(CommandV::DeleteChar),
            KeyCode::Left => Some(CommandV::LeftChar),
            KeyCode::Right => Some(CommandV::RightChar),
            KeyCode::Char(ch) => Some(CommandV::InsertChar(ch)),
            _ => None,
        }
    }
}

/// The command that pressing `key` gives in the editor, in text mode or in
/// tree mode, for a document in language `lang`.
pub fn command_for_key(text_mode: bool, key: Key, lang: &Language) -> (c: Option<Command>)
    requires
        lang.wf(),
    ensures
        command_option_view(c) == key_command(text_mode, key@.0, key@.1, lang@.keymap),
{
    let m = key.modifiers();
    if m.ctrl || m.alt || m.shift {
        return None;
    }
    if !text_mode {
        match key.code() {
            KeyCode::Up => Some(Command::Up),
            KeyCode::Down => Some(Command::Down),
            KeyCode::Left => Some(Command::Left),
            KeyCode::Right => Some(Command::Right),
            KeyCode::Backspace => Some(Command::DeleteTree),
            KeyCode::Enter => Some(Command::EnterText),
            KeyCode::Char(ch) => {
                if ch == 'j' {
                    Some(Command::AddChild)
                } else {
                    match lang.lookup(ch) {
                        Some(construct) => {
                            proof {
                                lang.lemma_constructs_by_name();
                            }
                            Some(Command::ReplaceTree(construct.name.clone()))
                        },
                        None => None,
                    }
                }
            },
            _ => None,
        }
    } else {
        match key.code() {
            KeyCode::Enter => Some(Command::ExitText),
            KeyCode::Backspace => Some(Command::DeleteChar),
            KeyCode::Left => Some(Command::LeftChar),
            KeyCode::Right => Some(Command::RightChar),
            KeyCode::Char(ch) => Some(Command::InsertChar(ch)),
            _ => None,
        }
    }
}

} // verus!
