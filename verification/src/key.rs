//! Keys, as typed by the user and as written in keymaps (e.g. `C-A-x`).

use vstd::prelude::*;
use vstd::string::*;
use crate::coord::Pos;
use crate::strings::{decimal, digit_char, push_decimal, str_chars, string_push};

verus! {

/// An input event.
pub enum Event {
    Key(Key),
    Mouse(MouseEvent),
    /// The window was resized.
    Resize,
    /// For "bracketed paste", which not all terminal emulators support.
    Paste(String),
}

/// A mouse click.
pub struct MouseEvent {
    /// A character grid position, relative to the window.
    pub click_pos: Pos,
    /// Which mouse button was clicked.
    pub button: MouseButton,
}

/// A mouse button.
#[derive(Debug, Clone, Copy, PartialEq, Eq, Structural)]
pub enum MouseButton {
    Left,
    Middle,
    Right,
}

/// The modifier keys held down with a key.
#[derive(Debug, Copy, Clone, PartialEq, Eq, Hash, Structural)]
pub struct KeyModifiers {
    pub ctrl: bool,
    pub alt: bool,
    /// (See comment about shift on `Key`.)
    pub shift: bool,
}

/// The key pressed, apart from its modifiers.
#[derive(Debug, Copy, Clone, PartialEq, Eq, Hash, Structural)]
pub enum KeyCode {
    Backspace,
    Enter,
    Left,
    Right,
    Up,
    Down,
    Home,
    End,
    PageUp,
    PageDown,
    Tab,
    Delete,
    Insert,
    Esc,
    F(u8),
    Char(char),
}

/// A key with its modifiers. If the key code can be capitalized, then shift
/// is indicated by capitalizing it and _not_ setting the shift modifier.
#[derive(Debug, Copy, Clone, PartialEq, Eq, Hash, Structural)]
pub struct Key {
    code: KeyCode,
    modifiers: KeyModifiers,
}

/// The error for a string that does not name a key.
#[derive(Debug, Clone, Copy, PartialEq, Eq, Structural)]
pub struct KeyParseError;

/// A character key may not carry the shift modifier.
pub open spec fn valid_key(code: KeyCode, modifiers: KeyModifiers) -> bool {
    !(code is Char && modifiers.shift)
}

impl View for Key {
    type V = (KeyCode, KeyModifiers);

    closed spec fn view(&self) -> (KeyCode, KeyModifiers) {
        (self.code, self.modifiers)
    }
}

impl Key {
    /// A character key never carries shift.
    #[verifier::type_invariant]
    spec fn inv(self) -> bool {
        valid_key(self.code, self.modifiers)
    }

    /// If the code is `KeyCode::Char(ch)`, then the modifiers must not contain
    /// `shift`; such a key is refused with `None`.
    pub fn new(code: KeyCode, modifiers: KeyModifiers) -> (k: Option<Key>)
        ensures
            valid_key(code, modifiers) <==> k is Some,
            k matches Some(key) ==> key@ == (code, modifiers),
    {
        match (code, modifiers.shift) {
            (KeyCode::Char(_), true) => None,
            _ => Some(Key { code, modifiers }),
        }
    }

    /// A key with exactly this code and these modifiers, which must make a
    /// valid key.
    pub(crate) fn from_parts(code: KeyCode, modifiers: KeyModifiers) -> (k: Key)
        requires
            valid_key(code, modifiers),
        ensures
            k@ == (code, modifiers),
    {
        Key { code, modifiers }
    }

    /// The key code.
    pub fn code(&self) -> (c: KeyCode)
        ensures
            c == self@.0,
            valid_key(self@.0, self@.1),
    {
        proof {
            use_type_invariant(self);
        }
        self.code
    }

    /// The modifiers held with the key.
    pub fn modifiers(&self) -> (m: KeyModifiers)
        ensures
            m == self@.1,
            valid_key(self@.0, self@.1),
    {
        proof {
            use_type_invariant(self);
        }
        self.modifiers
    }

}

// Spelling of keys.

/// The text a key code is displayed as.
pub open spec fn code_text(code: KeyCode) -> Seq<char> {
    match code {
        KeyCode::Backspace => seq!['b', 'k', 's', 'p'],
        KeyCode::Enter => seq!['e', 'n', 't', 'e', 'r'],
        KeyCode::Left => seq!['←'],
        KeyCode::Right => seq!['→'],
        KeyCode::Up => seq!['↑'],
        KeyCode::Down => seq!['↓'],
        KeyCode::Home => seq!['h', 'o', 'm', 'e'],
        KeyCode::End => seq!['e', 'n', 'd'],
        KeyCode::PageUp => seq!['p', 'g', '_', 'u', 'p'],
        KeyCode::PageDown => seq!['p', 'g', '_', 'd', 'n'],
        KeyCode::Tab => seq!['t', 'a', 'b'],
        KeyCode::Delete => seq!['d', 'e', 'l'],
        KeyCode::Insert => seq!['i', 'n', 's'],
        KeyCode::Esc => seq!['e', 's', 'c'],
        KeyCode::F(n) => seq!['F'] + decimal(n as nat),
        KeyCode::Char(c) => if c == ' ' {
            seq!['s', 'p', 'a', 'c', 'e']
        } else {
            seq![c]
        },
    }
}

/// The text a key is displayed as: its modifiers as `C-`, `A-`, `S-`, then its code.
pub open spec fn key_text(code: KeyCode, m: KeyModifiers) -> Seq<char> {
    (if m.ctrl { seq!['C', '-'] } else { Seq::empty() }) + (if m.alt {
        seq!['A', '-']
    } else {
        Seq::empty()
    }) + (if m.shift { seq!['S', '-'] } else { Seq::empty() }) + code_text(code)
}

/// The key code named by a word (without modifiers).
pub open spec fn named_code(s: Seq<char>) -> Option<KeyCode> {
    if s == seq!['b', 'k', 's', 'p'] {
        Some(KeyCode::Backspace)
    } else if s == seq!['e', 'n', 't', 'e', 'r'] {
        Some(KeyCode::Enter)
    } else if s == seq!['l', 'e', 'f', 't'] || s == seq!['←'] {
        Some(KeyCode::Left)
    } else if s == seq!['r', 'i', 'g', 'h', 't'] || s == seq!['→'] {
        Some(KeyCode::Right)
    } else if s == seq!['u', 'p'] || s == seq!['↑'] {
        Some(KeyCode::Up)
    } else if s == seq!['d', 'o', 'w', 'n'] || s == seq!['↓'] {
        Some(KeyCode::Down)
    } else if s == seq!['h', 'o', 'm', 'e'] {
        Some(KeyCode::Home)
    } else if s == seq!['e', 'n', 'd'] {
        Some(KeyCode::End)
    } else if s == seq!['p', 'g', '_', 'u', 'p'] {
        Some(KeyCode::PageUp)
    } else if s == seq!['p', 'g', '_', 'd', 'n'] {
        Some(KeyCode::PageDown)
    } else if s == seq!['t', 'a', 'b'] {
        Some(KeyCode::Tab)
    } else if s == seq!['d', 'e', 'l'] {
        Some(KeyCode::Delete)
    } else if s == seq!['i', 'n', 's'] {
        Some(KeyCode::Insert)
    } else if s == seq!['e', 's', 'c'] {
        Some(KeyCode::Esc)
    } else if s == seq!['s', 'p', 'a', 'c', 'e'] {
        Some(KeyCode::Char(' '))
    } else {
        None
    }
}

/// Is `c` an ASCII decimal digit?
pub open spec fn is_digit(c: char) -> bool {
    '0' <= c && c <= '9'
}

/// Is every character a decimal digit?
pub open spec fn all_digits(s: Seq<char>) -> bool {
    forall|i: int| 0 <= i < s.len() ==> is_digit(#[trigger] s[i])
}

/// The value of a run of decimal digits.
pub open spec fn digits_value(s: Seq<char>) -> nat
    decreases s.len(),
{
    if s.len() == 0 {
        0
    } else {
        digits_value(s.drop_last()) * 10 + ((s.last() as nat) - ('0' as nat)) as nat
    }
}

/// The digits of a decimal numeral: all but a leading `+`.
pub open spec fn u8_digits(s: Seq<char>) -> Seq<char> {
    if s.len() > 0 && s[0] == '+' {
        s.drop_first()
    } else {
        s
    }
}

/// The number a string spells in decimal, as `u8`'s `from_str` reads it: an
/// optional `+`, then one or more digits, with a value of at most 255.
pub open spec fn parse_u8_text(s: Seq<char>) -> Option<u8> {
    if u8_digits(s).len() > 0 && all_digits(u8_digits(s)) && digits_value(u8_digits(s)) <= 255 {
        Some(digits_value(u8_digits(s)) as u8)
    } else {
        None
    }
}

/// The key code a word (without modifiers) spells: a name, a single
/// character, or `F` followed by a number.
pub open spec fn parse_code_text(s: Seq<char>) -> Option<KeyCode> {
    if named_code(s) is Some {
        named_code(s)
    } else if s.len() == 1 {
        Some(KeyCode::Char(s[0]))
    } else if s.len() > 0 && s[0] == 'F' {
        match parse_u8_text(s.drop_first()) {
            Some(n) => Some(KeyCode::F(n)),
            None => None,
        }
    } else {
        None
    }
}

/// Whether `s` starts with the two characters `a`, `b`.
pub open spec fn has_prefix2(s: Seq<char>, a: char, b: char) -> bool {
    s.len() >= 2 && s[0] == a && s[1] == b
}

/// Strip an optional two-character prefix, saying whether it was there.
pub open spec fn strip2(s: Seq<char>, a: char, b: char) -> (bool, Seq<char>) {
    if has_prefix2(s, a, b) {
        (true, s.subrange(2, s.len() as int))
    } else {
        (false, s)
    }
}

/// The key a string spells: optional `C-`, `A-`, `S-` prefixes (in that
/// order), then a key code. A character key with `S-` is refused.
pub open spec fn parse_key_text(s: Seq<char>) -> Option<(KeyCode, KeyModifiers)> {
    let (ctrl, s1) = strip2(s, 'C', '-');
    let (alt, s2) = strip2(s1, 'A', '-');
    let (shift, s3) = strip2(s2, 'S', '-');
    let m = KeyModifiers { ctrl, alt, shift };
    match parse_code_text(s3) {
        Some(code) => if valid_key(code, m) {
            Some((code, m))
        } else {
            None
        },
        None => None,
    }
}

/// A key whose code is a character written like an arrow key's name.
pub open spec fn is_arrow_char(code: KeyCode) -> bool {
    code == KeyCode::Char('←') || code == KeyCode::Char('→') || code == KeyCode::Char('↑')
        || code == KeyCode::Char('↓')
}

/// The decimal spelling of a number is a run of digits worth that number.
proof fn lemma_decimal_digits(n: nat)
    ensures
        decimal(n).len() > 0,
        all_digits(decimal(n)),
        digits_value(decimal(n)) == n,
    decreases n,
{
    let d = n % 10;
    assert(is_digit(digit_char(d)) && (digit_char(d) as nat) - ('0' as nat) == d);
    if n >= 10 {
        lemma_decimal_digits(n / 10);
        let s = decimal(n / 10).push(digit_char(d));
        assert(s.drop_last() =~= decimal(n / 10));
        assert forall|i: int| 0 <= i < s.len() implies is_digit(#[trigger] s[i]) by {
            if i < s.len() - 1 {
                assert(s[i] == decimal(n / 10)[i]);
            }
        }
    } else {
        assert(digits_value(decimal(n).drop_last()) == 0) by {
            assert(decimal(n).drop_last() =~= Seq::<char>::empty());
        }
    }
}

/// A key code's written form reads back as that code, unless the code is a
/// character that looks like an arrow key (`←` reads as the arrow key).
proof fn lemma_code_text_parses(code: KeyCode)
    requires
        !is_arrow_char(code),
    ensures
        parse_code_text(code_text(code)) == Some(code),
        !has_prefix2(code_text(code), 'C', '-'),
        !has_prefix2(code_text(code), 'A', '-'),
        !has_prefix2(code_text(code), 'S', '-'),
{
    let t = code_text(code);
    match code {
        KeyCode::F(n) => {
            lemma_decimal_digits(n as nat);
            let digits = decimal(n as nat);
            assert(t.drop_first() =~= digits);
            assert(t[0] == 'F');
            assert(is_digit(digits[0]));
            assert(t[1] == digits[0]);
            assert(u8_digits(digits) == digits);
            assert(t.len() >= 2);
            assert(parse_u8_text(t.drop_first()) == Some(n));
            assert(named_code(t) is None) by {
                if named_code(t) is Some {
                    assert(t[0] != 'F');
                }
            }
            assert(t[0] == 'F' && t.len() != 1);
            assert(parse_code_text(t) == Some(KeyCode::F(n)));
        },
        KeyCode::Char(c) => {
            if c != ' ' {
                assert(t.len() == 1 && t[0] == c);
                assert(named_code(t) is None) by {
                    if named_code(t) is Some {
                        assert(t =~= seq!['←'] || t =~= seq!['→'] || t =~= seq!['↑'] || t =~= seq!['↓']);
                    }
                }
            } else {
                assert(parse_code_text(t) == Some(code));
            }
        },
        KeyCode::Backspace => assert(parse_code_text(t) == Some(code)),
        KeyCode::Enter => assert(parse_code_text(t) == Some(code)),
        KeyCode::Left => assert(parse_code_text(t) == Some(code)),
        KeyCode::Right => {
            assert(t[0] == '→' && seq!['←'][0] == '←');
            assert(parse_code_text(t) == Some(code));
        },
        KeyCode::Up => {
            assert(t[0] == '↑' && seq!['←'][0] == '←' && seq!['→'][0] == '→');
            assert(parse_code_text(t) == Some(code));
        },
        KeyCode::Down => {
            assert(t[0] == '↓' && seq!['←'][0] == '←' && seq!['→'][0] == '→' && seq!['↑'][0] == '↑');
            assert(parse_code_text(t) == Some(code));
        },
        KeyCode::Home => assert(parse_code_text(t) == Some(code)),
        KeyCode::End => assert(parse_code_text(t) == Some(code)),
        KeyCode::PageUp => assert(parse_code_text(t) == Some(code)),
        KeyCode::PageDown => assert(parse_code_text(t) == Some(code)),
        KeyCode::Tab => assert(parse_code_text(t) == Some(code)),
        KeyCode::Delete => assert(parse_code_text(t) == Some(code)),
        KeyCode::Insert => assert(parse_code_text(t) == Some(code)),
        KeyCode::Esc => assert(parse_code_text(t) == Some(code)),
    }
}

/// The modifier prefixes of a key's written form: `C-`, `A-`, `S-`, in order.
pub open spec fn modifier_text(m: KeyModifiers) -> Seq<char> {
    (if m.ctrl { seq!['C', '-'] } else { Seq::empty() }) + (if m.alt {
        seq!['A', '-']
    } else {
        Seq::empty()
    }) + (if m.shift { seq!['S', '-'] } else { Seq::empty() })
}

/// A key whose code is written `name` is written as its modifiers then
/// `name`, and that text reads back as the key.
proof fn lemma_written_as(code: KeyCode, name: Seq<char>, m: KeyModifiers)
    requires
        valid_key(code, m),
        !is_arrow_char(code),
        code_text(code) == name,
    ensures
        key_text(code, m) == modifier_text(m) + name,
        parse_key_text(modifier_text(m) + name) == Some((code, m)),
{
    assert(key_text(code, m) =~= modifier_text(m) + name);
    lemma_key_text_round_trip(code, m);
}

/// Each key name denotes the key of that name, with any modifiers: the key
/// is written as its modifiers and then its name, and that text reads as
/// the key. The arrows are written as arrows and also read from their
/// English names, and the space bar is `space`.
pub proof fn lemma_key_names(m: KeyModifiers)
    ensures
        key_text(KeyCode::Backspace, m) == modifier_text(m) + seq!['b', 'k', 's', 'p'],
        key_text(KeyCode::Enter, m) == modifier_text(m) + seq!['e', 'n', 't', 'e', 'r'],
        key_text(KeyCode::Left, m) == modifier_text(m) + seq!['←'],
        key_text(KeyCode::Right, m) == modifier_text(m) + seq!['→'],
        key_text(KeyCode::Up, m) == modifier_text(m) + seq!['↑'],
        key_text(KeyCode::Down, m) == modifier_text(m) + seq!['↓'],
        key_text(KeyCode::Home, m) == modifier_text(m) + seq!['h', 'o', 'm', 'e'],
        key_text(KeyCode::End, m) == modifier_text(m) + seq!['e', 'n', 'd'],
        key_text(KeyCode::PageUp, m) == modifier_text(m) + seq!['p', 'g', '_', 'u', 'p'],
        key_text(KeyCode::PageDown, m) == modifier_text(m) + seq!['p', 'g', '_', 'd', 'n'],
        key_text(KeyCode::Tab, m) == modifier_text(m) + seq!['t', 'a', 'b'],
        key_text(KeyCode::Delete, m) == modifier_text(m) + seq!['d', 'e', 'l'],
        key_text(KeyCode::Insert, m) == modifier_text(m) + seq!['i', 'n', 's'],
        key_text(KeyCode::Esc, m) == modifier_text(m) + seq!['e', 's', 'c'],
        parse_key_text(modifier_text(m) + seq!['b', 'k', 's', 'p']) == Some((KeyCode::Backspace, m)),
        parse_key_text(modifier_text(m) + seq!['e', 'n', 't', 'e', 'r']) == Some((KeyCode::Enter, m)),
        parse_key_text(modifier_text(m) + seq!['←']) == Some((KeyCode::Left, m)),
        parse_key_text(modifier_text(m) + seq!['→']) == Some((KeyCode::Right, m)),
        parse_key_text(modifier_text(m) + seq!['↑']) == Some((KeyCode::Up, m)),
        parse_key_text(modifier_text(m) + seq!['↓']) == Some((KeyCode::Down, m)),
        parse_key_text(modifier_text(m) + seq!['h', 'o', 'm', 'e']) == Some((KeyCode::Home, m)),
        parse_key_text(modifier_text(m) + seq!['e', 'n', 'd']) == Some((KeyCode::End, m)),
        parse_key_text(modifier_text(m) + seq!['p', 'g', '_', 'u', 'p']) == Some((KeyCode::PageUp, m)),
        parse_key_text(modifier_text(m) + seq!['p', 'g', '_', 'd', 'n']) == Some((KeyCode::PageDown, m)),
        parse_key_text(modifier_text(m) + seq!['t', 'a', 'b']) == Some((KeyCode::Tab, m)),
        parse_key_text(modifier_text(m) + seq!['d', 'e', 'l']) == Some((KeyCode::Delete, m)),
        parse_key_text(modifier_text(m) + seq!['i', 'n', 's']) == Some((KeyCode::Insert, m)),
        parse_key_text(modifier_text(m) + seq!['e', 's', 'c']) == Some((KeyCode::Esc, m)),
        parse_code_text(seq!['l', 'e', 'f', 't']) == Some(KeyCode::Left),
        parse_code_text(seq!['r', 'i', 'g', 'h', 't']) == Some(KeyCode::Right),
        parse_code_text(seq!['u', 'p']) == Some(KeyCode::Up),
        parse_code_text(seq!['d', 'o', 'w', 'n']) == Some(KeyCode::Down),
        parse_code_text(seq!['s', 'p', 'a', 'c', 'e']) == Some(KeyCode::Char(' ')),
        code_text(KeyCode::Char(' ')) == seq!['s', 'p', 'a', 'c', 'e'],
{
    lemma_written_as(KeyCode::Backspace, seq!['b', 'k', 's', 'p'], m);
    lemma_written_as(KeyCode::Enter, seq!['e', 'n', 't', 'e', 'r'], m);
    lemma_written_as(KeyCode::Left, seq!['←'], m);
    lemma_written_as(KeyCode::Right, seq!['→'], m);
    lemma_written_as(KeyCode::Up, seq!['↑'], m);
    lemma_written_as(KeyCode::Down, seq!['↓'], m);
    lemma_written_as(KeyCode::Home, seq!['h', 'o', 'm', 'e'], m);
    lemma_written_as(KeyCode::End, seq!['e', 'n', 'd'], m);
    lemma_written_as(KeyCode::PageUp, seq!['p', 'g', '_', 'u', 'p'], m);
    lemma_written_as(KeyCode::PageDown, seq!['p', 'g', '_', 'd', 'n'], m);
    lemma_written_as(KeyCode::Tab, seq!['t', 'a', 'b'], m);
    lemma_written_as(KeyCode::Delete, seq!['d', 'e', 'l'], m);
    lemma_written_as(KeyCode::Insert, seq!['i', 'n', 's'], m);
    lemma_written_as(KeyCode::Esc, seq!['e', 's', 'c'], m);
}

/// An optional two-character prefix is stripped off again, when what
/// follows it does not start with the same two characters.
proof fn lemma_strip2_prefix(flag: bool, a: char, b: char, rest: Seq<char>)
    requires
        !has_prefix2(rest, a, b),
    ensures
        strip2((if flag { seq![a, b] } else { Seq::empty() }) + rest, a, b) == (flag, rest),
{
    let s = (if flag { seq![a, b] } else { Seq::empty() }) + rest;
    if flag {
        assert(s.subrange(2, s.len() as int) =~= rest);
    } else {
        assert(s =~= rest);
    }
}

/// A key's written form reads back as the same key (`Key::to_string` then
/// `Key::from_str`), unless its code is a character that looks like an arrow.
pub proof fn lemma_key_text_round_trip(code: KeyCode, m: KeyModifiers)
    requires
        valid_key(code, m),
        !is_arrow_char(code),
    ensures
        parse_key_text(key_text(code, m)) == Some((code, m)),
{
    lemma_code_text_parses(code);
    let t = code_text(code);
    let s3 = (if m.shift { seq!['S', '-'] } else { Seq::<char>::empty() }) + t;
    let s2 = (if m.alt { seq!['A', '-'] } else { Seq::<char>::empty() }) + s3;
    let s1 = (if m.ctrl { seq!['C', '-'] } else { Seq::<char>::empty() }) + s2;
    assert(key_text(code, m) =~= s1);
    lemma_strip2_prefix(m.shift, 'S', '-', t);
    assert(!has_prefix2(s3, 'A', '-')) by {
        if !m.shift {
            assert(s3 =~= t);
        } else {
            assert(s3[0] == 'S');
        }
    }
    lemma_strip2_prefix(m.alt, 'A', '-', s3);
    assert(!has_prefix2(s2, 'C', '-')) by {
        if m.alt {
            assert(s2[0] == 'A');
        } else if m.shift {
            assert(s2 =~= s3);
            assert(s3[0] == 'S');
        } else {
            assert(s2 =~= t);
        }
    }
    lemma_strip2_prefix(m.ctrl, 'C', '-', s2);
}

/// Whether the characters `v` are exactly those of `lit`.
fn chars_are(v: &Vec<char>, lit: &str) -> (b: bool)
    ensures
        b == (v@ == lit@),
{
    let n = lit.unicode_len();
    if v.len() != n {
        return false;
    }
    let mut i: usize = 0;
    while i < n
        invariant
            n == lit@.len(),
            v@.len() == n,
            i <= n,
            forall|j: int| 0 <= j < i ==> v@[j] == lit@[j],
        decreases n - i,
    {
        if v[i] != lit.get_char(i) {
            return false;
        }
        i = i + 1;
    }
    assert(v@ =~= lit@);
    true
}

/// The characters of `s` from index `start` on.
fn chars_from(s: &Vec<char>, start: usize) -> (v: Vec<char>)
    requires
        start <= s@.len(),
    ensures
        v@ == s@.subrange(start as int, s@.len() as int),
{
    let mut v = Vec::new();
    let mut i = start;
    while i < s.len()
        invariant
            start <= i <= s@.len(),
            v@ == s@.subrange(start as int, i as int),
        decreases s@.len() - i,
    {
        v.push(s[i]);
        i = i + 1;
        assert(v@ =~= s@.subrange(start as int, i as int));
    }
    v
}

fn strip_prefix2(s: Vec<char>, a: char, b: char) -> (r: (bool, Vec<char>))
    ensures
        (r.0, r.1@) == strip2(s@, a, b),
{
    if s.len() >= 2 && s[0] == a && s[1] == b {
        (true, chars_from(&s, 2))
    } else {
        (false, s)
    }
}

/// Read a decimal `u8` as its `from_str` does.
fn parse_u8(s: &Vec<char>) -> (r: Option<u8>)
    ensures
        r == parse_u8_text(s@),
{
    let start: usize = if s.len() > 0 && s[0] == '+' { 1 } else { 0 };
    let ghost digits = u8_digits(s@);
    assert(digits =~= s@.subrange(start as int, s@.len() as int));
    if start >= s.len() {
        return None;
    }
    let mut value: u32 = 0;
    let mut i = start;
    while i < s.len()
        invariant
            start <= i <= s@.len(),
            start < s@.len(),
            digits == s@.subrange(start as int, s@.len() as int),
            digits == u8_digits(s@),
            forall|j: int| start <= j < i ==> is_digit(#[trigger] s@[j]),
            value == digits_value(s@.subrange(start as int, i as int)),
            value <= 255,
        decreases s@.len() - i,
    {
        let c = s[i];
        if !('0' <= c && c <= '9') {
            assert(digits[i - start] == s@[i as int]);
            assert(!is_digit(digits[i - start]));
            assert(!all_digits(digits));
            return None;
        }
        let d = (c as u32) - ('0' as u32);
        assert(s@.subrange(start as int, i + 1).drop_last() =~= s@.subrange(start as int, i as int));
        value = value * 10 + d;
        i = i + 1;
        if value > 255 {
            proof {
                assert(s@.subrange(start as int, i as int) =~= digits.subrange(0, i - start));
                if all_digits(digits) {
                    lemma_digits_value_grows(digits, i - start);
                    assert(digits_value(digits) > 255);
                }
            }
            return None;
        }
    }
    assert(s@.subrange(start as int, i as int) =~= digits);
    assert forall|j: int| 0 <= j < digits.len() implies is_digit(#[trigger] digits[j]) by {
        assert(digits[j] == s@[j + start]);
    }
    assert(all_digits(digits));
    Some(value as u8)
}

/// A run of digits is worth at least as much as any of its prefixes.
proof fn lemma_digits_value_grows(s: Seq<char>, k: int)
    requires
        0 <= k <= s.len(),
        all_digits(s),
    ensures
        digits_value(s.subrange(0, k)) <= digits_value(s),
    decreases s.len() - k,
{
    if k < s.len() {
        lemma_digits_value_grows(s, k + 1);
        assert(s.subrange(0, k + 1).drop_last() =~= s.subrange(0, k));
    } else {
        assert(s.subrange(0, k) =~= s);
    }
}

fn named(s: &Vec<char>) -> (r: Option<KeyCode>)
    ensures
        r == named_code(s@),
{
    proof {
        reveal_strlit("bksp");
        assert("bksp"@ =~= seq!['b', 'k', 's', 'p']);
        reveal_strlit("enter");
        assert("enter"@ =~= seq!['e', 'n', 't', 'e', 'r']);
        reveal_strlit("left");
        assert("left"@ =~= seq!['l', 'e', 'f', 't']);
        reveal_strlit("←");
        assert("←"@ =~= seq!['←']);
        reveal_strlit("right");
        assert("right"@ =~= seq!['r', 'i', 'g', 'h', 't']);
        reveal_strlit("→");
        assert("→"@ =~= seq!['→']);
        reveal_strlit("up");
        assert("up"@ =~= seq!['u', 'p']);
        reveal_strlit("↑");
        assert("↑"@ =~= seq!['↑']);
        reveal_strlit("down");
        assert("down"@ =~= seq!['d', 'o', 'w', 'n']);
        reveal_strlit("↓");
        assert("↓"@ =~= seq!['↓']);
        reveal_strlit("home");
        assert("home"@ =~= seq!['h', 'o', 'm', 'e']);
        reveal_strlit("end");
        assert("end"@ =~= seq!['e', 'n', 'd']);
        reveal_strlit("pg_up");
        assert("pg_up"@ =~= seq!['p', 'g', '_', 'u', 'p']);
        reveal_strlit("pg_dn");
        assert("pg_dn"@ =~= seq!['p', 'g', '_', 'd', 'n']);
        reveal_strlit("tab");
        assert("tab"@ =~= seq!['t', 'a', 'b']);
        reveal_strlit("del");
        assert("del"@ =~= seq!['d', 'e', 'l']);
        reveal_strlit("ins");
        assert("ins"@ =~= seq!['i', 'n', 's']);
        reveal_strlit("esc");
        assert("esc"@ =~= seq!['e', 's', 'c']);
        reveal_strlit("space");
        assert("space"@ =~= seq!['s', 'p', 'a', 'c', 'e']);
    }
    if chars_are(s, "bksp") {
        Some(KeyCode::Backspace)
    } else if chars_are(s, "enter") {
        Some(KeyCode::Enter)
    } else if chars_are(s, "left") || chars_are(s, "←") {
        Some(KeyCode::Left)
    } else if chars_are(s, "right") || chars_are(s, "→") {
        Some(KeyCode::Right)
    } else if chars_are(s, "up") || chars_are(s, "↑") {
        Some(KeyCode::Up)
    } else if chars_are(s, "down") || chars_are(s, "↓") {
        Some(KeyCode::Down)
    } else if chars_are(s, "home") {
        Some(KeyCode::Home)
    } else if chars_are(s, "end") {
        Some(KeyCode::End)
    } else if chars_are(s, "pg_up") {
        Some(KeyCode::PageUp)
    } else if chars_are(s, "pg_dn") {
        Some(KeyCode::PageDown)
    } else if chars_are(s, "tab") {
        Some(KeyCode::Tab)
    } else if chars_are(s, "del") {
        Some(KeyCode::Delete)
    } else if chars_are(s, "ins") {
        Some(KeyCode::Insert)
    } else if chars_are(s, "esc") {
        Some(KeyCode::Esc)
    } else if chars_are(s, "space") {
        Some(KeyCode::Char(' '))
    } else {
        None
    }
}

impl Key {
    /// Read a key from its written form, such as `C-x`, `A-S-F5` or `space`.
    pub fn from_str(s: &str) -> (r: Result<Key, KeyParseError>)
        ensures
            parse_key_text(s@) is None ==> r is Err,
            parse_key_text(s@) matches Some(kv) ==> r matches Ok(k) && k@ == kv,
    {
        let chars = str_chars(s);
        let (ctrl, s1) = strip_prefix2(chars, 'C', '-');
        let (alt, s2) = strip_prefix2(s1, 'A', '-');
        let (shift, s3) = strip_prefix2(s2, 'S', '-');
        let modifiers = KeyModifiers { ctrl, alt, shift };
        let code = match named(&s3) {
            Some(code) => code,
            None => {
                if s3.len() == 1 {
                    KeyCode::Char(s3[0])
                } else if s3.len() > 0 && s3[0] == 'F' {
                    let numeral = chars_from(&s3, 1);
                    assert(numeral@ =~= s3@.drop_first());
                    match parse_u8(&numeral) {
                        Some(number) => KeyCode::F(number),
                        None => return Err(KeyParseError),
                    }
                } else {
                    return Err(KeyParseError);
                }
            },
        };
        match Key::new(code, modifiers) {
            Some(k) => Ok(k),
            None => Err(KeyParseError),
        }
    }

    /// The written form of the key, as `from_str` reads it.
    pub fn to_string(&self) -> (s: String)
        ensures
            s@ == key_text(self@.0, self@.1),
    {
        let mut s = String::new();
        if self.modifiers.ctrl {
            string_push(&mut s, 'C');
            string_push(&mut s, '-');
        }
        if self.modifiers.alt {
            string_push(&mut s, 'A');
            string_push(&mut s, '-');
        }
        if self.modifiers.shift {
            string_push(&mut s, 'S');
            string_push(&mut s, '-');
        }
        let ghost pre = s@;
        assert(pre =~= (if self.modifiers.ctrl { seq!['C', '-'] } else { Seq::empty() }) + (
        if self.modifiers.alt {
            seq!['A', '-']
        } else {
            Seq::empty()
        }) + (if self.modifiers.shift { seq!['S', '-'] } else { Seq::empty() }));
        match self.code {
            KeyCode::Backspace => push_all(&mut s, &['b', 'k', 's', 'p']),
            KeyCode::Enter => push_all(&mut s, &['e', 'n', 't', 'e', 'r']),
            KeyCode::Left => string_push(&mut s, '←'),
            KeyCode::Right => string_push(&mut s, '→'),
            KeyCode::Up => string_push(&mut s, '↑'),
            KeyCode::Down => string_push(&mut s, '↓'),
            KeyCode::Home => push_all(&mut s, &['h', 'o', 'm', 'e']),
            KeyCode::End => push_all(&mut s, &['e', 'n', 'd']),
            KeyCode::PageUp => push_all(&mut s, &['p', 'g', '_', 'u', 'p']),
            KeyCode::PageDown => push_all(&mut s, &['p', 'g', '_', 'd', 'n']),
            KeyCode::Tab => push_all(&mut s, &['t', 'a', 'b']),
            KeyCode::Delete => push_all(&mut s, &['d', 'e', 'l']),
            KeyCode::Insert => push_all(&mut s, &['i', 'n', 's']),
            KeyCode::Esc => push_all(&mut s, &['e', 's', 'c']),
            KeyCode::F(num) => {
                string_push(&mut s, 'F');
                push_decimal(&mut s, num as u64);
            },
            KeyCode::Char(c) => {
                if c == ' ' {
                    push_all(&mut s, &['s', 'p', 'a', 'c', 'e']);
                } else {
                    string_push(&mut s, c);
                }
            },
        }
        assert(s@ =~= key_text(self@.0, self@.1));
        s
    }
}

/// Append every character of `cs`, in order.
fn push_all(s: &mut String, cs: &[char])
    ensures
        final(s)@ == old(s)@ + cs@,
{
    let mut i: usize = 0;
    while i < cs.len()
        invariant
            i <= cs@.len(),
            s@ == old(s)@ + cs@.subrange(0, i as int),
        decreases cs@.len() - i,
    {
        string_push(s, cs[i]);
        i = i + 1;
        assert(s@ =~= old(s)@ + cs@.subrange(0, i as int));
    }
    assert(cs@.subrange(0, cs@.len() as int) =~= cs@);
}

} // verus!
