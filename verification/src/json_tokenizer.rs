//! Splits JSON source text into tokens.

use vstd::prelude::*;
use vstd::string::*;
use crate::coord::{Col, Pos, Row};
use crate::strings::str_chars;
use crate::parse_error::{nth_line, ParseError};
use crate::strings::string_push;

verus! {

/// A JSON token. Numbers and plain strings borrow their text from the source.
#[derive(Debug, PartialEq, Eq)]
pub enum Token<'j> {
    True,
    False,
    Null,
    Number(&'j str),
    PlainString(&'j str),
    EscapedString(String),
    StartArray,
    EndArray,
    StartObject,
    EndObject,
    Comma,
    Colon,
}

/// What a token is, with the text it carries.
pub enum TokenV {
    True,
    False,
    Null,
    Number(Seq<char>),
    PlainString(Seq<char>),
    EscapedString(Seq<char>),
    StartArray,
    EndArray,
    StartObject,
    EndObject,
    Comma,
    Colon,
}

impl<'j> View for Token<'j> {
    type V = TokenV;

    open spec fn view(&self) -> TokenV {
        match self {
            Token::True => TokenV::True,
            Token::False => TokenV::False,
            Token::Null => TokenV::Null,
            Token::Number(s) => TokenV::Number(s@),
            Token::PlainString(s) => TokenV::PlainString(s@),
            Token::EscapedString(s) => TokenV::EscapedString(s@),
            Token::StartArray => TokenV::StartArray,
            Token::EndArray => TokenV::EndArray,
            Token::StartObject => TokenV::StartObject,
            Token::EndObject => TokenV::EndObject,
            Token::Comma => TokenV::Comma,
            Token::Colon => TokenV::Colon,
        }
    }
}

/// The ways a token can fail to be read.
#[derive(Debug, Clone, Copy, PartialEq, Eq, Structural)]
pub enum TokenError {
    /// A word that starts like `null`, `true` or `false` but is not one.
    BadConstant,
    /// A string with a bad escape, a control character, or no closing quote.
    BadString,
    /// Something that starts like a number but is not one.
    BadNumber,
    /// A character that cannot start any token.
    Unexpected,
}

/// The message and label a token error is reported with.
pub open spec fn token_error_text(e: TokenError) -> (Seq<char>, Seq<char>) {
    match e {
        TokenError::BadConstant => ("Expected JSON value."@, "invalid"@),
        TokenError::BadString => ("Invalid string."@, "invalid"@),
        TokenError::BadNumber => ("Invalid number."@, "invalid"@),
        TokenError::Unexpected => ("Expected JSON value."@, "expected value"@),
    }
}

// The token grammar, over the characters of the source.

pub open spec fn is_json_ws(c: char) -> bool {
    c == ' ' || c == '\n' || c == '\r' || c == '\t'
}

/// The first index at or after `i` that is not whitespace.
pub open spec fn skip_ws(s: Seq<char>, i: nat) -> nat
    decreases s.len() - i,
{
    if i < s.len() && is_json_ws(s[i as int]) {
        skip_ws(s, i + 1)
    } else {
        i
    }
}

/// Does `lit` occur in `s` at index `i`?
pub open spec fn at_lit(s: Seq<char>, i: nat, lit: Seq<char>) -> bool {
    i + lit.len() <= s.len() && s.subrange(i as int, (i + lit.len()) as int) == lit
}

pub open spec fn is_ascii_digit(c: char) -> bool {
    '0' <= c && c <= '9'
}

/// What the class `\d` of the `regex` crate (Unicode's decimal digits, general
/// category Nd) answers for one character.
pub uninterp spec fn regex_decimal_digit(c: char) -> bool;

/// A decimal digit: among ASCII characters `0` to `9`, beyond ASCII whatever
/// Unicode counts as a decimal digit.
pub open spec fn is_decimal_digit(c: char) -> bool {
    if (c as u32) < 0x80 {
        is_ascii_digit(c)
    } else {
        regex_decimal_digit(c)
    }
}

/// The end of the run of decimal digits starting at `i`.
pub open spec fn digits_end(s: Seq<char>, i: nat) -> nat
    decreases s.len() - i,
{
    if i < s.len() && is_decimal_digit(s[i as int]) {
        digits_end(s, i + 1)
    } else {
        i
    }
}

/// The end of the longest JSON number at `i`: `-?(0|[1-9]\d*)(\.\d+)?([eE][+-]?\d+)?`,
/// where `\d` is any decimal digit (`is_decimal_digit`) and the first digit is ASCII.
pub open spec fn number_end(s: Seq<char>, i: nat) -> Option<nat> {
    let a: nat = if i < s.len() && s[i as int] == '-' { i + 1 } else { i };
    if a < s.len() && (s[a as int] == '0' || ('1' <= s[a as int] && s[a as int] <= '9')) {
        let b: nat = if s[a as int] == '0' { a + 1 } else { digits_end(s, a + 1) };
        let c: nat = if b + 1 < s.len() && s[b as int] == '.' && is_decimal_digit(s[(b + 1) as int]) {
            digits_end(s, b + 2)
        } else {
            b
        };
        let d: nat = if c + 1 < s.len() && (s[(c + 1) as int] == '+' || s[(c + 1) as int] == '-') {
            c + 2
        } else {
            c + 1
        };
        let e: nat = if c < s.len() && (s[c as int] == 'e' || s[c as int] == 'E') && d < s.len()
            && is_decimal_digit(s[d as int]) {
            digits_end(s, d + 1)
        } else {
            c
        };
        Some(e)
    } else {
        None
    }
}

/// A control character (`\x00` to `\x1F`), which may not appear in a string.
pub open spec fn is_control(c: char) -> bool {
    (c as u32) < 0x20
}

/// For a string whose contents start at `j`: the index of its closing quote,
/// if it has no escapes or control characters before it.
pub open spec fn plain_close(s: Seq<char>, j: nat) -> Option<nat>
    decreases s.len() - j,
{
    if j >= s.len() {
        None
    } else if s[j as int] == '"' {
        Some(j)
    } else if s[j as int] == '\\' || is_control(s[j as int]) {
        None
    } else {
        plain_close(s, j + 1)
    }
}

/// The value of a hexadecimal digit.
pub open spec fn hex_digit(c: char) -> Option<nat> {
    if '0' <= c && c <= '9' {
        Some((c as nat - '0' as nat) as nat)
    } else if 'a' <= c && c <= 'f' {
        Some((c as nat - 'a' as nat + 10) as nat)
    } else if 'A' <= c && c <= 'F' {
        Some((c as nat - 'A' as nat + 10) as nat)
    } else {
        None
    }
}

/// Hex digits are read as base-16 numerals do: `0`-`9` are worth 0 to 9,
/// `A`-`F` are worth 10 to 15, a lowercase letter `a`-`f` is worth the same
/// as its capital, and nothing else is a hex digit.
pub proof fn lemma_hex_digits()
    ensures
        forall|c: char| '0' <= c <= '9' ==> #[trigger] hex_digit(c) == Some(((c as nat) - ('0' as nat)) as nat),
        forall|c: char| 'A' <= c <= 'F' ==> #[trigger] hex_digit(c) == Some(((c as nat) - ('A' as nat) + 10) as nat),
        forall|c: char|
            'a' <= c <= 'f' ==> #[trigger] hex_digit(c) is Some && hex_digit(c) == hex_digit(
                ((c as u32) - 32) as char,
            ),
        forall|c: char|
            !('0' <= c <= '9') && !('a' <= c <= 'f') && !('A' <= c <= 'F') ==> #[trigger] hex_digit(c)
                is None,
{
    assert forall|c: char| 'a' <= c <= 'f' implies #[trigger] hex_digit(c) is Some && hex_digit(c)
        == hex_digit(((c as u32) - 32) as char) by {
        let u = ((c as u32) - 32) as char;
        assert(u as nat == c as nat - 32);
        assert('A' <= u <= 'F');
    }
}

/// The value of a run of hex digits, if they all are hex digits.
pub open spec fn hex_value(h: Seq<char>) -> Option<nat>
    decreases h.len(),
{
    if h.len() == 0 {
        Some(0)
    } else {
        match (hex_value(h.drop_last()), hex_digit(h.last())) {
            (Some(v), Some(d)) => Some(v * 16 + d),
            _ => None,
        }
    }
}

/// Four characters read as `u32::from_str_radix(_, 16)` reads them: an
/// optional `+`, then hex digits.
pub open spec fn hex4(h: Seq<char>) -> Option<nat> {
    if h[0] == '+' {
        hex_value(h.drop_first())
    } else {
        hex_value(h)
    }
}

/// A code point that is a `char` (not a surrogate, not too large).
pub open spec fn valid_char_code(v: nat) -> bool {
    v < 0xD800 || (0xE000 <= v && v <= 0x10FFFF)
}

/// The character a one-character escape (after `\`) stands for.
pub open spec fn escape_char(e: char) -> Option<char> {
    if e == '"' {
        Some('"')
    } else if e == '\\' {
        Some('\\')
    } else if e == '/' {
        Some('/')
    } else if e == 'b' {
        Some('\x08')
    } else if e == 'f' {
        Some('\x0c')
    } else if e == 'n' {
        Some('\n')
    } else if e == 'r' {
        Some('\r')
    } else if e == 't' {
        Some('\t')
    } else {
        None
    }
}

/// Read the rest of a string with escapes, from index `j`, having read
/// `acc` so far. Gives the string read (or `None` if it is invalid) and the
/// index reading stopped at.
pub open spec fn escape_scan(s: Seq<char>, j: nat, acc: Seq<char>) -> (Option<Seq<char>>, nat)
    decreases s.len() - j,
{
    if j >= s.len() {
        (None, j)
    } else {
        let c = s[j as int];
        if is_control(c) {
            (None, j)
        } else if c == '"' {
            (Some(acc), j + 1)
        } else if c == '\\' {
            if j + 1 >= s.len() {
                (None, j + 1)
            } else if s[(j + 1) as int] == 'u' {
                let h: nat = j + 2;
                if h + 4 <= s.len() {
                    match hex4(s.subrange(h as int, (h + 4) as int)) {
                        Some(v) => if valid_char_code(v) {
                            escape_scan(s, h + 4, acc.push(v as char))
                        } else {
                            (None, h)
                        },
                        None => (None, h),
                    }
                } else {
                    (None, h)
                }
            } else {
                match escape_char(s[(j + 1) as int]) {
                    Some(e) => escape_scan(s, j + 2, acc.push(e)),
                    None => (None, j + 1),
                }
            }
        } else {
            escape_scan(s, j + 1, acc.push(c))
        }
    }
}

/// The one-character token a character stands for, if any.
pub open spec fn punct_token(c: char) -> Option<TokenV> {
    if c == '{' {
        Some(TokenV::StartObject)
    } else if c == '}' {
        Some(TokenV::EndObject)
    } else if c == '[' {
        Some(TokenV::StartArray)
    } else if c == ']' {
        Some(TokenV::EndArray)
    } else if c == ',' {
        Some(TokenV::Comma)
    } else if c == ':' {
        Some(TokenV::Colon)
    } else {
        None
    }
}

/// What the tokenizer does next at offset `off` of `s`: the token it reads
/// (`None` at the end of the input), and the offset it leaves off at.
pub open spec fn next_token(s: Seq<char>, off: nat) -> (Option<Result<TokenV, TokenError>>, nat) {
    let p = skip_ws(s, off);
    if p >= s.len() {
        (None, p)
    } else {
        let c = s[p as int];
        if c == 'n' {
            if at_lit(s, p, seq!['n', 'u', 'l', 'l']) {
                (Some(Ok(TokenV::Null)), p + 4)
            } else {
                (Some(Err(TokenError::BadConstant)), p)
            }
        } else if c == 't' {
            if at_lit(s, p, seq!['t', 'r', 'u', 'e']) {
                (Some(Ok(TokenV::True)), p + 4)
            } else {
                (Some(Err(TokenError::BadConstant)), p)
            }
        } else if c == 'f' {
            if at_lit(s, p, seq!['f', 'a', 'l', 's', 'e']) {
                (Some(Ok(TokenV::False)), p + 5)
            } else {
                (Some(Err(TokenError::BadConstant)), p)
            }
        } else if c == '"' {
            match plain_close(s, p + 1) {
                Some(q) => (Some(Ok(TokenV::PlainString(s.subrange((p + 1) as int, q as int)))), q + 1),
                None => match escape_scan(s, p + 1, Seq::empty()) {
                    (Some(text), o) => (Some(Ok(TokenV::EscapedString(text))), o),
                    (None, o) => (Some(Err(TokenError::BadString)), o),
                },
            }
        } else if is_ascii_digit(c) || c == '.' || c == '-' {
            match number_end(s, p) {
                Some(e) => (Some(Ok(TokenV::Number(s.subrange(p as int, e as int)))), e),
                None => (Some(Err(TokenError::BadNumber)), p),
            }
        } else {
            match punct_token(c) {
                Some(t) => (Some(Ok(t)), p + 1),
                None => (Some(Err(TokenError::Unexpected)), p),
            }
        }
    }
}

/// Skipping whitespace stays within the text and never moves back.
pub proof fn lemma_skip_ws_bounds(s: Seq<char>, i: nat)
    requires
        i <= s.len(),
    ensures
        i <= skip_ws(s, i) <= s.len(),
    decreases s.len() - i,
{
    if i < s.len() && is_json_ws(s[i as int]) {
        lemma_skip_ws_bounds(s, i + 1);
    }
}

proof fn lemma_digits_end_bounds(s: Seq<char>, i: nat)
    requires
        i <= s.len(),
    ensures
        i <= digits_end(s, i) <= s.len(),
    decreases s.len() - i,
{
    if i < s.len() && is_decimal_digit(s[i as int]) {
        lemma_digits_end_bounds(s, i + 1);
    }
}

proof fn lemma_plain_close_bounds(s: Seq<char>, j: nat)
    ensures
        plain_close(s, j) matches Some(q) ==> j <= q < s.len(),
    decreases s.len() - j,
{
    if j < s.len() && s[j as int] != '"' && !(s[j as int] == '\\' || is_control(s[j as int])) {
        lemma_plain_close_bounds(s, j + 1);
    }
}

proof fn lemma_escape_scan_bounds(s: Seq<char>, j: nat, acc: Seq<char>)
    requires
        j <= s.len(),
    ensures
        j <= escape_scan(s, j, acc).1 <= s.len(),
    decreases s.len() - j,
{
    if j < s.len() {
        let c = s[j as int];
        if !is_control(c) && c != '"' {
            if c == '\\' {
                if j + 1 < s.len() {
                    if s[(j + 1) as int] == 'u' {
                        let h: nat = j + 2;
                        if h + 4 <= s.len() {
                            match hex4(s.subrange(h as int, (h + 4) as int)) {
                                Some(v) => if valid_char_code(v) {
                                    lemma_escape_scan_bounds(s, h + 4, acc.push(v as char));
                                },
                                None => {},
                            }
                        }
                    } else {
                        match escape_char(s[(j + 1) as int]) {
                            Some(e) => lemma_escape_scan_bounds(s, j + 2, acc.push(e)),
                            None => {},
                        }
                    }
                }
            } else {
                lemma_escape_scan_bounds(s, j + 1, acc.push(c));
            }
        }
    }
}

/// Reading a token never moves back nor past the end, and reading one
/// successfully always moves forward.
pub proof fn lemma_next_token_advances(s: Seq<char>, off: nat)
    requires
        off <= s.len(),
    ensures
        off <= next_token(s, off).1 <= s.len(),
        next_token(s, off).0 matches Some(Ok(_)) ==> off < next_token(s, off).1,
{
    lemma_skip_ws_bounds(s, off);
    let p = skip_ws(s, off);
    if p < s.len() {
        lemma_plain_close_bounds(s, p + 1);
        lemma_escape_scan_bounds(s, p + 1, Seq::empty());
        let a: nat = if s[p as int] == '-' { p + 1 } else { p };
        if a < s.len() {
            lemma_digits_end_bounds(s, a + 1);
            let b: nat = if s[a as int] == '0' { a + 1 } else { digits_end(s, a + 1) };
            if b + 2 <= s.len() {
                lemma_digits_end_bounds(s, b + 2);
                let c: nat = if b + 1 < s.len() && s[b as int] == '.' && is_decimal_digit(s[(b + 1) as int]) {
                    digits_end(s, b + 2)
                } else {
                    b
                };
                if c + 2 <= s.len() {
                    lemma_digits_end_bounds(s, c + 2);
                }
                if c + 3 <= s.len() {
                    lemma_digits_end_bounds(s, c + 3);
                }
            }
        }
    }
}

// Positions.

/// The number of bytes a character takes in UTF-8.
pub open spec fn utf8_len(c: char) -> nat {
    if (c as u32) < 0x80 {
        1
    } else if (c as u32) < 0x800 {
        2
    } else if (c as u32) < 0x10000 {
        3
    } else {
        4
    }
}

/// The (row, column) reached after the first `k` characters: rows count
/// line breaks, and columns count UTF-8 bytes since the last line break.
pub open spec fn pos_count(s: Seq<char>, k: nat) -> (nat, nat)
    decreases k,
{
    if k == 0 {
        (0, 0)
    } else {
        let (r, c) = pos_count(s, (k - 1) as nat);
        if s[(k - 1) as int] == '\n' {
            (r + 1, 0)
        } else {
            (r, c + utf8_len(s[(k - 1) as int]))
        }
    }
}

/// Counting the position up to `k` never leaves the coordinate types.
pub open spec fn pos_fits(s: Seq<char>, k: nat) -> bool {
    forall|j: nat| j <= k ==> (#[trigger] pos_count(s, j)).0 <= Row::MAX && pos_count(s, j).1
        <= Col::MAX
}

/// The position of offset `k` in `s`.
pub open spec fn pos_at(s: Seq<char>, k: nat) -> Pos {
    Pos { row: pos_count(s, k).0 as Row, col: pos_count(s, k).1 as Col }
}

/// `e` reports `message` with `label` at offset `off` of the file `file` with contents `s`.
pub open spec fn error_at(
    e: ParseError,
    file: Seq<char>,
    s: Seq<char>,
    off: nat,
    message: Seq<char>,
    label: Seq<char>,
) -> bool {
    &&& e.file_name@ == file
    &&& e.message@ == message
    &&& e.location matches Some(loc) && loc.pos == pos_at(s, off) && loc.line@ == nth_line(
        s,
        pos_at(s, off).row as nat,
    ) && loc.label@ == label
}

/// The next read may fail only where the failure's position can be counted.
pub open spec fn next_error_fits(s: Seq<char>, off: nat) -> bool {
    next_token(s, off).0 matches Some(Err(_)) ==> pos_fits(s, next_token(s, off).1)
}

/// Reads JSON tokens from a source text, one at a time.
pub struct Tokenizer<'j> {
    file_name: &'j str,
    source: &'j str,
    chars: Vec<char>,
    offset: usize,
}

impl<'j> Tokenizer<'j> {
    #[verifier::type_invariant]
    closed spec fn inv(self) -> bool {
        &&& self.chars@ == self.source@
        &&& self.offset <= self.chars@.len()
        &&& self.chars@.len() <= usize::MAX
    }

    /// The source text being read.
    pub closed spec fn text(self) -> Seq<char> {
        self.chars@
    }

    /// How far into the source the tokenizer has read.
    pub closed spec fn at(self) -> nat {
        self.offset as nat
    }

    /// The name of the file being read.
    pub closed spec fn file(self) -> Seq<char> {
        self.file_name@
    }

    /// Start reading `source` (from the file `file_name`) from its beginning.
    pub fn new(file_name: &'j str, source: &'j str) -> (t: Tokenizer<'j>)
        ensures
            t.text() == source@,
            t.at() == 0,
            t.at() <= t.text().len(),
            t.file() == file_name@,
    {
        let chars = str_chars(source);
        let len = chars.len();
        assert(len == chars@.len());
        Tokenizer { file_name, source, chars, offset: 0 }
    }
}


/// Converts a code point to a `char` (`char::from_u32`).
/// Claimed: `None` exactly for surrogates and values past `0x10FFFF`;
/// otherwise the character with that code.
#[verifier::external_body]
fn char_from_u32(v: u32) -> (r: Option<char>)
    ensures
        r is Some <==> valid_char_code(v as nat),
        r matches Some(c) ==> c == (v as nat) as char,
{
    char::from_u32(v)
}

/// The number of bytes `c` takes in UTF-8.
pub(crate) fn utf8_len_of(c: char) -> (n: u16)
    ensures
        n == utf8_len(c),
{
    let v = c as u32;
    if v < 0x80 {
        1
    } else if v < 0x800 {
        2
    } else if v < 0x10000 {
        3
    } else {
        4
    }
}

/// The value of a hex digit.
fn hex_digit_of(c: char) -> (r: Option<u32>)
    ensures
        r matches Some(d) ==> hex_digit(c) == Some(d as nat) && d < 16,
        r is None ==> hex_digit(c) is None,
{
    if '0' <= c && c <= '9' {
        Some((c as u32) - ('0' as u32))
    } else if 'a' <= c && c <= 'f' {
        Some((c as u32) - ('a' as u32) + 10)
    } else if 'A' <= c && c <= 'F' {
        Some((c as u32) - ('A' as u32) + 10)
    } else {
        None
    }
}

/// A run of characters with a non-hex character in its first `k` has no hex value.
proof fn lemma_hex_none_extends(t: Seq<char>, k: int)
    requires
        0 <= k <= t.len(),
        hex_value(t.subrange(0, k)) is None,
    ensures
        hex_value(t) is None,
    decreases t.len() - k,
{
    if k < t.len() {
        assert(t.subrange(0, k + 1).drop_last() =~= t.subrange(0, k));
        lemma_hex_none_extends(t, k + 1);
    } else {
        assert(t.subrange(0, k) =~= t);
    }
}

/// Read the four characters at `h` as `u32::from_str_radix(_, 16)` does.
fn hex4_at(chars: &Vec<char>, h: usize) -> (r: Option<u32>)
    requires
        h + 4 <= chars@.len(),
    ensures
        r matches Some(v) ==> hex4(chars@.subrange(h as int, h + 4)) == Some(v as nat),
        r is None ==> hex4(chars@.subrange(h as int, h + 4)) is None,
{
    let len = chars.len();
    let ghost sub = chars@.subrange(h as int, h + 4);
    let start: usize = if chars[h] == '+' { h + 1 } else { h };
    let ghost digits = if sub[0] == '+' { sub.drop_first() } else { sub };
    assert(digits =~= chars@.subrange(start as int, h + 4));
    assert(hex4(sub) == hex_value(digits));
    let mut v: u32 = 0;
    let mut k = start;
    while k < h + 4
        invariant
            start <= k <= h + 4,
            len == chars@.len(),
            h + 4 <= chars@.len(),
            hex4(chars@.subrange(h as int, h + 4)) == hex_value(digits),
            start == h || start == h + 1,
            digits == chars@.subrange(start as int, h + 4),
            hex_value(chars@.subrange(start as int, k as int)) == Some(v as nat),
            k - start == 0 ==> v == 0,
            k - start == 1 ==> v < 16,
            k - start == 2 ==> v < 256,
            k - start == 3 ==> v < 4096,
            k - start == 4 ==> v < 65536,
        decreases h + 4 - k,
    {
        let ghost pre = chars@.subrange(start as int, (k + 1) as int);
        assert(pre.drop_last() =~= chars@.subrange(start as int, k as int));
        match hex_digit_of(chars[k]) {
            Some(d) => {
                v = v * 16 + d;
                k = k + 1;
            },
            None => {
                proof {
                    assert(pre.last() == chars@[k as int]);
                    assert(hex_value(pre) is None);
                    assert(pre =~= digits.subrange(0, (k + 1 - start) as int));
                    lemma_hex_none_extends(digits, (k + 1 - start) as int);
                }
                return None;
            },
        }
    }
    assert(chars@.subrange(start as int, k as int) =~= digits);
    Some(v)
}

/// Does `lit` occur in `s` at index `p`?
fn lit_at(s: &Vec<char>, p: usize, lit: &str) -> (b: bool)
    requires
        p <= s@.len(),
    ensures
        b == at_lit(s@, p as nat, lit@),
{
    let len = s.len();
    let n = lit.unicode_len();
    if len - p < n {
        return false;
    }
    let mut i: usize = 0;
    while i < n
        invariant
            n == lit@.len(),
            len == s@.len(),
            p + n <= s@.len(),
            i <= n,
            forall|j: int| 0 <= j < i ==> s@[p + j] == lit@[j],
        decreases n - i,
    {
        if s[p + i] != lit.get_char(i) {
            assert(s@.subrange(p as int, p + n)[i as int] != lit@[i as int]);
            return false;
        }
        i = i + 1;
    }
    assert(s@.subrange(p as int, p + n) =~= lit@);
    true
}

/// The character a one-character escape stands for.
fn escape_char_of(e: char) -> (r: Option<char>)
    ensures
        r == escape_char(e),
{
    if e == '"' {
        Some('"')
    } else if e == '\\' {
        Some('\\')
    } else if e == '/' {
        Some('/')
    } else if e == 'b' {
        Some('\x08')
    } else if e == 'f' {
        Some('\x0c')
    } else if e == 'n' {
        Some('\n')
    } else if e == 'r' {
        Some('\r')
    } else if e == 't' {
        Some('\t')
    } else {
        None
    }
}

/// `regex::Regex::is_match` with the class `\d` on the one character `c`. The
/// `regex` documentation defines `\d` as Unicode's general category Nd. The
/// contract claims only that the answer is `regex_decimal_digit(c)`, a function
/// of `c` alone; which characters the class holds is left unsaid.
#[verifier::external_body]
fn regex_is_decimal_digit(c: char) -> (b: bool)
    ensures
        b == regex_decimal_digit(c),
{
    match regex::Regex::new(r"^\d$") {
        Ok(re) => re.is_match(&String::from(c)),
        Err(_) => false,
    }
}

/// Is `c` a decimal digit? ASCII is decided here, the rest by `regex`.
pub fn decimal_digit(c: char) -> (b: bool)
    ensures
        b == is_decimal_digit(c),
{
    if (c as u32) < 0x80 {
        '0' <= c && c <= '9'
    } else {
        regex_is_decimal_digit(c)
    }
}

/// The end of the run of decimal digits starting at `i`.
fn digits_end_of(s: &Vec<char>, i: usize) -> (e: usize)
    requires
        i <= s@.len(),
    ensures
        e == digits_end(s@, i as nat),
        i <= e <= s@.len(),
{
    let mut e = i;
    while e < s.len() && decimal_digit(s[e])
        invariant
            i <= e <= s@.len(),
            digits_end(s@, e as nat) == digits_end(s@, i as nat),
        decreases s@.len() - e,
    {
        e = e + 1;
    }
    e
}

/// The end of the longest JSON number at `i`.
fn number_end_of(s: &Vec<char>, i: usize) -> (r: Option<usize>)
    requires
        i <= s@.len(),
    ensures
        r matches Some(e) ==> number_end(s@, i as nat) == Some(e as nat) && i < e <= s@.len(),
        r is None ==> number_end(s@, i as nat) is None,
{
    let len = s.len();
    let a: usize = if i < len && s[i] == '-' { i + 1 } else { i };
    if a < len && (s[a] == '0' || ('1' <= s[a] && s[a] <= '9')) {
        let b: usize = if s[a] == '0' { a + 1 } else { digits_end_of(s, a + 1) };
        let c: usize = if b < len && b + 1 < len && s[b] == '.' && decimal_digit(s[b + 1]) {
            digits_end_of(s, b + 2)
        } else {
            b
        };
        let e: usize = if c < len && (s[c] == 'e' || s[c] == 'E') {
            let d: usize = if c + 1 < len && (s[c + 1] == '+' || s[c + 1] == '-') {
                c + 2
            } else {
                c + 1
            };
            if d < len && decimal_digit(s[d]) {
                digits_end_of(s, d + 1)
            } else {
                c
            }
        } else {
            c
        };
        Some(e)
    } else {
        None
    }
}

/// For a string whose contents start at `j`: its closing quote, if there
/// are no escapes or control characters before it.
fn plain_close_of(s: &Vec<char>, j: usize) -> (r: Option<usize>)
    requires
        j <= s@.len(),
    ensures
        r matches Some(q) ==> plain_close(s@, j as nat) == Some(q as nat) && j <= q < s@.len(),
        r is None ==> plain_close(s@, j as nat) is None,
{
    let mut k = j;
    while k < s.len()
        invariant
            j <= k <= s@.len(),
            plain_close(s@, k as nat) == plain_close(s@, j as nat),
        decreases s@.len() - k,
    {
        let c = s[k];
        if c == '"' {
            return Some(k);
        }
        if c == '\\' || (c as u32) < 0x20 {
            return None;
        }
        k = k + 1;
    }
    None
}

/// The one-character token a character stands for.
fn punct_token_of<'j>(c: char) -> (r: Option<Token<'j>>)
    ensures
        r is None <==> punct_token(c) is None,
        r matches Some(t) ==> punct_token(c) == Some(t@),
{
    if c == '{' {
        Some(Token::StartObject)
    } else if c == '}' {
        Some(Token::EndObject)
    } else if c == '[' {
        Some(Token::StartArray)
    } else if c == ']' {
        Some(Token::EndArray)
    } else if c == ',' {
        Some(Token::Comma)
    } else if c == ':' {
        Some(Token::Colon)
    } else {
        None
    }
}

impl<'j> Tokenizer<'j> {
    /// The error `message` with `label`, at the tokenizer's current position.
    pub fn error(&self, message: &str, label: &str) -> (e: ParseError)
        requires
            pos_fits(self.text(), self.at()),
        ensures
            error_at(e, self.file(), self.text(), self.at(), message@, label@),
    {
        proof {
            use_type_invariant(self);
        }
        ParseError::with_location(
            String::from_str(self.file_name),
            String::from_str(message),
            self.source,
            self.pos(),
            String::from_str(label),
        )
    }

    /// The source from the current position on.
    pub fn remaining(&self) -> (r: &'j str)
        ensures
            r@ == self.text().subrange(self.at() as int, self.text().len() as int),
    {
        proof {
            use_type_invariant(self);
        }
        self.source.substring_char(self.offset, self.chars.len())
    }

    /// The character at the current position, if any.
    pub fn peek_char(&self) -> (r: Option<char>)
        ensures
            self.at() < self.text().len() ==> r == Some(self.text()[self.at() as int]),
            self.at() >= self.text().len() ==> r is None,
    {
        proof {
            use_type_invariant(self);
        }
        if self.offset < self.chars.len() {
            Some(self.chars[self.offset])
        } else {
            None
        }
    }

    /// Move past any whitespace.
    pub fn consume_whitespace(&mut self)
        ensures
            final(self).text() == old(self).text(),
            final(self).file() == old(self).file(),
            final(self).at() == skip_ws(old(self).text(), old(self).at()),
    {
        proof {
            use_type_invariant(&*self);
        }
        while self.offset < self.chars.len() && (self.chars[self.offset] == ' '
            || self.chars[self.offset] == '\n' || self.chars[self.offset] == '\r'
            || self.chars[self.offset] == '\t')
            invariant
                self.text() == old(self).text(),
                self.file() == old(self).file(),
                skip_ws(self.text(), self.at()) == skip_ws(old(self).text(), old(self).at()),
            decreases self.text().len() - self.at(),
        {
            proof {
                use_type_invariant(&*self);
            }
            self.offset = self.offset + 1;
        }
    }

    /// Move past one character, producing `token`.
    pub fn consume_char(&mut self, token: Token<'j>) -> (t: Token<'j>)
        requires
            old(self).at() < old(self).text().len(),
        ensures
            t == token,
            final(self).text() == old(self).text(),
            final(self).file() == old(self).file(),
            final(self).at() == old(self).at() + 1,
    {
        proof {
            use_type_invariant(&*self);
        }
        self.offset = self.offset + 1;
        token
    }

    /// If `constant` comes next, move past it and produce `token`; otherwise
    /// the error `Expected JSON value.` here.
    pub fn consume_constant(&mut self, constant: &str, token: Token<'j>) -> (r: Result<
        Token<'j>,
        ParseError,
    >)
        requires
            !at_lit(old(self).text(), old(self).at(), constant@) ==> pos_fits(
                old(self).text(),
                old(self).at(),
            ),
        ensures
            final(self).text() == old(self).text(),
            final(self).file() == old(self).file(),
            at_lit(old(self).text(), old(self).at(), constant@) ==> r == Ok::<
                Token<'j>,
                ParseError,
            >(token) && final(self).at() == old(self).at() + constant@.len(),
            !at_lit(old(self).text(), old(self).at(), constant@) ==> (r matches Err(e) && error_at(
                e,
                old(self).file(),
                old(self).text(),
                old(self).at(),
                "Expected JSON value."@,
                "invalid"@,
            ) && final(self).at() == old(self).at()),
    {
        proof {
            use_type_invariant(&*self);
        }
        let n = constant.unicode_len();
        let matched = lit_at(&self.chars, self.offset, constant);
        if matched {
            self.offset = self.offset + n;
            Ok(token)
        } else {
            Err(self.error("Expected JSON value.", "invalid"))
        }
    }

    /// Read a string with escapes, whose opening quote is at the current
    /// position. Leaves off where the string ended, or where it was found
    /// invalid.
    pub fn escape_string(&mut self) -> (r: Option<String>)
        requires
            old(self).at() < old(self).text().len(),
            old(self).text()[old(self).at() as int] == '"',
        ensures
            final(self).text() == old(self).text(),
            final(self).file() == old(self).file(),
            final(self).at() == escape_scan(old(self).text(), old(self).at() + 1, Seq::empty()).1,
            r is None <==> escape_scan(old(self).text(), old(self).at() + 1, Seq::empty()).0 is None,
            r matches Some(st) ==> escape_scan(old(self).text(), old(self).at() + 1, Seq::empty()).0
                == Some(st@),
    {
        proof {
            use_type_invariant(&*self);
        }
        let ghost s = self.text();
        let ghost goal = escape_scan(s, old(self).at() + 1, Seq::empty());
        let mut string = String::new();
        self.offset = self.offset + 1;
        loop
            invariant
                s == old(self).text(),
                goal == escape_scan(old(self).text(), old(self).at() + 1, Seq::empty()),
                self.text() == s,
                self.file() == old(self).file(),
                self.at() <= s.len(),
                escape_scan(s, self.at(), string@) == goal,
            decreases s.len() - self.at(),
        {
            proof {
                use_type_invariant(&*self);
            }
            if self.offset >= self.chars.len() {
                return None;
            }
            let ch = self.chars[self.offset];
            if (ch as u32) < 0x20 {
                return None;
            }
            if ch == '"' {
                self.offset = self.offset + 1;
                return Some(string);
            }
            if ch == '\\' {
                self.offset = self.offset + 1;
                if self.offset >= self.chars.len() {
                    return None;
                }
                let e = self.chars[self.offset];
                if e == 'u' {
                    self.offset = self.offset + 1;
                    if self.chars.len() - self.offset >= 4 {
                        match hex4_at(&self.chars, self.offset) {
                            Some(v) => match char_from_u32(v) {
                                Some(c) => {
                                    self.offset = self.offset + 4;
                                    string_push(&mut string, c);
                                },
                                None => {
                                    return None;
                                },
                            },
                            None => {
                                return None;
                            },
                        }
                    } else {
                        return None;
                    }
                } else {
                    match escape_char_of(e) {
                        Some(c) => {
                            self.offset = self.offset + 1;
                            string_push(&mut string, c);
                        },
                        None => {
                            return None;
                        },
                    }
                }
            } else {
                self.offset = self.offset + 1;
                string_push(&mut string, ch);
            }
        }
    }

    /// The (row, column) position of the current offset. Has to scan the
    /// source up to this point!
    pub fn pos(&self) -> (p: Pos)
        requires
            pos_fits(self.text(), self.at()),
        ensures
            p == pos_at(self.text(), self.at()),
    {
        proof {
            use_type_invariant(self);
        }
        let mut row: u32 = 0;
        let mut col: u16 = 0;
        let mut k: usize = 0;
        while k < self.offset
            invariant
                k <= self.offset <= self.chars@.len(),
                pos_fits(self.chars@, self.offset as nat),
                pos_count(self.chars@, k as nat) == (row as nat, col as nat),
            decreases self.offset - k,
        {
            let ch = self.chars[k];
            assert(pos_count(self.chars@, (k + 1) as nat).0 <= Row::MAX);
            if ch == '\n' {
                row = row + 1;
                col = 0;
            } else {
                col = col + utf8_len_of(ch);
            }
            k = k + 1;
        }
        Pos { row, col }
    }

    /// Read the next token. `None` means the source has run out.
    pub fn next(&mut self) -> (r: Option<Result<Token<'j>, ParseError>>)
        requires
            next_error_fits(old(self).text(), old(self).at()),
        ensures
            final(self).text() == old(self).text(),
            final(self).file() == old(self).file(),
            final(self).at() == next_token(old(self).text(), old(self).at()).1,
            final(self).at() <= final(self).text().len(),
            r is None <==> next_token(old(self).text(), old(self).at()).0 is None,
            next_token(old(self).text(), old(self).at()).0 matches Some(Ok(t)) ==> (r matches Some(
                Ok(tok),
            ) && tok@ == t),
            next_token(old(self).text(), old(self).at()).0 matches Some(Err(k)) ==> (r matches Some(
                Err(e),
            ) && error_at(
                e,
                old(self).file(),
                old(self).text(),
                final(self).at(),
                token_error_text(k).0,
                token_error_text(k).1,
            )),
    {
        let ghost s = old(self).text();
        proof {
            use_type_invariant(&*self);
            lemma_next_token_advances(s, old(self).at());
        }
        self.consume_whitespace();
        proof {
            use_type_invariant(&*self);
        }
        let p = self.offset;
        if p >= self.chars.len() {
            return None;
        }
        let c = self.chars[p];
        proof {
            reveal_strlit("null");
            reveal_strlit("true");
            reveal_strlit("false");
            assert("null"@ =~= seq!['n', 'u', 'l', 'l']);
            assert("true"@ =~= seq!['t', 'r', 'u', 'e']);
            assert("false"@ =~= seq!['f', 'a', 'l', 's', 'e']);
        }
        if c == 'n' {
            Some(self.consume_constant("null", Token::Null))
        } else if c == 't' {
            Some(self.consume_constant("true", Token::True))
        } else if c == 'f' {
            Some(self.consume_constant("false", Token::False))
        } else if c == '"' {
            match plain_close_of(&self.chars, p + 1) {
                Some(q) => {
                    let text = self.source.substring_char(p + 1, q);
                    self.offset = q + 1;
                    Some(Ok(Token::PlainString(text)))
                },
                None => {
                    match self.escape_string() {
                        Some(string) => Some(Ok(Token::EscapedString(string))),
                        None => Some(Err(self.error("Invalid string.", "invalid"))),
                    }
                },
            }
        } else if ('0' <= c && c <= '9') || c == '.' || c == '-' {
            match number_end_of(&self.chars, p) {
                Some(e) => {
                    let text = self.source.substring_char(p, e);
                    self.offset = e;
                    Some(Ok(Token::Number(text)))
                },
                None => Some(Err(self.error("Invalid number.", "invalid"))),
            }
        } else {
            match punct_token_of(c) {
                Some(t) => Some(Ok(self.consume_char(t))),
                None => Some(Err(self.error("Expected JSON value.", "expected value"))),
            }
        }
    }
}

} // verus!
