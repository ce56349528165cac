//! Errors found while parsing a file, with the line they were found on.

use vstd::prelude::*;
use vstd::string::*;
use crate::coord::{Col, Pos, Row};
use crate::strings::str_chars;
use crate::strings::{decimal, push_decimal, string_push};

verus! {

/// The index of the first line break at or after `i` (or the end of `s`).
pub open spec fn line_end(s: Seq<char>, i: nat) -> nat
    decreases s.len() - i,
{
    if i >= s.len() || s[i as int] == '\n' {
        i
    } else {
        line_end(s, i + 1)
    }
}

/// Line `n` (counting from the line that starts at `i`), as `str::lines`
/// yields it: without its `\n`, and without a `\r` just before that `\n`.
/// Empty past the last line.
pub open spec fn nth_line_from(s: Seq<char>, i: nat, n: nat) -> Seq<char>
    decreases s.len() - i,
{
    if i >= s.len() {
        Seq::empty()
    } else {
        let j = line_end(s, i);
        proof {
            lemma_line_end_bounds(s, i);
        }
        if n == 0 {
            let raw = s.subrange(i as int, j as int);
            if j < s.len() && raw.len() > 0 && raw.last() == '\r' {
                raw.drop_last()
            } else {
                raw
            }
        } else if j >= s.len() {
            Seq::empty()
        } else {
            nth_line_from(s, j + 1, (n - 1) as nat)
        }
    }
}

/// Line `n` of `s` (counting from 0), or empty if there is no such line.
pub open spec fn nth_line(s: Seq<char>, n: nat) -> Seq<char> {
    nth_line_from(s, 0, n)
}

pub proof fn lemma_line_end_bounds(s: Seq<char>, i: nat)
    ensures
        i <= s.len() ==> i <= line_end(s, i) <= s.len(),
        i <= s.len() ==> forall|k: int| i <= k < line_end(s, i) ==> s[k] != '\n',
        line_end(s, i) < s.len() ==> s[line_end(s, i) as int] == '\n',
    decreases s.len() - i,
{
    if i < s.len() && s[i as int] != '\n' {
        lemma_line_end_bounds(s, i + 1);
    }
}

/// Find the first line break at or after `i`.
pub fn find_line_end(s: &Vec<char>, i: usize) -> (j: usize)
    requires
        i <= s@.len(),
    ensures
        j == line_end(s@, i as nat),
{
    proof {
        lemma_line_end_bounds(s@, i as nat);
    }
    let mut j = i;
    while j < s.len() && s[j] != '\n'
        invariant
            i <= j <= s@.len(),
            line_end(s@, j as nat) == line_end(s@, i as nat),
        decreases s@.len() - j,
    {
        j = j + 1;
    }
    j
}

/// Line `n` of the characters `s`, as `str::lines` would give it (empty past the end).
pub fn nth_line_of(s: &Vec<char>, n: u32) -> (line: String)
    ensures
        line@ == nth_line(s@, n as nat),
{
    let mut i: usize = 0;
    let mut k: u32 = n;
    while i < s.len() && k > 0
        invariant
            i <= s@.len(),
            nth_line_from(s@, i as nat, k as nat) == nth_line(s@, n as nat),
        decreases s@.len() - i,
    {
        let j = find_line_end(s, i);
        proof {
            lemma_line_end_bounds(s@, i as nat);
        }
        if j >= s.len() {
            proof {
                assert(nth_line_from(s@, s@.len(), (k - 1) as nat) == Seq::<char>::empty());
            }
            i = s.len();
        } else {
            i = j + 1;
        }
        k = k - 1;
    }
    let mut line = String::new();
    if i >= s.len() {
        return line;
    }
    let j = find_line_end(s, i);
    proof {
        lemma_line_end_bounds(s@, i as nat);
    }
    let mut end = j;
    if j < s.len() && j > i && s[j - 1] == '\r' {
        end = j - 1;
    }
    let mut p = i;
    while p < end
        invariant
            i <= p <= end <= s@.len(),
            line@ == s@.subrange(i as int, p as int),
        decreases end - p,
    {
        string_push(&mut line, s[p]);
        p = p + 1;
        assert(line@ =~= s@.subrange(i as int, p as int));
    }
    proof {
        let raw = s@.subrange(i as int, j as int);
        assert(line@ =~= if j < s@.len() && raw.len() > 0 && raw.last() == '\r' {
            raw.drop_last()
        } else {
            raw
        });
    }
    line
}

/// A number of spaces.
pub open spec fn spaces(n: nat) -> Seq<char> {
    Seq::new(n, |i: int| ' ')
}

/// Where in a file a parse error was found.
#[derive(Debug)]
pub struct ParseErrorLocation {
    /// The position of the error (0-indexed).
    pub pos: Pos,
    /// The line the error is on.
    pub line: String,
    /// A short label for the error, shown under it.
    pub label: String,
}

/// An error while parsing a file. If a location is given, labels the line it's on.
#[derive(Debug)]
pub struct ParseError {
    pub file_name: String,
    pub message: String,
    pub location: Option<ParseErrorLocation>,
}

/// The text of a parse error without a location: `In file: message`.
pub open spec fn error_text_plain(file: Seq<char>, message: Seq<char>) -> Seq<char> {
    seq!['I', 'n', ' '] + file + seq![':', ' '] + message
}

/// The text of a parse error with a location: a header giving the 1-indexed
/// position, the line prefixed by its number, and a caret with the label
/// under the error's column.
pub open spec fn error_text_located(
    file: Seq<char>,
    message: Seq<char>,
    pos: Pos,
    line: Seq<char>,
    label: Seq<char>,
) -> Seq<char> {
    let row = decimal(pos.row as nat + 1);
    let col = decimal(pos.col as nat + 1);
    seq!['I', 'n', ' '] + file + seq![' ', 'a', 't', ' '] + row + seq![':'] + col + seq![':', ' ']
        + message + seq!['\n'] + row + seq![' ', '|'] + line + seq!['\n'] + spaces(
        row.len() + pos.col as nat + 1,
    ) + seq![' ', '^', ' '] + label
}

/// Append `n` spaces.
fn push_spaces(s: &mut String, n: usize)
    ensures
        final(s)@ == old(s)@ + spaces(n as nat),
{
    let mut i: usize = 0;
    while i < n
        invariant
            i <= n,
            s@ == old(s)@ + spaces(i as nat),
        decreases n - i,
    {
        string_push(s, ' ');
        i = i + 1;
        assert(s@ =~= old(s)@ + spaces(i as nat));
    }
}

/// Ten to the power `k`.
pub open spec fn pow10(k: nat) -> nat
    decreases k,
{
    if k == 0 {
        1
    } else {
        10 * pow10((k - 1) as nat)
    }
}

/// A number below `10^k` has at most `k` digits.
proof fn lemma_decimal_len(n: nat, k: nat)
    requires
        k >= 1,
        n < pow10(k),
    ensures
        decimal(n).len() <= k,
    decreases k,
{
    if n >= 10 {
        let p = pow10((k - 1) as nat);
        assert(pow10(k) == 10 * p);
        if k == 1 {
            assert(pow10(0) == 1);
        }
        assert(n / 10 < p) by (nonlinear_arith)
            requires
                n < 10 * p,
        ;
        lemma_decimal_len(n / 10, (k - 1) as nat);
    }
}

/// The number of decimal digits of `n`.
fn decimal_len(n: u32) -> (len: usize)
    ensures
        len == decimal(n as nat).len(),
        len <= 10,
    decreases n,
{
    proof {
        reveal_with_fuel(pow10, 11);
        lemma_decimal_len(n as nat, 10);
    }
    if n < 10 {
        1
    } else {
        decimal_len(n / 10) + 1
    }
}

impl ParseError {
    /// An error that is not tied to a position in the file.
    pub fn without_location(file_name: String, message: String) -> (e: ParseError)
        ensures
            e.file_name == file_name,
            e.message == message,
            e.location is None,
    {
        ParseError { file_name, message, location: None }
    }

    /// An error at `pos` in a file with contents `file_contents`; the line
    /// of the file that `pos` is on is kept, to be shown with the error.
    pub fn with_location(
        file_name: String,
        message: String,
        file_contents: &str,
        pos: Pos,
        label: String,
    ) -> (e: ParseError)
        ensures
            e.file_name == file_name,
            e.message == message,
            e.location matches Some(loc) && loc.pos == pos && loc.line@ == nth_line(
                file_contents@,
                pos.row as nat,
            ) && loc.label == label,
    {
        let chars = str_chars(file_contents);
        let line = nth_line_of(&chars, pos.row);
        ParseError { file_name, message, location: Some(ParseErrorLocation { pos, line, label }) }
    }

    /// The error as shown to the user, e.g.
    /// `In git-references.md: Bad writing.`, or, with a location,
    /// `In f.md at 17:4: Profane.`, the line, and a caret labelling the column.
    pub fn to_string(&self) -> (s: String)
        requires
            self.location matches Some(loc) ==> loc.pos.row < Row::MAX && loc.pos.col < Col::MAX,
        ensures
            self.location is None ==> s@ == error_text_plain(self.file_name@, self.message@),
            self.location matches Some(loc) ==> s@ == error_text_located(
                self.file_name@,
                self.message@,
                loc.pos,
                loc.line@,
                loc.label@,
            ),
    {
        let mut s = String::new();
        string_push(&mut s, 'I');
        string_push(&mut s, 'n');
        string_push(&mut s, ' ');
        s.append(self.file_name.as_str());
        match &self.location {
            None => {
                string_push(&mut s, ':');
                string_push(&mut s, ' ');
                s.append(self.message.as_str());
                assert(s@ =~= error_text_plain(self.file_name@, self.message@));
                s
            },
            Some(loc) => {
                let row = loc.pos.row + 1;
                let col = loc.pos.col + 1;
                string_push(&mut s, ' ');
                string_push(&mut s, 'a');
                string_push(&mut s, 't');
                string_push(&mut s, ' ');
                push_decimal(&mut s, row as u64);
                string_push(&mut s, ':');
                push_decimal(&mut s, col as u64);
                string_push(&mut s, ':');
                string_push(&mut s, ' ');
                s.append(self.message.as_str());
                string_push(&mut s, '\n');
                push_decimal(&mut s, row as u64);
                string_push(&mut s, ' ');
                string_push(&mut s, '|');
                s.append(loc.line.as_str());
                string_push(&mut s, '\n');
                let spacing = decimal_len(row) + col as usize;
                push_spaces(&mut s, spacing);
                string_push(&mut s, ' ');
                string_push(&mut s, '^');
                string_push(&mut s, ' ');
                s.append(loc.label.as_str());
                assert(s@ =~= error_text_located(
                    self.file_name@,
                    self.message@,
                    loc.pos,
                    loc.line@,
                    loc.label@,
                ));
                s
            },
        }
    }
}

} // verus!
