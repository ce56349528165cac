//! The report shown when the editor finds a bug in itself.

use vstd::prelude::*;
use crate::parse_error::{find_line_end, lemma_line_end_bounds, line_end, nth_line_from};
use crate::strings::{push_str, str_chars, string_push};

verus! {

/// Versions of `.unwrap()` and `.expect()`, for values that are known to be
/// there: the caller shows that a value is held.
pub trait SynlessBug<T>: Sized {
    /// Whether a value is held.
    spec fn holds_value(&self) -> bool;

    /// The value held.
    spec fn held_value(&self) -> T;

    /// Like `.unwrap()`.
    fn bug(self) -> (t: T)
        requires
            self.holds_value(),
        ensures
            t == self.held_value(),
    ;

    /// Like `.expect()`.
    fn bug_msg(self, msg: &str) -> (t: T)
        requires
            self.holds_value(),
        ensures
            t == self.held_value(),
    ;
}

impl<T> SynlessBug<T> for Option<T> {
    open spec fn holds_value(&self) -> bool {
        self is Some
    }

    open spec fn held_value(&self) -> T {
        self->0
    }

    fn bug(self) -> (t: T) {
        match self {
            Some(val) => val,
            None => unreached(),
        }
    }

    fn bug_msg(self, msg: &str) -> (t: T) {
        match self {
            Some(val) => val,
            None => unreached(),
        }
    }
}

impl<T, E> SynlessBug<T> for Result<T, E> {
    open spec fn holds_value(&self) -> bool {
        self is Ok
    }

    open spec fn held_value(&self) -> T {
        self->Ok_0
    }

    fn bug(self) -> (t: T) {
        match self {
            Ok(ok) => ok,
            Err(_) => unreached(),
        }
    }

    fn bug_msg(self, msg: &str) -> (t: T) {
        match self {
            Ok(ok) => ok,
            Err(_) => unreached(),
        }
    }
}

/// Each line of `s` from index `i` on (as `str::lines` splits it), each
/// put on a new line after an indented `***`.
pub open spec fn report_lines(s: Seq<char>, i: nat) -> Seq<char>
    decreases s.len() - i,
{
    if i >= s.len() {
        Seq::empty()
    } else {
        let j = line_end(s, i);
        proof {
            lemma_line_end_bounds(s, i);
        }
        "\n***   "@ + nth_line_from(s, i, 0) + if j >= s.len() {
            Seq::empty()
        } else {
            report_lines(s, j + 1)
        }
    }
}

/// The text of a bug report for a bug found at `location`, with `message`.
pub open spec fn bug_report(location: Seq<char>, message: Seq<char>) -> Seq<char> {
    "\n*** Bug in Synless."@
        + "\n*** Please open an issue at https://github.com/justinpombrio/synless/issues."@
        + "\n*** Location:"@ + "\n***   "@ + location + "\n*** Error message:"@ + report_lines(
        message,
        0,
    ) + seq!['\n']
}

/// Append the characters of `s` from `from` up to `to`.
fn push_range(out: &mut String, s: &Vec<char>, from: usize, to: usize)
    requires
        from <= to <= s@.len(),
    ensures
        final(out)@ == old(out)@ + s@.subrange(from as int, to as int),
{
    let mut p = from;
    while p < to
        invariant
            from <= p <= to <= s@.len(),
            out@ == old(out)@ + s@.subrange(from as int, p as int),
        decreases to - p,
    {
        string_push(out, s[p]);
        p = p + 1;
        assert(out@ =~= old(out)@ + s@.subrange(from as int, p as int));
    }
}

/// The report shown for a bug in the editor, found at `location`, with
/// `message` (each line of it indented).
pub fn format_bug(location: String, message: String) -> (r: String)
    ensures
        r@ == bug_report(location@, message@),
{
    let mut output = String::new();
    push_str(&mut output, "\n*** Bug in Synless.");
    push_str(&mut output, "\n*** Please open an issue at https://github.com/justinpombrio/synless/issues.");
    push_str(&mut output, "\n*** Location:");
    push_str(&mut output, "\n***   ");
    push_str(&mut output, location.as_str());
    push_str(&mut output, "\n*** Error message:");
    let ghost head = output@;
    let m = str_chars(message.as_str());
    let mut i: usize = 0;
    while i < m.len()
        invariant
            m@ == message@,
            i <= m@.len(),
            output@ + report_lines(m@, i as nat) == head + report_lines(m@, 0),
        decreases m@.len() - i,
    {
        let ghost before = output@;
        let ghost i0 = i as nat;
        let j = find_line_end(&m, i);
        proof {
            lemma_line_end_bounds(m@, i as nat);
        }
        let mut end = j;
        if j < m.len() && j > i && m[j - 1] == '\r' {
            end = j - 1;
        }
        push_str(&mut output, "\n***   ");
        push_range(&mut output, &m, i, end);
        proof {
            let raw = m@.subrange(i as int, j as int);
            assert(m@.subrange(i as int, end as int) =~= nth_line_from(m@, i as nat, 0)) by {
                if j < m@.len() && raw.len() > 0 && raw.last() == '\r' {
                    assert(raw.drop_last() =~= m@.subrange(i as int, end as int));
                }
            }
        }
        assert(report_lines(m@, i0) == "\n***   "@ + nth_line_from(m@, i0, 0) + if j >= m@.len() {
            Seq::<char>::empty()
        } else {
            report_lines(m@, (j + 1) as nat)
        });
        if j >= m.len() {
            i = m.len();
            assert(output@ + report_lines(m@, i as nat) =~= before + report_lines(m@, i0));
        } else {
            i = j + 1;
            assert(output@ + report_lines(m@, i as nat) =~= before + report_lines(m@, i0));
        }
    }
    string_push(&mut output, '\n');
    output
}

} // verus!
