//! Rewriting hole markers in source text before it is handed to a parser.

use vstd::prelude::*;
use vstd::string::*;
use crate::strings::{occurs_at, push_str, str_chars, string_push};

verus! {

/// `s` with every match of `from` replaced by `to`, matches taken from the
/// left without overlapping (as `str::replace` does). An empty `from`
/// matches before every character and at the end.
pub open spec fn replaced(s: Seq<char>, from: Seq<char>, to: Seq<char>) -> Seq<char>
    decreases s.len(),
{
    if from.len() == 0 {
        if s.len() == 0 {
            to
        } else {
            to + seq![s[0]] + replaced(s.drop_first(), from, to)
        }
    } else if s.len() < from.len() {
        s
    } else if s.subrange(0, from.len() as int) == from {
        to + replaced(s.skip(from.len() as int), from, to)
    } else {
        seq![s[0]] + replaced(s.drop_first(), from, to)
    }
}

/// Convert holes in `source` from `invalid_hole_syntax` to
/// `valid_hole_syntax`, so that a standard parser for the language can read it.
pub fn preprocess(source: &str, invalid_hole_syntax: &str, valid_hole_syntax: &str) -> (r: String)
    ensures
        r@ == replaced(source@, invalid_hole_syntax@, valid_hole_syntax@),
{
    let ghost from = invalid_hole_syntax@;
    let ghost to = valid_hole_syntax@;
    let s = str_chars(source);
    let p = str_chars(invalid_hole_syntax);
    let n = s.len();
    let m = p.len();
    let mut out = String::new();
    let mut i: usize = 0;
    assert(s@.skip(0) =~= s@);
    while i < n
        invariant
            s@ == source@,
            from == invalid_hole_syntax@,
            to == valid_hole_syntax@,
            p@ == from,
            n == s@.len(),
            m == p@.len(),
            i <= n,
            out@ + replaced(s@.skip(i as int), from, to) == replaced(source@, from, to),
        decreases n - i,
    {
        let ghost rest = s@.skip(i as int);
        let ghost before = out@;
        let ghost i0 = i;
        assert(rest[0] == s@[i0 as int]);
        if m == 0 {
            assert(replaced(rest, from, to) == to + seq![rest[0]] + replaced(rest.drop_first(), from, to));
            push_str(&mut out, valid_hole_syntax);
            string_push(&mut out, s[i]);
            assert(out@ =~= before + to + seq![rest[0]]);
            i = i + 1;
            assert(rest.drop_first() =~= s@.skip(i as int));
            assert(out@ + replaced(s@.skip(i as int), from, to) =~= before + replaced(rest, from, to));
        } else if n - i >= m && occurs_at(&s, i, &p) {
            push_str(&mut out, valid_hole_syntax);
            assert(rest.subrange(0, m as int) =~= s@.subrange(i as int, i + m));
            assert(replaced(rest, from, to) == to + replaced(rest.skip(m as int), from, to));
            assert(out@ =~= before + to);
            i = i + m;
            assert(rest.skip(m as int) =~= s@.skip(i as int));
            assert(out@ + replaced(s@.skip(i as int), from, to) =~= before + replaced(rest, from, to));
        } else {
            string_push(&mut out, s[i]);
            proof {
                if rest.len() >= m {
                    assert(rest.subrange(0, m as int) =~= s@.subrange(i as int, i + m));
                }
            }
            assert(replaced(rest, from, to) == seq![rest[0]] + replaced(rest.drop_first(), from, to));
            i = i + 1;
            assert(rest.drop_first() =~= s@.skip(i as int));
            assert(out@ + replaced(s@.skip(i as int), from, to) =~= before + replaced(rest, from, to));
        }
    }
    if m == 0 {
        push_str(&mut out, valid_hole_syntax);
    }
    assert(s@.skip(n as int) =~= Seq::<char>::empty());
    assert(out@ =~= replaced(source@, from, to));
    out
}

} // verus!
