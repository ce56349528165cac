//! Matching a notation set's notations to the constructs of a grammar, by
//! construct name.

use vstd::prelude::*;
use crate::grammar::LanguageError;

verus! {

/// The name of the construct of a hole, whose notation every set is given.
pub const HOLE_NAME: &'static str = "$hole";

/// The text of each name, in order.
pub open spec fn texts(names: Seq<String>) -> Seq<Seq<char>> {
    names.map_values(|n: String| n@)
}

/// The names a notation set has notations for: those it lists, then the hole.
pub open spec fn notation_names(notations: Seq<String>) -> Seq<Seq<char>> {
    texts(notations).push(HOLE_NAME@)
}

/// Is the name at `j` the same as one before it?
pub open spec fn repeats_earlier(names: Seq<Seq<char>>, j: int) -> bool {
    exists|i: int| 0 <= i < j && names[i] == names[j]
}

/// Does construct `k` find no notation? Either no notation has its name, or
/// an earlier construct of the same name took that notation.
pub open spec fn finds_none(names: Seq<Seq<char>>, constructs: Seq<Seq<char>>, k: int) -> bool {
    !names.contains(constructs[k]) || constructs.subrange(0, k).contains(constructs[k])
}

/// No name occurs twice, and every construct finds a notation.
pub open spec fn no_failure_before(names: Seq<Seq<char>>, constructs: Seq<Seq<char>>) -> bool {
    &&& names.no_duplicates()
    &&& forall|k: int| 0 <= k < constructs.len() ==> !#[trigger] finds_none(names, constructs, k)
}

/// A sequence where nothing repeats an earlier item has no duplicates.
proof fn lemma_no_repeats(names: Seq<Seq<char>>)
    requires
        forall|j: int| 0 <= j < names.len() ==> !#[trigger] repeats_earlier(names, j),
    ensures
        names.no_duplicates(),
{
    assert forall|i: int, j: int| 0 <= i < names.len() && 0 <= j < names.len() && i != j implies
        names[i] != names[j] by {
        if i < j {
            if names[i] == names[j] {
                assert(repeats_earlier(names, j));
            }
        } else {
            if names[i] == names[j] {
                assert(repeats_earlier(names, i));
            }
        }
    }
}

/// Where in `names` the text `t` is, if anywhere.
fn position_of(names: &Vec<String>, t: &String) -> (r: Option<usize>)
    ensures
        r matches Some(p) ==> p < names@.len() && names@[p as int]@ == t@ && forall|q: int|
            0 <= q < p ==> names@[q]@ != t@,
        r is None ==> !texts(names@).contains(t@),
{
    let mut p: usize = 0;
    while p < names.len()
        invariant
            p <= names@.len(),
            forall|q: int| 0 <= q < p ==> names@[q]@ != t@,
        decreases names@.len() - p,
    {
        if names[p] == *t {
            return Some(p);
        }
        p += 1;
    }
    proof {
        if texts(names@).contains(t@) {
            let q = texts(names@).index_of(t@);
            assert(names@[q]@ == t@);
        }
    }
    None
}

/// Checks the names of a notation set against a grammar's constructs, after
/// giving the set a notation for the hole (at the end). A name that occurs
/// twice is `DuplicateNotation`, the first that repeats an earlier one;
/// failing that, a construct that finds no notation is `MissingNotation`, the
/// first in grammar order; failing that, a notation whose name is no
/// construct is `UndefinedNotation`. Otherwise the result gives, for each
/// construct in grammar order, the position of its notation.
pub fn check_notation_names(set: &str, notations: &Vec<String>, constructs: &Vec<String>) -> (r:
    Result<Vec<usize>, LanguageError>)
    ensures
        r matches Err(LanguageError::DuplicateNotation(s, n)) ==> s@ == set@ && exists|j: int|
            0 <= j < notation_names(notations@).len() && #[trigger] repeats_earlier(
                notation_names(notations@),
                j,
            ) && notation_names(notations@)[j] == n@ && forall|i: int|
                0 <= i < j ==> !repeats_earlier(notation_names(notations@), i),
        r matches Err(LanguageError::MissingNotation(c)) ==> notation_names(
            notations@,
        ).no_duplicates() && exists|k: int|
            0 <= k < constructs@.len() && #[trigger] finds_none(
                notation_names(notations@),
                texts(constructs@),
                k,
            ) && constructs@[k]@ == c@ && forall|i: int|
                0 <= i < k ==> !finds_none(notation_names(notations@), texts(constructs@), i),
        r matches Err(LanguageError::UndefinedNotation(s, n)) ==> s@ == set@ && no_failure_before(
            notation_names(notations@),
            texts(constructs@),
        ) && notation_names(notations@).contains(n@) && !texts(constructs@).contains(n@),
        r matches Ok(v) ==> no_failure_before(notation_names(notations@), texts(constructs@))
            && forall|j: int|
            0 <= j < notation_names(notations@).len() ==> texts(constructs@).contains(
                #[trigger] notation_names(notations@)[j],
            ) && v@.len() == constructs@.len() && forall|k: int|
            0 <= k < constructs@.len() ==> v@[k] < notation_names(notations@).len()
                && notation_names(notations@)[v@[k] as int] == #[trigger] constructs@[k]@,
        r is Err ==> r matches Err(LanguageError::DuplicateNotation(_, _)) || r matches Err(
            LanguageError::MissingNotation(_),
        ) || r matches Err(LanguageError::UndefinedNotation(_, _)),
{
    let ghost names_v = notation_names(notations@);
    let ghost cs = texts(constructs@);
    // The set's names, with the hole's at the end.
    let mut names: Vec<String> = Vec::new();
    let mut i: usize = 0;
    while i < notations.len()
        invariant
            i <= notations@.len(),
            names@.len() == i,
            texts(names@) == texts(notations@).subrange(0, i as int),
        decreases notations@.len() - i,
    {
        let ghost old_names = names@;
        let name = notations[i].clone();
        assert(name@ == notations@[i as int]@);
        names.push(name);
        proof {
            let a = texts(names@);
            let b = texts(notations@).subrange(0, i + 1);
            assert(a.len() == b.len());
            assert forall|x: int| 0 <= x < a.len() implies a[x] == b[x] by {
                if x < i {
                    assert(names@[x] == old_names[x]);
                    assert(texts(old_names)[x] == old_names[x]@);
                }
            }
            assert(a =~= b);
        }
        i += 1;
    }
    let hole = HOLE_NAME.to_string();
    assert(hole@ == HOLE_NAME@);
    names.push(hole);
    proof {
        assert(names@.len() == notations@.len() + 1);
        assert(texts(notations@).len() == notations@.len());
        assert(names_v.len() == notations@.len() + 1);
        assert forall|x: int| 0 <= x < names@.len() implies texts(names@)[x] == names_v[x] by {
            if x < notations@.len() {
                assert(texts(names@)[x] == texts(notations@).subrange(0, notations@.len() as int)[x]);
            }
        }
        assert(texts(names@) =~= names_v);
    }
    // No name may repeat an earlier one.
    let mut j: usize = 0;
    while j < names.len()
        invariant
            j <= names@.len(),
            texts(names@) == names_v,
            names_v == notation_names(notations@),
            names@.len() == names_v.len(),
            forall|q: int| 0 <= q < j ==> !#[trigger] repeats_earlier(names_v, q),
        decreases names@.len() - j,
    {
        let mut p: usize = 0;
        while p < j
            invariant
                p <= j < names@.len(),
                texts(names@) == names_v,
                names_v == notation_names(notations@),
                names@.len() == names_v.len(),
                forall|q: int| 0 <= q < j ==> !#[trigger] repeats_earlier(names_v, q),
                forall|q: int| 0 <= q < p ==> names_v[q] != names_v[j as int],
            decreases j - p,
        {
            if names[p] == names[j] {
                proof {
                    assert(names_v[p as int] == names_v[j as int]);
                    assert(repeats_earlier(names_v, j as int));
                }
                let st = set.to_string();
                let n = names[j].clone();
                proof {
                    assert(st@ == set@);
                    assert(n@ == names_v[j as int]);
                }
                return Err(LanguageError::DuplicateNotation(st, n));
            }
            p += 1;
        }
        j += 1;
    }
    proof {
        lemma_no_repeats(names_v);
    }
    // Each construct takes the notation of its name.
    let mut found: Vec<usize> = Vec::new();
    assert(cs.len() == constructs@.len());
    let mut k: usize = 0;
    while k < constructs.len()
        invariant
            k <= constructs@.len(),
            texts(names@) == names_v,
            names_v == notation_names(notations@),
            names@.len() == names_v.len(),
            names_v.no_duplicates(),
            cs == texts(constructs@),
            found@.len() == k,
            forall|q: int| 0 <= q < k ==> !#[trigger] finds_none(names_v, cs, q),
            forall|q: int|
                #![trigger found@[q]]
                0 <= q < k ==> found@[q] < names_v.len() && names_v[found@[q] as int] == cs[q],
        decreases constructs@.len() - k,
    {
        match position_of(constructs, &constructs[k]) {
            Some(e) => {
                if e < k {
                    proof {
                        assert(cs.subrange(0, k as int)[e as int] == cs[k as int]);
                        assert(finds_none(names_v, cs, k as int));
                    }
                    let c = constructs[k].clone();
                    proof {
                        assert(c@ == cs[k as int]);
                    }
                    return Err(LanguageError::MissingNotation(c));
                }
                proof {
                    assert forall|x: int| 0 <= x < k implies cs.subrange(0, k as int)[x]
                        != cs[k as int] by {
                        assert(constructs@[x]@ != constructs@[k as int]@);
                    }
                }
            },
            None => {
                proof {
                    assert(texts(constructs@)[k as int] == constructs@[k as int]@);
                }
            },
        }
        assert(!cs.subrange(0, k as int).contains(cs[k as int]));
        let at = position_of(&names, &constructs[k]);
        proof {
            assert(cs[k as int] == constructs@[k as int]@);
        }
        match at {
            None => {
                proof {
                    assert(finds_none(names_v, cs, k as int));
                }
                let c = constructs[k].clone();
                proof {
                    assert(c@ == cs[k as int]);
                }
                return Err(LanguageError::MissingNotation(c));
            },
            Some(p) => {
                proof {
                    assert(names_v[p as int] == cs[k as int]);
                    assert(names_v.contains(cs[k as int]));
                }
                let ghost old_found = found@;
                found.push(p);
                proof {
                    assert forall|x: int| 0 <= x < k + 1 implies #[trigger] found@[x] < names_v.len()
                        && names_v[found@[x] as int] == cs[x] by {
                        if x < k {
                            assert(found@[x] == old_found[x]);
                            assert(old_found[x] < names_v.len() && names_v[old_found[x] as int]
                                == cs[x]);
                        } else {
                            assert(found@[x] == p);
                            assert(p < names_v.len());
                            assert(names_v[p as int] == cs[x]);
                        }
                    }
                }
            },
        }
        k += 1;
    }
    // Every notation must be for a construct.
    let mut q: usize = 0;
    while q < names.len()
        invariant
            q <= names@.len(),
            texts(names@) == names_v,
            names_v == notation_names(notations@),
            names@.len() == names_v.len(),
            cs == texts(constructs@),
            no_failure_before(names_v, cs),
            found@.len() == constructs@.len(),
            forall|x: int|
                #![trigger found@[x]]
                0 <= x < constructs@.len() ==> found@[x] < names_v.len() && names_v[found@[x] as int]
                    == cs[x],
            forall|e: int| 0 <= e < q ==> cs.contains(#[trigger] names_v[e]),
        decreases names@.len() - q,
    {
        match position_of(constructs, &names[q]) {
            None => {
                proof {
                    assert(names_v[q as int] == names@[q as int]@);
                    assert(names_v.contains(names@[q as int]@));
                }
                let st = set.to_string();
                let n = names[q].clone();
                proof {
                    assert(st@ == set@);
                    assert(n@ == names_v[q as int]);
                    assert(!cs.contains(n@));
                }
                return Err(LanguageError::UndefinedNotation(st, n));
            },
            Some(c) => {
                proof {
                    assert(cs[c as int] == names_v[q as int]);
                }
            },
        }
        q += 1;
    }
    Ok(found)
}

} // verus!
