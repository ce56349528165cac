//! Key bindings: the program a key runs, in general or while a candidate of
//! a menu is selected.
//!
//! Each set of bindings keeps its keys in the order they were first bound;
//! binding a key again replaces its program in place.

use vstd::prelude::*;
use crate::key::Key;
use crate::stack::{op_d, ops_d, value_d, Op, OpD, Prog, Value, ValueD};
use crate::strings::{contains_text, is_infix};

verus! {

/// The keys of an ordered map, in order.
pub open spec fn keys_of<K, V>(m: Seq<(K, V)>) -> Seq<K> {
    m.map_values(|e: (K, V)| e.0)
}

/// The ordered map `m` with `k` bound to `v`: in place if `k` is bound
/// already, else at the end.
pub open spec fn put<K, V>(m: Seq<(K, V)>, k: K, v: V) -> Seq<(K, V)> {
    if keys_of(m).contains(k) {
        m.update(keys_of(m).index_of(k), (k, v))
    } else {
        m.push((k, v))
    }
}

/// The ordered map `m` with each binding of `o` put in it, in order.
pub open spec fn put_all<K, V>(m: Seq<(K, V)>, o: Seq<(K, V)>) -> Seq<(K, V)>
    decreases o.len(),
{
    if o.len() == 0 {
        m
    } else {
        put(put_all(m, o.drop_last()), o.last().0, o.last().1)
    }
}

/// A named program of a key binding, as the specification sees it.
pub struct KeyProgV {
    pub name: Seq<char>,
    pub exit_menu: bool,
    pub push_candidate_value: bool,
    pub prog: Seq<OpD>,
}

/// A named program that can be used in a key binding. It stands for the
/// program that first exits the menu if `exit_menu`, then pushes the
/// selected candidate if `push_candidate_value`, then runs `prog`.
struct KeyProg {
    name: String,
    exit_menu: bool,
    push_candidate_value: bool,
    prog: Prog,
}

spec fn key_prog_v(k: KeyProg) -> KeyProgV {
    KeyProgV {
        name: k.name@,
        exit_menu: k.exit_menu,
        push_candidate_value: k.push_candidate_value,
        prog: ops_d(k.prog@),
    }
}

/// A set of bindings, as the specification sees it.
spec fn bindings_v(m: Seq<(Key, KeyProg)>) -> Seq<(Key, KeyProgV)> {
    m.map_values(|e: (Key, KeyProg)| (e.0, key_prog_v(e.1)))
}

/// The bindings per candidate, as the specification sees them.
spec fn nested_v(m: Seq<(String, Vec<(Key, KeyProg)>)>) -> Seq<(Seq<char>, Seq<(Key, KeyProgV)>)> {
    m.map_values(|e: (String, Vec<(Key, KeyProg)>)| (e.0@, bindings_v(e.1@)))
}

/// The literal candidates, as the specification sees them.
spec fn literals_v(m: Seq<(String, Value)>) -> Seq<(Seq<char>, ValueD)> {
    m.map_values(|e: (String, Value)| (e.0@, value_d(e.1)))
}

/// What a keymap holds: the general bindings; the bindings for each
/// non-literal candidate; the bindings for literal candidates; the literal
/// candidates with the value each pushes; the bindings for a custom
/// candidate.
pub struct KeymapV {
    pub general: Seq<(Key, KeyProgV)>,
    pub non_literal: Seq<(Seq<char>, Seq<(Key, KeyProgV)>)>,
    pub literal: Seq<(Key, KeyProgV)>,
    pub literals: Seq<(Seq<char>, ValueD)>,
    pub custom: Seq<(Key, KeyProgV)>,
}

/// Key bindings. All methods that add bindings overwrite existing bindings.
pub struct Keymap {
    /// If the user types `Key`, execute `KeyProg`.
    general_bindings: Vec<(Key, KeyProg)>,
    /// If the user types `Key` while `String` is selected, execute `KeyProg`.
    non_literal_bindings: Vec<(String, Vec<(Key, KeyProg)>)>,
    /// If the user types `Key` while any of `literals` is selected, push the
    /// literal candidate's `Value` and then execute `KeyProg`.
    literal_bindings: Vec<(Key, KeyProg)>,
    /// The literal candidates. Each has a display name and a value to push.
    literals: Vec<(String, Value)>,
    /// If the user types `Key` while a custom candidate is selected, push its
    /// string and execute `KeyProg`.
    custom_bindings: Vec<(Key, KeyProg)>,
}

impl View for Keymap {
    type V = KeymapV;

    closed spec fn view(&self) -> KeymapV {
        KeymapV {
            general: bindings_v(self.general_bindings@),
            non_literal: nested_v(self.non_literal_bindings@),
            literal: bindings_v(self.literal_bindings@),
            literals: literals_v(self.literals@),
            custom: bindings_v(self.custom_bindings@),
        }
    }
}

/// Each binding of `m` has the given `push_candidate_value`.
pub open spec fn pushes(m: Seq<(Key, KeyProgV)>, push: bool) -> bool {
    forall|i: int| 0 <= i < m.len() ==> (#[trigger] m[i]).1.push_candidate_value == push
}

/// A keymap lists each key, candidate and literal at most once per set, and
/// only the bindings for literal and custom candidates push the candidate.
pub open spec fn keymap_wf(v: KeymapV) -> bool {
    &&& keys_of(v.general).no_duplicates()
    &&& keys_of(v.non_literal).no_duplicates()
    &&& forall|i: int|
        0 <= i < v.non_literal.len() ==> keys_of(#[trigger] v.non_literal[i].1).no_duplicates()
            && pushes(v.non_literal[i].1, false)
    &&& keys_of(v.literal).no_duplicates()
    &&& keys_of(v.literals).no_duplicates()
    &&& keys_of(v.custom).no_duplicates()
    &&& pushes(v.general, false)
    &&& pushes(v.literal, true)
    &&& pushes(v.custom, true)
}

/// In a sequence without duplicates, an item's first index is where it is.
proof fn lemma_index_of_unique<A>(s: Seq<A>, i: int)
    requires
        s.no_duplicates(),
        0 <= i < s.len(),
    ensures
        s.index_of(s[i]) == i,
{
    assert(s.contains(s[i]));
}

/// Putting a binding keeps the keys free of duplicates, and gives the keys
/// one more key at the end if the key is new.
proof fn lemma_put_keys<K, V>(m: Seq<(K, V)>, k: K, v: V)
    requires
        keys_of(m).no_duplicates(),
    ensures
        keys_of(put(m, k, v)).no_duplicates(),
        keys_of(m).contains(k) ==> keys_of(put(m, k, v)) == keys_of(m),
        !keys_of(m).contains(k) ==> keys_of(put(m, k, v)) == keys_of(m).push(k),
        put(m, k, v).len() >= m.len(),
        forall|j: int|
            0 <= j < m.len() && m[j].0 != k ==> #[trigger] put(m, k, v)[j] == m[j],
        forall|j: int|
            0 <= j < put(m, k, v).len() && put(m, k, v)[j].0 == k ==> #[trigger] put(m, k, v)[j]
                == (k, v),
{
    if keys_of(m).contains(k) {
        let i = keys_of(m).index_of(k);
        assert(keys_of(put(m, k, v)) =~= keys_of(m));
        assert forall|j: int|
            0 <= j < put(m, k, v).len() && put(m, k, v)[j].0 == k implies #[trigger] put(
            m,
            k,
            v,
        )[j] == (k, v) by {
            if j != i {
                assert(keys_of(m)[j] == k);
                assert(keys_of(m)[i] == k);
            }
        }
    } else {
        assert(keys_of(put(m, k, v)) =~= keys_of(m).push(k));
        assert forall|j: int|
            0 <= j < put(m, k, v).len() && put(m, k, v)[j].0 == k implies #[trigger] put(
            m,
            k,
            v,
        )[j] == (k, v) by {
            if j < m.len() {
                assert(keys_of(m)[j] == k);
            }
        }
    }
}

/// Bind `k` to `kp` in the bindings `m`.
fn put_binding(m: &mut Vec<(Key, KeyProg)>, k: Key, kp: KeyProg)
    requires
        keys_of(bindings_v(old(m)@)).no_duplicates(),
    ensures
        bindings_v(final(m)@) == put(bindings_v(old(m)@), k, key_prog_v(kp)),
        keys_of(bindings_v(final(m)@)).no_duplicates(),
{
    let ghost mv = bindings_v(m@);
    let ghost kv = key_prog_v(kp);
    proof {
        lemma_put_keys(mv, k, kv);
    }
    let mut i: usize = 0;
    let mut found: Option<usize> = None;
    while i < m.len()
        invariant_except_break
            found is None,
        invariant
            i <= m@.len(),
            mv == bindings_v(m@),
            keys_of(mv).no_duplicates(),
            forall|j: int| 0 <= j < i ==> m@[j].0 != k,
        ensures
            found matches Some(x) ==> x < m@.len() && m@[x as int].0 == k,
            found is None ==> forall|j: int| 0 <= j < m@.len() ==> m@[j].0 != k,
        decreases m@.len() - i,
    {
        if m[i].0 == k {
            found = Some(i);
            break;
        }
        i += 1;
    }
    match found {
        Some(i) => {
            proof {
                assert(keys_of(mv)[i as int] == k);
                lemma_index_of_unique(keys_of(mv), i as int);
            }
            m.set(i, (k, kp));
            proof {
                assert(bindings_v(m@) =~= put(mv, k, kv));
            }
        },
        None => {
            proof {
                assert(!keys_of(mv).contains(k)) by {
                    if keys_of(mv).contains(k) {
                        let j = keys_of(mv).index_of(k);
                        assert(m@[j].0 == k);
                    }
                }
            }
            m.push((k, kp));
            proof {
                assert(bindings_v(m@) =~= put(mv, k, kv));
            }
        },
    }
}

/// What every binding of `m` and the new binding have, every binding of
/// `put(m, k, v)` has.
proof fn lemma_put_keeps<K, V>(m: Seq<(K, V)>, k: K, v: V, p: spec_fn((K, V)) -> bool)
    requires
        forall|i: int| 0 <= i < m.len() ==> p(#[trigger] m[i]),
        p((k, v)),
    ensures
        forall|i: int| 0 <= i < put(m, k, v).len() ==> p(#[trigger] put(m, k, v)[i]),
{
}

/// The bindings for the candidate `c` in `m`, if any.
pub open spec fn bindings_for(
    m: Seq<(Seq<char>, Seq<(Key, KeyProgV)>)>,
    c: Seq<char>,
) -> Seq<(Key, KeyProgV)> {
    if keys_of(m).contains(c) {
        m[keys_of(m).index_of(c)].1
    } else {
        Seq::empty()
    }
}

/// The program of a binding made with `name`, `prog` and `exit_menu`.
pub open spec fn binding(name: Seq<char>, prog: Seq<OpD>, exit_menu: bool, push: bool) -> KeyProgV {
    KeyProgV { name, exit_menu, push_candidate_value: push, prog }
}

impl Keymap {
    /// The keymap's invariant.
    pub closed spec fn wf(&self) -> bool {
        keymap_wf(self@)
    }

    /// A keymap with no bindings and no candidates.
    pub fn new() -> (k: Keymap)
        ensures
            k.wf(),
            k@.general.len() == 0,
            k@.non_literal.len() == 0,
            k@.literal.len() == 0,
            k@.literals.len() == 0,
            k@.custom.len() == 0,
    {
        let k = Keymap {
            general_bindings: Vec::new(),
            non_literal_bindings: Vec::new(),
            literal_bindings: Vec::new(),
            literals: Vec::new(),
            custom_bindings: Vec::new(),
        };
        assert(keys_of(k@.general) =~= Seq::empty());
        assert(keys_of(k@.non_literal) =~= Seq::empty());
        assert(keys_of(k@.literal) =~= Seq::empty());
        assert(keys_of(k@.literals) =~= Seq::empty());
        assert(keys_of(k@.custom) =~= Seq::empty());
        k
    }
}

impl Keymap {
    /// If the user types `key`, execute `prog`, potentially after exiting the
    /// menu. Use `name` when displaying this binding.
    pub fn bind_key(&mut self, key: Key, name: String, prog: Prog, exit_menu: bool)
        requires
            old(self).wf(),
        ensures
            final(self).wf(),
            final(self)@.general == put(
                old(self)@.general,
                key,
                binding(name@, ops_d(prog@), exit_menu, false),
            ),
            final(self)@.non_literal == old(self)@.non_literal,
            final(self)@.literal == old(self)@.literal,
            final(self)@.literals == old(self)@.literals,
            final(self)@.custom == old(self)@.custom,
    {
        let ghost kv = binding(name@, ops_d(prog@), exit_menu, false);
        let ghost g0 = self@.general;
        put_binding(
            &mut self.general_bindings,
            key,
            KeyProg { name, exit_menu, push_candidate_value: false, prog },
        );
        proof {
            lemma_put_keeps(g0, key, kv, |e: (Key, KeyProgV)| e.1.push_candidate_value == false);
        }
    }

    /// If the user types `key` while a literal candidate is selected, push
    /// that candidate and then execute `prog`, potentially after exiting the
    /// menu. Use `name` when displaying this binding.
    pub fn bind_key_for_literal_candidates(
        &mut self,
        key: Key,
        name: String,
        prog: Prog,
        exit_menu: bool,
    )
        requires
            old(self).wf(),
        ensures
            final(self).wf(),
            final(self)@.literal == put(
                old(self)@.literal,
                key,
                binding(name@, ops_d(prog@), exit_menu, true),
            ),
            final(self)@.general == old(self)@.general,
            final(self)@.non_literal == old(self)@.non_literal,
            final(self)@.literals == old(self)@.literals,
            final(self)@.custom == old(self)@.custom,
    {
        let ghost kv = binding(name@, ops_d(prog@), exit_menu, true);
        let ghost l0 = self@.literal;
        put_binding(
            &mut self.literal_bindings,
            key,
            KeyProg { name, exit_menu, push_candidate_value: true, prog },
        );
        proof {
            lemma_put_keeps(l0, key, kv, |e: (Key, KeyProgV)| e.1.push_candidate_value == true);
        }
    }

    /// If the user types `key` while a custom candidate is selected, push its
    /// string and execute `prog`, potentially after exiting the menu. Use
    /// `name` when displaying this binding.
    pub fn bind_key_for_custom_candidates(
        &mut self,
        key: Key,
        name: String,
        prog: Prog,
        exit_menu: bool,
    )
        requires
            old(self).wf(),
        ensures
            final(self).wf(),
            final(self)@.custom == put(
                old(self)@.custom,
                key,
                binding(name@, ops_d(prog@), exit_menu, true),
            ),
            final(self)@.general == old(self)@.general,
            final(self)@.non_literal == old(self)@.non_literal,
            final(self)@.literal == old(self)@.literal,
            final(self)@.literals == old(self)@.literals,
    {
        let ghost kv = binding(name@, ops_d(prog@), exit_menu, true);
        let ghost c0 = self@.custom;
        put_binding(
            &mut self.custom_bindings,
            key,
            KeyProg { name, exit_menu, push_candidate_value: true, prog },
        );
        proof {
            lemma_put_keeps(c0, key, kv, |e: (Key, KeyProgV)| e.1.push_candidate_value == true);
        }
    }
}

/// Where `name` is listed among the names of `m`, if anywhere.
fn find_name<T>(m: &Vec<(String, T)>, name: &String) -> (r: Option<usize>)
    ensures
        match r {
            Some(i) => i < m@.len() && m@[i as int].0@ == name@,
            None => forall|j: int| 0 <= j < m@.len() ==> m@[j].0@ != name@,
        },
{
    let mut i: usize = 0;
    while i < m.len()
        invariant
            i <= m@.len(),
            forall|j: int| 0 <= j < i ==> m@[j].0@ != name@,
        decreases m@.len() - i,
    {
        if m[i].0 == *name {
            return Some(i);
        }
        i += 1;
    }
    None
}

impl Keymap {
    /// Add a candidate to the list of literal candidates (used together with
    /// `bind_key_for_literal_candidates`); a candidate of the same name is
    /// replaced in place.
    pub fn add_literal_candidate(&mut self, display: String, value: Value)
        requires
            old(self).wf(),
        ensures
            final(self).wf(),
            final(self)@.literals == put(old(self)@.literals, display@, value_d(value)),
            final(self)@.general == old(self)@.general,
            final(self)@.non_literal == old(self)@.non_literal,
            final(self)@.literal == old(self)@.literal,
            final(self)@.custom == old(self)@.custom,
    {
        let ghost l0 = self@.literals;
        let ghost d = display@;
        let ghost v = value_d(value);
        proof {
            lemma_put_keys(l0, d, v);
        }
        match find_name(&self.literals, &display) {
            Some(i) => {
                proof {
                    assert(keys_of(l0)[i as int] == d);
                    lemma_index_of_unique(keys_of(l0), i as int);
                }
                self.literals.set(i, (display, value));
                proof {
                    assert(self@.literals =~= put(l0, d, v));
                }
            },
            None => {
                proof {
                    assert(!keys_of(l0).contains(d)) by {
                        if keys_of(l0).contains(d) {
                            let j = keys_of(l0).index_of(d);
                            assert(self.literals@[j].0@ == d);
                        }
                    }
                }
                self.literals.push((display, value));
                proof {
                    assert(self@.literals =~= put(l0, d, v));
                }
            },
        }
    }

    /// If the user types `key` while `candidate` is selected, execute `prog`,
    /// potentially after exiting the menu. Use `name` when displaying this
    /// binding.
    pub fn bind_key_for_candidate(
        &mut self,
        key: Key,
        candidate: String,
        name: String,
        prog: Prog,
        exit_menu: bool,
    )
        requires
            old(self).wf(),
        ensures
            final(self).wf(),
            final(self)@.non_literal == put(
                old(self)@.non_literal,
                candidate@,
                put(
                    bindings_for(old(self)@.non_literal, candidate@),
                    key,
                    binding(name@, ops_d(prog@), exit_menu, false),
                ),
            ),
            final(self)@.general == old(self)@.general,
            final(self)@.literal == old(self)@.literal,
            final(self)@.literals == old(self)@.literals,
            final(self)@.custom == old(self)@.custom,
    {
        let ghost n0 = self@.non_literal;
        let ghost c = candidate@;
        let ghost kv = binding(name@, ops_d(prog@), exit_menu, false);
        let kp = KeyProg { name, exit_menu, push_candidate_value: false, prog };
        match find_name(&self.non_literal_bindings, &candidate) {
            Some(i) => {
                proof {
                    assert(keys_of(n0)[i as int] == c);
                    lemma_index_of_unique(keys_of(n0), i as int);
                    assert(keymap_wf(self@));
                    assert(keys_of(n0[i as int].1).no_duplicates());
                }
                let (cand, mut inner) = self.non_literal_bindings.remove(i);
                let ghost inner0 = bindings_v(inner@);
                assert(inner0 == n0[i as int].1);
                put_binding(&mut inner, key, kp);
                proof {
                    lemma_put_keeps(inner0, key, kv, |e: (Key, KeyProgV)| e.1.push_candidate_value == false);
                    lemma_put_keys(n0, c, bindings_v(inner@));
                }
                self.non_literal_bindings.insert(i, (cand, inner));
                proof {
                    assert(self@.non_literal =~= put(n0, c, put(bindings_for(n0, c), key, kv)));
                }
            },
            None => {
                proof {
                    assert(!keys_of(n0).contains(c)) by {
                        if keys_of(n0).contains(c) {
                            let j = keys_of(n0).index_of(c);
                            assert(self.non_literal_bindings@[j].0@ == c);
                        }
                    }
                }
                let mut inner: Vec<(Key, KeyProg)> = Vec::new();
                proof {
                    assert(keys_of(bindings_v(inner@)) =~= Seq::<Key>::empty());
                    assert(bindings_v(inner@) =~= Seq::<(Key, KeyProgV)>::empty());
                }
                put_binding(&mut inner, key, kp);
                proof {
                    lemma_put_keeps(Seq::<(Key, KeyProgV)>::empty(), key, kv, |e: (Key, KeyProgV)| e.1.push_candidate_value == false);
                    lemma_put_keys(n0, c, bindings_v(inner@));
                }
                self.non_literal_bindings.push((candidate, inner));
                proof {
                    assert(self@.non_literal =~= put(n0, c, put(bindings_for(n0, c), key, kv)));
                }
            },
        }
    }
}

/// A candidate in a menu, as the bindings see it.
#[derive(Clone, Copy, Debug)]
pub enum Candidate<'a> {
    /// A candidate created from `bind_key_for_candidate`.
    NonLiteral { display: &'a str },
    /// A candidate created from `add_literal_candidate`.
    Literal { display: &'a str, value: &'a Value },
    /// A new candidate created from the custom string the user typed.
    Custom { input: &'a str },
}

/// A candidate as the specification sees it.
pub enum CandidateV {
    NonLiteral(Seq<char>),
    Literal(Seq<char>, ValueD),
    Custom(Seq<char>),
}

/// The specification's view of a candidate.
pub open spec fn candidate_v(c: Candidate) -> CandidateV {
    match c {
        Candidate::NonLiteral { display } => CandidateV::NonLiteral(display@),
        Candidate::Literal { display, value } => CandidateV::Literal(display@, value_d(*value)),
        Candidate::Custom { input } => CandidateV::Custom(input@),
    }
}

/// The specification's view of a selected candidate, if any.
pub open spec fn selected_v(c: Option<Candidate>) -> Option<CandidateV> {
    match c {
        Some(x) => Some(candidate_v(x)),
        None => None,
    }
}

/// The program a binding runs with candidate `c` selected, stored last op
/// first: exit the menu if asked (or else block once done), push the
/// candidate's value if asked, then run the binding's program.
pub open spec fn program_of(kp: KeyProgV, c: Option<CandidateV>) -> Seq<OpD> {
    let with_value = if kp.push_candidate_value {
        match c {
            Some(CandidateV::Literal(_, v)) => kp.prog.push(OpD::Literal(v)),
            Some(CandidateV::Custom(input)) => kp.prog.push(OpD::Literal(ValueD::Str(input))),
            _ => kp.prog,
        }
    } else {
        kp.prog
    };
    if kp.exit_menu {
        with_value.push(OpD::ExitMenu)
    } else {
        seq![OpD::Block] + with_value
    }
}

/// The bindings available with candidate `c` selected, in priority order:
/// those for the candidate, then the general ones.
pub open spec fn available(km: KeymapV, c: Option<CandidateV>) -> Seq<(Key, KeyProgV)> {
    match c {
        None => km.general,
        Some(CandidateV::NonLiteral(d)) => bindings_for(km.non_literal, d) + km.general,
        Some(CandidateV::Literal(_, _)) => km.literal + km.general,
        Some(CandidateV::Custom(_)) => km.custom + km.general,
    }
}

/// The program of the first binding of `k` in `s`, if any.
pub open spec fn find_first(s: Seq<(Key, KeyProgV)>, k: Key) -> Option<KeyProgV>
    decreases s.len(),
{
    if s.len() == 0 {
        None
    } else if s[0].0 == k {
        Some(s[0].1)
    } else {
        find_first(s.drop_first(), k)
    }
}

/// The first binding of `k` is at `i` when no binding before `i` is of `k`.
proof fn lemma_find_first_at(s: Seq<(Key, KeyProgV)>, k: Key, i: int)
    requires
        0 <= i <= s.len(),
        forall|j: int| 0 <= j < i ==> s[j].0 != k,
        i < s.len() ==> s[i].0 == k,
    ensures
        find_first(s, k) == (if i < s.len() {
            Some(s[i].1)
        } else {
            None::<KeyProgV>
        }),
    decreases i,
{
    if i > 0 {
        lemma_find_first_at(s.drop_first(), k, i - 1);
    }
}

/// Looking for a key in `a + b` finds it in `a`, or else in `b`.
proof fn lemma_find_first_concat(a: Seq<(Key, KeyProgV)>, b: Seq<(Key, KeyProgV)>, k: Key)
    ensures
        find_first(a + b, k) == (if find_first(a, k) is Some {
            find_first(a, k)
        } else {
            find_first(b, k)
        }),
    decreases a.len(),
{
    if a.len() > 0 {
        assert((a + b).drop_first() =~= a.drop_first() + b);
        lemma_find_first_concat(a.drop_first(), b, k);
    } else {
        assert(a + b =~= b);
    }
}

/// The contents of a program with one more op at its end.
proof fn lemma_ops_d_push(s: Seq<Op>, o: Op)
    ensures
        ops_d(s.push(o)) == ops_d(s).push(op_d(o)),
{
    assert(s.push(o).drop_last() =~= s);
}

/// The contents of a program with one more op at its start.
proof fn lemma_ops_d_prepend(o: Op, s: Seq<Op>)
    ensures
        ops_d(seq![o] + s) == seq![op_d(o)] + ops_d(s),
    decreases s.len(),
{
    let t = seq![o] + s;
    if s.len() == 0 {
        assert(t =~= seq![o]);
        assert(t.drop_last() =~= Seq::<Op>::empty());
        assert(ops_d(t.drop_last()) == Seq::<OpD>::empty());
        assert(ops_d(t) == ops_d(t.drop_last()).push(op_d(t.last())));
        assert(ops_d(t) =~= seq![op_d(o)]);
        assert(seq![op_d(o)] + ops_d(s) =~= seq![op_d(o)]);
    } else {
        lemma_ops_d_prepend(o, s.drop_last());
        assert(t.drop_last() =~= seq![o] + s.drop_last());
        assert(t.last() == s.last());
        assert(ops_d(t) == ops_d(t.drop_last()).push(op_d(t.last())));
        assert(ops_d(s) == ops_d(s.drop_last()).push(op_d(s.last())));
        assert(seq![op_d(o)] + ops_d(s) =~= (seq![op_d(o)] + ops_d(s.drop_last())).push(
            op_d(s.last()),
        ));
    }
}

impl KeyProg {
    /// The program to run for this binding with `candidate` selected.
    fn to_program(&self, candidate: Option<Candidate>) -> (p: Prog)
        requires
            self.push_candidate_value ==> (candidate matches Some(c) && !(c is NonLiteral)),
        ensures
            ops_d(p@) == program_of(key_prog_v(*self), selected_v(candidate)),
    {
        let mut prog = self.prog.duplicate();
        if self.push_candidate_value {
            let value = match candidate {
                Some(Candidate::Literal { value, .. }) => value.duplicate(),
                Some(Candidate::Custom { input }) => Value::String(input.to_string()),
                _ => unreached(),
            };
            let ghost before = prog@;
            prog.insert_first(Op::Literal(value));
            proof {
                lemma_ops_d_push(before, Op::Literal(value));
            }
        }
        let ghost mid = prog@;
        if self.exit_menu {
            prog.insert_first(Op::ExitMenu);
            proof {
                lemma_ops_d_push(mid, Op::ExitMenu);
            }
        } else {
            prog.insert_last(Op::Block);
            proof {
                lemma_ops_d_prepend(Op::Block, mid);
            }
        }
        prog
    }
}

/// Where `key` is first bound in `m`, if anywhere.
fn find_key(m: &Vec<(Key, KeyProg)>, key: Key) -> (r: Option<usize>)
    ensures
        find_first(bindings_v(m@), key) == (match r {
            Some(i) => Some(bindings_v(m@)[i as int].1),
            None => None::<KeyProgV>,
        }),
        r matches Some(i) ==> i < m@.len(),
{
    let mut i: usize = 0;
    while i < m.len()
        invariant
            i <= m@.len(),
            forall|j: int| 0 <= j < i ==> m@[j].0 != key,
        decreases m@.len() - i,
    {
        if m[i].0 == key {
            proof {
                lemma_find_first_at(bindings_v(m@), key, i as int);
            }
            return Some(i);
        }
        i += 1;
    }
    proof {
        lemma_find_first_at(bindings_v(m@), key, m@.len() as int);
    }
    None
}

impl Keymap {
    /// The bindings for `candidate`, which must be listed.
    fn candidate_bindings(&self, candidate: Candidate) -> (m: &Vec<(Key, KeyProg)>)
        requires
            self.wf(),
            candidate matches Candidate::NonLiteral { display } ==> keys_of(
                self@.non_literal,
            ).contains(display@),
        ensures
            bindings_v(m@) + self@.general == available(self@, Some(candidate_v(candidate))),
            candidate is Literal || candidate is Custom ==> pushes(bindings_v(m@), true),
            candidate is NonLiteral ==> pushes(bindings_v(m@), false),
    {
        match candidate {
            Candidate::NonLiteral { display } => {
                let name = display.to_string();
                match find_name(&self.non_literal_bindings, &name) {
                    Some(i) => {
                        proof {
                            let n = self@.non_literal;
                            assert(keys_of(n)[i as int] == display@);
                            lemma_index_of_unique(keys_of(n), i as int);
                        }
                        &self.non_literal_bindings[i].1
                    },
                    None => {
                        proof {
                            let j = keys_of(self@.non_literal).index_of(display@);
                            assert(self.non_literal_bindings@[j].0@ == display@);
                        }
                        unreached()
                    },
                }
            },
            Candidate::Literal { .. } => &self.literal_bindings,
            Candidate::Custom { .. } => &self.custom_bindings,
        }
    }

    /// The program to execute if `key` is pressed while `candidate` is
    /// selected: that of the first binding of `key` among those available.
    pub fn lookup(&self, key: Key, candidate: Option<Candidate>) -> (r: Option<Prog>)
        requires
            self.wf(),
            candidate matches Some(Candidate::NonLiteral { display }) ==> keys_of(
                self@.non_literal,
            ).contains(display@),
        ensures
            match find_first(available(self@, selected_v(candidate)), key) {
                None => r is None,
                Some(kp) => r matches Some(p) && ops_d(p@) == program_of(
                    kp,
                    selected_v(candidate),
                ),
            },
    {
        match candidate {
            Some(c) => {
                let m = self.candidate_bindings(c);
                proof {
                    lemma_find_first_concat(bindings_v(m@), self@.general, key);
                }
                match find_key(m, key) {
                    Some(i) => {
                        proof {
                            assert(bindings_v(m@)[i as int].1.push_candidate_value == m@[i as int].1.push_candidate_value);
                        }
                        return Some(m[i].1.to_program(candidate));
                    },
                    None => {},
                }
            },
            None => {},
        }
        match find_key(&self.general_bindings, key) {
            Some(i) => {
                proof {
                    assert(self@.general[i as int].1.push_candidate_value == false);
                }
                Some(self.general_bindings[i].1.to_program(candidate))
            },
            None => None,
        }
    }

    /// All `(key, name)` pairs that are available with `candidate` selected,
    /// in priority order.
    pub fn available_keys<'a>(&'a self, candidate: Option<Candidate>) -> (r: Vec<(Key, &'a str)>)
        requires
            self.wf(),
            candidate matches Some(Candidate::NonLiteral { display }) ==> keys_of(
                self@.non_literal,
            ).contains(display@),
        ensures
            r@.len() == available(self@, selected_v(candidate)).len(),
            forall|i: int|
                0 <= i < r@.len() ==> (#[trigger] r@[i]).0 == available(
                    self@,
                    selected_v(candidate),
                )[i].0 && r@[i].1@ == available(self@, selected_v(candidate))[i].1.name,
    {
        let ghost all = available(self@, selected_v(candidate));
        let mut r: Vec<(Key, &'a str)> = Vec::new();
        let ghost first: Seq<(Key, KeyProgV)> = Seq::empty();
        match candidate {
            Some(c) => {
                let m = self.candidate_bindings(c);
                proof {
                    first = bindings_v(m@);
                }
                let mut i: usize = 0;
                while i < m.len()
                    invariant
                        i <= m@.len(),
                        first == bindings_v(m@),
                        r@.len() == i,
                        forall|j: int|
                            0 <= j < i ==> (#[trigger] r@[j]).0 == first[j].0 && r@[j].1@
                                == first[j].1.name,
                    decreases m@.len() - i,
                {
                    r.push((m[i].0, m[i].1.name.as_str()));
                    i += 1;
                }
            },
            None => {},
        }
        proof {
            assert(all == first + self@.general) by {
                if candidate is None {
                    assert(first + self@.general =~= self@.general);
                }
            }
        }
        let n = r.len();
        let mut i: usize = 0;
        while i < self.general_bindings.len()
            invariant
                i <= self.general_bindings@.len(),
                n == first.len(),
                all == first + self@.general,
                r@.len() == n + i,
                forall|j: int|
                    0 <= j < n + i ==> (#[trigger] r@[j]).0 == all[j].0 && r@[j].1@ == all[j].1.name,
            decreases self.general_bindings@.len() - i,
        {
            r.push((self.general_bindings[i].0, self.general_bindings[i].1.name.as_str()));
            i += 1;
        }
        r
    }
}

/// The literal candidates whose display contains `p`, in order.
pub open spec fn literal_matches(lits: Seq<(Seq<char>, ValueD)>, p: Seq<char>) -> Seq<CandidateV>
    decreases lits.len(),
{
    if lits.len() == 0 {
        Seq::empty()
    } else {
        let rest = literal_matches(lits.drop_last(), p);
        if is_infix(p, lits.last().0) {
            rest.push(CandidateV::Literal(lits.last().0, lits.last().1))
        } else {
            rest
        }
    }
}

/// The non-literal candidates, among `names`, that contain `p`, in order.
pub open spec fn name_matches(names: Seq<Seq<char>>, p: Seq<char>) -> Seq<CandidateV>
    decreases names.len(),
{
    if names.len() == 0 {
        Seq::empty()
    } else {
        let rest = name_matches(names.drop_last(), p);
        if is_infix(p, names.last()) {
            rest.push(CandidateV::NonLiteral(names.last()))
        } else {
            rest
        }
    }
}

/// The candidates that match the pattern `p`, in the order they are shown:
/// the custom candidate (if there are custom bindings), then the literal
/// candidates, then the non-literal ones, each kept if its display contains
/// `p`.
pub open spec fn filtered(km: KeymapV, p: Seq<char>) -> Seq<CandidateV> {
    (if km.custom.len() > 0 {
        seq![CandidateV::Custom(p)]
    } else {
        Seq::empty()
    }) + literal_matches(km.literals, p) + name_matches(keys_of(km.non_literal), p)
}

/// The empty pattern is contained in every text.
proof fn lemma_empty_infix(s: Seq<char>)
    ensures
        is_infix(Seq::empty(), s),
{
    let e = Seq::<char>::empty();
    assert(s.subrange(0, 0 + e.len() as int) =~= e);
}

/// Every candidate matches the empty pattern.
proof fn lemma_all_match_empty(lits: Seq<(Seq<char>, ValueD)>, names: Seq<Seq<char>>)
    ensures
        literal_matches(lits, Seq::empty()).len() == lits.len(),
        name_matches(names, Seq::empty()).len() == names.len(),
    decreases lits.len() + names.len(),
{
    if lits.len() > 0 {
        lemma_empty_infix(lits.last().0);
        lemma_all_match_empty(lits.drop_last(), names);
    }
    if names.len() > 0 {
        lemma_empty_infix(names.last());
        lemma_all_match_empty(lits, names.drop_last());
    }
}

impl Keymap {
    /// All candidates that match `pattern`, in the order they should be
    /// displayed.
    pub fn filtered_candidates<'a>(&'a self, pattern: &'a str) -> (r: Vec<Candidate<'a>>)
        ensures
            r@.map_values(|c: Candidate<'a>| candidate_v(c)) == filtered(self@, pattern@),
    {
        let mut r: Vec<Candidate<'a>> = Vec::new();
        if self.custom_bindings.len() > 0 {
            r.push(Candidate::Custom { input: pattern });
        }
        let ghost head = r@.map_values(|c: Candidate<'a>| candidate_v(c));
        proof {
            assert(head =~= (if self@.custom.len() > 0 {
                seq![CandidateV::Custom(pattern@)]
            } else {
                Seq::empty()
            }));
        }
        let mut i: usize = 0;
        while i < self.literals.len()
            invariant
                i <= self.literals@.len(),
                r@.map_values(|c: Candidate<'a>| candidate_v(c)) == head + literal_matches(
                    literals_v(self.literals@.subrange(0, i as int)),
                    pattern@,
                ),
            decreases self.literals@.len() - i,
        {
            let ghost before = r@;
            let ghost lits = literals_v(self.literals@.subrange(0, i as int + 1));
            proof {
                assert(lits.drop_last() =~= literals_v(self.literals@.subrange(0, i as int)));
            }
            if contains_text(self.literals[i].0.as_str(), pattern) {
                r.push(Candidate::Literal { display: self.literals[i].0.as_str(), value: &self.literals[i].1 });
                proof {
                    assert(r@.map_values(|c: Candidate<'a>| candidate_v(c)) =~= before.map_values(
                        |c: Candidate<'a>| candidate_v(c),
                    ).push(candidate_v(r@.last())));
                }
            }
            i += 1;
        }
        proof {
            assert(self.literals@.subrange(0, self.literals@.len() as int) =~= self.literals@);
        }
        let ghost mid = r@.map_values(|c: Candidate<'a>| candidate_v(c));
        let mut i: usize = 0;
        while i < self.non_literal_bindings.len()
            invariant
                i <= self.non_literal_bindings@.len(),
                r@.map_values(|c: Candidate<'a>| candidate_v(c)) == mid + name_matches(
                    keys_of(nested_v(self.non_literal_bindings@.subrange(0, i as int))),
                    pattern@,
                ),
            decreases self.non_literal_bindings@.len() - i,
        {
            let ghost before = r@;
            let ghost names = keys_of(nested_v(self.non_literal_bindings@.subrange(0, i as int + 1)));
            proof {
                assert(names.drop_last() =~= keys_of(
                    nested_v(self.non_literal_bindings@.subrange(0, i as int)),
                ));
            }
            if contains_text(self.non_literal_bindings[i].0.as_str(), pattern) {
                r.push(Candidate::NonLiteral { display: self.non_literal_bindings[i].0.as_str() });
                proof {
                    assert(r@.map_values(|c: Candidate<'a>| candidate_v(c)) =~= before.map_values(
                        |c: Candidate<'a>| candidate_v(c),
                    ).push(candidate_v(r@.last())));
                }
            }
            i += 1;
        }
        proof {
            assert(self.non_literal_bindings@.subrange(0, self.non_literal_bindings@.len() as int)
                =~= self.non_literal_bindings@);
            assert(mid + name_matches(keys_of(self@.non_literal), pattern@) =~= filtered(
                self@,
                pattern@,
            ));
        }
        r
    }

    /// Whether this keymap has any candidates.
    pub fn has_candidates(&self) -> (b: bool)
        ensures
            b == (self@.custom.len() > 0 || self@.literals.len() > 0 || self@.non_literal.len() > 0),
    {
        let r = self.filtered_candidates("");
        proof {
            reveal_strlit("");
            assert(""@ =~= Seq::<char>::empty());
            lemma_all_match_empty(self@.literals, keys_of(self@.non_literal));
            assert(r@.map_values(|c: Candidate| candidate_v(c)).len() == r@.len());
        }
        r.len() > 0
    }
}

/// The bindings per candidate `m` with those of `o` merged in, in order: a
/// candidate already listed gets the other's bindings put into its own, a
/// new one is added at the end.
pub open spec fn merge_nested(
    m: Seq<(Seq<char>, Seq<(Key, KeyProgV)>)>,
    o: Seq<(Seq<char>, Seq<(Key, KeyProgV)>)>,
) -> Seq<(Seq<char>, Seq<(Key, KeyProgV)>)>
    decreases o.len(),
{
    if o.len() == 0 {
        m
    } else {
        let m1 = merge_nested(m, o.drop_last());
        let c = o.last().0;
        let om = o.last().1;
        put(m1, c, if keys_of(m1).contains(c) {
            put_all(bindings_for(m1, c), om)
        } else {
            om
        })
    }
}

/// Putting each binding of `o`, in order.
fn put_all_bindings(m: &mut Vec<(Key, KeyProg)>, o: Vec<(Key, KeyProg)>)
    requires
        keys_of(bindings_v(old(m)@)).no_duplicates(),
    ensures
        bindings_v(final(m)@) == put_all(bindings_v(old(m)@), bindings_v(o@)),
        keys_of(bindings_v(final(m)@)).no_duplicates(),
        forall|b: bool|
            pushes(bindings_v(old(m)@), b) && pushes(bindings_v(o@), b) ==> pushes(
                bindings_v(final(m)@),
                b,
            ),
{
    let ghost m0 = bindings_v(m@);
    let ghost o0 = bindings_v(o@);
    let ghost n = o@.len();
    let mut o = o;
    let count: usize = o.len();
    let mut i: usize = 0;
    assert(o0.subrange(0, 0) =~= Seq::<(Key, KeyProgV)>::empty());
    assert(o0.subrange(0, n as int) =~= o0);
    while o.len() > 0
        invariant
            i + o@.len() == n,
            n == o0.len(),
            n == count,
            bindings_v(o@) == o0.subrange(i as int, n as int),
            bindings_v(m@) == put_all(m0, o0.subrange(0, i as int)),
            keys_of(bindings_v(m@)).no_duplicates(),
            forall|b: bool|
                pushes(m0, b) && pushes(o0, b) ==> pushes(bindings_v(m@), b),
        decreases o@.len(),
    {
        let ghost before = bindings_v(m@);
        let ghost ob = o@;
        let (k, kp) = o.remove(0);
        proof {
            assert(bindings_v(ob)[0] == o0.subrange(i as int, n as int)[0]);
            assert(o@ =~= ob.subrange(1, ob.len() as int));
            assert(o0[i as int] == (k, key_prog_v(kp)));
            assert forall|j: int| 0 <= j < o@.len() implies bindings_v(o@)[j] == o0.subrange(
                i + 1,
                n as int,
            )[j] by {
                assert(o@[j] == ob[j + 1]);
                assert(bindings_v(ob)[j + 1] == o0.subrange(i as int, n as int)[j + 1]);
            }
            assert(bindings_v(o@) =~= o0.subrange(i + 1, n as int));
            assert(o0.subrange(0, i + 1).drop_last() =~= o0.subrange(0, i as int));
        }
        put_binding(m, k, kp);
        proof {
            assert forall|b: bool| pushes(m0, b) && pushes(o0, b) implies pushes(bindings_v(m@), b) by {
                assert(o0[i as int].1.push_candidate_value == b);
                lemma_put_keeps(before, k, key_prog_v(kp), |e: (Key, KeyProgV)| e.1.push_candidate_value == b);
            }
        }
        i += 1;
    }
}

impl Keymap {
    /// Take the union of the two keymaps, with bindings in `other` overriding
    /// those in `self`.
    pub fn append(&mut self, other: Keymap)
        requires
            old(self).wf(),
            other.wf(),
        ensures
            final(self).wf(),
            final(self)@.general == put_all(old(self)@.general, other@.general),
            final(self)@.non_literal == merge_nested(old(self)@.non_literal, other@.non_literal),
            final(self)@.literal == put_all(old(self)@.literal, other@.literal),
            final(self)@.literals == put_all(old(self)@.literals, other@.literals),
            final(self)@.custom == put_all(old(self)@.custom, other@.custom),
    {
        let ghost v0 = self@;
        let ghost ov = other@;
        let Keymap { general_bindings, non_literal_bindings, literal_bindings, literals, custom_bindings } =
            other;
        put_all_bindings(&mut self.general_bindings, general_bindings);
        put_all_bindings(&mut self.literal_bindings, literal_bindings);
        put_all_bindings(&mut self.custom_bindings, custom_bindings);
        proof {
            assert(keymap_wf(self@));
        }
        self.append_literals(literals);
        self.merge_candidate_bindings(non_literal_bindings);
    }

    /// Add each literal candidate of `o`, in order.
    fn append_literals(&mut self, o: Vec<(String, Value)>)
        requires
            old(self).wf(),
        ensures
            final(self).wf(),
            final(self)@.literals == put_all(old(self)@.literals, literals_v(o@)),
            final(self)@.general == old(self)@.general,
            final(self)@.non_literal == old(self)@.non_literal,
            final(self)@.literal == old(self)@.literal,
            final(self)@.custom == old(self)@.custom,
    {
        let ghost v0 = self@;
        let ghost o0 = literals_v(o@);
        let ghost n = o@.len();
        let mut o = o;
        let count: usize = o.len();
        let mut i: usize = 0;
        assert(o0.subrange(0, 0) =~= Seq::<(Seq<char>, ValueD)>::empty());
        assert(o0.subrange(0, n as int) =~= o0);
        while o.len() > 0
            invariant
                i + o@.len() == n,
                n == o0.len(),
                n == count,
                literals_v(o@) == o0.subrange(i as int, n as int),
                self.wf(),
                self@.literals == put_all(v0.literals, o0.subrange(0, i as int)),
                self@.general == v0.general,
                self@.non_literal == v0.non_literal,
                self@.literal == v0.literal,
                self@.custom == v0.custom,
            decreases o@.len(),
        {
            let ghost ob = o@;
            let (d, v) = o.remove(0);
            proof {
                assert(literals_v(ob)[0] == o0.subrange(i as int, n as int)[0]);
                assert(o@ =~= ob.subrange(1, ob.len() as int));
                assert(o0[i as int] == (d@, value_d(v)));
                assert forall|j: int| 0 <= j < o@.len() implies literals_v(o@)[j] == o0.subrange(
                    i + 1,
                    n as int,
                )[j] by {
                    assert(o@[j] == ob[j + 1]);
                    assert(literals_v(ob)[j + 1] == o0.subrange(i as int, n as int)[j + 1]);
                }
                assert(literals_v(o@) =~= o0.subrange(i + 1, n as int));
                assert(o0.subrange(0, i + 1).drop_last() =~= o0.subrange(0, i as int));
            }
            self.add_literal_candidate(d, v);
            i += 1;
        }
    }

    /// Merge the bindings per candidate of `o` into this keymap's, in order.
    fn merge_candidate_bindings(&mut self, o: Vec<(String, Vec<(Key, KeyProg)>)>)
        requires
            old(self).wf(),
            forall|i: int|
                0 <= i < nested_v(o@).len() ==> keys_of(#[trigger] nested_v(o@)[i].1).no_duplicates()
                    && pushes(nested_v(o@)[i].1, false),
        ensures
            final(self).wf(),
            final(self)@.non_literal == merge_nested(old(self)@.non_literal, nested_v(o@)),
            final(self)@.general == old(self)@.general,
            final(self)@.literal == old(self)@.literal,
            final(self)@.literals == old(self)@.literals,
            final(self)@.custom == old(self)@.custom,
    {
        let ghost v0 = self@;
        let ghost o0 = nested_v(o@);
        let ghost n = o@.len();
        let mut o = o;
        let count: usize = o.len();
        let mut i: usize = 0;
        assert(o0.subrange(0, 0) =~= Seq::<(Seq<char>, Seq<(Key, KeyProgV)>)>::empty());
        assert(o0.subrange(0, n as int) =~= o0);
        while o.len() > 0
            invariant
                i + o@.len() == n,
                n == o0.len(),
                n == count,
                nested_v(o@) == o0.subrange(i as int, n as int),
                forall|j: int|
                    0 <= j < o0.len() ==> keys_of(#[trigger] o0[j].1).no_duplicates() && pushes(
                        o0[j].1,
                        false,
                    ),
                self.wf(),
                self@.non_literal == merge_nested(v0.non_literal, o0.subrange(0, i as int)),
                self@.general == v0.general,
                self@.literal == v0.literal,
                self@.literals == v0.literals,
                self@.custom == v0.custom,
            decreases o@.len(),
        {
            let ghost m1 = self@.non_literal;
            let ghost ob = o@;
            let (c, om) = o.remove(0);
            let ghost cv = c@;
            let ghost omv = bindings_v(om@);
            proof {
                assert(nested_v(ob)[0] == o0.subrange(i as int, n as int)[0]);
                assert(o@ =~= ob.subrange(1, ob.len() as int));
                assert(o0[i as int] == (cv, omv));
                assert forall|j: int| 0 <= j < o@.len() implies nested_v(o@)[j] == o0.subrange(
                    i + 1,
                    n as int,
                )[j] by {
                    assert(o@[j] == ob[j + 1]);
                    assert(nested_v(ob)[j + 1] == o0.subrange(i as int, n as int)[j + 1]);
                }
                assert(nested_v(o@) =~= o0.subrange(i + 1, n as int));
                assert(o0.subrange(0, i + 1).drop_last() =~= o0.subrange(0, i as int));
                assert(o0[i as int].1 == omv);
                assert(keys_of(omv).no_duplicates() && pushes(omv, false));
            }
            match find_name(&self.non_literal_bindings, &c) {
                Some(k) => {
                    proof {
                        assert(keys_of(m1)[k as int] == cv);
                        lemma_index_of_unique(keys_of(m1), k as int);
                        assert(keys_of(m1[k as int].1).no_duplicates());
                        assert(pushes(m1[k as int].1, false));
                    }
                    let (cand, mut inner) = self.non_literal_bindings.remove(k);
                    assert(bindings_v(inner@) == m1[k as int].1);
                    put_all_bindings(&mut inner, om);
                    proof {
                        lemma_put_keys(m1, cv, bindings_v(inner@));
                    }
                    self.non_literal_bindings.insert(k, (cand, inner));
                    proof {
                        assert(self@.non_literal =~= put(
                            m1,
                            cv,
                            put_all(bindings_for(m1, cv), omv),
                        ));
                    }
                },
                None => {
                    proof {
                        assert(!keys_of(m1).contains(cv)) by {
                            if keys_of(m1).contains(cv) {
                                let j = keys_of(m1).index_of(cv);
                                assert(self.non_literal_bindings@[j].0@ == cv);
                            }
                        }
                        lemma_put_keys(m1, cv, omv);
                    }
                    self.non_literal_bindings.push((c, om));
                    proof {
                        assert(self@.non_literal =~= put(m1, cv, omv));
                    }
                },
            }
            i += 1;
        }
    }
}

/// Changing the binding of another key leaves where `k` is first found.
proof fn lemma_find_update_other(m: Seq<(Key, KeyProgV)>, i: int, x: (Key, KeyProgV), k: Key)
    requires
        0 <= i < m.len(),
        m[i].0 != k,
        x.0 != k,
    ensures
        find_first(m.update(i, x), k) == find_first(m, k),
    decreases m.len(),
{
    let u = m.update(i, x);
    if i == 0 {
        assert(u.drop_first() =~= m.drop_first());
    } else {
        assert(u.drop_first() =~= m.drop_first().update(i - 1, x));
        lemma_find_first_at_front(m, k);
        if m[0].0 != k {
            lemma_find_update_other(m.drop_first(), i - 1, x, k);
        }
    }
}

/// How `find_first` goes on a non-empty sequence.
proof fn lemma_find_first_at_front(m: Seq<(Key, KeyProgV)>, k: Key)
    requires
        m.len() > 0,
    ensures
        find_first(m, k) == (if m[0].0 == k {
            Some(m[0].1)
        } else {
            find_first(m.drop_first(), k)
        }),
{
}

/// Binding another key leaves where `k` is first found.
proof fn lemma_find_put_other(m: Seq<(Key, KeyProgV)>, k2: Key, v: KeyProgV, k: Key)
    requires
        k2 != k,
    ensures
        find_first(put(m, k2, v), k) == find_first(m, k),
{
    if keys_of(m).contains(k2) {
        let i = keys_of(m).index_of(k2);
        assert(m[i].0 == k2);
        lemma_find_update_other(m, i, (k2, v), k);
    } else {
        lemma_find_first_concat(m, seq![(k2, v)], k);
        assert(m.push((k2, v)) =~= m + seq![(k2, v)]);
        assert(find_first(seq![(k2, v)], k) is None) by {
            reveal_with_fuel(find_first, 2);
            assert(seq![(k2, v)].drop_first() =~= Seq::<(Key, KeyProgV)>::empty());
        }
    }
}

/// Putting each binding of `o` keeps the keys free of duplicates.
proof fn lemma_put_all_keys(m: Seq<(Key, KeyProgV)>, o: Seq<(Key, KeyProgV)>)
    requires
        keys_of(m).no_duplicates(),
    ensures
        keys_of(put_all(m, o)).no_duplicates(),
    decreases o.len(),
{
    if o.len() > 0 {
        lemma_put_all_keys(m, o.drop_last());
        lemma_put_keys(put_all(m, o.drop_last()), o.last().0, o.last().1);
    }
}

/// Binding a key makes it run the new program, whatever it ran before: a
/// later binding overwrites an earlier one.
pub proof fn lemma_bound_key_found(m: Seq<(Key, KeyProgV)>, k: Key, kp: KeyProgV)
    requires
        keys_of(m).no_duplicates(),
    ensures
        find_first(put(m, k, kp), k) == Some(kp),
{
    lemma_put_keys(m, k, kp);
    let p = put(m, k, kp);
    if keys_of(m).contains(k) {
        let i = keys_of(m).index_of(k);
        assert forall|j: int| 0 <= j < i implies p[j].0 != k by {
            assert(keys_of(m)[j] == m[j].0);
        }
        lemma_find_first_at(p, k, i);
    } else {
        assert forall|j: int| 0 <= j < m.len() implies p[j].0 != k by {
            assert(keys_of(m)[j] == m[j].0);
        }
        lemma_find_first_at(p, k, m.len() as int);
    }
}

/// When bindings are appended, those appended win: a key bound by `o` runs
/// what `o` binds it to.
pub proof fn lemma_appended_bindings_win(
    m: Seq<(Key, KeyProgV)>,
    o: Seq<(Key, KeyProgV)>,
    k: Key,
)
    requires
        keys_of(m).no_duplicates(),
        keys_of(o).no_duplicates(),
        keys_of(o).contains(k),
    ensures
        find_first(put_all(m, o), k) == find_first(o, k),
    decreases o.len(),
{
    let last = o.last();
    let init = o.drop_last();
    lemma_put_all_keys(m, init);
    assert(o =~= init + seq![last]);
    assert(keys_of(init) =~= keys_of(o).drop_last());
    if last.0 == k {
        lemma_bound_key_found(put_all(m, init), k, last.1);
        assert(!keys_of(init).contains(k)) by {
            if keys_of(init).contains(k) {
                let j = keys_of(init).index_of(k);
                assert(keys_of(o)[j] == k);
                assert(keys_of(o)[o.len() - 1] == k);
            }
        }
        assert forall|j: int| 0 <= j < init.len() implies o[j].0 != k by {
            assert(keys_of(init)[j] == init[j].0);
        }
        lemma_find_first_at(o, k, o.len() - 1);
    } else {
        lemma_find_put_other(put_all(m, init), last.0, last.1, k);
        let j = keys_of(o).index_of(k);
        assert(keys_of(init)[j] == k);
        lemma_appended_bindings_win(m, init, k);
        lemma_find_first_concat(init, seq![last], k);
        assert(find_first(seq![last], k) is None) by {
            reveal_with_fuel(find_first, 2);
            assert(seq![last].drop_first() =~= Seq::<(Key, KeyProgV)>::empty());
        }
    }
}

/// Bindings for the selected candidate come before the general ones: a key
/// bound for the candidate runs that binding.
pub proof fn lemma_candidate_bindings_first(
    a: Seq<(Key, KeyProgV)>,
    general: Seq<(Key, KeyProgV)>,
    k: Key,
)
    ensures
        find_first(a, k) is Some ==> find_first(a + general, k) == find_first(a, k),
        find_first(a, k) is None ==> find_first(a + general, k) == find_first(general, k),
{
    lemma_find_first_concat(a, general, k);
}

} // verus!
