//! An editable language: its constructs, grouped by type, and the key that
//! inserts each of them.

use vstd::prelude::*;
use crate::typed_construct::Construct;

verus! {

/// What a language holds: its constructs by name, the names of the
/// constructs of each type in the order they were added, and the name of
/// the construct each key inserts.
pub struct LanguageV {
    pub constructs: Map<Seq<char>, Construct>,
    pub types: Map<Seq<char>, Seq<Seq<char>>>,
    pub keymap: Map<char, Seq<char>>,
}

/// The names of `cs`, in order.
pub open spec fn names_of(cs: Seq<Construct>) -> Seq<Seq<char>> {
    cs.map_values(|c: Construct| c.name@)
}

/// The type names of `ts`, in order.
pub open spec fn type_names_of(ts: Seq<(String, Vec<String>)>) -> Seq<Seq<char>> {
    ts.map_values(|t: (String, Vec<String>)| t.0@)
}

/// The keys of `ks`, in order.
pub open spec fn keys_of(ks: Seq<(char, String)>) -> Seq<char> {
    ks.map_values(|k: (char, String)| k.0)
}

/// The syntax of a language. Right now it just has its constructs and a
/// mapping from key to construct.
pub struct Language {
    /// No two have the same name.
    constructs: Vec<Construct>,
    /// No type is listed twice.
    types: Vec<(String, Vec<String>)>,
    /// No key is listed twice, and each names a construct.
    keymap: Vec<(char, String)>,
}

/// Each position of a sequence without duplicates is where its item is found.
proof fn lemma_index_of_unique<A>(s: Seq<A>, i: int)
    requires
        s.no_duplicates(),
        0 <= i < s.len(),
    ensures
        s.index_of(s[i]) == i,
{
    assert(s.contains(s[i]));
}

/// What a sequence with one more item at its end contains.
proof fn lemma_push_contains<A>(s: Seq<A>, x: A)
    ensures
        forall|y: A| #[trigger] s.push(x).contains(y) <==> s.contains(y) || y == x,
{
    assert forall|y: A| #[trigger] s.push(x).contains(y) <==> s.contains(y) || y == x by {
        if s.push(x).contains(y) {
            let j = s.push(x).index_of(y);
            if j < s.len() {
                assert(s[j] == y);
            }
        }
        if s.contains(y) {
            let j = s.index_of(y);
            assert(s.push(x)[j] == y);
        }
        if y == x {
            assert(s.push(x)[s.len() as int] == y);
        }
    }
}

impl View for Language {
    type V = LanguageV;

    closed spec fn view(&self) -> LanguageV {
        let cs = self.constructs@;
        let ts = self.types@;
        let ks = self.keymap@;
        LanguageV {
            constructs: Map::new(
                |n: Seq<char>| names_of(cs).contains(n),
                |n: Seq<char>| cs[names_of(cs).index_of(n)],
            ),
            types: Map::new(
                |t: Seq<char>| type_names_of(ts).contains(t),
                |t: Seq<char>|
                    ts[type_names_of(ts).index_of(t)].1@.map_values(|s: String| s@),
            ),
            keymap: Map::new(
                |k: char| keys_of(ks).contains(k),
                |k: char| ks[keys_of(ks).index_of(k)].1@,
            ),
        }
    }
}

impl Language {
    /// Nothing is listed twice, and every key names a construct.
    pub closed spec fn wf(&self) -> bool {
        &&& names_of(self.constructs@).no_duplicates()
        &&& type_names_of(self.types@).no_duplicates()
        &&& keys_of(self.keymap@).no_duplicates()
        &&& forall|k: char| #[trigger]
            self@.keymap.contains_key(k) ==> self@.constructs.contains_key(self@.keymap[k])
    }

    /// A language with no constructs.
    pub fn new() -> (l: Language)
        ensures
            l.wf(),
            l@.constructs == Map::<Seq<char>, Construct>::empty(),
            l@.types == Map::<Seq<char>, Seq<Seq<char>>>::empty(),
            l@.keymap == Map::<char, Seq<char>>::empty(),
    {
        let l = Language { constructs: Vec::new(), types: Vec::new(), keymap: Vec::new() };
        assert(names_of(l.constructs@) =~= Seq::empty());
        assert(type_names_of(l.types@) =~= Seq::empty());
        assert(keys_of(l.keymap@) =~= Seq::empty());
        assert(l@.constructs =~= Map::empty());
        assert(l@.types =~= Map::empty());
        assert(l@.keymap =~= Map::empty());
        l
    }

    /// Where the construct named `name` is kept, if anywhere.
    fn construct_slot(&self, name: &String) -> (r: Option<usize>)
        requires
            names_of(self.constructs@).no_duplicates(),
        ensures
            match r {
                Some(i) => i < self.constructs@.len() && self.constructs@[i as int].name@ == name@
                    && names_of(self.constructs@).index_of(name@) == i,
                None => !names_of(self.constructs@).contains(name@),
            },
    {
        let mut i: usize = 0;
        while i < self.constructs.len()
            invariant
                i <= self.constructs@.len(),
                names_of(self.constructs@).no_duplicates(),
                forall|j: int| 0 <= j < i ==> self.constructs@[j].name@ != name@,
            decreases self.constructs@.len() - i,
        {
            if self.constructs[i].name == *name {
                proof {
                    lemma_index_of_unique(names_of(self.constructs@), i as int);
                }
                return Some(i);
            }
            i += 1;
        }
        proof {
            if names_of(self.constructs@).contains(name@) {
                let k = names_of(self.constructs@).index_of(name@);
                assert(self.constructs@[k].name@ == name@);
            }
        }
        None
    }

    /// Where the type named `typ` is kept, if anywhere.
    fn type_slot(&self, typ: &String) -> (r: Option<usize>)
        requires
            type_names_of(self.types@).no_duplicates(),
        ensures
            match r {
                Some(i) => i < self.types@.len() && self.types@[i as int].0@ == typ@
                    && type_names_of(self.types@).index_of(typ@) == i,
                None => !type_names_of(self.types@).contains(typ@),
            },
    {
        let mut i: usize = 0;
        while i < self.types.len()
            invariant
                i <= self.types@.len(),
                type_names_of(self.types@).no_duplicates(),
                forall|j: int| 0 <= j < i ==> self.types@[j].0@ != typ@,
            decreases self.types@.len() - i,
        {
            if self.types[i].0 == *typ {
                proof {
                    lemma_index_of_unique(type_names_of(self.types@), i as int);
                }
                return Some(i);
            }
            i += 1;
        }
        proof {
            if type_names_of(self.types@).contains(typ@) {
                let k = type_names_of(self.types@).index_of(typ@);
                assert(self.types@[k].0@ == typ@);
            }
        }
        None
    }

    /// Where the key `key` is kept, if anywhere.
    fn key_slot(&self, key: char) -> (r: Option<usize>)
        requires
            keys_of(self.keymap@).no_duplicates(),
        ensures
            match r {
                Some(i) => i < self.keymap@.len() && self.keymap@[i as int].0 == key
                    && keys_of(self.keymap@).index_of(key) == i,
                None => !keys_of(self.keymap@).contains(key),
            },
    {
        let mut i: usize = 0;
        while i < self.keymap.len()
            invariant
                i <= self.keymap@.len(),
                keys_of(self.keymap@).no_duplicates(),
                forall|j: int| 0 <= j < i ==> self.keymap@[j].0 != key,
            decreases self.keymap@.len() - i,
        {
            if self.keymap[i].0 == key {
                proof {
                    lemma_index_of_unique(keys_of(self.keymap@), i as int);
                }
                return Some(i);
            }
            i += 1;
        }
        proof {
            if keys_of(self.keymap@).contains(key) {
                let k = keys_of(self.keymap@).index_of(key);
                assert(self.keymap@[k].0 == key);
            }
        }
        None
    }
}

impl Language {
    /// Add `construct`, inserted by `key`: it replaces any construct of the
    /// same name, `key` now inserts it, and it is listed last among the
    /// constructs of its type.
    pub fn add(&mut self, key: char, construct: Construct)
        requires
            old(self).wf(),
        ensures
            final(self).wf(),
            final(self)@.constructs == old(self)@.constructs.insert(construct.name@, construct),
            final(self)@.keymap == old(self)@.keymap.insert(key, construct.name@),
            final(self)@.types == old(self)@.types.insert(
                construct.typ@,
                if old(self)@.types.contains_key(construct.typ@) {
                    old(self)@.types[construct.typ@].push(construct.name@)
                } else {
                    seq![construct.name@]
                },
            ),
    {
        let ghost v0 = self@;
        let name = construct.name.clone();
        let typ = construct.typ.clone();
        self.set_key(key, name.clone());
        self.push_type_member(typ, name.clone());
        self.set_construct(construct);
        proof {
            assert forall|k: char| #[trigger] self@.keymap.contains_key(k) implies self@.constructs.contains_key(
                self@.keymap[k],
            ) by {
                if k != key {
                    assert(v0.keymap.contains_key(k));
                }
            }
        }
    }

    /// Make `key` insert the construct named `name`.
    fn set_key(&mut self, key: char, name: String)
        requires
            keys_of(old(self).keymap@).no_duplicates(),
        ensures
            keys_of(final(self).keymap@).no_duplicates(),
            final(self).constructs == old(self).constructs,
            final(self).types == old(self).types,
            final(self)@.keymap == old(self)@.keymap.insert(key, name@),
    {
        let ghost ks0 = self.keymap@;
        match self.key_slot(key) {
            Some(i) => {
                self.keymap.set(i, (key, name));
                proof {
                    let ks = self.keymap@;
                    assert(keys_of(ks) =~= keys_of(ks0));
                    let m0 = old(self)@.keymap;
                    let m = self@.keymap;
                    assert(keys_of(ks0)[i as int] == key);
                    assert(m.dom() =~= m0.dom().insert(key));
                    assert forall|k: char| #[trigger] m.contains_key(k) implies m[k] == m0.insert(
                        key,
                        name@,
                    )[k] by {
                        let j = keys_of(ks).index_of(k);
                        assert(keys_of(ks)[j] == k);
                    }
                    assert(m =~= m0.insert(key, name@));
                }
            },
            None => {
                self.keymap.push((key, name));
                proof {
                    let ks = self.keymap@;
                    assert(keys_of(ks) =~= keys_of(ks0).push(key));
                    lemma_index_of_unique(keys_of(ks), ks0.len() as int);
                    let m0 = old(self)@.keymap;
                    let m = self@.keymap;
                    lemma_push_contains(keys_of(ks0), key);
                    assert(m.dom() =~= m0.dom().insert(key));
                    assert forall|k: char| #[trigger] m.contains_key(k) implies m[k] == m0.insert(
                        key,
                        name@,
                    )[k] by {
                        if k != key {
                            let j = keys_of(ks0).index_of(k);
                            assert(keys_of(ks)[j] == k);
                            lemma_index_of_unique(keys_of(ks), j);
                            lemma_index_of_unique(keys_of(ks0), j);
                        }
                    }
                    assert(m =~= m0.insert(key, name@));
                }
            },
        }
    }

    /// List `name` last among the constructs of type `typ`.
    fn push_type_member(&mut self, typ: String, name: String)
        requires
            type_names_of(old(self).types@).no_duplicates(),
        ensures
            type_names_of(final(self).types@).no_duplicates(),
            final(self).constructs == old(self).constructs,
            final(self).keymap == old(self).keymap,
            final(self)@.types == old(self)@.types.insert(
                typ@,
                if old(self)@.types.contains_key(typ@) {
                    old(self)@.types[typ@].push(name@)
                } else {
                    seq![name@]
                },
            ),
    {
        let ghost ts0 = self.types@;
        match self.type_slot(&typ) {
            Some(i) => {
                let mut members: Vec<String> = Vec::new();
                let mut j: usize = 0;
                while j < self.types[i].1.len()
                    invariant
                        i < self.types@.len(),
                        self.types@ == ts0,
                        j <= self.types@[i as int].1@.len(),
                        members@ == self.types@[i as int].1@.subrange(0, j as int),
                    decreases self.types@[i as int].1@.len() - j,
                {
                    members.push(self.types[i].1[j].clone());
                    proof {
                        assert(members@ =~= self.types@[i as int].1@.subrange(0, j + 1));
                    }
                    j += 1;
                }
                let ghost old_members = members@;
                members.push(name);
                self.types.set(i, (typ, members));
                proof {
                    let ts = self.types@;
                    assert(old_members =~= ts0[i as int].1@);
                    assert(type_names_of(ts) =~= type_names_of(ts0));
                    assert(ts[i as int].1@.map_values(|s: String| s@) =~= ts0[i as int].1@.map_values(
                        |s: String| s@,
                    ).push(name@));
                    let m0 = old(self)@.types;
                    let m = self@.types;
                    let t0 = ts0[i as int].0@;
                    assert(type_names_of(ts0)[i as int] == t0);
                    assert(m0.contains_key(t0));
                    assert(m0[t0] == ts0[i as int].1@.map_values(|s: String| s@));
                    assert(m.dom() =~= m0.dom());
                    assert forall|t: Seq<char>| #[trigger] m.contains_key(t) implies m[t] == m0.insert(
                        t0,
                        m0[t0].push(name@),
                    )[t] by {
                        let k = type_names_of(ts).index_of(t);
                        assert(type_names_of(ts)[k] == t);
                    }
                    assert(m =~= m0.insert(t0, m0[t0].push(name@)));
                }
            },
            None => {
                let ghost n = name@;
                let ghost t0 = typ@;
                let mut members: Vec<String> = Vec::new();
                members.push(name);
                self.types.push((typ, members));
                proof {
                    let ts = self.types@;
                    assert(type_names_of(ts) =~= type_names_of(ts0).push(t0));
                    lemma_index_of_unique(type_names_of(ts), ts0.len() as int);
                    assert forall|t: Seq<char>| type_names_of(ts0).contains(t) implies type_names_of(
                        ts,
                    ).index_of(t) == type_names_of(ts0).index_of(t) by {
                        let k = type_names_of(ts0).index_of(t);
                        assert(type_names_of(ts)[k] == t);
                        lemma_index_of_unique(type_names_of(ts), k);
                    }
                    assert(ts[ts0.len() as int].1@.map_values(|s: String| s@) =~= seq![n]);
                    let m0 = old(self)@.types;
                    let m = self@.types;
                    lemma_push_contains(type_names_of(ts0), t0);
                    assert(m.dom() =~= m0.dom().insert(t0));
                    assert forall|t: Seq<char>| #[trigger] m.contains_key(t) implies m[t] == m0.insert(
                        t0,
                        seq![n],
                    )[t] by {
                        if t != t0 {
                            let k = type_names_of(ts0).index_of(t);
                            assert(type_names_of(ts)[k] == t);
                            lemma_index_of_unique(type_names_of(ts), k);
                            lemma_index_of_unique(type_names_of(ts0), k);
                        }
                    }
                    assert(m =~= m0.insert(t0, seq![n]));
                }
            },
        }
    }

    /// Keep `construct` as the construct of its name.
    fn set_construct(&mut self, construct: Construct)
        requires
            names_of(old(self).constructs@).no_duplicates(),
        ensures
            names_of(final(self).constructs@).no_duplicates(),
            final(self).types == old(self).types,
            final(self).keymap == old(self).keymap,
            final(self)@.constructs == old(self)@.constructs.insert(construct.name@, construct),
            forall|n: Seq<char>| #[trigger] old(self)@.constructs.contains_key(n)
                ==> final(self)@.constructs.contains_key(n),
    {
        let ghost cs0 = self.constructs@;
        let ghost c = construct;
        match self.construct_slot(&construct.name) {
            Some(i) => {
                self.constructs.set(i, construct);
                proof {
                    let cs = self.constructs@;
                    assert(names_of(cs) =~= names_of(cs0));
                    let m0 = old(self)@.constructs;
                    let m = self@.constructs;
                    assert(names_of(cs0)[i as int] == c.name@);
                    assert(m.dom() =~= m0.dom().insert(c.name@));
                    assert forall|n: Seq<char>| #[trigger] m.contains_key(n) implies m[n] == m0.insert(
                        c.name@,
                        c,
                    )[n] by {
                        let k = names_of(cs).index_of(n);
                        assert(names_of(cs)[k] == n);
                    }
                    assert(m =~= m0.insert(c.name@, c));
                }
            },
            None => {
                self.constructs.push(construct);
                proof {
                    let cs = self.constructs@;
                    assert(names_of(cs) =~= names_of(cs0).push(c.name@));
                    lemma_index_of_unique(names_of(cs), cs0.len() as int);
                    let m0 = old(self)@.constructs;
                    let m = self@.constructs;
                    lemma_push_contains(names_of(cs0), c.name@);
                    assert(m.dom() =~= m0.dom().insert(c.name@));
                    assert forall|n: Seq<char>| #[trigger] m.contains_key(n) implies m[n] == m0.insert(
                        c.name@,
                        c,
                    )[n] by {
                        if n != c.name@ {
                            let k = names_of(cs0).index_of(n);
                            assert(names_of(cs)[k] == n);
                            lemma_index_of_unique(names_of(cs), k);
                            lemma_index_of_unique(names_of(cs0), k);
                        }
                    }
                    assert(m =~= m0.insert(c.name@, c));
                }
            },
        }
    }

    /// The construct that `key` inserts, if any.
    pub fn lookup(&self, key: char) -> (r: Option<&Construct>)
        requires
            self.wf(),
        ensures
            self@.keymap.contains_key(key) ==> (r matches Some(c) && *c
                == self@.constructs[self@.keymap[key]]),
            !self@.keymap.contains_key(key) ==> r is None,
    {
        match self.key_slot(key) {
            Some(i) => {
                proof {
                    assert(keys_of(self.keymap@)[i as int] == key);
                    assert(self@.keymap.contains_key(key));
                }
                Some(self.lookup_name(self.keymap[i].1.as_str()))
            },
            None => None,
        }
    }

    /// Each construct of the language is found under its own name, and each
    /// key names a construct of the language.
    pub proof fn lemma_constructs_by_name(&self)
        requires
            self.wf(),
        ensures
            forall|n: Seq<char>| #[trigger]
                self@.constructs.contains_key(n) ==> self@.constructs[n].name@ == n,
            forall|k: char| #[trigger]
                self@.keymap.contains_key(k) ==> self@.constructs.contains_key(self@.keymap[k]),
    {
        assert forall|n: Seq<char>| #[trigger]
            self@.constructs.contains_key(n) implies self@.constructs[n].name@ == n by {
            let i = names_of(self.constructs@).index_of(n);
            assert(names_of(self.constructs@)[i] == n);
        }
    }

    /// The construct named `construct`, which the language must have.
    pub fn lookup_name(&self, construct: &str) -> (r: &Construct)
        requires
            self.wf(),
            self@.constructs.contains_key(construct@),
        ensures
            *r == self@.constructs[construct@],
    {
        let name = construct.to_string();
        match self.construct_slot(&name) {
            Some(i) => &self.constructs[i],
            None => unreached(),
        }
    }
}

/// After a construct is added with a key, looking the key up gives that
/// construct, and every construct added before is still found by its name.
pub proof fn lemma_lookup_after_add(v0: LanguageV, v1: LanguageV, key: char, c: Construct)
    requires
        v1.constructs == v0.constructs.insert(c.name@, c),
        v1.keymap == v0.keymap.insert(key, c.name@),
    ensures
        v1.keymap.contains_key(key),
        v1.constructs.contains_key(v1.keymap[key]),
        v1.constructs[v1.keymap[key]] == c,
        forall|n: Seq<char>| #[trigger] v0.constructs.contains_key(n) ==> v1.constructs.contains_key(n),
{
}

} // verus!
