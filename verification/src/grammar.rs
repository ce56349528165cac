//! Building a language's grammar: its constructs (the kinds of nodes a
//! document can have) and its sorts (named sets of constructs and sorts).

use vstd::prelude::*;
use crate::strings::{push_str, string_push};

verus! {

/// What can be wrong with a language's description.
#[derive(Debug, Clone, PartialEq, Eq)]
pub enum LanguageError {
    /// Missing notation for a construct.
    MissingNotation(String),
    /// A key used for two constructs.
    DuplicateKey(char, String, String),
    /// A name used for two constructs.
    DuplicateConstruct(String),
    /// A name used for two sorts.
    DuplicateSort(String),
    /// A name used for both a construct and a sort.
    DuplicateConstructAndSort(String),
    /// A name that is neither a construct nor a sort.
    UndefinedConstructOrSort(String),
    /// A notation set (first) with two notations for one construct (second).
    DuplicateNotation(String, String),
    /// A notation set (first) with a notation for a name (second) that is no
    /// construct of the grammar.
    UndefinedNotation(String, String),
}

/// The message a language error is shown with.
pub open spec fn language_error_text(e: LanguageError) -> Seq<char> {
    match e {
        LanguageError::MissingNotation(c) => "Missing notation for construct '"@ + c@ + "'"@,
        LanguageError::DuplicateKey(k, a, b) => "Duplicate key '"@ + seq![k]
            + "' used for both construct '"@ + a@ + "' and construct '"@ + b@,
        LanguageError::DuplicateConstruct(c) => "Duplicate name '"@ + c@
            + "' used for two constructs"@,
        LanguageError::DuplicateSort(s) => "Duplicate name '"@ + s@ + "' used for two sorts"@,
        LanguageError::DuplicateConstructAndSort(n) => "Duplicate name '"@ + n@
            + "' used for both a construct and a sort"@,
        LanguageError::UndefinedConstructOrSort(n) => "Name '"@ + n@
            + "' is not a known construct or sort"@,
        LanguageError::DuplicateNotation(set, c) => "Duplicate notation for construct '"@ + c@
            + "' in notation set '"@ + set@ + "'"@,
        LanguageError::UndefinedNotation(set, n) => "Notation set '"@ + set@
            + "' has a notation for '"@ + n@ + "', which is not a construct"@,
    }
}

impl LanguageError {
    /// The message this error is shown with.
    pub fn to_string(&self) -> (s: String)
        ensures
            s@ == language_error_text(*self),
    {
        let mut s = String::new();
        match self {
            LanguageError::MissingNotation(c) => {
                push_str(&mut s, "Missing notation for construct '");
                push_str(&mut s, c.as_str());
                push_str(&mut s, "'");
            },
            LanguageError::DuplicateKey(k, a, b) => {
                push_str(&mut s, "Duplicate key '");
                string_push(&mut s, *k);
                push_str(&mut s, "' used for both construct '");
                push_str(&mut s, a.as_str());
                push_str(&mut s, "' and construct '");
                push_str(&mut s, b.as_str());
            },
            LanguageError::DuplicateConstruct(c) => {
                push_str(&mut s, "Duplicate name '");
                push_str(&mut s, c.as_str());
                push_str(&mut s, "' used for two constructs");
            },
            LanguageError::DuplicateSort(n) => {
                push_str(&mut s, "Duplicate name '");
                push_str(&mut s, n.as_str());
                push_str(&mut s, "' used for two sorts");
            },
            LanguageError::DuplicateConstructAndSort(n) => {
                push_str(&mut s, "Duplicate name '");
                push_str(&mut s, n.as_str());
                push_str(&mut s, "' used for both a construct and a sort");
            },
            LanguageError::UndefinedConstructOrSort(n) => {
                push_str(&mut s, "Name '");
                push_str(&mut s, n.as_str());
                push_str(&mut s, "' is not a known construct or sort");
            },
            LanguageError::DuplicateNotation(set, c) => {
                push_str(&mut s, "Duplicate notation for construct '");
                push_str(&mut s, c.as_str());
                push_str(&mut s, "' in notation set '");
                push_str(&mut s, set.as_str());
                push_str(&mut s, "'");
            },
            LanguageError::UndefinedNotation(set, n) => {
                push_str(&mut s, "Notation set '");
                push_str(&mut s, set.as_str());
                push_str(&mut s, "' has a notation for '");
                push_str(&mut s, n.as_str());
                push_str(&mut s, "', which is not a construct");
            },
        }
        proof {
            reveal_strlit("Missing notation for construct '");
            reveal_strlit("'");
            reveal_strlit("Duplicate key '");
            reveal_strlit("' used for both construct '");
            reveal_strlit("' and construct '");
            reveal_strlit("Duplicate name '");
            reveal_strlit("' used for two constructs");
            reveal_strlit("' used for two sorts");
            reveal_strlit("' used for both a construct and a sort");
            reveal_strlit("Name '");
            reveal_strlit("' is not a known construct or sort");
            reveal_strlit("Duplicate notation for construct '");
            reveal_strlit("' in notation set '");
            reveal_strlit("Notation set '");
            reveal_strlit("' has a notation for '");
            reveal_strlit("', which is not a construct");
        }
        s
    }
}

/// A set of constructs. Can both include and be included by other sorts.
#[derive(Debug, Clone, PartialEq, Eq)]
pub struct SortSpec(pub Vec<String>);

/// The sorts of children that a node is allowed to contain.
#[derive(Debug, Clone)]
pub enum AritySpec {
    /// Designates a pure text node.
    Texty,
    /// Designates a node containing a fixed number of tree children, of
    /// these sorts respectively.
    Fixed(Vec<SortSpec>),
    /// Designates a node containing any number of tree children, all of the
    /// same sort.
    Listy(SortSpec),
}

/// A kind of node that can appear in a document.
#[derive(Debug, Clone)]
pub struct ConstructSpec {
    pub name: String,
    pub arity: AritySpec,
    pub key: Option<char>,
}

/// The names given in `names`, in order.
pub open spec fn construct_names(cs: Seq<ConstructSpec>) -> Seq<Seq<char>> {
    cs.map_values(|c: ConstructSpec| c.name@)
}

/// The names of the sorts in `sorts`, in order.
pub open spec fn sort_names(sorts: Seq<(String, SortSpec)>) -> Seq<Seq<char>> {
    sorts.map_values(|s: (String, SortSpec)| s.0@)
}

/// What a grammar builder holds so far: the language's name, its
/// constructs in the order they were added (a construct's id is its
/// position), and its named sorts in the order they were added.
pub struct GrammarBuilderV {
    pub language_name: Seq<char>,
    pub constructs: Seq<ConstructSpec>,
    pub sorts: Seq<(String, SortSpec)>,
}

/// Used to construct a grammar: each name is given to at most one
/// construct or sort.
pub struct GrammarBuilder {
    language_name: String,
    constructs: Vec<ConstructSpec>,
    sorts: Vec<(String, SortSpec)>,
}

impl View for GrammarBuilder {
    type V = GrammarBuilderV;

    closed spec fn view(&self) -> GrammarBuilderV {
        GrammarBuilderV {
            language_name: self.language_name@,
            constructs: self.constructs@,
            sorts: self.sorts@,
        }
    }
}

impl GrammarBuilder {
    /// No name is used twice, among the constructs and the sorts together.
    pub open spec fn wf(&self) -> bool {
        let cs = construct_names(self@.constructs);
        let ss = sort_names(self@.sorts);
        &&& cs.no_duplicates()
        &&& ss.no_duplicates()
        &&& forall|i: int, j: int| 0 <= i < cs.len() && 0 <= j < ss.len() ==> cs[i] != ss[j]
    }

    /// A builder for the language named `language_name`, with nothing in it.
    pub fn new(language_name: String) -> (g: GrammarBuilder)
        ensures
            g.wf(),
            g@.language_name == language_name@,
            g@.constructs.len() == 0,
            g@.sorts.len() == 0,
    {
        let g = GrammarBuilder { language_name, constructs: Vec::new(), sorts: Vec::new() };
        assert(construct_names(g@.constructs) =~= Seq::empty());
        assert(sort_names(g@.sorts) =~= Seq::empty());
        g
    }

    /// Whether a construct is named `name`.
    fn has_construct(&self, name: &String) -> (b: bool)
        ensures
            b == construct_names(self@.constructs).contains(name@),
    {
        let mut i: usize = 0;
        while i < self.constructs.len()
            invariant
                i <= self.constructs@.len(),
                forall|j: int| 0 <= j < i ==> self.constructs@[j].name@ != name@,
            decreases self.constructs@.len() - i,
        {
            if self.constructs[i].name == *name {
                assert(construct_names(self@.constructs)[i as int] == name@);
                return true;
            }
            i += 1;
        }
        proof {
            if construct_names(self@.constructs).contains(name@) {
                let k = construct_names(self@.constructs).index_of(name@);
                assert(self.constructs@[k].name@ == name@);
            }
        }
        false
    }

    /// Whether a sort is named `name`.
    fn has_sort(&self, name: &String) -> (b: bool)
        ensures
            b == sort_names(self@.sorts).contains(name@),
    {
        let mut i: usize = 0;
        while i < self.sorts.len()
            invariant
                i <= self.sorts@.len(),
                forall|j: int| 0 <= j < i ==> self.sorts@[j].0@ != name@,
            decreases self.sorts@.len() - i,
        {
            if self.sorts[i].0 == *name {
                assert(sort_names(self@.sorts)[i as int] == name@);
                return true;
            }
            i += 1;
        }
        proof {
            if sort_names(self@.sorts).contains(name@) {
                let k = sort_names(self@.sorts).index_of(name@);
                assert(self.sorts@[k].0@ == name@);
            }
        }
        false
    }

    /// Add a construct. It is refused if its name is already that of a
    /// construct or of a sort.
    pub fn add_construct(&mut self, construct: ConstructSpec) -> (r: Result<(), LanguageError>)
        requires
            old(self).wf(),
        ensures
            final(self).wf(),
            final(self)@.language_name == old(self)@.language_name,
            final(self)@.sorts == old(self)@.sorts,
            construct_names(old(self)@.constructs).contains(construct.name@) ==> r == Err::<
                (),
                LanguageError,
            >(LanguageError::DuplicateConstruct(construct.name)) && final(self)@ == old(self)@,
            !construct_names(old(self)@.constructs).contains(construct.name@) && sort_names(
                old(self)@.sorts,
            ).contains(construct.name@) ==> r == Err::<(), LanguageError>(
                LanguageError::DuplicateConstructAndSort(construct.name),
            ) && final(self)@ == old(self)@,
            !construct_names(old(self)@.constructs).contains(construct.name@) && !sort_names(
                old(self)@.sorts,
            ).contains(construct.name@) ==> r == Ok::<(), LanguageError>(())
                && final(self)@.constructs == old(self)@.constructs.push(construct),
    {
        if self.has_construct(&construct.name) {
            return Err(LanguageError::DuplicateConstruct(construct.name.clone()));
        } else if self.has_sort(&construct.name) {
            return Err(LanguageError::DuplicateConstructAndSort(construct.name.clone()));
        }
        let ghost old_cs = self@.constructs;
        self.constructs.push(construct);
        proof {
            assert(construct_names(self@.constructs) =~= construct_names(old_cs).push(
                construct.name@,
            ));
        }
        Ok(())
    }

    /// Add the sort `name`. It is refused if `name` is already that of a
    /// sort or of a construct.
    pub fn add_sort(&mut self, name: String, sort: SortSpec) -> (r: Result<(), LanguageError>)
        requires
            old(self).wf(),
        ensures
            final(self).wf(),
            final(self)@.language_name == old(self)@.language_name,
            final(self)@.constructs == old(self)@.constructs,
            sort_names(old(self)@.sorts).contains(name@) ==> r == Err::<(), LanguageError>(
                LanguageError::DuplicateSort(name),
            ) && final(self)@ == old(self)@,
            !sort_names(old(self)@.sorts).contains(name@) && construct_names(
                old(self)@.constructs,
            ).contains(name@) ==> r == Err::<(), LanguageError>(
                LanguageError::DuplicateConstructAndSort(name),
            ) && final(self)@ == old(self)@,
            !sort_names(old(self)@.sorts).contains(name@) && !construct_names(
                old(self)@.constructs,
            ).contains(name@) ==> r == Ok::<(), LanguageError>(())
                && final(self)@.sorts == old(self)@.sorts.push((name, sort)),
    {
        if self.has_sort(&name) {
            return Err(LanguageError::DuplicateSort(name));
        } else if self.has_construct(&name) {
            return Err(LanguageError::DuplicateConstructAndSort(name));
        }
        let ghost old_ss = self@.sorts;
        let ghost n = name@;
        self.sorts.push((name, sort));
        proof {
            assert(sort_names(self@.sorts) =~= sort_names(old_ss).push(n));
        }
        Ok(())
    }
}

} // verus!
