//! The arity of a syntactic construct: how many children it has, or whether
//! it holds text.

use vstd::prelude::*;

verus! {

/// The arity of a syntactic construct.
///
/// A `ForestArity` is for syntactic constructs that can have trees as
/// children, or that have no children. If the arity is *fixed*
/// (`extendable` is false), the construct must have exactly as many
/// children as its `arity` number. If the arity is *extendable*, it
/// can have more children than that.
///
/// A `TextArity` is for syntactic constructs that contain text.
#[derive(Clone, Copy, Debug, PartialEq, Eq, Structural)]
pub enum Arity {
    ForestArity { arity: usize, extendable: bool },
    TextArity,
}

impl Arity {
    /// Construct a fixed tree arity.
    pub fn fixed(arity: usize) -> (a: Arity)
        ensures
            a == (Arity::ForestArity { arity: arity, extendable: false }),
    {
        Arity::ForestArity { arity: arity, extendable: false }
    }

    /// Construct an extendable tree arity.
    pub fn extendable(arity: usize) -> (a: Arity)
        ensures
            a == (Arity::ForestArity { arity: arity, extendable: true }),
    {
        Arity::ForestArity { arity: arity, extendable: true }
    }

    /// Construct a text arity.
    pub fn text() -> (a: Arity)
        ensures
            a == Arity::TextArity,
    {
        Arity::TextArity
    }

    /// Is this a text arity?
    pub fn is_text(&self) -> (b: bool)
        ensures
            b == (*self is TextArity),
    {
        match self {
            Arity::TextArity => true,
            _ => false,
        }
    }

    /// Is this arity extendable (and thus also foresty)?
    pub fn is_extendable(&self) -> (b: bool)
        ensures
            b == (*self matches Arity::ForestArity { extendable: true, .. }),
    {
        match self {
            Arity::ForestArity { extendable: ext, .. } => *ext,
            Arity::TextArity => false,
        }
    }

    /// Get the arity number for this node: the minimum number of trees it
    /// must have as children (zero for a text arity).
    pub fn arity(&self) -> (n: usize)
        ensures
            *self matches Arity::ForestArity { arity, .. } ==> n == arity,
            *self is TextArity ==> n == 0,
    {
        match self {
            Arity::ForestArity { arity, .. } => *arity,
            Arity::TextArity => 0,
        }
    }
}

/// A syntactic construct: its name, its arity, and the syntax `S` that
/// displays it.
#[derive(Debug)]
pub struct Construct<S> {
    pub name: String,
    pub arity: Arity,
    pub syntax: S,
}

impl<S> Construct<S> {
    /// A construct with the given name, arity and syntax.
    pub fn new(name: &str, arity: Arity, syntax: S) -> (c: Construct<S>)
        ensures
            c.name@ == name@,
            c.arity == arity,
            c.syntax == syntax,
    {
        Construct { name: name.to_string(), arity, syntax }
    }

    /// Can this construct have any number of children (beyond its arity)?
    pub fn is_extendable(&self) -> (b: bool)
        ensures
            b == (self.arity matches Arity::ForestArity { extendable: true, .. }),
    {
        self.arity.is_extendable()
    }
}

} // verus!
