//! Syntactic constructs described by their type and by the types of what
//! they contain.

use vstd::prelude::*;

verus! {

/// The name of a construct.
pub type ConstructName = String;

/// The name of a type of constructs.
pub type TypeName = String;

/// What a construct contains: text, text mixed with children of one type, or
/// children of the given types followed by any number of children of an
/// optional further type.
#[derive(Debug)]
pub enum Signature {
    Text,
    Mixed(TypeName),
    Forest(Vec<TypeName>, Option<TypeName>),
}

/// A syntactic construct: its name, its type and its signature.
#[derive(Debug)]
pub struct Construct {
    pub name: ConstructName,
    pub typ: TypeName,
    pub sig: Signature,
}

impl Construct {
    /// A construct with the given name, type and signature.
    pub fn new(name: &str, typ: &str, sig: Signature) -> (c: Construct)
        ensures
            c.name@ == name@,
            c.typ@ == typ@,
            c.sig == sig,
    {
        Construct { name: name.to_string(), typ: typ.to_string(), sig: sig }
    }

    /// A hole in the document, for when a program is incomplete: named `?`,
    /// of type `Any`, with no children.
    pub fn hole() -> (c: Construct)
        ensures
            c.name@ == "?"@,
            c.typ@ == "Any"@,
            c.sig matches Signature::Forest(kids, more) && kids@.len() == 0 && more is None,
    {
        Construct::new("?", "Any", Signature::Forest(Vec::new(), None))
    }
}

} // verus!
