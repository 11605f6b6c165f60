//! A generic error whose source need not implement any diagnostic trait,
//! with the payloads it is built from.
use vstd::prelude::*;
use vstd::string::StringExecFns;

verus! {

/// A borrowed payload with no diagnostic traits.
pub struct Payload<'ctx>(pub &'ctx str);

/// A source error with no fields.
#[derive(Debug)]
pub struct Leaf;

/// An error that carries a source of any type; it displays as
/// "operation failed".
#[derive(Debug)]
pub struct Failure<E> {
    pub source: E,
}

impl<E> Failure<E> {
    /// Wraps a source.
    pub fn into_error(source: E) -> (r: Failure<E>)
        ensures
            r.source == source,
    {
        Failure { source }
    }

    /// The source error, which the error always exposes.
    pub fn source(&self) -> (r: &E)
        ensures
            *r == self.source,
    {
        &self.source
    }

    /// The display text of the error, which does not depend on the source.
    pub fn to_string(&self) -> (r: String)
        ensures
            r@ == "operation failed"@,
    {
        String::from_str("operation failed")
    }
}

/// A failure whose source borrows `text`.
pub fn construct(text: &str) -> (r: Failure<Payload<'_>>)
    ensures
        r.source.0@ == text@,
{
    Failure::into_error(Payload(text))
}

/// A failure whose source is a [`Leaf`].
pub fn source_chain() -> (r: Failure<Leaf>)
    ensures
        r.source == Leaf,
{
    Failure::into_error(Leaf)
}

} // verus!
