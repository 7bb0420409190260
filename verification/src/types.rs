//! Identifier and lattice-element contracts for abstract type entities.

use vstd::prelude::*;

verus! {

/// An identifier of an abstract entity.
#[derive(Debug, Clone, Copy, PartialEq, Eq, Structural)]
pub struct EntityId(usize);

impl EntityId {
    /// The raw index the identifier wraps.
    pub closed spec fn index(self) -> usize {
        self.0
    }

    pub fn new(id: usize) -> (r: Self)
        ensures
            r.index() == id,
    {
        Self(id)
    }
}

impl From<EntityId> for usize {
    fn from(src: EntityId) -> (r: usize)
        ensures
            r == src.index(),
    {
        src.0
    }
}

impl vstd::std_specs::convert::FromSpecImpl<EntityId> for usize {
    open spec fn obeys_from_spec() -> bool {
        true
    }

    open spec fn from_spec(v: EntityId) -> usize {
        v.index()
    }
}

/// The error an abstract entity raises when two types cannot be brought
/// together.
#[derive(Clone, Copy, PartialEq, Debug)]
pub enum TypeError {
    Converge,
}

impl TypeError {
    /// What the failure means, as the error's printed description.
    pub fn message(&self) -> (r: String)
        ensures
            r@ == "unable to converge types."@,
    {
        match self {
            TypeError::Converge => "unable to converge types.".to_owned(),
        }
    }
}

/// Implementation requirements for an abstract type entity.
pub trait AbstractEntity where Self: Clone + Eq {
    /// The top-level, least constrained abstract entity; in many
    /// implementations this is an `Any` type.
    fn unconstrained_type() -> Self;

    /// The arity, if applicable, of the type.
    fn arity(&self) -> Option<usize>;

    /// Attempts to converge two types to their more constrained
    /// commonality.
    fn converge(&self, other: &Self) -> Result<Self, TypeError>;
}

} // verus!
