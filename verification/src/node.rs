//! What the ring asks of an owner.

use vstd::prelude::*;
use std::fmt::Debug;
use std::fmt::Display;

verus! {

/// An owner of keys. The ring knows an owner by its name alone: two owners
/// with one name are the same owner to it, and whatever else the value holds
/// is carried along untouched.
///
/// The name of an owner must be stable: `name` returns the same string
/// whenever it is asked, and a clone of an owner has the name of the owner.
pub trait Node: Clone + Debug + Display + Eq + Ord {
    /// Returns the name of this owner.
    fn name(&self) -> String;
}

/// The name of an owner: the string that `name` returns for it.
pub closed spec fn name_of<N: Node>(node: &N) -> Seq<char> {
    (choose|name: String| call_ensures(N::name, (node,), name))@
}

/// Asks an owner for its name.
///
/// Trusted: calls `Node::name` of the owner type. The contract claims what
/// the trait asks of its implementations and nothing checks: that the name
/// is stable, so that it depends on the owner alone.
#[verifier::external_body]
pub(crate) fn owner_name<N: Node>(node: &N) -> (name: String)
    ensures
        name@ == name_of(node),
{
    node.name()
}

/// Duplicates an owner for the ring to keep.
///
/// Trusted: calls `Clone::clone` of the owner type. The contract claims what
/// the trait asks of its implementations and nothing checks: that a clone
/// of an owner has the name of the owner.
#[verifier::external_body]
pub(crate) fn duplicate_owner<N: Node>(node: &N) -> (copy: N)
    ensures
        name_of(&copy) == name_of(node),
{
    node.clone()
}

} // verus!
