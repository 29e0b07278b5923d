//! Virtual nodes: the positions that an owner takes on the ring.

use vstd::prelude::*;
use vstd::string::StringExecFns;
use std::cmp::Ordering;
use vstd::std_specs::cmp::PartialEqSpec;
use vstd::std_specs::cmp::PartialOrdSpec;
use crate::digest::hash_key;
use crate::digest::hashable;
use crate::digest::is_digest;
use crate::digest::sha1_hex;
use crate::node::Node;
use crate::node::name_of;
use crate::node::owner_name;
use crate::key::decimal;
use crate::key::decimal_string;
use crate::key::make_replica_key;
use crate::key::replica_key;
use crate::order::lex_le;
use crate::order::str_le;
use crate::placement::Placement;

verus! {

/// One position on the ring: replica `replica` of the owner `node`, placed
/// at `hash`.
#[derive(Debug)]
pub struct VNode<'a, N: Node> {
    pub replica: usize,
    pub node: &'a N,
    pub hash: String,
}

impl<'a, N: Node> View for VNode<'a, N> {
    type V = Placement<N>;

    open spec fn view(&self) -> Placement<N> {
        Placement { replica: self.replica, node: *self.node, hash: self.hash@ }
    }
}

/// The digest at which replica `replica` of the owner named `name` sits.
pub open spec fn replica_hash(name: Seq<char>, replica: usize) -> Seq<char> {
    sha1_hex(replica_key(name, replica as nat))
}

/// Replica `replica` of `node`, placed where the name and the replica number
/// put it.
pub open spec fn placement_of<N: Node>(replica: usize, node: N) -> Placement<N> {
    Placement { replica, node, hash: replica_hash(name_of(&node), replica) }
}

/// The virtual nodes as plain values, in the same order.
pub open spec fn placements_of<'a, N: Node>(vnodes: Seq<VNode<'a, N>>) -> Seq<Placement<N>> {
    vnodes.map_values(|vnode: VNode<'a, N>| vnode@)
}

/// Two virtual nodes are equal when they sit at one digest, whatever owners
/// they belong to.
impl<'a, N: Node> PartialEq for VNode<'a, N> {
    fn eq(&self, other: &Self) -> (equal: bool) {
        self.hash == other.hash
    }
}

impl<'a, N: Node> vstd::std_specs::cmp::PartialEqSpecImpl for VNode<'a, N> {
    open spec fn obeys_eq_spec() -> bool {
        true
    }

    open spec fn eq_spec(&self, other: &Self) -> bool {
        self.hash@ == other.hash@
    }
}

impl<'a, N: Node> Eq for VNode<'a, N> {

}

/// Virtual nodes are ordered by their digests alone.
impl<'a, N: Node> PartialOrd for VNode<'a, N> {
    fn partial_cmp(&self, other: &Self) -> (order: Option<Ordering>) {
        if str_le(self.hash.as_str(), other.hash.as_str()) {
            if str_le(other.hash.as_str(), self.hash.as_str()) {
                Some(Ordering::Equal)
            } else {
                Some(Ordering::Less)
            }
        } else {
            Some(Ordering::Greater)
        }
    }
}

impl<'a, N: Node> vstd::std_specs::cmp::PartialOrdSpecImpl for VNode<'a, N> {
    open spec fn obeys_partial_cmp_spec() -> bool {
        true
    }

    open spec fn partial_cmp_spec(&self, other: &Self) -> Option<Ordering> {
        if !lex_le(self.hash@, other.hash@) {
            Some(Ordering::Greater)
        } else if lex_le(other.hash@, self.hash@) {
            Some(Ordering::Equal)
        } else {
            Some(Ordering::Less)
        }
    }
}

/// Two virtual nodes are equal exactly when neither comes before the other.
pub proof fn lemma_equal_when_neither_is_before<'a, N: Node>(a: &VNode<'a, N>, b: &VNode<'a, N>)
    ensures
        a.eq_spec(b) <==> (a.partial_cmp_spec(b) == Some(Ordering::Equal)),
{
    if a.hash@ == b.hash@ {
        crate::order::lemma_lex_le_reflexive(a.hash@);
    }
    if lex_le(a.hash@, b.hash@) && lex_le(b.hash@, a.hash@) {
        crate::order::lemma_lex_le_antisymmetric(a.hash@, b.hash@);
    }
}

impl<'a, N: Node> VNode<'a, N> {
    /// Makes replica `replica` of `node`.
    pub fn new(replica: usize, node: &'a N) -> (vnode: Self)
        requires
            hashable(replica_key(name_of(node), replica as nat)),
        ensures
            vnode@ == placement_of(replica, *node),
            is_digest(vnode.hash@),
    {
        let name = owner_name(node);
        let key = make_replica_key(name.as_str(), replica);
        let hash = hash_key(key.as_str());
        VNode { replica, node, hash }
    }

    /// The virtual node as text: the name of its owner, its replica number
    /// and its digest, as in `VNode<(Foo:0:d2b8...)>`.
    pub open spec fn text(&self) -> Seq<char> {
        "VNode<("@ + name_of(self.node) + ":"@ + decimal(self.replica as nat) + ":"@ + self.hash@ + ")>"@
    }

    /// Writes the virtual node out as text.
    pub fn to_text(&self) -> (text: String)
        ensures
            text@ == self.text(),
    {
        let name = owner_name(self.node);
        let digits = decimal_string(self.replica);
        let mut text = "VNode<(".to_owned();
        text.append(name.as_str());
        text.append(":");
        text.append(digits.as_str());
        text.append(":");
        text.append(self.hash.as_str());
        text.append(")>");
        text
    }

    /// A second virtual node for the same replica of the same owner.
    pub(crate) fn duplicate(&self) -> (copy: Self)
        ensures
            copy@ == self@,
    {
        VNode { replica: self.replica, node: self.node, hash: self.hash.clone() }
    }
}

} // verus!
