//! The ring: its owners, and their virtual nodes in ascending order.

use vstd::prelude::*;
use crate::digest::hash_key;
use crate::digest::hashable;
use crate::digest::sha1_hex;
use crate::key::is_placeable;
use crate::key::placeable;
use crate::key::replica_key;
use crate::node::duplicate_owner;
use crate::node::name_of;
use crate::node::Node;
use crate::node::owner_name;
use crate::order::lemma_lex_le_transitive;
use crate::order::lex_le;
use crate::order::str_le;
use crate::placement::ascending;
use crate::placement::count_owned;
use crate::placement::first_at_or_after;
use crate::placement::has_replica;
use crate::placement::lemma_filter_keeps_all;
use crate::placement::lemma_filter_keeps_ascending;
use crate::placement::lemma_filter_keeps_none;
use crate::placement::lemma_first_at_or_after_is;
use crate::placement::lemma_insert_ascending_at;
use crate::placement::lemma_insert_keeps_ascending;
use crate::placement::lemma_insert_keeps_replica;
use crate::placement::lemma_merge_ascending;
use crate::placement::lemma_merge_filter_len;
use crate::placement::lemma_merge_keeps_replica;
use crate::placement::lemma_merge_holds_both;
use crate::placement::lemma_others_keep_replica;
use crate::placement::lemma_others_stay;
use crate::placement::lemma_owned_and_not_owned;
use crate::placement::lemma_successor_of_placement;
use crate::placement::lemma_successor_wraps;
use crate::placement::merge_ascending;
use crate::placement::not_owned_by;
use crate::placement::owned_by;
use crate::placement::Placement;
use crate::placement::sort_ascending;
use crate::placement::successor;
use crate::vnode::placement_of;
use crate::vnode::placements_of;
use crate::vnode::replica_hash;
use crate::vnode::VNode;

verus! {

/// The virtual nodes of a ring, in the order of the ring.
pub type VNodes<'a, N> = Vec<VNode<'a, N>>;

/// The first `count` replicas of `node`, in the order of their numbers.
pub open spec fn numbered_replicas<N: Node>(node: N, count: usize) -> Seq<Placement<N>> {
    Seq::new(count as nat, |r: int| placement_of(r as usize, node))
}

/// The first `count` replicas of `node`, in the order of the ring.
pub open spec fn replicas_of<N: Node>(node: N, count: usize) -> Seq<Placement<N>> {
    sort_ascending(numbered_replicas(node, count))
}

/// Makes the `replicas` virtual nodes of `node`, ascending by digest.
pub fn create_replicas_for_node<'a, N: Node>(replicas: usize, node: &'a N) -> (vnodes: VNodes<'a, N>)
    requires
        placeable(name_of(node), replicas),
    ensures
        placements_of(vnodes@) == replicas_of(*node, replicas),
        vnodes@.len() == replicas,
        ascending(placements_of(vnodes@)),
        forall|i: int|
            0 <= i < vnodes@.len() ==> (#[trigger] placements_of(vnodes@)[i]).node == *node
                && placements_of(vnodes@)[i].replica < replicas
                && placements_of(vnodes@)[i].hash == replica_hash(name_of(node), placements_of(vnodes@)[i].replica),
        forall|r: usize| r < replicas ==> #[trigger] has_replica(placements_of(vnodes@), name_of(node), r),
{
    let mut vnodes: VNodes<'a, N> = Vec::new();
    let mut r: usize = 0;
    while r < replicas
        invariant
            r <= replicas,
            placeable(name_of(node), replicas),
            placements_of(vnodes@) == replicas_of(*node, r),
            vnodes@.len() == r,
            ascending(placements_of(vnodes@)),
            forall|i: int| 0 <= i < vnodes@.len() ==> {
                let p = #[trigger] placements_of(vnodes@)[i];
                &&& p.node == *node
                &&& p.replica < r
                &&& p.hash == replica_hash(name_of(node), p.replica)
            },
            forall|n: usize| n < r ==> #[trigger] has_replica(placements_of(vnodes@), name_of(node), n),
        decreases replicas - r,
    {
        let vnode = VNode::new(r, node);
        let ghost ps = placements_of(vnodes@);
        let mut k: usize = vnodes.len();
        while k > 0 && !str_le(vnodes[k - 1].hash.as_str(), vnode.hash.as_str())
            invariant
                k <= vnodes.len(),
                ps == placements_of(vnodes@),
                forall|j: int| k <= j < ps.len() ==> !lex_le(#[trigger] ps[j].hash, vnode@.hash),
            decreases k,
        {
            k -= 1;
        }
        proof {
            lemma_insert_ascending_at(ps, vnode@, k as int);
            lemma_insert_keeps_ascending(ps, vnode@, k as int);
            let numbered = numbered_replicas(*node, (r + 1) as usize);
            assert(numbered.drop_last() =~= numbered_replicas(*node, r));
            assert(numbered.last() == vnode@);
            let qs = ps.insert(k as int, vnode@);
            assert forall|n: usize| n < r + 1 implies #[trigger] has_replica(qs, name_of(node), n) by {
                if n < r {
                    lemma_insert_keeps_replica(ps, k as int, vnode@, name_of(node), n);
                } else {
                    assert(qs[k as int] == vnode@);
                }
            }
        }
        vnodes.insert(k, vnode);
        r += 1;
    }
    vnodes
}

/// Merges two ascending runs of virtual nodes into one, in a single pass
/// over both. Where one of `news` and one of `olds` have the same digest,
/// the one of `news` comes first.
fn merge_vnodes<'a, N: Node>(olds: &VNodes<'a, N>, news: &VNodes<'a, N>) -> (merged: VNodes<'a, N>)
    ensures
        placements_of(merged@) == merge_ascending(placements_of(olds@), placements_of(news@)),
{
    let ghost a = placements_of(olds@);
    let ghost b = placements_of(news@);
    let mut merged: VNodes<'a, N> = Vec::new();
    let mut i: usize = 0;
    let mut j: usize = 0;
    assert(a.skip(0) =~= a && b.skip(0) =~= b);
    while i < olds.len() || j < news.len()
        invariant
            i <= olds.len(),
            j <= news.len(),
            a == placements_of(olds@),
            b == placements_of(news@),
            placements_of(merged@) + merge_ascending(a.skip(i as int), b.skip(j as int))
                == merge_ascending(a, b),
        decreases olds.len() - i + news.len() - j,
    {
        let ghost before = placements_of(merged@);
        let ghost rest_a = a.skip(i as int);
        let ghost rest_b = b.skip(j as int);
        if j < news.len() && (i == olds.len() || str_le(news[j].hash.as_str(), olds[i].hash.as_str())) {
            merged.push(news[j].duplicate());
            proof {
                assert(rest_b.drop_first() =~= b.skip(j + 1));
                assert(before.push(b[j as int]) + merge_ascending(rest_a, rest_b.drop_first())
                    =~= before + merge_ascending(rest_a, rest_b));
            }
            j += 1;
        } else {
            merged.push(olds[i].duplicate());
            proof {
                assert(rest_a.drop_first() =~= a.skip(i + 1));
                assert(before.push(a[i as int]) + merge_ascending(rest_a.drop_first(), rest_b)
                    =~= before + merge_ascending(rest_a, rest_b));
            }
            i += 1;
        }
    }
    merged
}

/// A consistent-hashing ring over owners of type `N`.
pub struct Ring<'a, N: Node> {
    /// How many virtual nodes each owner has.
    pub replicas: usize,
    /// The owners, in the order in which they were added.
    pub nodes: Vec<Box<N>>,
    /// The virtual nodes of all owners, ascending by digest.
    pub vnodes: VNodes<'a, N>,
}

impl<'a, N: Node> Ring<'a, N> {
    /// The names of the owners, in the order in which they were added.
    pub open spec fn names(&self) -> Seq<Seq<char>> {
        self.nodes@.map_values(|node: Box<N>| name_of(&*node))
    }

    /// The ring has an owner named `name`.
    pub open spec fn has_owner(&self, name: Seq<char>) -> bool {
        self.names().contains(name)
    }

    /// The virtual nodes as plain values, in the order of the ring.
    pub open spec fn placements(&self) -> Seq<Placement<N>> {
        placements_of(self.vnodes@)
    }

    /// The ring is as its operations leave it: no name occurs twice among
    /// the owners, the virtual nodes ascend by digest, there are `replicas`
    /// of them for each owner, each of them is a replica of an owner of the
    /// ring and sits at the digest of its key, and each owner has `replicas`
    /// of them, one for each replica number below `replicas`.
    pub open spec fn wf(&self) -> bool {
        &&& self.names().no_duplicates()
        &&& ascending(self.placements())
        &&& self.placements().len() == self.names().len() * self.replicas
        &&& forall|i: int| 0 <= i < self.placements().len() ==> {
            let p = #[trigger] self.placements()[i];
            &&& p.replica < self.replicas
            &&& p.hash == replica_hash(name_of(&p.node), p.replica)
            &&& self.names().contains(name_of(&p.node))
        }
        &&& forall|k: int| 0 <= k < self.names().len() ==>
            count_owned(self.placements(), #[trigger] self.names()[k]) == self.replicas
        &&& forall|k: int, r: usize| 0 <= k < self.names().len() && r < self.replicas ==>
            #[trigger] has_replica(self.placements(), self.names()[k], r)
    }

    /// A ring with the one owner `seed_node` and its `replicas` virtual
    /// nodes.
    pub fn new(replicas: usize, seed_node: &'a N) -> (ring: Self)
        requires
            placeable(name_of(seed_node), replicas),
        ensures
            ring.wf(),
            ascending(ring.placements()),
            ring.replicas == replicas,
            ring.nodes@.len() == 1,
            ring.names() == seq![name_of(seed_node)],
            ring.vnodes@.len() == replicas,
            ring.placements() == replicas_of(*seed_node, replicas),
    {
        let owner = Box::new(duplicate_owner(seed_node));
        let mut nodes: Vec<Box<N>> = Vec::new();
        nodes.push(owner);
        let vnodes = create_replicas_for_node(replicas, seed_node);
        let ring = Ring { replicas, nodes, vnodes };
        proof {
            assert(ring.names()[0] == name_of(seed_node));
            lemma_filter_keeps_all(ring.placements(), owned_by(name_of(seed_node)));
        }
        ring
    }

    /// Where among the owners the first one named `name` stands.
    fn position(&self, name: &str) -> (found: Option<usize>)
        ensures
            (match found {
                Some(i) => i < self.names().len() && self.names()[i as int] == name@
                    && forall|k: int| 0 <= k < i ==> self.names()[k] != name@,
                None => !self.names().contains(name@),
            }),
    {
        let wanted = name.to_owned();
        let mut i: usize = 0;
        while i < self.nodes.len()
            invariant
                i <= self.nodes.len(),
                wanted@ == name@,
                forall|k: int| 0 <= k < i ==> self.names()[k] != name@,
            decreases self.nodes.len() - i,
        {
            if owner_name(&*self.nodes[i]) == wanted {
                return Some(i);
            }
            i += 1;
        }
        None
    }

    /// Whether the keys of the first `replicas` replicas of `node` are all
    /// short enough for the digest, so that a ring of `replicas` replicas
    /// for each owner can take `node`.
    pub fn can_place(replicas: usize, node: &N) -> (fits: bool)
        ensures
            fits == placeable(name_of(node), replicas),
    {
        let name = owner_name(node);
        is_placeable(name.as_str(), replicas)
    }

    /// Whether the ring has an owner named `name`.
    pub fn contains_name(&self, name: &str) -> (found: bool)
        ensures
            found == self.has_owner(name@),
    {
        self.position(name).is_some()
    }

    /// Whether the ring has an owner with the name of `search_node`.
    pub fn contains(&self, search_node: &N) -> (found: bool)
        ensures
            found == self.has_owner(name_of(search_node)),
    {
        let name = owner_name(search_node);
        self.contains_name(name.as_str())
    }

    /// Adds `node` and its virtual nodes to the ring. A ring that has an
    /// owner of that name already stays as it is.
    pub fn add(&mut self, node: &'a N)
        requires
            old(self).wf(),
            old(self).has_owner(name_of(node)) || placeable(name_of(node), old(self).replicas),
        ensures
            final(self).wf(),
            ascending(final(self).placements()),
            final(self).replicas == old(self).replicas,
            forall|name: Seq<char>| #[trigger]
                final(self).has_owner(name) <==> old(self).has_owner(name) || name == name_of(node),
            old(self).has_owner(name_of(node)) ==> *final(self) == *old(self),
            !old(self).has_owner(name_of(node)) ==> final(self).names() == old(self).names().push(name_of(node)),
            !old(self).has_owner(name_of(node)) ==> final(self).nodes@.len() == old(self).nodes@.len() + 1,
            !old(self).has_owner(name_of(node)) ==> final(self).nodes@.drop_last() == old(self).nodes@,
            !old(self).has_owner(name_of(node)) ==> final(self).vnodes@.len()
                == old(self).vnodes@.len() + old(self).replicas,
            !old(self).has_owner(name_of(node)) ==> final(self).placements() == merge_ascending(
                old(self).placements(),
                replicas_of(*node, old(self).replicas),
            ),
    {
        if self.contains(node) {
            return;
        }
        let ghost name = name_of(node);
        let ghost old_names = self.names();
        let ghost olds = self.placements();
        let owner = Box::new(duplicate_owner(node));
        self.nodes.push(owner);
        let new_vnodes = create_replicas_for_node(self.replicas, node);
        let ghost news = placements_of(new_vnodes@);
        let merged = merge_vnodes(&self.vnodes, &new_vnodes);
        self.vnodes = merged;
        proof {
            let names = self.names();
            let all = self.placements();
            assert(names =~= old_names.push(name));
            assert(names[old_names.len() as int] == name);
            assert forall|other: Seq<char>| #[trigger]
                self.has_owner(other) <==> old_names.contains(other) || other == name by {
                if old_names.contains(other) {
                    let k = choose|k: int| 0 <= k < old_names.len() && old_names[k] == other;
                    assert(names[k] == other);
                }
            }
            lemma_merge_holds_both(olds, news);
            assert((old_names.len() + 1) * self.replicas == old_names.len() * self.replicas + self.replicas)
                by (nonlinear_arith);
            lemma_merge_ascending(olds, news);
            assert forall|i: int| 0 <= i < all.len() implies {
                let p = #[trigger] all[i];
                &&& p.replica < self.replicas
                &&& p.hash == replica_hash(name_of(&p.node), p.replica)
                &&& names.contains(name_of(&p.node))
            } by {
                let p = all[i];
                assert(all.contains(p));
                if olds.contains(p) {
                    let k = choose|k: int| 0 <= k < old_names.len() && old_names[k] == name_of(&p.node);
                    assert(names[k] == name_of(&p.node));
                }
            }
            assert forall|k: int, r: usize| 0 <= k < names.len() && r < self.replicas implies #[trigger] has_replica(
                all,
                names[k],
                r,
            ) by {
                lemma_merge_keeps_replica(olds, news, names[k], r);
            }
            assert forall|k: int| 0 <= k < names.len() implies count_owned(all, #[trigger] names[k]) == self.replicas by {
                lemma_merge_filter_len(olds, news, owned_by(names[k]));
                if k < old_names.len() {
                    lemma_filter_keeps_none(news, owned_by(names[k]));
                } else {
                    lemma_filter_keeps_none(olds, owned_by(name));
                    lemma_filter_keeps_all(news, owned_by(name));
                }
            }
        }
    }

    /// Takes the owner with the name of `node` out of the ring, and with it
    /// all its virtual nodes; the others stay in their order. A ring without
    /// an owner of that name stays as it is.
    pub fn remove(&mut self, node: &N)
        requires
            old(self).wf(),
        ensures
            final(self).wf(),
            ascending(final(self).placements()),
            final(self).replicas == old(self).replicas,
            forall|name: Seq<char>| #[trigger]
                final(self).has_owner(name) <==> old(self).has_owner(name) && name != name_of(node),
            !old(self).has_owner(name_of(node)) ==> *final(self) == *old(self),
            old(self).has_owner(name_of(node)) ==> final(self).nodes@ == old(self).nodes@.remove(
                old(self).names().index_of(name_of(node)),
            ),
            old(self).has_owner(name_of(node)) ==> final(self).names() == old(self).names().remove(
                old(self).names().index_of(name_of(node)),
            ),
            old(self).has_owner(name_of(node)) ==> final(self).nodes@.len() == old(self).nodes@.len() - 1,
            old(self).has_owner(name_of(node)) ==> final(self).vnodes@.len()
                == old(self).vnodes@.len() - old(self).replicas,
            old(self).has_owner(name_of(node)) ==> final(self).placements() == old(self).placements().filter(
                not_owned_by(name_of(node)),
            ),
    {
        let name = owner_name(node);
        let at = match self.position(name.as_str()) {
            Some(at) => at,
            None => {
                return;
            },
        };
        let ghost gone = name_of(node);
        let ghost old_names = self.names();
        let ghost olds = self.placements();
        self.nodes.remove(at);
        let mut kept: VNodes<'a, N> = Vec::new();
        let mut j: usize = 0;
        proof {
            reveal(Seq::filter);
        }
        while j < self.vnodes.len()
            invariant
                j <= self.vnodes.len(),
                olds == placements_of(self.vnodes@),
                name@ == gone,
                placements_of(kept@) == olds.take(j as int).filter(not_owned_by(gone)),
            decreases self.vnodes.len() - j,
        {
            let owner = owner_name(self.vnodes[j].node);
            proof {
                assert(olds.take(j + 1) =~= olds.take(j as int).push(olds[j as int]));
                olds.take(j as int).lemma_filter_push(olds[j as int], not_owned_by(gone));
            }
            if owner != name {
                kept.push(self.vnodes[j].duplicate());
            }
            j += 1;
        }
        self.vnodes = kept;
        proof {
            let names = self.names();
            let rest = self.placements();
            assert(olds.take(olds.len() as int) =~= olds);
            assert(names =~= old_names.remove(at as int));
            assert forall|other: Seq<char>| #[trigger]
                self.has_owner(other) <==> old_names.contains(other) && other != gone by {
                if old_names.contains(other) && other != gone {
                    let was = choose|was: int| 0 <= was < old_names.len() && old_names[was] == other;
                    let k = if was < at { was } else { was - 1 };
                    assert(names[k] == other);
                }
            }
            lemma_filter_keeps_ascending(olds, not_owned_by(gone));
            lemma_owned_and_not_owned(olds, gone);
            assert((old_names.len() - 1) * self.replicas == old_names.len() * self.replicas - self.replicas)
                by (nonlinear_arith);
            assert forall|i: int| 0 <= i < rest.len() implies {
                let p = #[trigger] rest[i];
                &&& p.replica < self.replicas
                &&& p.hash == replica_hash(name_of(&p.node), p.replica)
                &&& names.contains(name_of(&p.node))
            } by {
                let p = rest[i];
                olds.lemma_filter_contains_rev(not_owned_by(gone), p);
                olds.lemma_filter_pred(not_owned_by(gone), i);
                let k = choose|k: int| 0 <= k < old_names.len() && old_names[k] == name_of(&p.node);
                if k < at {
                    assert(names[k] == name_of(&p.node));
                } else {
                    assert(names[k - 1] == name_of(&p.node));
                }
            }
            assert forall|k: int, r: usize| 0 <= k < names.len() && r < self.replicas implies #[trigger] has_replica(
                rest,
                names[k],
                r,
            ) by {
                lemma_others_keep_replica(olds, gone, names[k], r);
            }
            assert forall|k: int| 0 <= k < names.len() implies count_owned(rest, #[trigger] names[k]) == self.replicas by {
                lemma_others_stay(olds, gone, names[k]);
            }
        }
    }

    /// The owner of the first virtual node whose digest is at or after
    /// `hash`; past the last virtual node, the owner of the first one. `None`
    /// on a ring without virtual nodes.
    pub fn get_with_hash(&self, hash: &str) -> (owner: Option<&N>)
        requires
            ascending(self.placements()),
        ensures
            owner == successor(self.placements(), hash@),
            owner is None <==> self.vnodes@.len() == 0,
            self.wf() ==> (owner matches Some(node) ==> self.has_owner(name_of(node))),
    {
        if self.vnodes.len() == 0 {
            return None;
        }
        let ghost ps = self.placements();
        let mut lo: usize = 0;
        let mut hi: usize = self.vnodes.len();
        while lo < hi
            invariant
                lo <= hi <= self.vnodes.len(),
                ps == self.placements(),
                ascending(ps),
                forall|k: int| 0 <= k < lo ==> !lex_le(hash@, #[trigger] ps[k].hash),
                forall|k: int| hi <= k < ps.len() ==> lex_le(hash@, #[trigger] ps[k].hash),
            decreases hi - lo,
        {
            let mid = lo + (hi - lo) / 2;
            if str_le(hash, self.vnodes[mid].hash.as_str()) {
                assert forall|k: int| mid <= k < ps.len() implies lex_le(hash@, #[trigger] ps[k].hash) by {
                    lemma_lex_le_transitive(hash@, ps[mid as int].hash, ps[k].hash);
                }
                hi = mid;
            } else {
                assert forall|k: int| 0 <= k < mid + 1 implies !lex_le(hash@, #[trigger] ps[k].hash) by {
                    if lex_le(hash@, ps[k].hash) {
                        lemma_lex_le_transitive(hash@, ps[k].hash, ps[mid as int].hash);
                    }
                }
                lo = mid + 1;
            }
        }
        proof {
            lemma_first_at_or_after_is(ps, hash@, lo as int);
        }
        if lo < self.vnodes.len() {
            Some(self.vnodes[lo].node)
        } else {
            Some(self.vnodes[0].node)
        }
    }

    /// The owner that `key` falls to: the one that the digest of `key`
    /// falls to.
    pub fn get(&self, key: &str) -> (owner: Option<&N>)
        requires
            ascending(self.placements()),
            hashable(key@),
        ensures
            owner == successor(self.placements(), sha1_hex(key@)),
            owner is None <==> self.vnodes@.len() == 0,
            self.wf() ==> (owner matches Some(node) ==> self.has_owner(name_of(node))),
    {
        let hash = hash_key(key);
        self.get_with_hash(hash.as_str())
    }

    /// Asking an unchanged ring twice for the owner of one key gives one
    /// answer.
    pub proof fn lemma_get_repeats(&self, key: &str, first: Option<&N>, second: Option<&N>)
        requires
            ascending(self.placements()),
            hashable(key@),
            call_ensures(Self::get, (self, key), first),
            call_ensures(Self::get, (self, key), second),
        ensures
            first == second,
    {
    }

    /// The key of a virtual node falls to the owner of that virtual node,
    /// as long as the first virtual node at its digest belongs to that owner:
    /// where replicas of two owners meet at one digest, keys at the digest
    /// fall to the owner of the first of them.
    pub proof fn lemma_replica_key_finds_owner(&self, i: int)
        requires
            self.wf(),
            0 <= i < self.placements().len(),
            self.placements()[first_at_or_after(self.placements(), self.placements()[i].hash)].node
                == self.placements()[i].node,
        ensures
            successor(
                self.placements(),
                sha1_hex(replica_key(name_of(&self.placements()[i].node), self.placements()[i].replica as nat)),
            ) == Some(&self.placements()[i].node),
    {
        lemma_successor_of_placement(self.placements(), i);
    }

    /// On a ring where no two virtual nodes share a digest, the key of
    /// every virtual node falls to the owner of that virtual node.
    pub proof fn lemma_replica_keys_find_owners(&self)
        requires
            self.wf(),
            forall|i: int, j: int|
                0 <= i < j < self.placements().len() ==> #[trigger] self.placements()[i].hash
                    != #[trigger] self.placements()[j].hash,
        ensures
            forall|i: int|
                #![trigger self.placements()[i]]
                0 <= i < self.placements().len() ==> successor(
                    self.placements(),
                    sha1_hex(
                        replica_key(name_of(&self.placements()[i].node), self.placements()[i].replica as nat),
                    ),
                ) == Some(&self.placements()[i].node),
    {
        let ps = self.placements();
        assert forall|i: int| #![trigger ps[i]] 0 <= i < ps.len() implies successor(
            ps,
            sha1_hex(replica_key(name_of(&ps[i].node), ps[i].replica as nat)),
        ) == Some(&ps[i].node) by {
            lemma_successor_of_placement(ps, i);
        }
    }

    /// Replica `replica` of every owner of the ring is on the ring, and its
    /// key falls to an owner of that name, as long as every virtual node at
    /// the digest of that key belongs to an owner of that name.
    pub proof fn lemma_owner_keys_find_owner(&self, k: int, replica: usize)
        requires
            self.wf(),
            0 <= k < self.names().len(),
            replica < self.replicas,
            forall|j: int|
                0 <= j < self.placements().len() && (#[trigger] self.placements()[j]).hash == replica_hash(
                    self.names()[k],
                    replica,
                ) ==> name_of(&self.placements()[j].node) == self.names()[k],
        ensures
            has_replica(self.placements(), self.names()[k], replica),
            successor(self.placements(), replica_hash(self.names()[k], replica)) matches Some(node)
                && name_of(node) == self.names()[k],
    {
        let ps = self.placements();
        let name = self.names()[k];
        assert(has_replica(ps, name, replica));
        let i = choose|i: int| 0 <= i < ps.len() && name_of(&(#[trigger] ps[i]).node) == name && ps[i].replica == replica;
        lemma_successor_of_placement(ps, i);
    }

    /// A digest that is after the digest of every virtual node falls to the
    /// owner of the virtual node with the smallest digest, which is the first
    /// one.
    pub proof fn lemma_wrap_around(&self, hash: Seq<char>)
        requires
            ascending(self.placements()),
            self.placements().len() > 0,
            forall|k: int| 0 <= k < self.placements().len() ==> !lex_le(hash, #[trigger] self.placements()[k].hash),
        ensures
            successor(self.placements(), hash) == Some(&self.placements()[0].node),
            forall|k: int|
                0 <= k < self.placements().len() ==> lex_le(
                    self.placements()[0].hash,
                    #[trigger] self.placements()[k].hash,
                ),
    {
        lemma_successor_wraps(self.placements(), hash);
    }
}

} // verus!
