//! Placements: what a virtual node is to the rules of the ring, and the
//! sequences of placements that the ring keeps in ascending order.

use vstd::prelude::*;
use vstd::seq_lib::lemma_multiset_commutative;
use crate::node::Node;
use crate::node::name_of;
use crate::order::lemma_lex_le_antisymmetric;
use crate::order::lemma_lex_le_reflexive;
use crate::order::lemma_lex_le_total;
use crate::order::lemma_lex_le_transitive;
use crate::order::lex_le;

verus! {

/// A virtual node as a plain value: the replica number, the owner, and the
/// digest at which the replica sits on the ring.
pub struct Placement<N: Node> {
    pub replica: usize,
    pub node: N,
    pub hash: Seq<char>,
}

/// The placements run in ascending order of their digests.
pub open spec fn ascending<N: Node>(ps: Seq<Placement<N>>) -> bool {
    forall|i: int, j: int| 0 <= i <= j < ps.len() ==> lex_le(#[trigger] ps[i].hash, #[trigger] ps[j].hash)
}

/// The test that picks the placements of the owner named `name`.
pub open spec fn owned_by<N: Node>(name: Seq<char>) -> spec_fn(Placement<N>) -> bool {
    |p: Placement<N>| name_of(&p.node) == name
}

/// The test that picks the placements of every owner but the one named `name`.
pub open spec fn not_owned_by<N: Node>(name: Seq<char>) -> spec_fn(Placement<N>) -> bool {
    |p: Placement<N>| name_of(&p.node) != name
}

/// How many of the placements belong to the owner named `name`.
pub open spec fn count_owned<N: Node>(ps: Seq<Placement<N>>, name: Seq<char>) -> nat {
    ps.filter(owned_by(name)).len()
}

/// One of the placements is replica `replica` of the owner named `name`.
pub open spec fn has_replica<N: Node>(ps: Seq<Placement<N>>, name: Seq<char>, replica: usize) -> bool {
    exists|i: int| 0 <= i < ps.len() && name_of(&(#[trigger] ps[i]).node) == name && ps[i].replica == replica
}

/// `ps` with `p` put behind the last placement that is at or before it.
pub open spec fn insert_ascending<N: Node>(ps: Seq<Placement<N>>, p: Placement<N>) -> Seq<Placement<N>>
    decreases ps.len(),
{
    if ps.len() == 0 || lex_le(ps.last().hash, p.hash) {
        ps.push(p)
    } else {
        insert_ascending(ps.drop_last(), p).push(ps.last())
    }
}

/// The placements of `ps` in ascending order of their digests, those with
/// one digest in the order in which `ps` has them.
pub open spec fn sort_ascending<N: Node>(ps: Seq<Placement<N>>) -> Seq<Placement<N>>
    decreases ps.len(),
{
    if ps.len() == 0 {
        ps
    } else {
        insert_ascending(sort_ascending(ps.drop_last()), ps.last())
    }
}

/// The two ascending sequences as one: each keeps its own order, and where
/// a placement of `news` and one of `olds` have the same digest, the one of
/// `news` comes first.
pub open spec fn merge_ascending<N: Node>(olds: Seq<Placement<N>>, news: Seq<Placement<N>>) -> Seq<Placement<N>>
    decreases olds.len() + news.len(),
{
    if news.len() == 0 {
        olds
    } else if olds.len() == 0 {
        news
    } else if lex_le(news[0].hash, olds[0].hash) {
        seq![news[0]] + merge_ascending(olds, news.drop_first())
    } else {
        seq![olds[0]] + merge_ascending(olds.drop_first(), news)
    }
}

/// The index of the first placement whose digest is at or after `hash`, or
/// the length of `ps` where there is none.
pub open spec fn first_at_or_after<N: Node>(ps: Seq<Placement<N>>, hash: Seq<char>) -> int
    decreases ps.len(),
{
    if ps.len() == 0 || lex_le(hash, ps[0].hash) {
        0
    } else {
        1 + first_at_or_after(ps.drop_first(), hash)
    }
}

/// The owner that `hash` falls to: that of the first placement at or after
/// `hash`, and, past the last placement, that of the first one of all.
pub open spec fn successor<'a, N: Node>(ps: Seq<Placement<N>>, hash: Seq<char>) -> Option<&'a N> {
    if ps.len() == 0 {
        None
    } else if first_at_or_after(ps, hash) < ps.len() {
        Some(&ps[first_at_or_after(ps, hash)].node)
    } else {
        Some(&ps[0].node)
    }
}

/// Where `p` belongs in `ps`: behind a placement at or before it, and ahead
/// of placements that are all after it.
pub open spec fn belongs_at<N: Node>(ps: Seq<Placement<N>>, p: Placement<N>, k: int) -> bool {
    &&& 0 <= k <= ps.len()
    &&& k > 0 ==> lex_le(ps[k - 1].hash, p.hash)
    &&& forall|j: int| k <= j < ps.len() ==> !lex_le(#[trigger] ps[j].hash, p.hash)
}

/// Putting `p` where it belongs is what `insert_ascending` does.
pub proof fn lemma_insert_ascending_at<N: Node>(ps: Seq<Placement<N>>, p: Placement<N>, k: int)
    requires
        belongs_at(ps, p, k),
    ensures
        insert_ascending(ps, p) == ps.insert(k, p),
    decreases ps.len(),
{
    if ps.len() > 0 && !lex_le(ps.last().hash, p.hash) {
        lemma_insert_ascending_at(ps.drop_last(), p, k);
    }
}

/// An ascending sequence stays ascending when a placement is put where it
/// belongs.
pub proof fn lemma_insert_keeps_ascending<N: Node>(ps: Seq<Placement<N>>, p: Placement<N>, k: int)
    requires
        ascending(ps),
        belongs_at(ps, p, k),
    ensures
        ascending(ps.insert(k, p)),
{
    let qs = ps.insert(k, p);
    assert forall|i: int, j: int| 0 <= i <= j < qs.len() implies lex_le(#[trigger] qs[i].hash, #[trigger] qs[j].hash) by {
        if j == k && i < k {
            lemma_lex_le_transitive(ps[i].hash, ps[k - 1].hash, p.hash);
        } else if j == k {
            lemma_lex_le_reflexive(p.hash);
        } else if j > k && i == k {
            lemma_lex_le_total(ps[j - 1].hash, p.hash);
        }
    }
}

/// Putting a placement into an ascending sequence with `insert_ascending`
/// gives an ascending sequence of the same placements and the new one.
pub proof fn lemma_insert_ascending<N: Node>(ps: Seq<Placement<N>>, p: Placement<N>)
    requires
        ascending(ps),
    ensures
        ascending(insert_ascending(ps, p)),
        insert_ascending(ps, p).len() == ps.len() + 1,
        insert_ascending(ps, p).to_multiset() == ps.to_multiset().insert(p),
    decreases ps.len(),
{
    broadcast use vstd::seq_lib::group_to_multiset_ensures;

    if ps.len() == 0 || lex_le(ps.last().hash, p.hash) {
        lemma_insert_keeps_ascending(ps, p, ps.len() as int);
        assert(ps.insert(ps.len() as int, p) =~= ps.push(p));
    } else {
        let front = ps.drop_last();
        lemma_insert_ascending(front, p);
        let placed = insert_ascending(front, p);
        lemma_lex_le_total(ps.last().hash, p.hash);
        assert forall|i: int| 0 <= i < placed.len() implies lex_le(#[trigger] placed[i].hash, ps.last().hash) by {
            assert(placed.to_multiset().count(placed[i]) > 0);
        }
        lemma_push_keeps_ascending(placed, ps.last());
        assert(front.push(ps.last()) =~= ps);
    }
}

/// An ascending sequence that ends no later than `p` stays ascending with
/// `p` put behind it.
proof fn lemma_push_keeps_ascending<N: Node>(ps: Seq<Placement<N>>, p: Placement<N>)
    requires
        ascending(ps),
        forall|i: int| 0 <= i < ps.len() ==> lex_le(#[trigger] ps[i].hash, p.hash),
    ensures
        ascending(ps.push(p)),
{
    let qs = ps.push(p);
    assert forall|i: int, j: int| 0 <= i <= j < qs.len() implies lex_le(#[trigger] qs[i].hash, #[trigger] qs[j].hash) by {
        if i == ps.len() {
            lemma_lex_le_reflexive(p.hash);
        }
    }
}

/// `sort_ascending` gives the same placements in ascending order.
pub proof fn lemma_sort_ascending<N: Node>(ps: Seq<Placement<N>>)
    ensures
        ascending(sort_ascending(ps)),
        sort_ascending(ps).len() == ps.len(),
        sort_ascending(ps).to_multiset() == ps.to_multiset(),
    decreases ps.len(),
{
    broadcast use vstd::seq_lib::group_to_multiset_ensures;

    if ps.len() > 0 {
        lemma_sort_ascending(ps.drop_last());
        lemma_insert_ascending(sort_ascending(ps.drop_last()), ps.last());
        assert(ps.drop_last().push(ps.last()) =~= ps);
    }
}

/// The merged sequence holds the placements of both sequences, each as
/// often as the two hold it together.
pub proof fn lemma_merge_holds_both<N: Node>(olds: Seq<Placement<N>>, news: Seq<Placement<N>>)
    ensures
        merge_ascending(olds, news).to_multiset() == olds.to_multiset().add(news.to_multiset()),
        merge_ascending(olds, news).len() == olds.len() + news.len(),
        forall|p: Placement<N>| #[trigger]
            merge_ascending(olds, news).contains(p) <==> olds.contains(p) || news.contains(p),
    decreases olds.len() + news.len(),
{
    broadcast use vstd::seq_lib::group_to_multiset_ensures;

    let merged = merge_ascending(olds, news);
    if news.len() > 0 && olds.len() > 0 {
        if lex_le(news[0].hash, olds[0].hash) {
            let rest = merge_ascending(olds, news.drop_first());
            lemma_merge_holds_both(olds, news.drop_first());
            lemma_multiset_commutative(seq![news[0]], rest);
            lemma_multiset_commutative(seq![news[0]], news.drop_first());
            assert(seq![news[0]] + news.drop_first() =~= news);
        } else {
            let rest = merge_ascending(olds.drop_first(), news);
            lemma_merge_holds_both(olds.drop_first(), news);
            lemma_multiset_commutative(seq![olds[0]], rest);
            lemma_multiset_commutative(seq![olds[0]], olds.drop_first());
            assert(seq![olds[0]] + olds.drop_first() =~= olds);
        }
    }
    assert forall|p: Placement<N>| #[trigger] merged.contains(p) <==> olds.contains(p) || news.contains(p) by {
        assert(merged.to_multiset().count(p) == olds.to_multiset().count(p) + news.to_multiset().count(p));
    }
}

/// An ascending sequence that starts no earlier than `p` stays ascending
/// with `p` put in front.
proof fn lemma_prepend_keeps_ascending<N: Node>(p: Placement<N>, ps: Seq<Placement<N>>)
    requires
        ascending(ps),
        forall|i: int| 0 <= i < ps.len() ==> lex_le(p.hash, #[trigger] ps[i].hash),
    ensures
        ascending(seq![p] + ps),
{
    let qs = seq![p] + ps;
    assert forall|i: int, j: int| 0 <= i <= j < qs.len() implies lex_le(#[trigger] qs[i].hash, #[trigger] qs[j].hash) by {
        if j == 0 {
            lemma_lex_le_reflexive(p.hash);
        }
    }
}

/// Two ascending sequences merge into an ascending one.
pub proof fn lemma_merge_ascending<N: Node>(olds: Seq<Placement<N>>, news: Seq<Placement<N>>)
    requires
        ascending(olds),
        ascending(news),
    ensures
        ascending(merge_ascending(olds, news)),
    decreases olds.len() + news.len(),
{
    if news.len() > 0 && olds.len() > 0 {
        if lex_le(news[0].hash, olds[0].hash) {
            let rest = merge_ascending(olds, news.drop_first());
            lemma_merge_ascending(olds, news.drop_first());
            lemma_merge_holds_both(olds, news.drop_first());
            assert forall|i: int| 0 <= i < rest.len() implies lex_le(news[0].hash, #[trigger] rest[i].hash) by {
                assert(rest.contains(rest[i]));
                if olds.contains(rest[i]) {
                    let j = choose|j: int| 0 <= j < olds.len() && olds[j] == rest[i];
                    lemma_lex_le_transitive(news[0].hash, olds[0].hash, olds[j].hash);
                }
            }
            lemma_prepend_keeps_ascending(news[0], rest);
        } else {
            let rest = merge_ascending(olds.drop_first(), news);
            lemma_merge_ascending(olds.drop_first(), news);
            lemma_merge_holds_both(olds.drop_first(), news);
            lemma_lex_le_total(news[0].hash, olds[0].hash);
            assert forall|i: int| 0 <= i < rest.len() implies lex_le(olds[0].hash, #[trigger] rest[i].hash) by {
                assert(rest.contains(rest[i]));
                if news.contains(rest[i]) {
                    let j = choose|j: int| 0 <= j < news.len() && news[j] == rest[i];
                    lemma_lex_le_transitive(olds[0].hash, news[0].hash, news[j].hash);
                }
            }
            lemma_prepend_keeps_ascending(olds[0], rest);
        }
    }
}

/// A test keeps of the merged sequence as many placements as it keeps of
/// the two sequences together.
pub proof fn lemma_merge_filter_len<N: Node>(
    olds: Seq<Placement<N>>,
    news: Seq<Placement<N>>,
    pred: spec_fn(Placement<N>) -> bool,
)
    ensures
        merge_ascending(olds, news).filter(pred).len() == olds.filter(pred).len() + news.filter(pred).len(),
    decreases olds.len() + news.len(),
{
    if news.len() == 0 {
        lemma_filter_keeps_none(news, pred);
    } else if olds.len() == 0 {
        lemma_filter_keeps_none(olds, pred);
    } else if lex_le(news[0].hash, olds[0].hash) {
        lemma_merge_filter_len(olds, news.drop_first(), pred);
        Seq::filter_distributes_over_add(seq![news[0]], merge_ascending(olds, news.drop_first()), pred);
        Seq::filter_distributes_over_add(seq![news[0]], news.drop_first(), pred);
        assert(seq![news[0]] + news.drop_first() =~= news);
    } else {
        lemma_merge_filter_len(olds.drop_first(), news, pred);
        Seq::filter_distributes_over_add(seq![olds[0]], merge_ascending(olds.drop_first(), news), pred);
        Seq::filter_distributes_over_add(seq![olds[0]], olds.drop_first(), pred);
        assert(seq![olds[0]] + olds.drop_first() =~= olds);
    }
}

/// A test that every element passes keeps the whole sequence.
pub proof fn lemma_filter_keeps_all<A>(s: Seq<A>, pred: spec_fn(A) -> bool)
    requires
        forall|i: int| 0 <= i < s.len() ==> pred(#[trigger] s[i]),
    ensures
        s.filter(pred) == s,
    decreases s.len(),
{
    reveal(Seq::filter);
    if s.len() > 0 {
        lemma_filter_keeps_all(s.drop_last(), pred);
    }
}

/// A test that no element passes keeps nothing.
pub proof fn lemma_filter_keeps_none<A>(s: Seq<A>, pred: spec_fn(A) -> bool)
    requires
        forall|i: int| 0 <= i < s.len() ==> !pred(#[trigger] s[i]),
    ensures
        s.filter(pred) == Seq::<A>::empty(),
    decreases s.len(),
{
    reveal(Seq::filter);
    if s.len() > 0 {
        lemma_filter_keeps_none(s.drop_last(), pred);
    }
}

/// What a test keeps of an ascending sequence is ascending.
pub proof fn lemma_filter_keeps_ascending<N: Node>(ps: Seq<Placement<N>>, pred: spec_fn(Placement<N>) -> bool)
    requires
        ascending(ps),
    ensures
        ascending(ps.filter(pred)),
    decreases ps.len(),
{
    reveal(Seq::filter);
    if ps.len() > 0 {
        let front = ps.drop_last();
        let kept = front.filter(pred);
        lemma_filter_keeps_ascending(front, pred);
        if pred(ps.last()) {
            let qs = kept.push(ps.last());
            assert forall|i: int, j: int| 0 <= i <= j < qs.len() implies lex_le(#[trigger] qs[i].hash, #[trigger] qs[j].hash) by {
                if j == kept.len() && i < kept.len() {
                    front.lemma_filter_contains_rev(pred, kept[i]);
                } else if j == kept.len() {
                    lemma_lex_le_reflexive(ps.last().hash);
                }
            }
        }
    }
}

/// Each placement is kept by exactly one of the two tests for a name.
pub proof fn lemma_owned_and_not_owned<N: Node>(ps: Seq<Placement<N>>, name: Seq<char>)
    ensures
        ps.filter(not_owned_by(name)).len() + count_owned(ps, name) == ps.len(),
    decreases ps.len(),
{
    reveal(Seq::filter);
    if ps.len() > 0 {
        lemma_owned_and_not_owned(ps.drop_last(), name);
    }
}

/// Taking away the placements of one owner leaves those of another owner
/// as they were.
pub proof fn lemma_others_stay<N: Node>(ps: Seq<Placement<N>>, gone: Seq<char>, name: Seq<char>)
    requires
        gone != name,
    ensures
        ps.filter(not_owned_by(gone)).filter(owned_by(name)) == ps.filter(owned_by(name)),
    decreases ps.len(),
{
    reveal(Seq::filter);
    if ps.len() > 0 {
        let front = ps.drop_last();
        lemma_others_stay(front, gone, name);
        if not_owned_by::<N>(gone)(ps.last()) {
            front.filter(not_owned_by(gone)).lemma_filter_push(ps.last(), owned_by(name));
        }
    }
}

/// A replica that is among the placements is still among them when one more
/// is put in.
pub proof fn lemma_insert_keeps_replica<N: Node>(
    ps: Seq<Placement<N>>,
    k: int,
    p: Placement<N>,
    name: Seq<char>,
    replica: usize,
)
    requires
        0 <= k <= ps.len(),
        has_replica(ps, name, replica),
    ensures
        has_replica(ps.insert(k, p), name, replica),
{
    let i = choose|i: int| 0 <= i < ps.len() && name_of(&(#[trigger] ps[i]).node) == name && ps[i].replica == replica;
    let qs = ps.insert(k, p);
    if i < k {
        assert(qs[i] == ps[i]);
    } else {
        assert(qs[i + 1] == ps[i]);
    }
}

/// A replica that is in one of two sequences is in the merged sequence.
pub proof fn lemma_merge_keeps_replica<N: Node>(
    olds: Seq<Placement<N>>,
    news: Seq<Placement<N>>,
    name: Seq<char>,
    replica: usize,
)
    requires
        has_replica(olds, name, replica) || has_replica(news, name, replica),
    ensures
        has_replica(merge_ascending(olds, news), name, replica),
{
    let merged = merge_ascending(olds, news);
    lemma_merge_holds_both(olds, news);
    if has_replica(olds, name, replica) {
        let i = choose|i: int| 0 <= i < olds.len() && name_of(&(#[trigger] olds[i]).node) == name && olds[i].replica == replica;
        assert(merged.contains(olds[i]));
    } else {
        let j = choose|j: int| 0 <= j < news.len() && name_of(&(#[trigger] news[j]).node) == name && news[j].replica == replica;
        assert(merged.contains(news[j]));
    }
}

/// A replica of one owner is still among the placements when those of
/// another owner are taken away.
pub proof fn lemma_others_keep_replica<N: Node>(
    ps: Seq<Placement<N>>,
    gone: Seq<char>,
    name: Seq<char>,
    replica: usize,
)
    requires
        gone != name,
        has_replica(ps, name, replica),
    ensures
        has_replica(ps.filter(not_owned_by(gone)), name, replica),
{
    let rest = ps.filter(not_owned_by(gone));
    let i = choose|i: int| 0 <= i < ps.len() && name_of(&(#[trigger] ps[i]).node) == name && ps[i].replica == replica;
    ps.lemma_filter_contains(not_owned_by(gone), i);
}

/// `first_at_or_after` gives an index up to the length; every placement
/// before it is before `hash`, and the one at it, if any, is at or after `hash`.
pub proof fn lemma_first_at_or_after<N: Node>(ps: Seq<Placement<N>>, hash: Seq<char>)
    ensures
        0 <= first_at_or_after(ps, hash) <= ps.len(),
        forall|k: int| 0 <= k < first_at_or_after(ps, hash) ==> !lex_le(hash, #[trigger] ps[k].hash),
        first_at_or_after(ps, hash) < ps.len() ==> lex_le(hash, ps[first_at_or_after(ps, hash)].hash),
    decreases ps.len(),
{
    if !(ps.len() == 0 || lex_le(hash, ps[0].hash)) {
        let rest = ps.drop_first();
        lemma_first_at_or_after(rest, hash);
        assert forall|k: int| 0 <= k < first_at_or_after(ps, hash) implies !lex_le(hash, #[trigger] ps[k].hash) by {
            if k > 0 {
                assert(ps[k] == rest[k - 1]);
            }
        }
    }
}

/// An index with every placement before it before `hash`, and the one at it,
/// if any, at or after `hash`, is the one that `first_at_or_after` gives.
pub proof fn lemma_first_at_or_after_is<N: Node>(ps: Seq<Placement<N>>, hash: Seq<char>, n: int)
    requires
        0 <= n <= ps.len(),
        forall|k: int| 0 <= k < n ==> !lex_le(hash, #[trigger] ps[k].hash),
        n < ps.len() ==> lex_le(hash, ps[n].hash),
    ensures
        first_at_or_after(ps, hash) == n,
{
    lemma_first_at_or_after(ps, hash);
}

/// A digest that is after every placement falls to the owner of the first
/// placement, which is the one with the smallest digest.
pub proof fn lemma_successor_wraps<N: Node>(ps: Seq<Placement<N>>, hash: Seq<char>)
    requires
        ascending(ps),
        ps.len() > 0,
        forall|k: int| 0 <= k < ps.len() ==> !lex_le(hash, #[trigger] ps[k].hash),
    ensures
        successor(ps, hash) == Some(&ps[0].node),
        forall|k: int| 0 <= k < ps.len() ==> lex_le(ps[0].hash, #[trigger] ps[k].hash),
{
    lemma_first_at_or_after_is(ps, hash, ps.len() as int);
}

/// The digest of a placement falls to the owner of the first placement that
/// has this digest.
pub proof fn lemma_successor_of_placement<N: Node>(ps: Seq<Placement<N>>, i: int)
    requires
        ascending(ps),
        0 <= i < ps.len(),
    ensures
        0 <= first_at_or_after(ps, ps[i].hash) <= i,
        ps[first_at_or_after(ps, ps[i].hash)].hash == ps[i].hash,
        successor(ps, ps[i].hash) == Some(&ps[first_at_or_after(ps, ps[i].hash)].node),
{
    let hash = ps[i].hash;
    let first = first_at_or_after(ps, hash);
    lemma_first_at_or_after(ps, hash);
    lemma_lex_le_reflexive(hash);
    lemma_lex_le_antisymmetric(hash, ps[first].hash);
}

} // verus!
