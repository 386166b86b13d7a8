//! Which nodes a reader is shown, and in which order they are listed.
#[allow(unused_imports)]
use crate::format::base::dir::node_row;
#[allow(unused_imports)]
use crate::guarantees::freshness::lemma_fresh_listed;
#[allow(unused_imports)]
use crate::model::{lemma_edge_inside, lemma_find, lemma_node_key, GraphV, NodeV};
#[allow(unused_imports)]
use crate::order::listing;
use vstd::prelude::*;

verus! {

/// A reader is shown a node unless it is a stub or gone.
pub proof fn law_what_is_shown(g: GraphV, key: u64)
    ensures
        g.shown(key) is Some <==> g.node(key) is Some && g.node(key)->0.flags & 2 == 0 && g.node(
            key,
        )->0.flags & 4 == 0,
        g.shown(key) is Some ==> g.shown(key) == g.node(key),
{
}

/// A node stands for its base record, if there is one, and has the rank that
/// stands with that record; without one it has none.
pub proof fn law_nodes_carry_their_rank(g: GraphV, key: u64, id: int)
    requires
        g.wf(),
        g.node(key) is Some,
    ensures
        ({
            let n = g.node(key)->0;
            &&& 0 <= id < g.n() && node_row(g.t, id).url_key == key ==> n.id == Some(id as u32)
                && n.rank_permille == g.rank_of(id as u32)
            &&& (forall|i: int| 0 <= i < g.n() ==> (#[trigger] node_row(g.t, i)).url_key != key)
                ==> n.id is None && n.rank_permille == 0
        }),
{
    if 0 <= id < g.n() && node_row(g.t, id).url_key == key {
        lemma_find(g, key, id);
    }
}

#[verifier::opaque]
spec fn is_entry(g: GraphV, n: NodeV) -> bool {
    g.shown(n.key) == Some(n)
}

proof fn lemma_shown_entry(g: GraphV, key: u64)
    requires
        g.shown(key) is Some,
    ensures
        g.shown(key)->0.key == key,
        is_entry(g, g.shown(key)->0),
        g.shown(key)->0.flags & 2 == 0,
{
    reveal(is_entry);
    lemma_node_key(g, key);
}

proof fn lemma_base_order(g: GraphV, n: int)
    requires
        g.wf(),
        0 <= n <= g.n(),
    ensures
        ({
            let all = g.base_live(n);
            &&& forall|i: int|
                0 <= i < all.len() ==> (#[trigger] all[i]).flags & 2 == 0 && is_entry(g, all[i])
            &&& forall|i: int, j: int|
                0 <= i < j < all.len() ==> (#[trigger] all[i]).key < (#[trigger] all[j]).key
            &&& forall|i: int|
                0 <= i < all.len() ==> is_below(g, (#[trigger] all[i]).key, n)
        }),
    decreases n,
{
    if n > 0 {
        lemma_base_order(g, n - 1);
        let pre = g.base_live(n - 1);
        let all = g.base_live(n);
        let k = node_row(g.t, n - 1).url_key;
        if g.shown(k) is Some {
            lemma_shown_entry(g, k);
            assert(all == pre.push(g.shown(k)->0));
        } else {
            assert(all == pre);
        }
        assert forall|i: int| 0 <= i < all.len() implies is_below(g, (#[trigger] all[i]).key, n) by {
            if i < pre.len() {
                assert(all[i] == pre[i]);
                let x = choose|x: int|
                    0 <= x < n - 1 && (#[trigger] node_row(g.t, x)).url_key == pre[i].key;
                assert(node_row(g.t, x).url_key == all[i].key);
            }
        }
        assert forall|i: int, j: int| 0 <= i < j < all.len() implies (#[trigger] all[i]).key < (
        #[trigger] all[j]).key by {
            if j == pre.len() {
                assert(all[i] == pre[i]);
                let x = choose|x: int|
                    0 <= x < n - 1 && (#[trigger] node_row(g.t, x)).url_key == pre[i].key;
                assert(node_row(g.t, x).url_key < node_row(g.t, n - 1).url_key);
            }
        }
    }
}

/// `key` is that of one of the first `n` base nodes.
pub open spec fn is_below(g: GraphV, key: u64, n: int) -> bool {
    exists|x: int| 0 <= x < n && (#[trigger] node_row(g.t, x)).url_key == key
}

proof fn lemma_fresh_order(g: GraphV, keys: Seq<u64>)
    requires
        forall|i: int, j: int| 0 <= i < j < keys.len() ==> keys[i] < keys[j],
    ensures
        ({
            let all = g.fresh_live(keys);
            &&& forall|i: int| 0 <= i < all.len() ==> keys.contains((#[trigger] all[i]).key)
            &&& forall|i: int, j: int|
                0 <= i < j < all.len() ==> (#[trigger] all[i]).key < (#[trigger] all[j]).key
        }),
    decreases keys.len(),
{
    if keys.len() > 0 {
        let less = keys.drop_last();
        let last = keys.len() - 1;
        lemma_fresh_order(g, less);
        let pre = g.fresh_live(less);
        let all = g.fresh_live(keys);
        if g.node(keys[last]) is Some {
            lemma_node_key(g, keys[last]);
        }
        assert forall|i: int| 0 <= i < all.len() implies keys.contains((#[trigger] all[i]).key) by {
            if i < pre.len() {
                assert(less.contains(pre[i].key));
                let x = choose|x: int| 0 <= x < less.len() && less[x] == pre[i].key;
                assert(keys[x] == all[i].key);
            } else {
                assert(keys[last] == all[i].key);
            }
        }
        assert forall|i: int, j: int| 0 <= i < j < all.len() implies (#[trigger] all[i]).key < (
        #[trigger] all[j]).key by {
            if j == pre.len() {
                assert(less.contains(pre[i].key));
                let x = choose|x: int| 0 <= x < less.len() && less[x] == pre[i].key;
                assert(keys[x] < keys[last]);
            }
        }
    }
}

/// The live nodes come in two runs, each by ascending key: first those with a
/// base record, none of them a stub, and then those that came later.
pub proof fn law_live_nodes_are_listed_in_order(g: GraphV)
    requires
        g.wf(),
    ensures
        exists|k: int| #[trigger] runs_at(g, g.live(), k),
{
    let fresh = listing(g.fresh());
    lemma_fresh_listed(g);
    lemma_base_order(g, g.n());
    lemma_fresh_order(g, fresh);
    let a = g.base_live(g.n());
    let b = g.fresh_live(fresh);
    let all = g.live();
    let k = a.len() as int;
    assert(all == a + b);
    assert forall|i: int| 0 <= i < k implies g.find((#[trigger] all[i]).key) is Some && all[i].flags
        & 2 == 0 by {
        assert(all[i] == a[i]);
        assert(is_below(g, a[i].key, g.n()));
        let x = choose|x: int| 0 <= x < g.n() && (#[trigger] node_row(g.t, x)).url_key == a[i].key;
        lemma_find(g, a[i].key, x);
    }
    assert forall|i: int| k <= i < all.len() implies g.find((#[trigger] all[i]).key) is None by {
        assert(all[i] == b[i - k]);
        assert(fresh.contains(b[i - k].key));
        assert(g.fresh()(b[i - k].key));
    }
    assert forall|i: int, j: int| 0 <= i < j < all.len() && (j < k || k <= i) implies (
    #[trigger] all[i]).key < (#[trigger] all[j]).key by {
        if j < k {
            assert(a[i].key < a[j].key);
        } else {
            assert(b[i - k].key < b[j - k].key);
        }
    }
    assert(runs_at(g, all, k));
}

/// The first `k` nodes have a base record and are no stubs, the others have no
/// base record, and both run by ascending key.
pub open spec fn runs_at(g: GraphV, all: Seq<NodeV>, k: int) -> bool {
    &&& 0 <= k <= all.len()
    &&& forall|i: int|
        0 <= i < k ==> g.find((#[trigger] all[i]).key) is Some && all[i].flags & 2 == 0
    &&& forall|i: int| k <= i < all.len() ==> g.find((#[trigger] all[i]).key) is None
    &&& forall|i: int, j: int|
        0 <= i < j < all.len() && (j < k || k <= i) ==> (#[trigger] all[i]).key < (
        #[trigger] all[j]).key
}

/// An edge knows where it leads: to the base node with the key of its end, by
/// the URL that the base has of it, where there is such a node.
pub proof fn law_edges_know_where_they_lead(g: GraphV, key: u64, j: int, id: int)
    requires
        g.wf(),
        0 <= j < g.edges(key).len(),
        0 <= id < g.n(),
    ensures
        ({
            let e = g.edges(key)[j];
            &&& node_row(g.t, id).url_key == e.dst_key ==> e.dst == Some(id as u32)
            &&& node_row(g.t, id).url_key == e.dst_key ==> e.dst_url == g.label(
                node_row(g.t, id).url_off,
            )
            &&& e.dst matches Some(dst) ==> dst < g.n() && node_row(g.t, dst as int).url_key
                == e.dst_key
        }),
{
    let e = g.edges(key)[j];
    lemma_edge_inside(g, key, j);
    if node_row(g.t, id).url_key == e.dst_key {
        lemma_find(g, e.dst_key, id);
        if e.dst is Some {
            lemma_find(g, e.dst_key, e.dst->0 as int);
        }
    }
}

} // verus!
