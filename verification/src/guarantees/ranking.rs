//! Importance, hubs, and how communities form.
#[allow(unused_imports)]
use crate::guarantees::counting::{
    count, lemma_count_same, lemma_position_bounds, lemma_position_counts,
};
#[allow(unused_imports)]
use crate::format::base::dir::{edge_start, node_row};
#[allow(unused_imports)]
use crate::model::GraphV;
#[allow(unused_imports)]
use crate::order::{arranged, law_arranged_rows_ascend};
#[allow(unused_imports)]
use crate::rank::{
    count_rows, edges_into, list_ends, mute_cut, neighbors, node_degree, percentile, places,
    rank_rows, wins, Neighbor, PropagationV, HUB_MUTE_SWEEPS, HUB_PERCENTILE, LPA_SWEEPS,
};
#[allow(unused_imports)]
use crate::render::{count_to, EdgeRow};
use vstd::prelude::*;

verus! {

// ---- importance -----------------------------------------------------------

/// The node `j` ranks below the node `id`.
pub open spec fn ranks_below(ranks: Seq<u64>, j: int, id: int) -> bool {
    ranks[j] < ranks[id] || (ranks[j] == ranks[id] && j < id)
}

/// Ranks place every node: the node at a position is the one that so many
/// others rank below.
pub proof fn law_positions_count_lower_ranks(ranks: Seq<u64>, pos: int)
    requires
        0 <= pos < ranks.len() <= u64::MAX,
    ensures
        ({
            let id = arranged(rank_rows(ranks))[pos].1 as int;
            &&& 0 <= id < ranks.len()
            &&& count(ranks.len() as int, |j: int| ranks_below(ranks, j, id)) == pos
        }),
{
    let rows = rank_rows(ranks);
    law_arranged_rows_ascend(rows);
    assert(rows.len() == ranks.len());
    assert(forall|i: int| 0 <= i < rows.len() ==> (#[trigger] rows[i]).1 == i);
    assert(rows.no_duplicates());
    lemma_position_counts(rows, pos);
    let b = arranged(rows)[pos];
    assert(arranged(rows).contains(b));
    let x = choose|x: int| 0 <= x < rows.len() && rows[x] == b;
    assert(rows[x].1 == x);
    lemma_count_same(
        ranks.len() as int,
        |i: int|
            {
                let a = rows[i];
                let b = arranged(rows)[pos];
                ||| a.0 < b.0
                ||| a.0 == b.0 && a.1 < b.1
                ||| a.0 == b.0 && a.1 == b.1 && a.2 < b.2
                ||| a.0 == b.0 && a.1 == b.1 && a.2 == b.2 && a.3 < b.3
            },
        |j: int| ranks_below(ranks, j, x),
    );
}

/// Percentiles run from nought for the lowest to a thousand for the highest,
/// in proportion to how many rank below.
pub proof fn law_percentiles_are_proportional(below: int, n: int)
    requires
        0 <= below < n,
    ensures
        n == 1 ==> percentile(below, n) == 1000,
        n > 1 ==> percentile(below, n) == below * 1000 / (n - 1),
        n > 1 ==> percentile(0, n) == 0,
        percentile(n - 1, n) == 1000,
        percentile(below, n) <= 1000,
        forall|more: int| below <= more < n ==> percentile(below, n) <= #[trigger] percentile(more, n),
{
    if n > 1 {
        let d = n - 1;
        assert(0 <= below * 1000 / d <= 1000) by (nonlinear_arith)
            requires
                0 <= below <= d,
                d > 0,
        ;
        assert(0int * 1000 / d == 0) by (nonlinear_arith)
            requires
                d > 0,
        ;
        assert(d * 1000 / d == 1000) by (nonlinear_arith)
            requires
                d > 0,
        ;
        assert forall|more: int| below <= more < n implies percentile(below, n)
            <= #[trigger] percentile(more, n) by {
            assert(0 <= below * 1000 / d <= more * 1000 / d <= 1000) by (nonlinear_arith)
                requires
                    0 <= below <= more <= d,
                    d > 0,
            ;
        }
    }
}

/// What a node gets is in proportion to how many nodes rank below it: nought
/// for the lowest, a thousand for the highest, and a thousand where it is alone.
/// A node with fewer than two edges gets nought.
pub proof fn law_nodes_are_placed_by_rank(
    lists: Seq<Seq<EdgeRow>>,
    ranks: Seq<u64>,
    r: Seq<u16>,
    id: int,
)
    requires
        places(lists, ranks, r),
        r.len() == ranks.len() == lists.len(),
        ranks.len() <= u32::MAX,
        0 <= id < r.len(),
    ensures
        ({
            let n = ranks.len() as int;
            let below = count(n, |j: int| ranks_below(ranks, j, id)) as int;
            &&& node_degree(lists, id as u32) < 2 ==> r[id] == 0
            &&& node_degree(lists, id as u32) >= 2 && n == 1 ==> r[id] == 1000
            &&& node_degree(lists, id as u32) >= 2 && n > 1 ==> r[id] == below * 1000 / (n - 1)
        }),
{
    let n = ranks.len() as int;
    let rows = rank_rows(ranks);
    let sorted = arranged(rows);
    law_arranged_rows_ascend(rows);
    assert(rows[id].1 == id);
    assert(rows.contains(rows[id]));
    assert(sorted.contains(rows[id]));
    let pos = choose|pos: int| 0 <= pos < sorted.len() && sorted[pos] == rows[id];
    law_positions_count_lower_ranks(ranks, pos);
    law_percentiles_are_proportional(pos, n);
    assert(sorted[pos].1 == id);
}

pub(crate) proof fn lemma_count_to(es: Seq<EdgeRow>, id: u32)
    ensures
        count_to(es, id) == count(es.len() as int, |k: int| es[k].0 == id),
    decreases es.len(),
{
    if es.len() > 0 {
        lemma_count_to(es.drop_last(), id);
        lemma_count_same(
            es.len() - 1,
            |k: int| es.drop_last()[k].0 == id,
            |k: int| es[k].0 == id,
        );
    }
}

/// A node has as many edges as leave it and arrive at it: without the last
/// list, the degree of another node lacks the edges of that list which lead to
/// it.
pub proof fn law_degrees_count_edges_both_ways(lists: Seq<Seq<EdgeRow>>, id: u32)
    requires
        id < lists.len(),
    ensures
        node_degree(lists, id) == edges_into(lists, lists.len() as int, id) + lists[id as int].len(),
        edges_into(lists, 0, id) == 0,
        forall|i: int|
            0 <= i < lists.len() ==> #[trigger] edges_into(lists, i + 1, id) == edges_into(
                lists,
                i,
                id,
            ) + count(lists[i].len() as int, |k: int| lists[i][k].0 == id),
{
    assert forall|i: int| 0 <= i < lists.len() implies #[trigger] edges_into(lists, i + 1, id)
        == edges_into(lists, i, id) + count(
        lists[i].len() as int,
        |k: int| lists[i][k].0 == id,
    ) by {
        lemma_count_to(lists[i], id);
    }
}

// ---- hubs -----------------------------------------------------------------

/// Hubs are those from the 95th percentile of degrees on, and have at least
/// eight edges: at most five nodes in a hundred, rounded up, have more edges
/// than the cut, and where the cut is above eight, ninety-five in a hundred,
/// rounded up, have no fewer than some node with exactly so many.
pub proof fn law_label_hubs(degrees: Seq<usize>)
    requires
        0 < degrees.len() <= u32::MAX,
    ensures
        ({
            let n = degrees.len() as int;
            let cut = mute_cut(degrees);
            &&& cut >= 8
            &&& count(n, |i: int| degrees[i] > cut) <= n - n * 95 / 100
            &&& cut > 8 ==> count(n, |i: int| degrees[i] < cut) <= n * 95 / 100
            &&& cut > 8 ==> exists|i: int| 0 <= i < n && #[trigger] degrees[i] == cut
        }),
{
    let n = degrees.len() as int;
    let rows = count_rows(degrees);
    let at = n * 95 / 100;
    assert(0 <= at < n);
    lemma_position_bounds(rows, at);
    let v = arranged(rows)[at].0;
    let cut = mute_cut(degrees);
    let x = choose|x: int| 0 <= x < rows.len() && (#[trigger] rows[x]).0 == v;
    assert(degrees[x] == v);
    lemma_count_same(n, |i: int| rows[i].0 > v, |i: int| degrees[i] > v);
    lemma_count_same(n, |i: int| rows[i].0 < v, |i: int| degrees[i] < v);
    lemma_count_at_most(n, |i: int| degrees[i] > cut, |i: int| degrees[i] > v);
    lemma_count_same(n, |i: int| degrees[i] < v, |i: int| (degrees[i] as u64) < v);
    if cut > 8 {
        assert(cut == v);
        lemma_count_same(n, |i: int| degrees[i] < v, |i: int| degrees[i] < cut);
    }
}

proof fn lemma_count_at_most(n: int, p: spec_fn(int) -> bool, q: spec_fn(int) -> bool)
    requires
        forall|i: int| 0 <= i < n && #[trigger] p(i) ==> q(i),
    ensures
        count(n, p) <= count(n, q),
    decreases n,
{
    if n > 0 {
        lemma_count_at_most(n - 1, p, q);
        assert(p(n - 1) ==> q(n - 1));
    }
}

/// Lookups do not go through nodes from the 99th percentile of total degrees
/// on, which have at least eight edges.
pub proof fn law_traversal_hubs(g: GraphV)
    requires
        g.n() > 0,
    ensures
        ({
            let n = g.n();
            let cut = g.hub_cut();
            &&& cut >= 8
            &&& count(n, |i: int| g.degree(i) > cut) <= n - n * 99 / 100
            &&& cut > 8 ==> count(n, |i: int| g.degree(i) < cut) <= n * 99 / 100
            &&& cut > 8 ==> exists|i: int| 0 <= i < n && #[trigger] g.degree(i) == cut
        }),
{
    let n = g.n();
    let rows = g.degree_rows();
    let at = n * 99 / 100;
    assert(0 <= at < n);
    lemma_position_bounds(rows, at);
    let v = arranged(rows)[at].0;
    let cut = g.hub_cut();
    assert(forall|i: int|
        0 <= i < n ==> (#[trigger] rows[i]).0 == g.degree(i) && rows[i].0 <= u32::MAX);
    let x = choose|x: int| 0 <= x < rows.len() && (#[trigger] rows[x]).0 == v;
    assert(g.degree(x) == v);
    lemma_count_same(n, |i: int| rows[i].0 > v, |i: int| g.degree(i) > v);
    lemma_count_same(n, |i: int| rows[i].0 < v, |i: int| g.degree(i) < v);
    lemma_count_at_most(n, |i: int| g.degree(i) > cut, |i: int| g.degree(i) > v);
    if cut > 8 {
        assert(cut == v);
        lemma_count_same(n, |i: int| g.degree(i) < v, |i: int| g.degree(i) < cut);
    }
}

/// The total degree of a base node counts the edges of its record and those
/// that lead to it, as far as 32 bits go.
pub proof fn law_total_degrees(g: GraphV, i: int)
    requires
        g.wf(),
        0 <= i < g.n() <= u32::MAX,
    ensures
        ({
            let both = g.base_edges(i as u32).len() + node_row(g.t, i).in_degree;
            &&& both <= u32::MAX ==> g.degree(i) == both
            &&& both > u32::MAX ==> g.degree(i) == u32::MAX
        }),
{
    assert(edge_start(g.t, i) <= edge_start(g.t, i + 1));
}

/// An empty base has no hubs.
pub proof fn law_no_hubs_without_nodes(g: GraphV)
    requires
        g.n() == 0,
    ensures
        g.hub_cut() == u32::MAX,
{
}

// ---- neighbors ------------------------------------------------------------

/// The `x`-th entry shows the far end of an edge, with at least a weight of
/// one, and whether the edge was inferred.
pub open spec fn shows_edge(x: Neighbor, far: int, e: EdgeRow) -> bool {
    &&& x.id == far
    &&& e.3 > 0 ==> x.weight == e.3
    &&& e.3 == 0 ==> x.weight == 1
    &&& x.inferred == (e.2 & 2 != 0)
}

/// Some entry shows the far end of an edge.
pub open spec fn lists_edge(ns: Seq<Neighbor>, far: int, e: EdgeRow) -> bool {
    exists|x: int| 0 <= x < ns.len() && shows_edge(#[trigger] ns[x], far, e)
}

proof fn lemma_part_lists(part: Seq<Neighbor>, ns: Seq<Neighbor>, off: int, far: int, e: EdgeRow)
    requires
        0 <= off,
        off + part.len() <= ns.len(),
        forall|x: int| 0 <= x < part.len() ==> part[x] == #[trigger] ns[off + x],
        lists_edge(part, far, e),
    ensures
        lists_edge(ns, far, e),
{
    let x = choose|x: int| 0 <= x < part.len() && shows_edge(#[trigger] part[x], far, e);
    assert(ns[off + x] == part[x]);
}

proof fn lemma_list_ends(u: int, es: Seq<EdgeRow>, v: int)
    requires
        0 <= u <= u32::MAX,
    ensures
        ({
            let ns = list_ends(u, es, v);
            &&& ns.len() == (if u == v {
                es.len()
            } else {
                0
            }) + count(es.len() as int, |k: int| es[k].0 == v)
            &&& forall|k: int|
                0 <= k < es.len() && u == v ==> lists_edge(
                    ns,
                    es[k].0 as int,
                    #[trigger] es[k],
                )
            &&& forall|k: int|
                0 <= k < es.len() && es[k].0 == v ==> lists_edge(ns, u, #[trigger] es[k])
        }),
    decreases es.len(),
{
    if es.len() > 0 {
        let less = es.drop_last();
        let last = es.len() - 1;
        lemma_list_ends(u, less, v);
        let pre = list_ends(u, less, v);
        let ns = list_ends(u, es, v);
        lemma_count_same(last, |k: int| less[k].0 == v, |k: int| es[k].0 == v);
        assert(forall|k: int| 0 <= k < last ==> #[trigger] less[k] == es[k]);
        assert(forall|x: int| 0 <= x < pre.len() ==> pre[x] == #[trigger] ns[0 + x]);
        assert forall|k: int| 0 <= k < es.len() && u == v implies lists_edge(
            ns,
            es[k].0 as int,
            #[trigger] es[k],
        ) by {
            if k < last {
                assert(less[k] == es[k]);
                lemma_part_lists(pre, ns, 0, es[k].0 as int, es[k]);
            } else {
                assert(shows_edge(ns[pre.len() as int], es[k].0 as int, es[k]));
            }
        }
        assert forall|k: int| 0 <= k < es.len() && es[k].0 == v implies lists_edge(
            ns,
            u,
            #[trigger] es[k],
        ) by {
            if k < last {
                assert(less[k] == es[k]);
                lemma_part_lists(pre, ns, 0, u, es[k]);
            } else {
                assert(shows_edge(ns[ns.len() - 1], u, es[k]));
            }
        }
    }
}

proof fn lemma_neighbor_count(lists: Seq<Seq<EdgeRow>>, n: int, v: int)
    requires
        0 <= n <= lists.len() <= u32::MAX,
        0 <= v < lists.len(),
    ensures
        neighbors(lists, n, v).len() == edges_into(lists, n, v as u32) + (if v < n {
            lists[v].len()
        } else {
            0
        }),
    decreases n,
{
    if n > 0 {
        let es = lists[n - 1];
        lemma_neighbor_count(lists, n - 1, v);
        lemma_list_ends(n - 1, es, v);
        lemma_count_to(es, v as u32);
        lemma_count_same(
            es.len() as int,
            |k: int| es[k].0 == v,
            |k: int| es[k].0 == v as u32,
        );
    }
}

proof fn lemma_neighbors(lists: Seq<Seq<EdgeRow>>, n: int, u: int, k: int)
    requires
        0 <= u < n <= lists.len() <= u32::MAX,
        0 <= k < lists[u].len(),
        lists[u][k].0 < lists.len(),
    ensures
        lists_edge(neighbors(lists, n, u), lists[u][k].0 as int, lists[u][k]),
        lists_edge(neighbors(lists, n, lists[u][k].0 as int), u, lists[u][k]),
    decreases n,
{
    let e = lists[u][k];
    let v = e.0 as int;
    let here = list_ends(n - 1, lists[n - 1], u);
    let there = list_ends(n - 1, lists[n - 1], v);
    let a = neighbors(lists, n - 1, u);
    let b = neighbors(lists, n - 1, v);
    assert(neighbors(lists, n, u) == a + here);
    assert(neighbors(lists, n, v) == b + there);
    if u < n - 1 {
        lemma_neighbors(lists, n - 1, u, k);
        lemma_part_lists(a, a + here, 0, v, e);
        lemma_part_lists(b, b + there, 0, u, e);
    } else {
        lemma_list_ends(u, lists[u], u);
        lemma_list_ends(u, lists[u], v);
        assert(lists_edge(here, v, lists[u][k]));
        assert(lists_edge(there, u, lists[u][k]));
        lemma_part_lists(here, a + here, a.len() as int, v, e);
        lemma_part_lists(there, b + there, b.len() as int, u, e);
    }
}

/// An edge makes neighbors of both its ends: each sees the other, with the
/// weight of the edge. A node has as many neighbor entries as edges.
pub proof fn law_edges_make_neighbors_both_ways(lists: Seq<Seq<EdgeRow>>, u: int, k: int)
    requires
        lists.len() <= u32::MAX,
        0 <= u < lists.len(),
        0 <= k < lists[u].len(),
        lists[u][k].0 < lists.len(),
    ensures
        ({
            let v = lists[u][k].0 as int;
            let here = neighbors(lists, lists.len() as int, u);
            let there = neighbors(lists, lists.len() as int, v);
            &&& lists_edge(here, v, lists[u][k])
            &&& lists_edge(there, u, lists[u][k])
            &&& here.len() == node_degree(lists, u as u32)
            &&& there.len() == node_degree(lists, v as u32)
        }),
{
    let n = lists.len() as int;
    lemma_neighbors(lists, n, u, k);
    lemma_neighbor_count(lists, n, u);
    lemma_neighbor_count(lists, n, lists[u][k].0 as int);
}

// ---- votes ----------------------------------------------------------------

/// Ten sweeps at most; hubs keep silent in the first three.
pub proof fn law_sweeps()
    ensures
        LPA_SWEEPS == 10,
        HUB_MUTE_SWEEPS == 3,
        HUB_PERCENTILE == 95,
{
}

/// After a sweep that changed a label another follows, until ten are over. What
/// the nodes carry stays.
pub proof fn law_sweeps_end(p: PropagationV)
    requires
        p.sweep <= 10,
    ensures
        p.goes_on() <==> p.changed && p.sweep < 9,
        p.sweep < 10 ==> p.swept().sweep == p.sweep + 1,
        !p.swept().changed,
        p.swept().labels == p.labels,
        p.swept().adj == p.adj,
        p.swept().cut == p.cut,
{
}

/// A new label changes no other node, and is told only if it is another one.
pub proof fn law_labels_change_one_by_one(p: PropagationV, u: int, l: u32)
    requires
        0 <= u < p.labels.len(),
    ensures
        ({
            let q = p.relabeled(u, l);
            &&& q.labels.len() == p.labels.len()
            &&& q.labels[u] == l
            &&& forall|v: int| 0 <= v < p.labels.len() && v != u ==> q.labels[v] == p.labels[v]
            &&& q.changed <==> p.changed || l != p.labels[u]
            &&& q.sweep == p.sweep
            &&& q.adj == p.adj
            &&& q.cut == p.cut
        }),
{
}

/// A neighbor keeps silent exactly in the first three sweeps, and only if it
/// has as many neighbors as a hub.
pub proof fn law_only_hubs_keep_silent(p: PropagationV, x: Neighbor)
    ensures
        p.sweep >= 3 ==> p.votes(x),
        p.sweep < 3 ==> (p.votes(x) <==> p.adj[x.id as int].len() < p.cut),
{
}

/// Every neighbor that does not keep silent casts one ballot, in order: for its
/// own label, with the weight of the edge, and with whether it was inferred.
pub proof fn law_every_voter_casts_one_ballot(p: PropagationV, ns: Seq<Neighbor>)
    ensures
        ({
            let cast = p.ballots(ns);
            &&& cast.len() == count(ns.len() as int, |i: int| p.votes(ns[i]))
            &&& forall|i: int|
                0 <= i < ns.len() && p.votes(#[trigger] ns[i]) ==> {
                    let b = cast[count(i, |j: int| p.votes(ns[j])) as int];
                    &&& count(i, |j: int| p.votes(ns[j])) < cast.len()
                    &&& b.label == p.labels[ns[i].id as int]
                    &&& b.weight == ns[i].weight
                    &&& b.inferred == ns[i].inferred
                }
        }),
    decreases ns.len(),
{
    if ns.len() > 0 {
        let less = ns.drop_last();
        let last = ns.len() - 1;
        law_every_voter_casts_one_ballot(p, less);
        let pre = p.ballots(less);
        let cast = p.ballots(ns);
        assert(forall|i: int| 0 <= i < last ==> #[trigger] less[i] == ns[i]);
        lemma_count_same(last, |j: int| p.votes(less[j]), |j: int| p.votes(ns[j]));
        assert forall|i: int| 0 <= i < ns.len() && p.votes(#[trigger] ns[i]) implies ({
            let b = cast[count(i, |j: int| p.votes(ns[j])) as int];
            &&& count(i, |j: int| p.votes(ns[j])) < cast.len()
            &&& b.label == p.labels[ns[i].id as int]
            &&& b.weight == ns[i].weight
            &&& b.inferred == ns[i].inferred
        }) by {
            lemma_count_same(i, |j: int| p.votes(less[j]), |j: int| p.votes(ns[j]));
            if i < last {
                assert(p.votes(less[i]));
            }
        }
    }
}

/// The label with the most votes wins; of labels with as many, the smallest.
pub proof fn law_the_most_votes_win(votes: Seq<(u32, u64)>, k: int, j: int)
    requires
        0 <= k < votes.len(),
        0 <= j < votes.len(),
        wins(votes, k),
    ensures
        votes[j].1 <= votes[k].1,
        votes[j].1 == votes[k].1 ==> votes[k].0 <= votes[j].0,
{
}

/// Only one label can win.
pub proof fn law_one_label_wins(votes: Seq<(u32, u64)>, a: int, b: int)
    requires
        0 <= a < votes.len(),
        0 <= b < votes.len(),
        wins(votes, a),
        wins(votes, b),
    ensures
        votes[a].0 == votes[b].0,
{
    assert(votes[a].1 <= votes[b].1 && votes[b].1 <= votes[a].1);
}

} // verus!
