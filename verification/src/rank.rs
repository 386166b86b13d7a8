//! Deterministic structure metrics, computed at compaction and persisted in
//! the `Ranks` section:
//!
//! - **Importance**: a percentile of the link rank in permille. Nodes with
//!   fewer than two edges are floored to zero so leaf noise never tops a
//!   ranking.
//! - **Communities**: weighted label propagation with a total order on every
//!   tie (smallest label wins), hub-muted for the first sweeps so navigation
//!   pages don't glue unrelated clusters together. A community's id is its
//!   smallest member node id, stable across rebuilds of the same graph.
//!
//! Ranks and vote sums are non-negative floating-point numbers, carried by
//! their bits.
use crate::format::base::eflags;
#[allow(unused_imports)]
use crate::order::{arranged, lemma_arranged_from, row_le};
use crate::order::{arrange, Row};
#[allow(unused_imports)]
use crate::render::count_to;
use crate::render::EdgeRow;
#[allow(unused_imports)]
use crate::ttl::min_nat;
use std::collections::HashMap;
use vstd::prelude::*;

verus! {

broadcast use vstd::std_specs::hash::group_hash_axioms;

/// Label propagation ends after this many sweeps.
pub const LPA_SWEEPS: usize = 10;

/// Hubs stay silent for this many sweeps.
pub const HUB_MUTE_SWEEPS: usize = 3;

/// Degrees from this percentile on make a hub.
pub const HUB_PERCENTILE: usize = 95;

/// The outbound edges of every node.
pub open spec fn edge_lists(out_edges: Seq<Vec<EdgeRow>>) -> Seq<Seq<EdgeRow>> {
    out_edges.map_values(|es: Vec<EdgeRow>| es@)
}

/// Every edge leads to a node.
pub open spec fn leads_inside(lists: Seq<Seq<EdgeRow>>) -> bool {
    forall|u: int, j: int|
        0 <= u < lists.len() && 0 <= j < lists[u].len() ==> (#[trigger] lists[u][j]).0
            < lists.len()
}

// ---- importance -----------------------------------------------------------

/// The edges from the first `i` nodes into `id`.
pub open spec fn edges_into(lists: Seq<Seq<EdgeRow>>, i: int, id: u32) -> nat
    decreases i,
{
    if i <= 0 {
        0
    } else {
        edges_into(lists, i - 1, id) + count_to(lists[i - 1], id)
    }
}

/// The edges of a node, in both directions.
pub open spec fn node_degree(lists: Seq<Seq<EdgeRow>>, id: u32) -> nat {
    edges_into(lists, lists.len() as int, id) + lists[id as int].len()
}

pub open spec fn rank_rows(ranks: Seq<u64>) -> Seq<Row> {
    Seq::new(ranks.len(), |i: int| (ranks[i], i as u64, 0u64, 0u64))
}

/// The percentile of a position among `n`.
pub open spec fn percentile(pos: int, n: int) -> u16 {
    if n == 1 {
        1000
    } else {
        (pos * 1000 / (n - 1)) as u16
    }
}

/// `r` places every node: by its position among the ranks, and at zero if it
/// has fewer than two edges.
pub open spec fn places(lists: Seq<Seq<EdgeRow>>, ranks: Seq<u64>, r: Seq<u16>) -> bool {
    forall|pos: int|
        0 <= pos < r.len() ==> {
            let id = (#[trigger] arranged(rank_rows(ranks))[pos]).1;
            id < r.len() && r[id as int] == (if node_degree(lists, id as u32) < 2 {
                0
            } else {
                percentile(pos, r.len() as int)
            })
        }
}

proof fn lemma_count_push(es: Seq<EdgeRow>, e: EdgeRow, id: u32)
    ensures
        count_to(es.push(e), id) == count_to(es, id) + (if e.0 == id {
            1nat
        } else {
            0nat
        }),
{
    assert(es.push(e).drop_last() =~= es);
}

/// Edges into each node, as far as two count.
fn capped_in_degrees(out_edges: &Vec<Vec<EdgeRow>>) -> (r: Vec<u8>)
    requires
        leads_inside(edge_lists(out_edges@)),
    ensures
        r@.len() == out_edges@.len(),
        forall|id: int|
            0 <= id < r@.len() && id <= u32::MAX ==> #[trigger] r@[id] == min_nat(
                edges_into(edge_lists(out_edges@), out_edges@.len() as int, id as u32),
                2,
            ),
{
    let ghost lists = edge_lists(out_edges@);
    let n: usize = out_edges.len();
    let mut deg: Vec<u8> = Vec::with_capacity(n);
    let mut i: usize = 0;
    while i < n
        invariant
            i <= n,
            deg@.len() == i,
            forall|id: int| 0 <= id < i ==> #[trigger] deg@[id] == 0,
        decreases n - i,
    {
        deg.push(0);
        i = i + 1;
    }
    let mut u: usize = 0;
    while u < n
        invariant
            u <= n == out_edges@.len(),
            lists == edge_lists(out_edges@),
            leads_inside(lists),
            deg@.len() == n,
            forall|id: int|
                0 <= id < n && id <= u32::MAX ==> #[trigger] deg@[id] == min_nat(
                    edges_into(lists, u as int, id as u32),
                    2,
                ),
        decreases n - u,
    {
        let es: &Vec<EdgeRow> = &out_edges[u];
        assert(lists[u as int] == es@);
        let m: usize = es.len();
        let mut j: usize = 0;
        assert(es@.take(0) =~= Seq::empty());
        while j < m
            invariant
                u < n == out_edges@.len(),
                j <= m == es@.len(),
                lists == edge_lists(out_edges@),
                lists[u as int] == es@,
                leads_inside(lists),
                deg@.len() == n,
                forall|id: int|
                    0 <= id < n && id <= u32::MAX ==> #[trigger] deg@[id] == min_nat(
                        edges_into(lists, u as int, id as u32) + count_to(
                            es@.take(j as int),
                            id as u32,
                        ),
                        2,
                    ),
            decreases m - j,
        {
            let dst: usize = es[j].0 as usize;
            assert(lists[u as int][j as int].0 < lists.len());
            let ghost was = deg@;
            let d: u8 = deg[dst];
            if d < 2 {
                deg.set(dst, d + 1);
            }
            proof {
                assert(es@.take(j + 1) =~= es@.take(j as int).push(es@[j as int]));
                assert forall|id: int| 0 <= id < n && id <= u32::MAX implies #[trigger] deg@[id]
                    == min_nat(
                    edges_into(lists, u as int, id as u32) + count_to(es@.take(j + 1), id as u32),
                    2,
                ) by {
                    lemma_count_push(es@.take(j as int), es@[j as int], id as u32);
                    assert(was[id] == min_nat(
                        edges_into(lists, u as int, id as u32) + count_to(
                            es@.take(j as int),
                            id as u32,
                        ),
                        2,
                    ));
                }
            }
            j = j + 1;
        }
        assert(es@.take(m as int) =~= es@);
        u = u + 1;
    }
    deg
}

/// Rank percentiles in permille, given the link rank of each node: nodes are
/// ordered by rank, then by id, and a node with fewer than two edges gets
/// zero.
pub fn percentile_permille(out_edges: &Vec<Vec<EdgeRow>>, ranks: &[u64]) -> (r: Vec<u16>)
    requires
        leads_inside(edge_lists(out_edges@)),
        ranks@.len() == out_edges@.len(),
        out_edges@.len() <= u32::MAX,
    ensures
        r@.len() == out_edges@.len(),
        forall|pos: int|
            0 <= pos < r@.len() ==> {
                let id = (#[trigger] arranged(rank_rows(ranks@))[pos]).1;
                id < r@.len() && r@[id as int] == (if node_degree(
                    edge_lists(out_edges@),
                    id as u32,
                ) < 2 {
                    0
                } else {
                    percentile(pos, r@.len() as int)
                })
            },
        places(edge_lists(out_edges@), ranks@, r@),
{
    let ghost lists = edge_lists(out_edges@);
    let n: usize = out_edges.len();
    let deg: Vec<u8> = capped_in_degrees(out_edges);
    let mut rows: Vec<Row> = Vec::with_capacity(n);
    let mut out: Vec<u16> = Vec::with_capacity(n);
    let mut i: usize = 0;
    while i < n
        invariant
            i <= n == ranks@.len(),
            rows@.len() == i,
            out@.len() == i,
            forall|j: int| 0 <= j < i ==> #[trigger] rows@[j] == rank_rows(ranks@)[j],
        decreases n - i,
    {
        rows.push((ranks[i], i as u64, 0, 0));
        out.push(0);
        i = i + 1;
    }
    assert(rows@ =~= rank_rows(ranks@));
    let ghost before = rows@;
    arrange(&mut rows);
    let ghost sorted = rows@;
    proof {
        assert forall|j: int| 0 <= j < n implies (#[trigger] sorted[j]).1 < n by {
            assert(before.contains(sorted[j]));
            let x = choose|x: int| 0 <= x < before.len() && before[x] == sorted[j];
        }
        lemma_distinct_ids(ranks@);
    }
    let mut pos: usize = 0;
    while pos < n
        invariant
            pos <= n == rows@.len(),
            n == out_edges@.len(),
            n <= u32::MAX,
            lists == edge_lists(out_edges@),
            sorted == rows@,
            sorted == arranged(rank_rows(ranks@)),
            deg@.len() == n,
            forall|id: int|
                0 <= id < n && id <= u32::MAX ==> #[trigger] deg@[id] == min_nat(
                    edges_into(lists, n as int, id as u32),
                    2,
                ),
            out@.len() == n,
            forall|j: int| 0 <= j < n ==> (#[trigger] sorted[j]).1 < n,
            forall|a: int, b: int| 0 <= a < b < n ==> sorted[a].1 != sorted[b].1,
            forall|j: int|
                0 <= j < pos ==> out@[(#[trigger] sorted[j]).1 as int] == (if node_degree(
                    lists,
                    sorted[j].1 as u32,
                ) < 2 {
                    0
                } else {
                    percentile(j, n as int)
                }),
        decreases n - pos,
    {
        assert(sorted[pos as int].1 < n);
        let id: usize = rows[pos].1 as usize;
        let p: u16 = if n == 1 {
            1000
        } else {
            let scaled: u64 = pos as u64 * 1000;
            assert(scaled / (n - 1) as u64 <= 1000) by (nonlinear_arith)
                requires
                    scaled == pos * 1000,
                    pos <= n - 1,
                    n > 1,
            ;
            (scaled / (n as u64 - 1)) as u16
        };
        let own: usize = out_edges[id].len();
        assert(lists[id as int] == out_edges@[id as int]@);
        let few: bool = own < 2 && own + (deg[id] as usize) < 2;
        assert(few == (node_degree(lists, id as u32) < 2));
        let value: u16 = if few {
            0
        } else {
            p
        };
        out.set(id, value);
        pos = pos + 1;
    }
    out
}

proof fn lemma_distinct_ids(ranks: Seq<u64>)
    requires
        ranks.len() <= u32::MAX,
    ensures
        forall|a: int, b: int|
            0 <= a < b < arranged(rank_rows(ranks)).len() ==> arranged(rank_rows(ranks))[a].1
                != arranged(rank_rows(ranks))[b].1,
{
    let rows = rank_rows(ranks);
    let sorted = arranged(rows);
    let le = row_le();
    assert(vstd::relations::total_ordering(le));
    rows.lemma_sort_by_ensures(le);
    assert(rows.no_duplicates());
    rows.lemma_multiset_has_no_duplicates();
    sorted.lemma_multiset_has_no_duplicates_conv();
    assert forall|a: int, b: int| 0 <= a < b < sorted.len() implies sorted[a].1 != sorted[b].1 by {
        lemma_arranged_from(rows, a);
        lemma_arranged_from(rows, b);
        let x = choose|x: int| 0 <= x < rows.len() && rows[x] == sorted[a];
        let y = choose|y: int| 0 <= y < rows.len() && rows[y] == sorted[b];
        assert(sorted[a] != sorted[b]);
    }
}

// ---- communities ----------------------------------------------------------

/// A neighbor, whichever way the edge goes.
#[derive(Clone, Copy, Debug, PartialEq, Eq, Structural)]
pub struct Neighbor {
    /// Its id.
    pub id: u32,
    /// The weight of the edge in 1/65535 units, at least one.
    pub weight: u16,
    /// The edge was inferred.
    pub inferred: bool,
}

pub open spec fn neighbor(id: u32, e: EdgeRow) -> Neighbor {
    Neighbor {
        id,
        weight: if e.3 == 0 {
            1
        } else {
            e.3
        },
        inferred: e.2 & eflags::INFERRED != 0,
    }
}

/// What one edge of `u` adds to the neighbors of `v`.
pub open spec fn edge_ends(u: int, e: EdgeRow, v: int) -> Seq<Neighbor> {
    let out = if u == v {
        seq![neighbor(e.0, e)]
    } else {
        Seq::empty()
    };
    if e.0 == v {
        out.push(neighbor(u as u32, e))
    } else {
        out
    }
}

/// What the edges of `u` add to the neighbors of `v`.
pub open spec fn list_ends(u: int, es: Seq<EdgeRow>, v: int) -> Seq<Neighbor>
    decreases es.len(),
{
    if es.len() == 0 {
        Seq::empty()
    } else {
        list_ends(u, es.drop_last(), v) + edge_ends(u, es.last(), v)
    }
}

/// The neighbors of `v` over the edges of the first `i` nodes, in order.
pub open spec fn neighbors(lists: Seq<Seq<EdgeRow>>, i: int, v: int) -> Seq<Neighbor>
    decreases i,
{
    if i <= 0 {
        Seq::empty()
    } else {
        neighbors(lists, i - 1, v) + list_ends(i - 1, lists[i - 1], v)
    }
}

fn push_neighbor(adj: &mut Vec<Vec<Neighbor>>, v: usize, x: Neighbor)
    requires
        v < old(adj)@.len(),
    ensures
        final(adj)@.len() == old(adj)@.len(),
        forall|w: int|
            0 <= w < final(adj)@.len() ==> (#[trigger] final(adj)@[w])@ == (if w == v {
                old(adj)@[w]@.push(x)
            } else {
                old(adj)@[w]@
            }),
{
    adj[v].push(x);
}

/// Undirected adjacency: every edge is seen from both its ends.
pub fn adjacency(out_edges: &Vec<Vec<EdgeRow>>) -> (r: Vec<Vec<Neighbor>>)
    requires
        leads_inside(edge_lists(out_edges@)),
        out_edges@.len() <= u32::MAX,
    ensures
        r@.len() == out_edges@.len(),
        forall|v: int|
            0 <= v < r@.len() ==> (#[trigger] r@[v])@ == neighbors(
                edge_lists(out_edges@),
                out_edges@.len() as int,
                v,
            ),
{
    let ghost lists = edge_lists(out_edges@);
    let n: usize = out_edges.len();
    let mut adj: Vec<Vec<Neighbor>> = Vec::with_capacity(n);
    let mut i: usize = 0;
    while i < n
        invariant
            i <= n,
            adj@.len() == i,
            forall|v: int| 0 <= v < i ==> (#[trigger] adj@[v])@ == Seq::<Neighbor>::empty(),
        decreases n - i,
    {
        let none: Vec<Neighbor> = Vec::new();
        assert(none@ =~= Seq::empty());
        adj.push(none);
        i = i + 1;
    }
    let mut u: usize = 0;
    while u < n
        invariant
            u <= n == out_edges@.len(),
            n <= u32::MAX,
            lists == edge_lists(out_edges@),
            leads_inside(lists),
            adj@.len() == n,
            forall|v: int| 0 <= v < n ==> (#[trigger] adj@[v])@ == neighbors(lists, u as int, v),
        decreases n - u,
    {
        let es: &Vec<EdgeRow> = &out_edges[u];
        assert(lists[u as int] == es@);
        let m: usize = es.len();
        let mut j: usize = 0;
        assert(es@.take(0) =~= Seq::empty());
        assert forall|v: int| 0 <= v < n implies (#[trigger] adj@[v])@ == neighbors(
            lists,
            u as int,
            v,
        ) + list_ends(u as int, es@.take(0), v) by {
            assert(neighbors(lists, u as int, v) + Seq::empty() =~= neighbors(lists, u as int, v));
        }
        while j < m
            invariant
                u < n == out_edges@.len(),
                n <= u32::MAX,
                j <= m == es@.len(),
                lists == edge_lists(out_edges@),
                lists[u as int] == es@,
                leads_inside(lists),
                adj@.len() == n,
                forall|v: int|
                    0 <= v < n ==> (#[trigger] adj@[v])@ == neighbors(lists, u as int, v)
                        + list_ends(u as int, es@.take(j as int), v),
            decreases m - j,
        {
            let e: EdgeRow = es[j];
            assert(lists[u as int][j as int].0 < lists.len());
            let ghost was = adj@;
            let weight: u16 = if e.3 == 0 {
                1
            } else {
                e.3
            };
            let inferred: bool = e.2 & eflags::INFERRED != 0;
            push_neighbor(&mut adj, u, Neighbor { id: e.0, weight, inferred });
            push_neighbor(&mut adj, e.0 as usize, Neighbor { id: u as u32, weight, inferred });
            proof {
                assert(es@.take(j + 1).drop_last() =~= es@.take(j as int));
                assert forall|v: int| 0 <= v < n implies (#[trigger] adj@[v])@ == neighbors(
                    lists,
                    u as int,
                    v,
                ) + list_ends(u as int, es@.take(j + 1), v) by {
                    let pre = neighbors(lists, u as int, v);
                    let ends = list_ends(u as int, es@.take(j as int), v);
                    assert(was[v]@ == pre + ends);
                    assert(adj@[v]@ =~= pre + (ends + edge_ends(u as int, e, v)));
                }
            }
            j = j + 1;
        }
        assert(es@.take(m as int) =~= es@);
        u = u + 1;
    }
    adj
}

pub open spec fn count_rows(degrees: Seq<usize>) -> Seq<Row> {
    degrees.map_values(|d: usize| (d as u64, 0u64, 0u64, 0u64))
}

/// The degree from which on a node is muted: the 95th percentile, at least
/// eight.
pub open spec fn mute_cut(degrees: Seq<usize>) -> usize {
    let n = degrees.len() as int;
    let at = min_nat((n * 95 / 100) as nat, (n - 1) as nat) as int;
    let p95 = arranged(count_rows(degrees))[at].0;
    if p95 < 8 {
        8
    } else {
        p95 as usize
    }
}

/// The degree from which on a node is muted in the first sweeps.
pub fn hub_cut(degrees: &[usize]) -> (r: usize)
    requires
        0 < degrees@.len() <= u32::MAX,
    ensures
        r == mute_cut(degrees@),
{
    let n: usize = degrees.len();
    let mut rows: Vec<Row> = Vec::with_capacity(n);
    let mut i: usize = 0;
    while i < n
        invariant
            i <= n == degrees@.len(),
            rows@.len() == i,
            forall|j: int| 0 <= j < i ==> #[trigger] rows@[j] == count_rows(degrees@)[j],
        decreases n - i,
    {
        rows.push((degrees[i] as u64, 0, 0, 0));
        i = i + 1;
    }
    assert(rows@ =~= count_rows(degrees@));
    let ghost before = rows@;
    arrange(&mut rows);
    let at: usize = (n as u64 * 95 / 100) as usize;
    let at: usize = if at < n - 1 {
        at
    } else {
        n - 1
    };
    proof {
        assert(before.contains(rows@[at as int]));
        let x = choose|x: int| 0 <= x < before.len() && before[x] == rows@[at as int];
        assert(before[x].0 == degrees@[x]);
    }
    let p95: usize = rows[at].0 as usize;
    if p95 < 8 {
        8
    } else {
        p95
    }
}

/// `label` has the most votes; ties go to the smaller label.
pub open spec fn wins(votes: Seq<(u32, u64)>, k: int) -> bool {
    forall|j: int|
        0 <= j < votes.len() ==> (#[trigger] votes[j]).1 < votes[k].1 || (votes[j].1 == votes[k].1
            && votes[k].0 <= votes[j].0)
}

/// The label with the most votes, given `(label, sum)`; ties go to the smaller
/// label. None without votes.
pub fn elect(votes: &[(u32, u64)]) -> (r: Option<u32>)
    ensures
        match r {
            Some(l) => exists|k: int|
                0 <= k < votes@.len() && (#[trigger] votes@[k]).0 == l && wins(votes@, k),
            None => votes@.len() == 0,
        },
{
    let n: usize = votes.len();
    if n == 0 {
        return None;
    }
    let mut best: usize = 0;
    let mut i: usize = 1;
    while i < n
        invariant
            best < i <= n == votes@.len(),
            forall|j: int|
                0 <= j < i ==> (#[trigger] votes@[j]).1 < votes@[best as int].1 || (votes@[j].1
                    == votes@[best as int].1 && votes@[best as int].0 <= votes@[j].0),
        decreases n - i,
    {
        let (l, w): (u32, u64) = votes[i];
        let (bl, bw): (u32, u64) = votes[best];
        if w > bw || (w == bw && l < bl) {
            best = i;
        }
        i = i + 1;
    }
    assert(wins(votes@, best as int));
    Some(votes[best].0)
}

/// The first node with the label `l`.
pub open spec fn first_with(labels: Seq<u32>, l: u32, i: int) -> int
    decreases labels.len() - i,
{
    if i >= labels.len() || labels[i] == l {
        i
    } else {
        first_with(labels, l, i + 1)
    }
}

/// Every node's community: the smallest node with the same label.
pub open spec fn canonical_ids(labels: Seq<u32>) -> Seq<u32> {
    Seq::new(labels.len(), |u: int| first_with(labels, labels[u], 0) as u32)
}

proof fn lemma_first_with(labels: Seq<u32>, l: u32, i: int, u: int)
    requires
        0 <= i <= u < labels.len(),
        labels[u] == l,
    ensures
        i <= first_with(labels, l, i) <= u,
        labels[first_with(labels, l, i)] == l,
    decreases labels.len() - i,
{
    if labels[i] != l {
        lemma_first_with(labels, l, i + 1, u);
    }
}

proof fn lemma_first_is(labels: Seq<u32>, l: u32, i: int, u: int)
    requires
        0 <= i <= u < labels.len(),
        labels[u] == l,
        forall|j: int| i <= j < u ==> labels[j] != l,
    ensures
        first_with(labels, l, i) == u,
    decreases u - i,
{
    if i < u {
        lemma_first_is(labels, l, i + 1, u);
    }
}

/// Name communities by their smallest member.
pub fn canonical(labels: &[u32]) -> (r: Vec<u32>)
    requires
        labels@.len() <= u32::MAX,
    ensures
        r@ == canonical_ids(labels@),
{
    let n: usize = labels.len();
    let mut first: HashMap<u64, u32> = HashMap::new();
    let mut out: Vec<u32> = Vec::with_capacity(n);
    let mut u: usize = 0;
    while u < n
        invariant
            u <= n == labels@.len(),
            n <= u32::MAX,
            out@.len() == u,
            forall|j: int| 0 <= j < u ==> first@.contains_key((#[trigger] labels@[j]) as u64),
            forall|l: u32|
                #[trigger] first@.contains_key(l as u64) ==> first@[l as u64] < u
                    && first@[l as u64] == first_with(labels@, l, 0),
            forall|j: int| 0 <= j < u ==> #[trigger] out@[j] == canonical_ids(labels@)[j],
        decreases n - u,
    {
        let l: u32 = labels[u];
        let id: u32 = match first.get(&(l as u64)) {
            Some(m) => *m,
            None => {
                proof {
                    assert forall|j: int| 0 <= j < u implies labels@[j] != l by {
                        assert(first@.contains_key(labels@[j] as u64));
                    }
                    lemma_first_is(labels@, l, 0, u as int);
                }
                first.insert(l as u64, u as u32);
                u as u32
            },
        };
        out.push(id);
        u = u + 1;
    }
    assert(out@ =~= canonical_ids(labels@));
    out
}

/// A community's id is its smallest member: it names itself, no member is
/// smaller, and two nodes share a community exactly when they share a label.
pub proof fn law_community_is_its_smallest_member(labels: Seq<u32>, u: int, v: int)
    requires
        labels.len() <= u32::MAX,
        0 <= u < labels.len(),
        0 <= v < labels.len(),
    ensures
        canonical_ids(labels)[u] <= u,
        canonical_ids(labels)[canonical_ids(labels)[u] as int] == canonical_ids(labels)[u],
        canonical_ids(labels)[u] == canonical_ids(labels)[v] <==> labels[u] == labels[v],
{
    lemma_first_with(labels, labels[u], 0, u);
    lemma_first_with(labels, labels[v], 0, v);
}

/// A vote: the voter's label, with the weight of the edge.
#[derive(Clone, Copy, Debug, PartialEq, Eq, Structural)]
pub struct Ballot {
    /// The label that is voted for.
    pub label: u32,
    /// The weight of the edge in 1/65535 units.
    pub weight: u16,
    /// The edge was inferred.
    pub inferred: bool,
}

/// Label propagation under way.
#[derive(Debug)]
pub struct Propagation {
    adj: Vec<Vec<Neighbor>>,
    cut: usize,
    labels: Vec<u32>,
    sweep: usize,
    changed: bool,
}

/// The value of a [`Propagation`].
#[verifier::ext_equal]
pub struct PropagationV {
    /// The neighbors of every node.
    pub adj: Seq<Seq<Neighbor>>,
    /// The degree from which on a node is muted.
    pub cut: usize,
    /// The label of every node.
    pub labels: Seq<u32>,
    /// How many sweeps are over.
    pub sweep: nat,
    /// Some label changed in this sweep.
    pub changed: bool,
}

/// Some ballot is for the label `l`.
pub open spec fn casts(ballots: Seq<Ballot>, l: u32) -> bool {
    exists|b: int| 0 <= b < ballots.len() && (#[trigger] ballots[b]).label == l
}

/// `b` is among the neighbors of `a`.
pub open spec fn sees(adj: Seq<Seq<Neighbor>>, a: int, b: int) -> bool {
    exists|j: int| 0 <= j < adj[a].len() && (#[trigger] adj[a][j]).id == b
}

/// The `i`-th step of a path goes along an edge, whichever way.
pub open spec fn is_step(adj: Seq<Seq<Neighbor>>, path: Seq<int>, i: int) -> bool {
    sees(adj, path[i], path[i + 1]) || sees(adj, path[i + 1], path[i])
}

/// `path` leads from `u` to `v` along edges.
pub open spec fn leads(adj: Seq<Seq<Neighbor>>, path: Seq<int>, u: int, v: int) -> bool {
    &&& path.len() > 0
    &&& path[0] == u
    &&& path.last() == v
    &&& forall|i: int| 0 <= i < path.len() ==> 0 <= #[trigger] path[i] < adj.len()
    &&& forall|i: int| 0 <= i < path.len() - 1 ==> #[trigger] is_step(adj, path, i)
}

/// Some path leads from `u` to `v`.
pub open spec fn connected(adj: Seq<Seq<Neighbor>>, u: int, v: int) -> bool {
    exists|path: Seq<int>| #[trigger] leads(adj, path, u, v)
}

pub open spec fn adj_view(adj: Seq<Vec<Neighbor>>) -> Seq<Seq<Neighbor>> {
    adj.map_values(|ns: Vec<Neighbor>| ns@)
}

impl View for Propagation {
    type V = PropagationV;

    closed spec fn view(&self) -> PropagationV {
        PropagationV {
            adj: adj_view(self.adj@),
            cut: self.cut,
            labels: self.labels@,
            sweep: self.sweep as nat,
            changed: self.changed,
        }
    }
}

impl PropagationV {
    /// Every node has a label, the label is a node that it is connected to, and
    /// neighbors are nodes.
    pub open spec fn wf(self) -> bool {
        &&& self.labels.len() == self.adj.len()
        &&& forall|u: int|
            0 <= u < self.labels.len() ==> connected(
                self.adj,
                u,
                #[trigger] self.labels[u] as int,
            )
        &&& self.labels.len() <= u32::MAX
        &&& self.sweep <= LPA_SWEEPS
        &&& forall|v: int, j: int|
            0 <= v < self.adj.len() && 0 <= j < self.adj[v].len() ==> (#[trigger] self.adj[v][j]).id
                < self.adj.len()
    }

    /// Every vote on the node `u` is for a label that some neighbor cast.
    pub open spec fn are_cast(self, u: int, votes: Seq<(u32, u64)>) -> bool {
        forall|k: int|
            0 <= k < votes.len() ==> casts(
                self.ballots(self.adj[u]),
                (#[trigger] votes[k]).0,
            )
    }

    /// A neighbor votes: hubs stay silent for the first sweeps so they cannot
    /// glue unrelated clusters; afterwards they vote like anyone.
    pub open spec fn votes(self, x: Neighbor) -> bool {
        !(self.sweep < HUB_MUTE_SWEEPS && self.adj[x.id as int].len() >= self.cut)
    }

    /// Another sweep follows: labels changed, and the sweeps are not used up.
    pub open spec fn goes_on(self) -> bool {
        self.changed && self.sweep + 1 < LPA_SWEEPS
    }

    /// One sweep later, with nothing changed yet.
    pub open spec fn swept(self) -> PropagationV {
        PropagationV {
            sweep: min_nat((self.sweep + 1) as nat, LPA_SWEEPS as nat),
            changed: false,
            ..self
        }
    }

    /// With the label `l` on the node `u`.
    pub open spec fn relabeled(self, u: int, l: u32) -> PropagationV {
        PropagationV {
            labels: self.labels.update(u, l),
            changed: self.changed || l != self.labels[u],
            ..self
        }
    }

    /// The votes of some neighbors, in order.
    pub open spec fn ballots(self, ns: Seq<Neighbor>) -> Seq<Ballot>
        decreases ns.len(),
    {
        if ns.len() == 0 {
            Seq::empty()
        } else {
            let pre = self.ballots(ns.drop_last());
            let x = ns.last();
            if self.votes(x) {
                pre.push(
                    Ballot {
                        label: self.labels[x.id as int],
                        weight: x.weight,
                        inferred: x.inferred,
                    },
                )
            } else {
                pre
            }
        }
    }
}

impl Propagation {
    /// Every node starts in a community of its own.
    pub fn start(out_edges: &Vec<Vec<EdgeRow>>) -> (r: Self)
        requires
            leads_inside(edge_lists(out_edges@)),
            0 < out_edges@.len() <= u32::MAX,
        ensures
            r@.wf(),
            r@.adj == Seq::new(
                out_edges@.len(),
                |v: int| neighbors(edge_lists(out_edges@), out_edges@.len() as int, v),
            ),
            r@.cut == mute_cut(
                Seq::new(out_edges@.len(), |v: int| r@.adj[v].len() as usize),
            ),
            r@.labels == Seq::new(out_edges@.len(), |v: int| v as u32),
            r@.sweep == 0,
            !r@.changed,
    {
        let ghost lists = edge_lists(out_edges@);
        let n: usize = out_edges.len();
        let adj: Vec<Vec<Neighbor>> = adjacency(out_edges);
        let mut degrees: Vec<usize> = Vec::with_capacity(n);
        let mut labels: Vec<u32> = Vec::with_capacity(n);
        let mut v: usize = 0;
        while v < n
            invariant
                v <= n == adj@.len(),
                n <= u32::MAX,
                degrees@.len() == v,
                labels@.len() == v,
                forall|j: int| 0 <= j < v ==> #[trigger] degrees@[j] == adj@[j]@.len(),
                forall|j: int| 0 <= j < v ==> #[trigger] labels@[j] == j as u32,
            decreases n - v,
        {
            degrees.push(adj[v].len());
            labels.push(v as u32);
            v = v + 1;
        }
        let cut: usize = hub_cut(degrees.as_slice());
        let r: Propagation = Propagation { adj, cut, labels, sweep: 0, changed: false };
        proof {
            assert(r@.adj =~= Seq::new(
                out_edges@.len(),
                |v: int| neighbors(lists, out_edges@.len() as int, v),
            ));
            assert(degrees@ =~= Seq::new(
                out_edges@.len(),
                |v: int| r@.adj[v].len() as usize,
            ));
            assert(r@.labels =~= Seq::new(out_edges@.len(), |v: int| v as u32));
            assert forall|v: int, j: int|
                0 <= v < r@.adj.len() && 0 <= j < r@.adj[v].len() implies (#[trigger] r@.adj[v][j]).id
                < r@.adj.len() by {
                lemma_neighbors_inside(lists, out_edges@.len() as int, v, j);
            }
            assert forall|u: int| 0 <= u < r@.labels.len() implies connected(
                r@.adj,
                u,
                #[trigger] r@.labels[u] as int,
            ) by {
                assert(leads(r@.adj, seq![u], u, u));
            }
        }
        r
    }

    /// Node count.
    pub fn len(&self) -> (n: usize)
        requires
            self@.wf(),
        ensures
            n == self@.labels.len(),
    {
        self.labels.len()
    }

    /// The votes that the node `u` gets in this sweep, in the order of its
    /// edges.
    pub fn ballots(&self, u: usize) -> (r: Vec<Ballot>)
        requires
            self@.wf(),
            u < self@.labels.len(),
        ensures
            r@ == self@.ballots(self@.adj[u as int]),
    {
        let ghost ns = self@.adj[u as int];
        let row: &Vec<Neighbor> = &self.adj[u];
        let n: usize = row.len();
        let mut out: Vec<Ballot> = Vec::new();
        let mut i: usize = 0;
        assert(ns.take(0) =~= Seq::empty());
        while i < n
            invariant
                self@.wf(),
                u < self@.labels.len(),
                i <= n == ns.len(),
                row@ == ns,
                ns == self@.adj[u as int],
                out@ == self@.ballots(ns.take(i as int)),
            decreases n - i,
        {
            let x: Neighbor = row[i];
            assert(self@.adj[u as int][i as int].id < self@.adj.len());
            assert(ns.take(i + 1).drop_last() =~= ns.take(i as int));
            assert(self@.adj[x.id as int] == self.adj@[x.id as int]@);
            let muted: bool = self.sweep < HUB_MUTE_SWEEPS && self.adj[x.id as usize].len()
                >= self.cut;
            if !muted {
                out.push(
                    Ballot {
                        label: self.labels[x.id as usize],
                        weight: x.weight,
                        inferred: x.inferred,
                    },
                );
            }
            i = i + 1;
        }
        assert(ns.take(n as int) =~= ns);
        out
    }

    /// The node `u` takes the label with the most votes, given `(label, sum)`
    /// over the labels of its ballots; without votes it keeps its own.
    pub fn settle(&mut self, u: usize, votes: &[(u32, u64)])
        requires
            old(self)@.wf(),
            u < old(self)@.labels.len(),
            old(self)@.are_cast(u as int, votes@),
        ensures
            final(self)@.wf(),
            votes@.len() == 0 ==> final(self)@ == old(self)@,
            votes@.len() > 0 ==> exists|k: int|
                0 <= k < votes@.len() && wins(votes@, k) && final(self)@ == (PropagationV {
                    labels: old(self)@.labels.update(u as int, (#[trigger] votes@[k]).0),
                    changed: old(self)@.changed || votes@[k].0 != old(self)@.labels[u as int],
                    ..old(self)@
                }),
            votes@.len() > 0 ==> exists|k: int|
                0 <= k < votes@.len() && wins(votes@, k) && final(self)@ == old(self)@.relabeled(
                    u as int,
                    (#[trigger] votes@[k]).0,
                ),
    {
        match elect(votes) {
            Some(l) => {
                let ghost k = choose|k: int|
                    0 <= k < votes@.len() && (#[trigger] votes@[k]).0 == l && wins(votes@, k);
                proof {
                    assert(casts(self@.ballots(self@.adj[u as int]), votes@[k].0));
                    lemma_cast_is_connected(self@, u as int, l);
                }
                if l != self.labels[u] {
                    self.labels.set(u, l);
                    self.changed = true;
                }
                assert(self@.labels =~= old(self)@.labels.update(u as int, votes@[k].0));
            },
            None => {},
        }
    }

    /// A sweep is over. Returns whether another one follows: labels changed,
    /// and the sweeps are not used up.
    pub fn end_sweep(&mut self) -> (more: bool)
        requires
            old(self)@.wf(),
        ensures
            final(self)@.wf(),
            more == (old(self)@.changed && old(self)@.sweep + 1 < LPA_SWEEPS),
            final(self)@ == (PropagationV {
                sweep: min_nat((old(self)@.sweep + 1) as nat, LPA_SWEEPS as nat),
                changed: false,
                ..old(self)@
            }),
            more == old(self)@.goes_on(),
            final(self)@ == old(self)@.swept(),
    {
        let more: bool = self.changed && self.sweep + 1 < LPA_SWEEPS;
        if self.sweep < LPA_SWEEPS {
            self.sweep = self.sweep + 1;
        }
        self.changed = false;
        more
    }

    /// The community of every node.
    pub fn communities(&self) -> (r: Vec<u32>)
        requires
            self@.wf(),
        ensures
            r@ == canonical_ids(self@.labels),
    {
        canonical(self.labels.as_slice())
    }
}

proof fn lemma_ends_inside(lists: Seq<Seq<EdgeRow>>, u: int, es: Seq<EdgeRow>, v: int, j: int)
    requires
        0 <= u < lists.len() <= u32::MAX,
        forall|k: int| 0 <= k < es.len() ==> (#[trigger] es[k]).0 < lists.len(),
        0 <= j < list_ends(u, es, v).len(),
    ensures
        list_ends(u, es, v)[j].id < lists.len(),
    decreases es.len(),
{
    let pre = list_ends(u, es.drop_last(), v);
    if j < pre.len() {
        assert forall|k: int| 0 <= k < es.drop_last().len() implies (#[trigger] es.drop_last()[k]).0
            < lists.len() by {
            assert(es[k].0 < lists.len());
        }
        lemma_ends_inside(lists, u, es.drop_last(), v, j);
    } else {
        assert(es[es.len() - 1].0 < lists.len());
    }
}

proof fn lemma_neighbors_inside(lists: Seq<Seq<EdgeRow>>, i: int, v: int, j: int)
    requires
        leads_inside(lists),
        0 <= i <= lists.len() <= u32::MAX,
        0 <= j < neighbors(lists, i, v).len(),
    ensures
        neighbors(lists, i, v)[j].id < lists.len(),
    decreases i,
{
    let pre = neighbors(lists, i - 1, v);
    if j < pre.len() {
        lemma_neighbors_inside(lists, i - 1, v, j);
    } else {
        assert forall|k: int| 0 <= k < lists[i - 1].len() implies (#[trigger] lists[i - 1][k]).0
            < lists.len() by {}
        lemma_ends_inside(lists, i - 1, lists[i - 1], v, j - pre.len());
    }
}

/// A ballot carries the label of a neighbor.
proof fn lemma_ballot_of(p: PropagationV, ns: Seq<Neighbor>, b: int)
    requires
        0 <= b < p.ballots(ns).len(),
    ensures
        exists|j: int|
            0 <= j < ns.len() && p.labels[(#[trigger] ns[j]).id as int] == p.ballots(ns)[b].label,
    decreases ns.len(),
{
    let pre = ns.drop_last();
    if b < p.ballots(pre).len() {
        lemma_ballot_of(p, pre, b);
        let j = choose|j: int|
            0 <= j < pre.len() && p.labels[(#[trigger] pre[j]).id as int] == p.ballots(pre)[b].label;
        assert(ns[j] == pre[j]);
    } else {
        assert(p.labels[ns[ns.len() - 1].id as int] == p.ballots(ns)[b].label);
    }
}

/// A node is connected to the node that a label cast on it names.
proof fn lemma_cast_is_connected(p: PropagationV, u: int, l: u32)
    requires
        p.wf(),
        0 <= u < p.labels.len(),
        casts(p.ballots(p.adj[u]), l),
    ensures
        connected(p.adj, u, l as int),
{
    let cast = p.ballots(p.adj[u]);
    let b = choose|b: int| 0 <= b < cast.len() && (#[trigger] cast[b]).label == l;
    lemma_ballot_of(p, p.adj[u], b);
    let j = choose|j: int|
        0 <= j < p.adj[u].len() && p.labels[(#[trigger] p.adj[u][j]).id as int] == cast[b].label;
    let x = p.adj[u][j].id as int;
    assert(connected(p.adj, x, p.labels[x] as int));
    let path = choose|path: Seq<int>| #[trigger] leads(p.adj, path, x, l as int);
    let longer = seq![u] + path;
    assert forall|i: int| 0 <= i < longer.len() implies 0 <= #[trigger] longer[i]
        < p.adj.len() by {
        if i > 0 {
            assert(longer[i] == path[i - 1]);
        }
    }
    assert forall|i: int| 0 <= i < longer.len() - 1 implies #[trigger] is_step(
        p.adj,
        longer,
        i,
    ) by {
        assert(longer[i + 1] == path[i]);
        if i == 0 {
            assert(sees(p.adj, longer[0], longer[1]));
        } else {
            assert(longer[i] == path[i - 1]);
            assert(is_step(p.adj, path, i - 1));
        }
    }
    assert(leads(p.adj, longer, u, l as int));
}

/// Nodes of one community are connected: edges, taken either way, lead from
/// each to each other.
pub proof fn law_communities_are_connected(p: PropagationV, u: int, v: int)
    requires
        p.wf(),
        0 <= u < p.labels.len(),
        0 <= v < p.labels.len(),
        canonical_ids(p.labels)[u] == canonical_ids(p.labels)[v],
    ensures
        connected(p.adj, u, v),
{
    law_community_is_its_smallest_member(p.labels, u, v);
    let l = p.labels[u] as int;
    assert(connected(p.adj, u, l));
    assert(connected(p.adj, v, p.labels[v] as int));
    let there = choose|path: Seq<int>| #[trigger] leads(p.adj, path, u, l);
    let back = choose|path: Seq<int>| #[trigger] leads(p.adj, path, v, l);
    let whole = there + back.reverse().skip(1);
    let n = there.len() as int;
    let m = back.len() as int;
    assert forall|i: int| n <= i < whole.len() implies #[trigger] whole[i] == back[m - 2 - (i
        - n)] by {}
    assert forall|i: int| 0 <= i < whole.len() implies 0 <= #[trigger] whole[i] < p.adj.len() by {
        if i < n {
            assert(whole[i] == there[i]);
        } else {
            assert(0 <= back[m - 2 - (i - n)] < p.adj.len());
        }
    }
    assert forall|i: int| 0 <= i < whole.len() - 1 implies #[trigger] is_step(
        p.adj,
        whole,
        i,
    ) by {
        if i < n - 1 {
            assert(is_step(p.adj, there, i));
            assert(whole[i] == there[i] && whole[i + 1] == there[i + 1]);
        } else {
            let k = m - 2 - (i + 1 - n);
            assert(is_step(p.adj, back, k));
            assert(whole[i + 1] == back[k]);
            if i == n - 1 {
                assert(whole[i] == there.last());
                assert(back[k + 1] == back.last());
            } else {
                assert(whole[i] == back[k + 1]);
            }
        }
    }
    assert(whole.last() == v) by {
        if m == 1 {
            assert(whole =~= there);
        } else {
            assert(whole[whole.len() - 1] == back[0]);
        }
    }
    assert(leads(p.adj, whole, u, v));
}

/// A neighbor of `v` is the other end of an edge.
pub open spec fn shares_edge(lists: Seq<Seq<EdgeRow>>, v: int, x: int) -> bool {
    ||| 0 <= v < lists.len() && exists|k: int|
        0 <= k < lists[v].len() && (#[trigger] lists[v][k]).0 == x
    ||| 0 <= x < lists.len() && exists|k: int|
        0 <= k < lists[x].len() && (#[trigger] lists[x][k]).0 == v
}

/// What the neighbors of a node are: the other ends of its edges, outbound and
/// inbound.
pub proof fn law_neighbors_share_an_edge(lists: Seq<Seq<EdgeRow>>, v: int, j: int)
    requires
        lists.len() <= u32::MAX,
        0 <= j < neighbors(lists, lists.len() as int, v).len(),
    ensures
        shares_edge(lists, v, neighbors(lists, lists.len() as int, v)[j].id as int),
{
    lemma_shares_edge(lists, lists.len() as int, v, j);
}

proof fn lemma_shares_edge(lists: Seq<Seq<EdgeRow>>, i: int, v: int, j: int)
    requires
        0 <= i <= lists.len() <= u32::MAX,
        0 <= j < neighbors(lists, i, v).len(),
    ensures
        shares_edge(lists, v, neighbors(lists, i, v)[j].id as int),
    decreases i,
{
    let pre = neighbors(lists, i - 1, v);
    if j < pre.len() {
        lemma_shares_edge(lists, i - 1, v, j);
    } else {
        assert(lists[i - 1].take(lists[i - 1].len() as int) =~= lists[i - 1]);
        lemma_list_shares_edge(lists, i - 1, lists[i - 1].len() as int, v, j - pre.len());
    }
}

proof fn lemma_list_shares_edge(lists: Seq<Seq<EdgeRow>>, u: int, k: int, v: int, j: int)
    requires
        0 <= u < lists.len() <= u32::MAX,
        0 <= k <= lists[u].len(),
        0 <= j < list_ends(u, lists[u].take(k), v).len(),
    ensures
        shares_edge(lists, v, list_ends(u, lists[u].take(k), v)[j].id as int),
    decreases k,
{
    assert(lists[u].take(k).drop_last() =~= lists[u].take(k - 1));
    let pre = list_ends(u, lists[u].take(k - 1), v);
    if j < pre.len() {
        lemma_list_shares_edge(lists, u, k - 1, v, j);
    } else {
        let e = lists[u][k - 1];
        assert(lists[u].take(k).last() == e);
    }
}

} // verus!
