//! Which of several shortest paths is found.
#[allow(unused_imports)]
use crate::model::{EdgeV, GraphV};
#[allow(unused_imports)]
use crate::path::{
    first_path, lemma_levels_grow, lemma_sweep, lemma_visit, level, links, sweep, trace, visit,
    Front,
};
use vstd::prelude::*;

verus! {

/// What is newly seen comes from the edges, in their order: whatever stands
/// before the end of the `x`-th edge comes from an earlier edge.
proof fn lemma_visit_order(g: GraphV, f: Front, u: u64, es: Seq<EdgeV>)
    ensures
        ({
            let r = visit(f, u, es);
            let k = f.next.len() as int;
            &&& k <= r.next.len()
            &&& r.next.take(k) == f.next
            &&& forall|b: int|
                k <= b < r.next.len() ==> exists|y: int|
                    0 <= y < es.len() && (#[trigger] es[y]).dst_key == #[trigger] r.next[b]
            &&& forall|x: int|
                0 <= x < es.len() && !f.seen.contains_key((#[trigger] es[x]).dst_key)
                    ==> stands_by(r.next, k, es, x)
        }),
    decreases es.len(),
{
    let k = f.next.len() as int;
    if es.len() == 0 {
        assert(f.next.take(k) =~= f.next);
    } else {
        let less = es.drop_last();
        let last = es.len() - 1;
        lemma_visit_order(g, f, u, less);
        lemma_visit(g, f, u, less);
        let pre = visit(f, u, less);
        let r = visit(f, u, es);
        assert(forall|y: int| 0 <= y < last ==> #[trigger] less[y] == es[y]);
        assert(r.next.take(k) =~= f.next) by {
            assert(pre.next.take(k) =~= f.next);
        }
        assert forall|b: int| k <= b < r.next.len() implies exists|y: int|
            0 <= y < es.len() && (#[trigger] es[y]).dst_key == #[trigger] r.next[b] by {
            if b < pre.next.len() {
                let y = choose|y: int|
                    0 <= y < less.len() && (#[trigger] less[y]).dst_key == pre.next[b];
                assert(es[y].dst_key == r.next[b]);
            } else {
                assert(es[last].dst_key == r.next[b]);
            }
        }
        assert forall|x: int|
            0 <= x < es.len() && !f.seen.contains_key((#[trigger] es[x]).dst_key) implies stands_by(
            r.next,
            k,
            es,
            x,
        ) by {
            if x < last {
                assert(less[x] == es[x]);
                assert(stands_by(pre.next, k, less, x));
                lemma_stands_on(pre.next, r.next, k, less, es, x, x);
            } else if pre.seen.contains_key(es[last].dst_key) {
                let y = choose|y: int|
                    0 <= y < less.len() && (#[trigger] less[y]).dst_key == es[last].dst_key;
                assert(!f.seen.contains_key(less[y].dst_key));
                assert(stands_by(pre.next, k, less, y));
                lemma_stands_on(pre.next, r.next, k, less, es, y, x);
            } else {
                let a = pre.next.len() as int;
                assert(r.next[a] == es[x].dst_key);
                assert forall|b: int| k <= b < a implies comes_from(r.next[b], es, x) by {
                    let y = choose|y: int|
                        0 <= y < less.len() && (#[trigger] less[y]).dst_key == pre.next[b];
                    assert(es[y].dst_key == r.next[b]);
                }
                assert(stands_at(r.next, k, es, x, a));
            }
        }
    }
}

/// `v` is the end of an edge before the `x`-th.
spec fn comes_from(v: u64, es: Seq<EdgeV>, x: int) -> bool {
    exists|y: int| 0 <= y < x && (#[trigger] es[y]).dst_key == v
}

spec fn stands_at(next: Seq<u64>, k: int, es: Seq<EdgeV>, x: int, a: int) -> bool {
    &&& k <= a < next.len()
    &&& next[a] == es[x].dst_key
    &&& forall|b: int| k <= b < a ==> comes_from(#[trigger] next[b], es, x)
}

/// The end of the `x`-th edge stands in `next`, behind `k` and behind ends of
/// earlier edges only.
spec fn stands_by(next: Seq<u64>, k: int, es: Seq<EdgeV>, x: int) -> bool {
    exists|a: int| #[trigger] stands_at(next, k, es, x, a)
}

proof fn lemma_stands_on(
    pre: Seq<u64>,
    next: Seq<u64>,
    k: int,
    less: Seq<EdgeV>,
    es: Seq<EdgeV>,
    y: int,
    x: int,
)
    requires
        stands_by(pre, k, less, y),
        pre.len() <= next.len(),
        forall|i: int| 0 <= i < pre.len() ==> pre[i] == next[i],
        0 <= k,
        0 <= y < less.len() <= es.len(),
        forall|i: int| 0 <= i < less.len() ==> less[i] == es[i],
        y <= x < es.len(),
        es[x].dst_key == es[y].dst_key,
    ensures
        stands_by(next, k, es, x),
{
    let a = choose|a: int| #[trigger] stands_at(pre, k, less, y, a);
    assert forall|b: int| k <= b < a implies comes_from(#[trigger] next[b], es, x) by {
        assert(comes_from(pre[b], less, y));
        let z = choose|z: int| 0 <= z < y && (#[trigger] less[z]).dst_key == pre[b];
        assert(es[z].dst_key == next[b]);
    }
    assert(stands_at(next, k, es, x, a));
}

/// Of those that are looked from, the first with an edge to `k` is the one that
/// `k` is reached from.
proof fn lemma_first_to_reach(g: GraphV, f: Front, us: Seq<u64>, i: int, k: u64)
    requires
        !f.seen.contains_key(k),
        0 <= i < us.len(),
        links(g, us[i], k),
        forall|j: int| 0 <= j < i ==> !links(g, #[trigger] us[j], k),
    ensures
        sweep(g, f, us).seen.contains_key(k),
        sweep(g, f, us).seen[k] == us[i],
    decreases us.len(),
{
    let less = us.drop_last();
    let last = us.len() - 1;
    let pre = sweep(g, f, less);
    let es = g.edges(us[last]);
    lemma_visit(g, pre, us[last], es);
    if i < last {
        lemma_first_to_reach(g, f, less, i, k);
    } else {
        lemma_sweep(g, f, less);
        assert(!pre.seen.contains_key(k)) by {
            if pre.seen.contains_key(k) {
                let u = pre.seen[k];
                assert(less.contains(u));
                let j = choose|j: int| 0 <= j < less.len() && less[j] == u;
                assert(us[j] == u);
                assert(!links(g, us[j], k));
            }
        }
        let x = choose|x: int| 0 <= x < es.len() && (#[trigger] es[x]).dst_key == k;
        assert(visit(pre, us[last], es).seen.contains_key(es[x].dst_key));
    }
}

spec fn at_start(from: u64) -> Front {
    Front { seen: Map::empty().insert(from, from), next: Seq::empty() }
}

proof fn lemma_first_levels(g: GraphV, from: u64)
    ensures
        level(g, from, 1) == visit(at_start(from), from, g.edges(from)),
        level(g, from, 2) == sweep(
            g,
            Front { seen: level(g, from, 1).seen, next: Seq::empty() },
            level(g, from, 1).next,
        ),
{
    let us = seq![from];
    assert(level(g, from, 0).next == us);
    assert(us.drop_last() =~= Seq::empty());
    assert(us.last() == from);
    assert(sweep(g, at_start(from), Seq::<u64>::empty()) == at_start(from));
    assert(sweep(g, at_start(from), us) == visit(at_start(from), from, g.edges(from)));
    assert(level(g, from, 1) == sweep(g, at_start(from), us));
}

proof fn lemma_trace_back(seen: Map<u64, u64>, from: u64, m: u64, to: u64, max: nat)
    requires
        max >= 2,
        seen.contains_key(to) && seen[to] == m,
        seen.contains_key(m) && seen[m] == from,
        from != to,
        from != m,
    ensures
        trace(seen, from, to, max) == seq![from, m, to],
{
    assert(trace(seen, from, from, (max - 2) as nat) =~= seq![from]);
    assert(trace(seen, from, m, (max - 1) as nat) =~= seq![from, m]);
    assert(trace(seen, from, to, max) =~= seq![from, m, to]);
}

proof fn lemma_one_stop(
    g: GraphV,
    from: u64,
    to: u64,
    es: Seq<EdgeV>,
    one: Front,
    two: Front,
    i: int,
)
    requires
        from != to,
        one == visit(at_start(from), from, es),
        two == sweep(g, Front { seen: one.seen, next: Seq::empty() }, one.next),
        0 <= i < es.len(),
        links(g, es[i].dst_key, to),
        forall|j: int| 0 <= j < es.len() ==> (#[trigger] es[j]).dst_key != to,
        forall|j: int| 0 <= j < i ==> !links(g, (#[trigger] es[j]).dst_key, to),
        es[i].dst_key != from,
    ensures
        one.seen.contains_key(es[i].dst_key) && one.seen[es[i].dst_key] == from,
        two.seen.contains_key(to) && two.seen[to] == es[i].dst_key,
{
    let f = at_start(from);
    lemma_visit_order(g, f, from, es);
    lemma_visit(g, f, from, es);
    assert(!f.seen.contains_key(es[i].dst_key));
    assert(stands_by(one.next, 0, es, i));
    let a = choose|a: int| #[trigger] stands_at(one.next, 0, es, i, a);
    assert(!one.seen.contains_key(to));
    assert forall|j: int| 0 <= j < a implies !links(g, #[trigger] one.next[j], to) by {
        assert(comes_from(one.next[j], es, i));
        let y = choose|y: int| 0 <= y < i && (#[trigger] es[y]).dst_key == one.next[j];
        assert(!links(g, es[y].dst_key, to));
    }
    lemma_first_to_reach(g, Front { seen: one.seen, next: Seq::empty() }, one.next, a, to);
}

/// Of several ways over one stop, the one over the earliest edge of the start
/// is found: neighbors are taken in the order in which they are stored.
pub proof fn law_the_first_stored_neighbor_wins(g: GraphV, from: u64, to: u64, max: nat, i: int)
    requires
        from != to,
        !links(g, from, to),
        max >= 2,
        0 <= i < g.edges(from).len(),
        links(g, g.edges(from)[i].dst_key, to),
        forall|j: int| 0 <= j < i ==> !links(g, (#[trigger] g.edges(from)[j]).dst_key, to),
    ensures
        first_path(g, from, to, max) == Some(seq![from, g.edges(from)[i].dst_key, to]),
{
    let es = g.edges(from);
    let m = es[i].dst_key;
    lemma_first_levels(g, from);
    lemma_one_stop(g, from, to, es, level(g, from, 1), level(g, from, 2), i);
    lemma_levels_grow(g, from, 1, max);
    lemma_levels_grow(g, from, 2, max);
    lemma_trace_back(level(g, from, max).seen, from, m, to, max);
}

} // verus!
