//! Shortest paths over outbound edges.
use crate::key::UrlKey;
#[allow(unused_imports)]
use crate::model::{EdgeV, GraphV};
use crate::snapshot::Snapshot;
use crate::traverse::EdgeRef;
use std::collections::HashMap;
use vstd::prelude::*;

verus! {

broadcast use vstd::std_specs::hash::group_hash_axioms;

/// There is an edge from `a` to `b`.
pub open spec fn links(g: GraphV, a: u64, b: u64) -> bool {
    exists|i: int| 0 <= i < g.edges(a).len() && (#[trigger] g.edges(a)[i]).dst_key == b
}

/// `b` can be reached from `a` in at most `d` hops.
pub open spec fn reaches(g: GraphV, a: u64, b: u64, d: nat) -> bool
    decreases d,
{
    if d == 0 {
        a == b
    } else {
        reaches(g, a, b, (d - 1) as nat) || exists|m: u64|
            reaches(g, a, m, (d - 1) as nat) && #[trigger] links(g, m, b)
    }
}

/// Consecutive keys are linked.
pub open spec fn is_walk(g: GraphV, p: Seq<u64>) -> bool {
    forall|i: int| 0 <= i < p.len() - 1 ==> links(g, #[trigger] p[i], p[i + 1])
}

// ---- breadth-first search -------------------------------------------------

/// Who was seen, each with the node it was first reached from, and who was
/// newly seen, in order of arrival.
pub struct Front {
    pub seen: Map<u64, u64>,
    pub next: Seq<u64>,
}

/// After looking along the edges `es` of `u`.
pub open spec fn visit(f: Front, u: u64, es: Seq<EdgeV>) -> Front
    decreases es.len(),
{
    if es.len() == 0 {
        f
    } else {
        let p = visit(f, u, es.drop_last());
        let v = es.last().dst_key;
        if p.seen.contains_key(v) {
            p
        } else {
            Front { seen: p.seen.insert(v, u), next: p.next.push(v) }
        }
    }
}

/// After looking along the edges of each of `us`.
pub open spec fn sweep(g: GraphV, f: Front, us: Seq<u64>) -> Front
    decreases us.len(),
{
    if us.len() == 0 {
        f
    } else {
        visit(sweep(g, f, us.drop_last()), us.last(), g.edges(us.last()))
    }
}

/// The search from `from` after `d` rounds.
pub open spec fn level(g: GraphV, from: u64, d: nat) -> Front
    decreases d,
{
    if d == 0 {
        Front { seen: Map::empty().insert(from, from), next: seq![from] }
    } else {
        let p = level(g, from, (d - 1) as nat);
        sweep(g, Front { seen: p.seen, next: Seq::empty() }, p.next)
    }
}

/// The way back from `v` by first arrivals, written forward.
pub open spec fn trace(seen: Map<u64, u64>, from: u64, v: u64, fuel: nat) -> Seq<u64>
    decreases fuel,
{
    if v == from || fuel == 0 {
        seq![v]
    } else {
        trace(seen, from, seen[v], (fuel - 1) as nat).push(v)
    }
}

/// The path that a breadth-first search of at most `max` rounds finds, edges
/// taken in storage order and ties broken by first arrival.
pub open spec fn first_path(g: GraphV, from: u64, to: u64, max: nat) -> Option<Seq<u64>> {
    if level(g, from, max).seen.contains_key(to) {
        Some(trace(level(g, from, max).seen, from, to, max))
    } else {
        None
    }
}

/// `b` knows all that `a` knows.
pub open spec fn grows(a: Map<u64, u64>, b: Map<u64, u64>) -> bool {
    forall|k: u64| #[trigger] a.contains_key(k) ==> b.contains_key(k) && b[k] == a[k]
}

pub(crate) proof fn lemma_visit(g: GraphV, f: Front, u: u64, es: Seq<EdgeV>)
    ensures
        ({
            let r = visit(f, u, es);
            &&& grows(f.seen, r.seen)
            &&& forall|k: u64| #[trigger]
                r.seen.contains_key(k) ==> f.seen.contains_key(k) || (r.seen[k] == u && exists|
                    i: int,
                |
                    0 <= i < es.len() && (#[trigger] es[i]).dst_key == k)
            &&& forall|i: int| 0 <= i < es.len() ==> r.seen.contains_key((#[trigger] es[i]).dst_key)
            &&& f.next.is_prefix_of(r.next)
            &&& forall|k: u64| #[trigger]
                r.next.contains(k) ==> f.next.contains(k) || (r.seen.contains_key(k)
                    && !f.seen.contains_key(k))
            &&& forall|k: u64| #[trigger]
                r.seen.contains_key(k) && !f.seen.contains_key(k) ==> r.next.contains(k)
        }),
    decreases es.len(),
{
    let r = visit(f, u, es);
    if es.len() == 0 {
        assert(f.next =~= f.next.take(f.next.len() as int));
    } else {
        let pre = es.drop_last();
        let p = visit(f, u, pre);
        lemma_visit(g, f, u, pre);
        let v = es.last().dst_key;
        assert forall|k: u64| #[trigger] r.seen.contains_key(k) implies f.seen.contains_key(k) || (
        r.seen[k] == u && exists|i: int| 0 <= i < es.len() && (#[trigger] es[i]).dst_key == k) by {
            if p.seen.contains_key(k) {
                if !f.seen.contains_key(k) {
                    let i = choose|i: int| 0 <= i < pre.len() && (#[trigger] pre[i]).dst_key == k;
                    assert(es[i].dst_key == k);
                }
            } else {
                assert(es[es.len() - 1].dst_key == k);
            }
        }
        assert forall|i: int| 0 <= i < es.len() implies r.seen.contains_key(
            (#[trigger] es[i]).dst_key,
        ) by {
            if i < pre.len() {
                assert(pre[i] == es[i]);
                assert(p.seen.contains_key(pre[i].dst_key));
            }
        }
        if !p.seen.contains_key(v) {
            assert(r.next == p.next.push(v));
            assert(f.next =~= r.next.take(f.next.len() as int)) by {
                assert(f.next =~= p.next.take(f.next.len() as int));
            }
            assert forall|k: u64| #[trigger] r.next.contains(k) implies f.next.contains(k) || (
            r.seen.contains_key(k) && !f.seen.contains_key(k)) by {
                let i = choose|i: int| 0 <= i < r.next.len() && r.next[i] == k;
                if i < p.next.len() {
                    assert(p.next[i] == k);
                    assert(p.next.contains(k));
                } else {
                    assert(k == v);
                    if f.seen.contains_key(v) {
                        assert(p.seen.contains_key(v));
                    }
                }
            }
            assert forall|k: u64| #[trigger]
                r.seen.contains_key(k) && !f.seen.contains_key(k) implies r.next.contains(k) by {
                if k == v {
                    assert(r.next[p.next.len() as int] == v);
                } else {
                    assert(p.seen.contains_key(k));
                    let i = choose|i: int| 0 <= i < p.next.len() && p.next[i] == k;
                    assert(r.next[i] == k);
                }
            }
        }
    }
}

pub(crate) proof fn lemma_sweep(g: GraphV, f: Front, us: Seq<u64>)
    ensures
        ({
            let r = sweep(g, f, us);
            &&& grows(f.seen, r.seen)
            &&& forall|k: u64| #[trigger]
                r.seen.contains_key(k) ==> f.seen.contains_key(k) || (us.contains(r.seen[k])
                    && links(g, r.seen[k], k))
            &&& forall|u: u64, k: u64| #[trigger]
                us.contains(u) && #[trigger] links(g, u, k) ==> r.seen.contains_key(k)
            &&& forall|k: u64| #[trigger]
                r.next.contains(k) ==> f.next.contains(k) || (r.seen.contains_key(k)
                    && !f.seen.contains_key(k))
            &&& forall|k: u64| #[trigger]
                r.seen.contains_key(k) && !f.seen.contains_key(k) ==> r.next.contains(k)
        }),
    decreases us.len(),
{
    let r = sweep(g, f, us);
    if us.len() > 0 {
        let pre = us.drop_last();
        let u = us.last();
        let p = sweep(g, f, pre);
        lemma_sweep(g, f, pre);
        lemma_visit(g, p, u, g.edges(u));
        assert(us.contains(u)) by {
            assert(us[us.len() - 1] == u);
        }
        assert forall|x: u64| pre.contains(x) implies #[trigger] us.contains(x) by {
            let i = choose|i: int| 0 <= i < pre.len() && pre[i] == x;
            assert(us[i] == x);
        }
        assert forall|k: u64| #[trigger] r.seen.contains_key(k) implies f.seen.contains_key(k) || (
        us.contains(r.seen[k]) && links(g, r.seen[k], k)) by {
            if p.seen.contains_key(k) {
                assert(r.seen[k] == p.seen[k]);
                if !f.seen.contains_key(k) {
                    assert(pre.contains(p.seen[k]));
                }
            }
        }
        assert forall|x: u64, k: u64| #[trigger]
            us.contains(x) && #[trigger] links(g, x, k) implies r.seen.contains_key(k) by {
            let i = choose|i: int| 0 <= i < us.len() && us[i] == x;
            if i < pre.len() {
                assert(pre[i] == x);
                assert(pre.contains(x));
                assert(p.seen.contains_key(k));
            } else {
                let j = choose|j: int|
                    0 <= j < g.edges(u).len() && (#[trigger] g.edges(u)[j]).dst_key == k;
                assert(r.seen.contains_key(g.edges(u)[j].dst_key));
            }
        }
        assert forall|k: u64| #[trigger] r.next.contains(k) implies f.next.contains(k) || (
        r.seen.contains_key(k) && !f.seen.contains_key(k)) by {
            if p.next.contains(k) {
                if !f.next.contains(k) {
                    assert(p.seen.contains_key(k));
                }
            }
        }
        assert forall|k: u64| #[trigger]
            r.seen.contains_key(k) && !f.seen.contains_key(k) implies r.next.contains(k) by {
            if p.seen.contains_key(k) {
                let i = choose|i: int| 0 <= i < p.next.len() && p.next[i] == k;
                assert(r.next[i] == k);
            }
        }
    }
}

/// After `d` rounds the search has seen exactly what lies within `d` hops, and
/// what it has not looked along yet was seen last.
proof fn lemma_level(g: GraphV, from: u64, d: nat)
    ensures
        ({
            let f = level(g, from, d);
            &&& forall|k: u64| f.seen.contains_key(k) <==> #[trigger] reaches(g, from, k, d)
            &&& forall|k: u64| #[trigger] f.next.contains(k) ==> f.seen.contains_key(k)
            &&& forall|u: u64, k: u64| #[trigger]
                f.seen.contains_key(u) && !f.next.contains(u) && #[trigger] links(g, u, k)
                    ==> f.seen.contains_key(k)
            &&& f.seen.contains_key(from)
            &&& d > 0 ==> grows(level(g, from, (d - 1) as nat).seen, f.seen)
            &&& d > 0 ==> forall|k: u64| #[trigger]
                f.seen.contains_key(k) && !level(g, from, (d - 1) as nat).seen.contains_key(k)
                    ==> level(g, from, (d - 1) as nat).seen.contains_key(f.seen[k]) && links(
                    g,
                    f.seen[k],
                    k,
                )
        }),
    decreases d,
{
    let f = level(g, from, d);
    if d == 0 {
        assert(f.next.contains(from)) by {
            assert(f.next[0] == from);
        }
    } else {
        let p = level(g, from, (d - 1) as nat);
        lemma_level(g, from, (d - 1) as nat);
        let start = Front { seen: p.seen, next: Seq::empty() };
        lemma_sweep(g, start, p.next);
        assert forall|k: u64| f.seen.contains_key(k) <==> #[trigger] reaches(g, from, k, d) by {
            if f.seen.contains_key(k) {
                if p.seen.contains_key(k) {
                    assert(reaches(g, from, k, (d - 1) as nat));
                } else {
                    let m = f.seen[k];
                    assert(p.next.contains(m));
                    assert(reaches(g, from, m, (d - 1) as nat) && links(g, m, k));
                }
            }
            if reaches(g, from, k, d) {
                if reaches(g, from, k, (d - 1) as nat) {
                    assert(p.seen.contains_key(k));
                } else {
                    let m = choose|m: u64|
                        reaches(g, from, m, (d - 1) as nat) && #[trigger] links(g, m, k);
                    assert(p.seen.contains_key(m));
                    if p.next.contains(m) {
                        assert(f.seen.contains_key(k));
                    } else {
                        assert(p.seen.contains_key(k));
                    }
                }
            }
        }
        assert forall|u: u64, k: u64| #[trigger]
            f.seen.contains_key(u) && !f.next.contains(u) && #[trigger] links(
                g,
                u,
                k,
            ) implies f.seen.contains_key(k) by {
            if p.seen.contains_key(u) {
                if p.next.contains(u) {
                    assert(f.seen.contains_key(k));
                } else {
                    assert(p.seen.contains_key(k));
                }
            } else {
                assert(f.next.contains(u));
            }
        }
    }
}

pub(crate) proof fn lemma_levels_grow(g: GraphV, from: u64, a: nat, b: nat)
    requires
        a <= b,
    ensures
        grows(level(g, from, a).seen, level(g, from, b).seen),
    decreases b,
{
    if a < b {
        lemma_levels_grow(g, from, a, (b - 1) as nat);
        lemma_level(g, from, b);
    }
}

/// What a way back looks like: it starts at `from`, ends at `v`, and each key
/// was first reached from the one before it.
pub open spec fn chains(seen: Map<u64, u64>, from: u64, v: u64, p: Seq<u64>) -> bool {
    &&& p.len() > 0
    &&& p[0] == from
    &&& p.last() == v
    &&& forall|i: int|
        0 < i < p.len() ==> (#[trigger] p[i]) != from && seen.contains_key(p[i]) && seen[p[i]]
            == p[i - 1]
}

proof fn lemma_trace(g: GraphV, from: u64, v: u64, d: nat, seen: Map<u64, u64>, fuel: nat)
    requires
        level(g, from, d).seen.contains_key(v),
        grows(level(g, from, d).seen, seen),
        d <= fuel,
    ensures
        trace(seen, from, v, fuel) == trace(level(g, from, d).seen, from, v, d),
        trace(seen, from, v, fuel).len() <= d + 1,
        chains(seen, from, v, trace(seen, from, v, fuel)),
        is_walk(g, trace(seen, from, v, fuel)),
    decreases d,
{
    lemma_level(g, from, d);
    let f = level(g, from, d);
    if v != from {
        if d == 0 {
            assert(reaches(g, from, v, 0));
        } else {
            let p = level(g, from, (d - 1) as nat);
            lemma_level(g, from, (d - 1) as nat);
            if p.seen.contains_key(v) {
                assert(grows(p.seen, seen));
                lemma_trace(g, from, v, (d - 1) as nat, seen, fuel);
                lemma_trace(g, from, v, (d - 1) as nat, f.seen, d);
            } else {
                let u = f.seen[v];
                assert(seen[v] == u);
                assert(grows(p.seen, seen));
                lemma_trace(g, from, u, (d - 1) as nat, seen, (fuel - 1) as nat);
                lemma_trace(g, from, u, (d - 1) as nat, f.seen, (d - 1) as nat);
                let t = trace(seen, from, u, (fuel - 1) as nat);
                let all = t.push(v);
                assert(trace(seen, from, v, fuel) == all);
                assert(chains(seen, from, v, all)) by {
                    assert forall|i: int| 0 < i < all.len() implies (#[trigger] all[i]) != from
                        && seen.contains_key(all[i]) && seen[all[i]] == all[i - 1] by {
                        if i < t.len() {
                            assert(all[i] == t[i]);
                        }
                    }
                }
                assert(is_walk(g, all)) by {
                    assert forall|i: int| 0 <= i < all.len() - 1 implies links(
                        g,
                        #[trigger] all[i],
                        all[i + 1],
                    ) by {
                        if i < t.len() - 1 {
                            assert(links(g, t[i], t[i + 1]));
                        } else {
                            assert(all[i] == u);
                        }
                    }
                }
            }
        }
    }
}

proof fn lemma_walk_reaches(g: GraphV, p: Seq<u64>)
    requires
        p.len() > 0,
        is_walk(g, p),
    ensures
        reaches(g, p[0], p.last(), (p.len() - 1) as nat),
    decreases p.len(),
{
    if p.len() > 1 {
        let q = p.drop_last();
        assert(is_walk(g, q)) by {
            assert forall|i: int| 0 <= i < q.len() - 1 implies links(
                g,
                #[trigger] q[i],
                q[i + 1],
            ) by {
                assert(links(g, p[i], p[i + 1]));
            }
        }
        lemma_walk_reaches(g, q);
        assert(links(g, p[p.len() - 2], p[p.len() - 1]));
        assert(q.last() == p[p.len() - 2]);
        assert(reaches(g, p[0], q.last(), (q.len() - 1) as nat) && links(g, q.last(), p.last()));
    }
}

proof fn lemma_level_path_len(g: GraphV, from: u64, to: u64, d: nat, max: nat)
    requires
        d <= max,
        level(g, from, d).seen.contains_key(to),
    ensures
        first_path(g, from, to, max) is Some,
        first_path(g, from, to, max)->0.len() <= d + 1,
{
    lemma_levels_grow(g, from, d, max);
    lemma_trace(g, from, to, d, level(g, from, max).seen, max);
}

/// The search finds a path if and only if one of at most `max` hops exists,
/// and no walk between the two is shorter than the path it finds.
pub proof fn law_first_path_is_shortest(g: GraphV, from: u64, to: u64, max: nat)
    ensures
        first_path(g, from, to, max) is Some <==> reaches(g, from, to, max),
        first_path(g, from, to, max) matches Some(p) ==> {
            &&& p.len() > 0
            &&& p[0] == from
            &&& p.last() == to
            &&& p.len() <= max + 1
            &&& is_walk(g, p)
            &&& forall|q: Seq<u64>|
                q.len() > 0 && q[0] == from && q.last() == to && #[trigger] is_walk(g, q)
                    ==> p.len() <= q.len()
        },
{
    lemma_level(g, from, max);
    if level(g, from, max).seen.contains_key(to) {
        lemma_trace(g, from, to, max, level(g, from, max).seen, max);
        let p = first_path(g, from, to, max)->0;
        assert forall|q: Seq<u64>|
            q.len() > 0 && q[0] == from && q.last() == to && #[trigger] is_walk(
                g,
                q,
            ) implies p.len() <= q.len() by {
            let d = (q.len() - 1) as nat;
            lemma_walk_reaches(g, q);
            if d <= max {
                lemma_level(g, from, d);
                lemma_level_path_len(g, from, to, d, max);
            }
        }
    }
}

proof fn lemma_visit_prefix(f: Front, u: u64, es: Seq<EdgeV>, i: int)
    requires
        0 <= i <= es.len(),
    ensures
        grows(visit(f, u, es.take(i)).seen, visit(f, u, es).seen),
    decreases es.len() - i,
{
    if i == es.len() {
        assert(es.take(i) =~= es);
    } else {
        lemma_visit_prefix(f, u, es, i + 1);
        assert(es.take(i + 1).drop_last() =~= es.take(i));
        let a = visit(f, u, es.take(i));
        let b = visit(f, u, es.take(i + 1));
        assert(grows(a.seen, b.seen));
    }
}

proof fn lemma_sweep_prefix(g: GraphV, f: Front, us: Seq<u64>, i: int)
    requires
        0 <= i <= us.len(),
    ensures
        grows(sweep(g, f, us.take(i)).seen, sweep(g, f, us).seen),
    decreases us.len() - i,
{
    if i == us.len() {
        assert(us.take(i) =~= us);
    } else {
        lemma_sweep_prefix(g, f, us, i + 1);
        assert(us.take(i + 1).drop_last() =~= us.take(i));
        lemma_visit(g, sweep(g, f, us.take(i)), us[i], g.edges(us[i]));
    }
}

/// An empty round ends the search: later rounds see nothing new.
proof fn lemma_level_stalls(g: GraphV, from: u64, d: nat, max: nat)
    requires
        d <= max,
        level(g, from, d).next.len() == 0,
    ensures
        level(g, from, max).seen == level(g, from, d).seen,
        level(g, from, max).next.len() == 0,
    decreases max,
{
    if d < max {
        lemma_level_stalls(g, from, d, (max - 1) as nat);
    }
}

/// The keys of `v`, back to front.
fn reversed(v: &Vec<u64>) -> (r: Vec<UrlKey>)
    ensures
        r@.len() == v@.len(),
        forall|i: int| 0 <= i < v@.len() ==> (#[trigger] r@[i]).0 == v@[v@.len() - 1 - i],
{
    let n: usize = v.len();
    let mut out: Vec<UrlKey> = Vec::with_capacity(n);
    let mut i: usize = 0;
    while i < n
        invariant
            i <= n == v@.len(),
            out@.len() == i,
            forall|j: int| 0 <= j < i ==> (#[trigger] out@[j]).0 == v@[n - 1 - j],
        decreases n - i,
    {
        out.push(UrlKey(v[n - 1 - i]));
        i = i + 1;
    }
    out
}

/// The values of a path.
pub open spec fn keys_view(p: Seq<UrlKey>) -> Seq<u64> {
    p.map_values(|k: UrlKey| k.0)
}

/// Follow first arrivals from `u` back to `from` and append `to`.
fn way_back(prev: &HashMap<u64, u64>, from: u64, u: u64, to: u64, Ghost(t): Ghost<Seq<u64>>) -> (r:
    Vec<UrlKey>)
    requires
        chains(prev@, from, u, t),
    ensures
        keys_view(r@) == t.push(to),
{
    let mut back: Vec<u64> = Vec::new();
    back.push(to);
    let mut cur: u64 = u;
    let ghost mut j: int = t.len() - 1;
    while cur != from
        invariant
            chains(prev@, from, u, t),
            0 <= j < t.len(),
            cur == t[j],
            back@.len() == t.len() - j,
            back@[0] == to,
            forall|i: int| 1 <= i < back@.len() ==> #[trigger] back@[i] == t[t.len() - i],
        decreases j,
    {
        assert(j > 0);
        back.push(cur);
        assert(prev@.contains_key(t[j]));
        cur = *prev.get(&cur).unwrap();
        proof {
            j = j - 1;
        }
    }
    assert(j == 0);
    back.push(from);
    let r: Vec<UrlKey> = reversed(&back);
    assert(keys_view(r@) =~= t.push(to));
    r
}

impl<'s> Snapshot<'s> {
    /// Shortest forward path (over outbound edges) from `from` to `to`,
    /// bounded by `max_depth` hops. Deterministic: neighbors expand in storage
    /// order, ties broken by first arrival.
    #[must_use]
    pub fn path(&self, from: UrlKey, to: UrlKey, max_depth: u8) -> (r: Option<Vec<UrlKey>>)
        requires
            self.wf(),
        ensures
            match r {
                Some(p) => first_path(self.graph(), from.0, to.0, max_depth as nat) == Some(
                    keys_view(p@),
                ),
                None => first_path(self.graph(), from.0, to.0, max_depth as nat) is None,
            },
    {
        let ghost g = self.graph();
        let ghost max = max_depth as nat;
        if from.0 == to.0 {
            let mut p: Vec<UrlKey> = Vec::new();
            p.push(from);
            proof {
                lemma_levels_grow(g, from.0, 0, max);
                lemma_level(g, from.0, 0);
                assert(keys_view(p@) =~= seq![from.0]);
            }
            return Some(p);
        }
        let mut prev: HashMap<u64, u64> = HashMap::new();
        let mut frontier: Vec<u64> = Vec::new();
        frontier.push(from.0);
        prev.insert(from.0, from.0);
        assert(prev@ =~= level(g, from.0, 0).seen);
        assert(frontier@ =~= level(g, from.0, 0).next);
        let mut depth: u8 = 0;
        while depth < max_depth
            invariant
                self.wf(),
                g == self.graph(),
                max == max_depth as nat,
                depth <= max_depth,
                from.0 != to.0,
                prev@ == level(g, from.0, depth as nat).seen,
                frontier@ == level(g, from.0, depth as nat).next,
                !prev@.contains_key(to.0),
            decreases max_depth - depth,
        {
            let ghost here = level(g, from.0, depth as nat);
            let ghost start = Front { seen: here.seen, next: Seq::<u64>::empty() };
            let mut next: Vec<u64> = Vec::new();
            let n: usize = frontier.len();
            let mut i: usize = 0;
            assert(frontier@.take(0) =~= Seq::empty());
            while i < n
                invariant
                    self.wf(),
                    g == self.graph(),
                    max == max_depth as nat,
                    depth < max_depth,
                    from.0 != to.0,
                    i <= n == frontier@.len(),
                    here == level(g, from.0, depth as nat),
                    frontier@ == here.next,
                    start == (Front { seen: here.seen, next: Seq::<u64>::empty() }),
                    prev@ == sweep(g, start, frontier@.take(i as int)).seen,
                    next@ == sweep(g, start, frontier@.take(i as int)).next,
                    !prev@.contains_key(to.0),
                decreases n - i,
            {
                let u: u64 = frontier[i];
                let ghost before = sweep(g, start, frontier@.take(i as int));
                let edges: Vec<EdgeRef<'_>> = self.neighbors(UrlKey(u)).collect();
                let ghost es = g.edges(u);
                let m: usize = edges.len();
                let mut j: usize = 0;
                assert(es.take(0) =~= Seq::empty());
                assert(m == es.len());
                while j < m
                    invariant
                        self.wf(),
                        g == self.graph(),
                        max == max_depth as nat,
                        depth < max_depth,
                        from.0 != to.0,
                        i < n == frontier@.len(),
                        u == frontier@[i as int],
                        here == level(g, from.0, depth as nat),
                        frontier@ == here.next,
                        start == (Front { seen: here.seen, next: Seq::<u64>::empty() }),
                        before == sweep(g, start, frontier@.take(i as int)),
                        j <= m == edges@.len(),
                        es == g.edges(u),
                        crate::traverse::edges_view(edges@) == es,
                        prev@ == visit(before, u, es.take(j as int)).seen,
                        next@ == visit(before, u, es.take(j as int)).next,
                        !prev@.contains_key(to.0),
                    decreases m - j,
                {
                    let v: u64 = edges[j].dst_key.0;
                    assert(es[j as int].dst_key == v) by {
                        assert(crate::traverse::edges_view(edges@)[j as int] == edges@[j as int]@);
                    }
                    assert(es.take(j + 1).drop_last() =~= es.take(j as int));
                    assert(es.take(j + 1).last() == es[j as int]);
                    if !prev.contains_key(&v) {
                        if v == to.0 {
                            proof {
                                lemma_arrival(g, from.0, depth as nat, max, i as int, j as int);
                                lemma_visit(g, before, u, es.take(j as int));
                                lemma_sweep(g, start, frontier@.take(i as int));
                                lemma_level(g, from.0, depth as nat);
                                assert(here.next.contains(u));
                                assert(grows(here.seen, prev@));
                                lemma_trace(g, from.0, u, depth as nat, prev@, depth as nat);
                                let last = level(g, from.0, max).seen;
                                lemma_levels_grow(g, from.0, depth as nat, max);
                                lemma_trace(g, from.0, u, depth as nat, last, (max - 1) as nat);
                            }
                            let ghost t = trace(prev@, from.0, u, depth as nat);
                            let p: Vec<UrlKey> = way_back(&prev, from.0, u, v, Ghost(t));
                            return Some(p);
                        }
                        prev.insert(v, u);
                        next.push(v);
                    }
                    j = j + 1;
                }
                assert(es.take(m as int) =~= es);
                assert(frontier@.take(i + 1).drop_last() =~= frontier@.take(i as int));
                i = i + 1;
            }
            assert(frontier@.take(n as int) =~= frontier@);
            if next.len() == 0 {
                proof {
                    lemma_level_stalls(g, from.0, (depth + 1) as nat, max);
                }
                return None;
            }
            frontier = next;
            depth = depth + 1;
        }
        None
    }
}

/// The first arrival at a key stays its first arrival to the end of the
/// search.
proof fn lemma_arrival(g: GraphV, from: u64, d: nat, max: nat, i: int, j: int)
    requires
        d < max,
        0 <= i < level(g, from, d).next.len(),
        0 <= j < g.edges(level(g, from, d).next[i]).len(),
        ({
            let here = level(g, from, d);
            let start = Front { seen: here.seen, next: Seq::<u64>::empty() };
            let u = here.next[i];
            let before = sweep(g, start, here.next.take(i));
            !visit(before, u, g.edges(u).take(j)).seen.contains_key(g.edges(u)[j].dst_key)
        }),
    ensures
        ({
            let u = level(g, from, d).next[i];
            let v = g.edges(u)[j].dst_key;
            &&& level(g, from, max).seen.contains_key(v)
            &&& level(g, from, max).seen[v] == u
        }),
{
    let here = level(g, from, d);
    let start = Front { seen: here.seen, next: Seq::<u64>::empty() };
    let us = here.next;
    let u = us[i];
    let es = g.edges(u);
    let v = es[j].dst_key;
    let before = sweep(g, start, us.take(i));
    assert(es.take(j + 1).drop_last() =~= es.take(j));
    let at = visit(before, u, es.take(j + 1));
    assert(at.seen.contains_key(v) && at.seen[v] == u);
    lemma_visit_prefix(before, u, es, j + 1);
    assert(us.take(i + 1).drop_last() =~= us.take(i));
    lemma_sweep_prefix(g, start, us, i + 1);
    lemma_levels_grow(g, from, d + 1, max);
}

} // verus!
