//! Where a lookup starts and how it goes on along edges.
#[allow(unused_imports)]
use crate::format::base::dir::node_row;
#[allow(unused_imports)]
use crate::guarantees::counting::{count, lemma_count_same};
#[allow(unused_imports)]
use crate::model::{EdgeV, GraphV};
#[allow(unused_imports)]
use crate::order::{arranged, law_arranged_rows_ascend, lemma_listed, listing};
#[allow(unused_imports)]
use crate::spread::{by_score, filled, hops_along, is_seated, score_rows, seated, started, SpreadV};
use vstd::prelude::*;

verus! {

// ---- seeds ----------------------------------------------------------------

/// The `x`-th score is that of `id`.
pub open spec fn carries(scores: Seq<(u32, u32)>, x: int, id: u32) -> bool {
    0 <= x < scores.len() && scores[x].0 == id
}

/// `id` has a score.
pub open spec fn has_score(scores: Seq<(u32, u32)>, id: u32) -> bool {
    exists|x: int| #[trigger] carries(scores, x, id)
}

/// Ids that carry one score each are ordered by it, the higher score first, of
/// equal scores the smaller id. None is lost or added.
pub proof fn law_ids_come_by_score(scores: Seq<(u32, u32)>)
    requires
        forall|x: int, y: int|
            0 <= x < y < scores.len() ==> (#[trigger] scores[x]).0 != (#[trigger] scores[y]).0,
    ensures
        ({
            let ids = by_score(scores);
            &&& ids.len() == scores.len()
            &&& forall|i: int| 0 <= i < ids.len() ==> has_score(scores, #[trigger] ids[i])
            &&& forall|x: int| 0 <= x < scores.len() ==> ids.contains((#[trigger] scores[x]).0)
            &&& forall|i: int, j: int, x: int, y: int|
                0 <= i < j < ids.len() && #[trigger] carries(scores, x, ids[i]) && #[trigger] carries(
                    scores,
                    y,
                    ids[j],
                ) ==> scores[x].1 > scores[y].1 || (scores[x].1 == scores[y].1 && ids[i] < ids[j])
        }),
{
    let rows = score_rows(scores);
    let sorted = arranged(rows);
    let ids = by_score(scores);
    law_arranged_rows_ascend(rows);
    assert(forall|x: int|
        0 <= x < rows.len() ==> (#[trigger] rows[x]).1 == scores[x].0 && rows[x].0 + scores[x].1
            == u32::MAX && rows[x].2 == 0 && rows[x].3 == 0);
    assert(rows.no_duplicates()) by {
        assert forall|x: int, y: int|
            0 <= x < rows.len() && 0 <= y < rows.len() && x != y implies rows[x] != rows[y] by {
            if x < y {
                assert(scores[x].0 != scores[y].0);
            } else {
                assert(scores[y].0 != scores[x].0);
            }
        }
    }
    rows.lemma_multiset_has_no_duplicates();
    sorted.lemma_multiset_has_no_duplicates_conv();
    assert forall|i: int| 0 <= i < ids.len() implies exists|x: int|
        0 <= x < scores.len() && (#[trigger] scores[x]).0 == #[trigger] ids[i] && rows[x]
            == sorted[i] by {
        assert(sorted.contains(sorted[i]));
        let x = choose|x: int| 0 <= x < rows.len() && rows[x] == sorted[i];
        assert(scores[x].0 == ids[i]);
    }
    assert forall|i: int| 0 <= i < ids.len() implies has_score(scores, #[trigger] ids[i]) by {
        let x = choose|x: int|
            0 <= x < scores.len() && (#[trigger] scores[x]).0 == ids[i] && rows[x] == sorted[i];
        assert(carries(scores, x, ids[i]));
    }
    assert forall|x: int| 0 <= x < scores.len() implies ids.contains((#[trigger] scores[x]).0) by {
        assert(rows.contains(rows[x]));
        assert(sorted.contains(rows[x]));
        let i = choose|i: int| 0 <= i < sorted.len() && sorted[i] == rows[x];
        assert(ids[i] == scores[x].0);
    }
    assert forall|i: int, j: int, x: int, y: int|
        0 <= i < j < ids.len() && #[trigger] carries(scores, x, ids[i]) && #[trigger] carries(
            scores,
            y,
            ids[j],
        ) implies scores[x].1 > scores[y].1 || (scores[x].1 == scores[y].1 && ids[i] < ids[j]) by {
        let a = choose|a: int|
            0 <= a < scores.len() && (#[trigger] scores[a]).0 == ids[i] && rows[a] == sorted[i];
        let b = choose|b: int|
            0 <= b < scores.len() && (#[trigger] scores[b]).0 == ids[j] && rows[b] == sorted[j];
        assert(a == x) by {
            if a < x {
                assert(scores[a].0 != scores[x].0);
            } else if x < a {
                assert(scores[x].0 != scores[a].0);
            }
        }
        assert(b == y) by {
            if b < y {
                assert(scores[b].0 != scores[y].0);
            } else if y < b {
                assert(scores[y].0 != scores[b].0);
            }
        }
        assert(sorted[i] != sorted[j]);
    }
}

proof fn lemma_seated(bests: Seq<Option<u32>>, max: nat)
    ensures
        ({
            let seats = seated(bests, max);
            &&& seats.len() <= max
            &&& forall|i: int, j: int|
                0 <= i < j < seats.len() ==> #[trigger] seats[i] < #[trigger] seats[j]
            &&& forall|i: int| 0 <= i < seats.len() ==> bests.contains(Some(#[trigger] seats[i]))
            &&& forall|id: u32| #[trigger]
                bests.contains(Some(id)) ==> seats.contains(id) || (seats.len() == max && forall|
                    i: int,
                |
                    0 <= i < seats.len() ==> #[trigger] seats[i] < id)
        }),
{
    let p = is_seated(bests);
    let ids = listing(p);
    let seats = seated(bests, max);
    let keys = bests.map_values(
        |b: Option<u32>|
            match b {
                Some(id) => id as u64,
                None => 0u64,
            },
    );
    assert forall|k: u64| p(k) implies #[trigger] keys.contains(k) by {
        let j = choose|j: int| 0 <= j < bests.len() && bests[j] == Some(k as u32);
        assert(keys[j] == k);
    }
    lemma_listed(keys, p);
    assert forall|i: int| 0 <= i < ids.len() implies p(#[trigger] ids[i]) by {
        assert(ids.contains(ids[i]));
    }
    assert forall|id: u32| #[trigger] bests.contains(Some(id)) implies seats.contains(id) || (
    seats.len() == max && forall|i: int| 0 <= i < seats.len() ==> #[trigger] seats[i] < id) by {
        assert(p(id as u64));
        assert(ids.contains(id as u64));
        let x = choose|x: int| 0 <= x < ids.len() && ids[x] == id as u64;
        if x < seats.len() {
            assert(seats[x] == id);
        } else {
            assert forall|i: int| 0 <= i < seats.len() implies #[trigger] seats[i] < id by {
                assert(ids[i] < ids[x]);
            }
        }
    }
}

proof fn lemma_filled_up(seeds: Seq<u32>, ranked: Seq<u32>, max: nat)
    requires
        seeds.no_duplicates(),
        seeds.len() <= max,
    ensures
        ({
            let r = filled(seeds, ranked, max);
            &&& r.no_duplicates()
            &&& seeds.len() <= r.len() <= max
            &&& r.take(seeds.len() as int) == seeds
            &&& forall|i: int| seeds.len() <= i < r.len() ==> ranked.contains(#[trigger] r[i])
            &&& forall|x: int|
                0 <= x < ranked.len() ==> r.contains(#[trigger] ranked[x]) || r.len() == max
            &&& forall|x: int, y: int|
                0 <= x < y < ranked.len() && r.contains(#[trigger] ranked[y]) && !seeds.contains(
                    ranked[y],
                ) ==> r.contains(#[trigger] ranked[x]) || exists|z: int|
                    0 <= z < x && #[trigger] ranked[z] == ranked[y]
        }),
    decreases ranked.len(),
{
    if ranked.len() == 0 {
        assert(seeds.take(seeds.len() as int) =~= seeds);
    } else {
        let less = ranked.drop_last();
        let last = ranked.len() - 1;
        lemma_filled_up(seeds, less, max);
        let pre = filled(seeds, less, max);
        let r = filled(seeds, ranked, max);
        assert(forall|x: int| 0 <= x < last ==> #[trigger] less[x] == ranked[x]);
        assert(r.take(seeds.len() as int) =~= seeds);
        assert forall|v: u32| pre.contains(v) implies #[trigger] r.contains(v) by {
            let i = choose|i: int| 0 <= i < pre.len() && pre[i] == v;
            assert(r[i] == v);
        }
        assert forall|i: int| seeds.len() <= i < r.len() implies ranked.contains(#[trigger] r[i]) by {
            if i < pre.len() {
                assert(less.contains(pre[i]));
                let x = choose|x: int| 0 <= x < less.len() && less[x] == pre[i];
                assert(ranked[x] == r[i]);
            } else {
                assert(ranked[last] == r[i]);
            }
        }
        assert forall|x: int| 0 <= x < ranked.len() implies r.contains(#[trigger] ranked[x])
            || r.len() == max by {
            if x < last {
                assert(pre.contains(less[x]) || pre.len() == max);
            } else if pre.len() < max && !pre.contains(ranked[x]) {
                assert(r[r.len() - 1] == ranked[x]);
            }
        }
        assert forall|x: int, y: int|
            0 <= x < y < ranked.len() && r.contains(#[trigger] ranked[y]) && !seeds.contains(
                ranked[y],
            ) implies r.contains(#[trigger] ranked[x]) || exists|z: int|
            0 <= z < x && #[trigger] ranked[z] == ranked[y] by {
            if pre.contains(ranked[y]) {
                if y < last {
                    assert(pre.contains(less[y]));
                    if !pre.contains(less[x]) {
                        let z = choose|z: int| 0 <= z < x && #[trigger] less[z] == less[y];
                        assert(ranked[z] == ranked[y]);
                    }
                } else {
                    let i = choose|i: int| 0 <= i < pre.len() && pre[i] == ranked[y];
                    if i < seeds.len() {
                        assert(pre.take(seeds.len() as int)[i] == seeds[i]);
                        assert(seeds.contains(ranked[y]));
                    }
                    assert(less.contains(pre[i]));
                    let w = choose|w: int| 0 <= w < less.len() && less[w] == pre[i];
                    assert(ranked[w] == ranked[y]);
                    if x < w {
                        assert(pre.contains(less[w]));
                        if !pre.contains(less[x]) {
                            let z = choose|z: int| 0 <= z < x && #[trigger] less[z] == less[w];
                            assert(ranked[z] == ranked[y]);
                        }
                    } else if x == w {
                        assert(r.contains(ranked[x]));
                    }
                }
            } else {
                assert(r == pre.push(ranked[last]));
                assert(ranked[y] == ranked[last]);
                if x < last {
                    assert(pre.contains(less[x]) || pre.len() == max);
                }
            }
        }
    }
}

/// The seeds of a lookup are the best nodes of the terms, the smallest ids
/// first, and then the highest in rank as long as there is room. There are
/// never more than allowed, none occurs twice, and nothing else is a seed.
pub proof fn law_seeds(bests: Seq<Option<u32>>, ranked: Seq<u32>, max: nat)
    ensures
        ({
            let r = filled(seated(bests, max), ranked, max);
            &&& r.len() <= max
            &&& r.no_duplicates()
            &&& forall|id: u32| #[trigger]
                r.contains(id) ==> bests.contains(Some(id)) || ranked.contains(id)
            &&& forall|id: u32| #[trigger]
                bests.contains(Some(id)) ==> r.contains(id) || r.len() == max
            &&& forall|id: u32, other: u32|
                #![trigger bests.contains(Some(id)), r.contains(other)]
                bests.contains(Some(id)) && !r.contains(id) && r.contains(other)
                    ==> bests.contains(Some(other)) && other < id
            &&& forall|x: int|
                0 <= x < ranked.len() ==> r.contains(#[trigger] ranked[x]) || r.len() == max
            &&& ranked.no_duplicates() ==> forall|x: int, y: int|
                0 <= x < y < ranked.len() && r.contains(#[trigger] ranked[y]) && !bests.contains(
                    Some(ranked[y]),
                ) ==> r.contains(#[trigger] ranked[x])
        }),
{
    lemma_seated(bests, max);
    let seats = seated(bests, max);
    assert(seats.no_duplicates()) by {
        assert forall|i: int, j: int|
            0 <= i < seats.len() && 0 <= j < seats.len() && i != j implies seats[i] != seats[j] by {
            if i < j {
                assert(seats[i] < seats[j]);
            } else {
                assert(seats[j] < seats[i]);
            }
        }
    }
    lemma_filled_up(seats, ranked, max);
    let r = filled(seats, ranked, max);
    let k = seats.len() as int;
    assert forall|i: int| 0 <= i < k implies #[trigger] r[i] == seats[i] by {
        assert(r.take(k)[i] == seats[i]);
    }
    assert forall|id: u32| #[trigger] seats.contains(id) implies r.contains(id) by {
        let i = choose|i: int| 0 <= i < seats.len() && seats[i] == id;
        assert(r[i] == id);
    }
    assert forall|id: u32| #[trigger] r.contains(id) implies bests.contains(Some(id))
        || ranked.contains(id) by {
        let i = choose|i: int| 0 <= i < r.len() && r[i] == id;
        if i < k {
            assert(bests.contains(Some(seats[i])));
        } else {
            assert(ranked.contains(r[i]));
        }
    }
    assert forall|id: u32, other: u32|
        #![trigger bests.contains(Some(id)), r.contains(other)]
        bests.contains(Some(id)) && !r.contains(id) && r.contains(other) implies bests.contains(
        Some(other),
    ) && other < id by {
        assert(!seats.contains(id));
        assert(r =~= seats);
        let i = choose|i: int| 0 <= i < r.len() && r[i] == other;
        assert(seats[i] < id);
    }
    if ranked.no_duplicates() {
        assert forall|x: int, y: int|
            0 <= x < y < ranked.len() && r.contains(#[trigger] ranked[y]) && !bests.contains(
                Some(ranked[y]),
            ) implies r.contains(#[trigger] ranked[x]) by {
            assert(!seats.contains(ranked[y])) by {
                if seats.contains(ranked[y]) {
                    let i = choose|i: int| 0 <= i < seats.len() && seats[i] == ranked[y];
                    assert(bests.contains(Some(seats[i])));
                }
            }
        }
    }
}

// ---- hops -----------------------------------------------------------------

/// Every edge to a base node is one hop, in order: it leads where the edge
/// leads, weighs at least one, and tells whether the edge was inferred.
pub proof fn law_hops_follow_edges(es: Seq<EdgeV>)
    ensures
        ({
            let hops = hops_along(es);
            &&& hops.len() == count(es.len() as int, |i: int| es[i].dst is Some)
            &&& forall|i: int|
                0 <= i < es.len() && (#[trigger] es[i]).dst is Some ==> {
                    let at = count(i, |j: int| es[j].dst is Some) as int;
                    let h = hops[at];
                    &&& at < hops.len()
                    &&& h.dst.0 == es[i].dst->0
                    &&& es[i].weight > 0 ==> h.weight == es[i].weight
                    &&& es[i].weight == 0 ==> h.weight == 1
                    &&& h.inferred == (es[i].flags & 2 != 0)
                }
        }),
    decreases es.len(),
{
    if es.len() > 0 {
        let less = es.drop_last();
        let last = es.len() - 1;
        law_hops_follow_edges(less);
        let pre = hops_along(less);
        let hops = hops_along(es);
        assert(forall|i: int| 0 <= i < last ==> #[trigger] less[i] == es[i]);
        lemma_count_same(last, |j: int| less[j].dst is Some, |j: int| es[j].dst is Some);
        assert forall|i: int| 0 <= i < es.len() && (#[trigger] es[i]).dst is Some implies ({
            let at = count(i, |j: int| es[j].dst is Some) as int;
            let h = hops[at];
            &&& at < hops.len()
            &&& h.dst.0 == es[i].dst->0
            &&& es[i].weight > 0 ==> h.weight == es[i].weight
            &&& es[i].weight == 0 ==> h.weight == 1
            &&& h.inferred == (es[i].flags & 2 != 0)
        }) by {
            lemma_count_same(i, |j: int| less[j].dst is Some, |j: int| es[j].dst is Some);
            if i < last {
                assert(less[i].dst is Some);
            }
        }
    }
}

/// A seed is always expanded, and another node below the hub threshold; one at
/// or above it leads nowhere.
pub proof fn law_who_is_expanded(g: GraphV, id: u32, hub: u32)
    ensures
        ({
            let all = hops_along(g.edges(node_row(g.t, id as int).url_key));
            &&& g.hops(id, true, hub) == all
            &&& g.degree(id as int) < hub ==> g.hops(id, false, hub) == all
            &&& g.degree(id as int) >= hub ==> g.hops(id, false, hub).len() == 0
        }),
{
}

// ---- arrivals -------------------------------------------------------------

/// A better arrival is kept and expanded from; one that is no better changes
/// nothing. No other node is touched, and no round is used up.
pub proof fn law_only_better_arrivals_count(s: SpreadV, id: u32, score: u32, other: u32)
    requires
        s.wf(),
    ensures
        ({
            let t = s.offered(id, score);
            let known = if s.best.contains_key(id as u64) {
                s.best[id as u64]
            } else {
                0
            };
            &&& score <= known ==> t == s
            &&& score > known ==> {
                &&& t.best.contains_key(id as u64) && t.best[id as u64] == score
                &&& t.next == s.next.push((id, score))
                &&& t.reached.contains(id)
                &&& s.best.contains_key(id as u64) ==> t.reached == s.reached
                &&& !s.best.contains_key(id as u64) ==> t.reached == s.reached.push(id)
            }
            &&& other != id ==> {
                &&& s.best.contains_key(other as u64) == t.best.contains_key(other as u64)
                &&& s.best.contains_key(other as u64) ==> t.best[other as u64]
                    == s.best[other as u64]
            }
            &&& t.left == s.left
        }),
{
    let t = s.offered(id, score);
    if score > s.score(id) {
        if s.best.contains_key(id as u64) {
        } else {
            assert(t.reached[s.reached.len() as int] == id);
        }
    }
}

/// A round goes on from all that was reached better since the last one, and
/// uses one of the rounds up; when none is left it goes on from nowhere.
pub proof fn law_rounds(s: SpreadV)
    ensures
        s.left > 0 ==> s.round() == s.next && s.in_round().next.len() == 0 && s.in_round().left
            == s.left - 1,
        s.left == 0 ==> s.round().len() == 0 && s.in_round() == s,
        s.in_round().best == s.best,
        s.in_round().reached == s.reached,
{
}

/// Arrivals tell every node that was reached, in that order, with its score.
pub proof fn law_arrivals(s: SpreadV, i: int)
    requires
        s.wf(),
        0 <= i < s.reached.len(),
    ensures
        s.arrivals().len() == s.reached.len(),
        s.arrivals()[i].0 == s.reached[i],
        s.arrivals()[i].1 == s.best[s.reached[i] as u64],
{
    assert(s.best.contains_key(s.reached[i] as u64));
}

/// An expansion starts with all its rounds, from every seed with its score.
pub proof fn law_expansion_starts_from_the_seeds(seeds: Seq<(u32, u32)>, depth: nat)
    requires
        forall|x: int, y: int|
            0 <= x < y < seeds.len() ==> (#[trigger] seeds[x]).0 != (#[trigger] seeds[y]).0,
    ensures
        ({
            let s = started(seeds, depth);
            &&& s.left == depth
            &&& s.next == seeds
            &&& s.reached.len() == seeds.len()
            &&& forall|x: int|
                0 <= x < seeds.len() ==> s.reached[x] == (#[trigger] seeds[x]).0
                    && s.best.contains_key(seeds[x].0 as u64) && s.best[seeds[x].0 as u64]
                    == seeds[x].1
            &&& forall|k: u64| #[trigger]
                s.best.contains_key(k) ==> exists|x: int|
                    0 <= x < seeds.len() && (#[trigger] seeds[x]).0 == k
        }),
    decreases seeds.len(),
{
    if seeds.len() > 0 {
        let less = seeds.drop_last();
        let last = seeds.len() - 1;
        assert(forall|x: int| 0 <= x < last ==> #[trigger] less[x] == seeds[x]);
        law_expansion_starts_from_the_seeds(less, depth);
        let pre = started(less, depth);
        let s = started(seeds, depth);
        assert(!pre.best.contains_key(seeds[last].0 as u64)) by {
            if pre.best.contains_key(seeds[last].0 as u64) {
                let x = choose|x: int|
                    0 <= x < less.len() && (#[trigger] less[x]).0 == seeds[last].0 as u64;
                assert(seeds[x].0 != seeds[last].0);
            }
        }
        assert(s.next =~= seeds);
        assert forall|x: int| 0 <= x < seeds.len() implies s.reached[x] == (#[trigger] seeds[x]).0
            && s.best.contains_key(seeds[x].0 as u64) && s.best[seeds[x].0 as u64]
            == seeds[x].1 by {
            if x < last {
                assert(less[x] == seeds[x]);
                assert(seeds[x].0 != seeds[last].0);
            }
        }
        assert forall|k: u64| #[trigger] s.best.contains_key(k) implies exists|x: int|
            0 <= x < seeds.len() && (#[trigger] seeds[x]).0 == k by {
            if pre.best.contains_key(k) {
                let x = choose|x: int| 0 <= x < less.len() && (#[trigger] less[x]).0 == k;
                assert(seeds[x].0 == k);
            } else {
                assert(seeds[last].0 == k);
            }
        }
    }
}

} // verus!
