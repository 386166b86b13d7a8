//! From lexical matches to candidates: seed selection with a seat for every
//! term, then bounded expansion along edges that refuses to go through hubs.
//!
//! Scores are non-negative floating-point numbers, carried by their bits:
//! among such numbers, the larger bits belong to the larger number.
#[allow(unused_imports)]
use crate::format::base::dir::node_row;
#[allow(unused_imports)]
use crate::format::base::eflags;
use crate::format::base::nflags;
use crate::key::{NodeId, UrlKey};
#[allow(unused_imports)]
use crate::model::{is_stub, is_tombstone, EdgeV, GraphV};
#[allow(unused_imports)]
use crate::order::{arranged, lemma_listing, listing};
use crate::order::{arrange, sorted_distinct, Row};
use crate::snapshot::Snapshot;
#[allow(unused_imports)]
use crate::traverse::edges_view;
use crate::traverse::EdgeRef;
#[allow(unused_imports)]
use crate::ttl::min_nat;
use std::collections::HashMap;
use vstd::prelude::*;

verus! {

broadcast use vstd::std_specs::hash::group_hash_axioms;

// ---- seeds ----------------------------------------------------------------

pub open spec fn score_row(s: (u32, u32)) -> Row {
    ((u32::MAX - s.1) as u64, s.0 as u64, 0, 0)
}

pub open spec fn score_rows(scores: Seq<(u32, u32)>) -> Seq<Row> {
    scores.map_values(|s: (u32, u32)| score_row(s))
}

/// Ids by descending score, then by ascending id.
pub open spec fn by_score(scores: Seq<(u32, u32)>) -> Seq<u32> {
    arranged(score_rows(scores)).map_values(|r: Row| r.1 as u32)
}

/// Order `(id, score)` by descending score, then by ascending id.
pub fn rank_ids(scores: &[(u32, u32)]) -> (r: Vec<u32>)
    ensures
        r@ == by_score(scores@),
        r@.len() == scores@.len(),
{
    let n: usize = scores.len();
    let mut rows: Vec<Row> = Vec::with_capacity(n);
    let mut i: usize = 0;
    while i < n
        invariant
            i <= n == scores@.len(),
            rows@.len() == i,
            forall|j: int| 0 <= j < i ==> #[trigger] rows@[j] == score_row(scores@[j]),
        decreases n - i,
    {
        let (id, score): (u32, u32) = scores[i];
        rows.push(((0xffff_ffff - score) as u64, id as u64, 0, 0));
        i = i + 1;
    }
    assert(rows@ =~= score_rows(scores@));
    arrange(&mut rows);
    let mut out: Vec<u32> = Vec::with_capacity(n);
    let mut i: usize = 0;
    while i < n
        invariant
            i <= n == rows@.len(),
            rows@ == arranged(score_rows(scores@)),
            out@.len() == i,
            forall|j: int| 0 <= j < i ==> #[trigger] out@[j] == rows@[j].1 as u32,
        decreases n - i,
    {
        out.push(rows[i].1 as u32);
        i = i + 1;
    }
    assert(out@ =~= by_score(scores@));
    out
}

/// `id` is the best node of some term.
pub open spec fn is_seated(bests: Seq<Option<u32>>) -> spec_fn(u64) -> bool {
    |id: u64| id <= u32::MAX && bests.contains(Some(id as u32))
}

/// At most `max` of the terms' best nodes, the smallest ids first.
pub open spec fn seated(bests: Seq<Option<u32>>, max: nat) -> Seq<u32> {
    let ids = listing(is_seated(bests));
    Seq::new(min_nat(max, ids.len()), |i: int| ids[i] as u32)
}

/// `seeds`, filled up to `max` from `ranked`.
pub open spec fn filled(seeds: Seq<u32>, ranked: Seq<u32>, max: nat) -> Seq<u32>
    decreases ranked.len(),
{
    if ranked.len() == 0 {
        seeds
    } else {
        let pre = filled(seeds, ranked.drop_last(), max);
        if pre.len() >= max || pre.contains(ranked.last()) {
            pre
        } else {
            pre.push(ranked.last())
        }
    }
}

proof fn lemma_filled(seeds: Seq<u32>, ranked: Seq<u32>, i: int, max: nat)
    requires
        0 <= i <= ranked.len(),
        filled(seeds, ranked.take(i), max).len() >= max,
    ensures
        filled(seeds, ranked, max) == filled(seeds, ranked.take(i), max),
    decreases ranked.len() - i,
{
    if i < ranked.len() {
        assert(ranked.take(i + 1).drop_last() =~= ranked.take(i));
        lemma_filled(seeds, ranked, i + 1, max);
    } else {
        assert(ranked.take(i) =~= ranked);
    }
}

fn has_id(ids: &Vec<u32>, id: u32) -> (r: bool)
    ensures
        r == ids@.contains(id),
{
    let n: usize = ids.len();
    let mut i: usize = 0;
    while i < n
        invariant
            i <= n == ids@.len(),
            forall|j: int| 0 <= j < i ==> ids@[j] != id,
        decreases n - i,
    {
        if ids[i] == id {
            return true;
        }
        i = i + 1;
    }
    false
}

/// The seeds of a query: the best node of every term, as far as there is room,
/// then the highest scores.
pub fn pick_seeds(bests: &[Option<u32>], ranked: &[u32], max_seeds: usize) -> (r: Vec<u32>)
    ensures
        r@ == filled(seated(bests@, max_seeds as nat), ranked@, max_seeds as nat),
{
    let n: usize = bests.len();
    let mut ids: Vec<u64> = Vec::new();
    let mut i: usize = 0;
    while i < n
        invariant
            i <= n == bests@.len(),
            forall|j: int|
                0 <= j < i ==> ((#[trigger] bests@[j]) matches Some(id) ==> ids@.contains(
                    id as u64,
                )),
            forall|j: int| 0 <= j < ids@.len() ==> is_seated(bests@)(#[trigger] ids@[j]),
        decreases n - i,
    {
        let ghost was = ids@;
        match bests[i] {
            Some(id) => {
                assert(bests@.contains(bests@[i as int]));
                ids.push(id as u64);
                assert(ids@[was.len() as int] == id as u64);
            },
            None => {},
        }
        assert forall|j: int| 0 <= j < i + 1 implies ((#[trigger] bests@[j]) matches Some(id)
            ==> ids@.contains(id as u64)) by {
            if j < i && bests@[j] is Some {
                let x = choose|x: int| 0 <= x < was.len() && was[x] == bests@[j]->0 as u64;
                assert(ids@[x] == bests@[j]->0 as u64);
            }
        }
        i = i + 1;
    }
    let sorted: Vec<u64> = sorted_distinct(&ids);
    proof {
        let p = is_seated(bests@);
        assert forall|k: u64| #[trigger] sorted@.contains(k) <==> p(k) by {
            assert(sorted@.contains(k) <==> ids@.contains(k));
            if ids@.contains(k) {
                let x = choose|x: int| 0 <= x < ids@.len() && ids@[x] == k;
                assert(p(ids@[x]));
            }
            if p(k) {
                let j = choose|j: int| 0 <= j < bests@.len() && bests@[j] == Some(k as u32);
                assert(bests@[j] matches Some(id) ==> ids@.contains(id as u64));
            }
        }
        lemma_listing(sorted@, p);
        assert forall|j: int| 0 <= j < sorted@.len() implies #[trigger] sorted@[j] <= u32::MAX by {
            assert(sorted@.contains(sorted@[j]));
        }
    }
    let mut seeds: Vec<u32> = Vec::new();
    let m: usize = sorted.len();
    let mut i: usize = 0;
    while i < m && i < max_seeds
        invariant
            i <= m == sorted@.len(),
            i <= max_seeds,
            seeds@.len() == i,
            forall|j: int| 0 <= j < sorted@.len() ==> #[trigger] sorted@[j] <= u32::MAX,
            forall|j: int| 0 <= j < i ==> #[trigger] seeds@[j] == sorted@[j] as u32,
        decreases m - i,
    {
        seeds.push(sorted[i] as u32);
        i = i + 1;
    }
    let ghost first = seeds@;
    assert(first =~= seated(bests@, max_seeds as nat));
    let k: usize = ranked.len();
    let mut i: usize = 0;
    assert(ranked@.take(0) =~= Seq::empty());
    while i < k
        invariant
            i <= k == ranked@.len(),
            first == seated(bests@, max_seeds as nat),
            seeds@ == filled(first, ranked@.take(i as int), max_seeds as nat),
        decreases k - i,
    {
        if seeds.len() >= max_seeds {
            proof {
                lemma_filled(first, ranked@, i as int, max_seeds as nat);
            }
            return seeds;
        }
        assert(ranked@.take(i + 1).drop_last() =~= ranked@.take(i as int));
        let id: u32 = ranked[i];
        if !has_id(&seeds, id) {
            seeds.push(id);
        }
        i = i + 1;
    }
    assert(ranked@.take(k as int) =~= ranked@);
    seeds
}

/// Every term's best node is a seed while there is room for all of them, and
/// there are never more seeds than allowed.
pub proof fn law_every_term_is_seated(bests: Seq<Option<u32>>, ranked: Seq<u32>, max: nat, id: u32)
    requires
        bests.contains(Some(id)),
        listing(is_seated(bests)).len() <= max,
    ensures
        filled(seated(bests, max), ranked, max).contains(id),
        filled(seated(bests, max), ranked, max).len() <= max,
{
    let ids = listing(is_seated(bests));
    let keys = bests.map_values(
        |b: Option<u32>|
            match b {
                Some(id) => id as u64,
                None => 0u64,
            },
    );
    assert forall|k: u64| is_seated(bests)(k) implies #[trigger] keys.contains(k) by {
        let j = choose|j: int| 0 <= j < bests.len() && bests[j] == Some(k as u32);
        assert(keys[j] == k);
    }
    crate::order::lemma_listed(keys, is_seated(bests));
    assert(is_seated(bests)(id as u64));
    assert(ids.contains(id as u64));
    let i = choose|i: int| 0 <= i < ids.len() && ids[i] == id as u64;
    assert(seated(bests, max)[i] == id);
    lemma_filled_keeps(seated(bests, max), ranked, max, id);
}

proof fn lemma_filled_keeps(seeds: Seq<u32>, ranked: Seq<u32>, max: nat, id: u32)
    requires
        seeds.contains(id),
        seeds.len() <= max,
    ensures
        filled(seeds, ranked, max).contains(id),
        filled(seeds, ranked, max).len() <= max,
    decreases ranked.len(),
{
    if ranked.len() > 0 {
        let pre = filled(seeds, ranked.drop_last(), max);
        lemma_filled_keeps(seeds, ranked.drop_last(), max, id);
        let x = choose|x: int| 0 <= x < pre.len() && pre[x] == id;
        assert(filled(seeds, ranked, max)[x] == id);
    }
}

// ---- expansion ------------------------------------------------------------

/// One edge that an expansion may take.
#[derive(Clone, Copy, Debug, PartialEq, Eq, Structural)]
pub struct Hop {
    /// Where it leads.
    pub dst: NodeId,
    /// Its weight in 1/65535 units, at least one.
    pub weight: u16,
    /// It was inferred rather than extracted from source.
    pub inferred: bool,
}

pub open spec fn hop_weight(w: u16) -> u16 {
    if w == 0 {
        1
    } else {
        w
    }
}

/// The hops along `edges`: those that lead to a base node.
pub open spec fn hops_along(edges: Seq<EdgeV>) -> Seq<Hop>
    decreases edges.len(),
{
    if edges.len() == 0 {
        Seq::empty()
    } else {
        let pre = hops_along(edges.drop_last());
        let e = edges.last();
        match e.dst {
            Some(dst) => pre.push(
                Hop {
                    dst: NodeId(dst),
                    weight: hop_weight(e.weight),
                    inferred: e.flags & eflags::INFERRED != 0,
                },
            ),
            None => pre,
        }
    }
}

impl GraphV {
    /// Where an expansion goes on from a base node: hubs may be reported, but
    /// only a seed is expanded through at or above the threshold.
    pub open spec fn hops(self, id: u32, is_seed: bool, hub: u32) -> Seq<Hop> {
        if !is_seed && self.degree(id as int) >= hub {
            Seq::empty()
        } else {
            hops_along(self.edges(node_row(self.t, id as int).url_key))
        }
    }

    /// A base node may be reported: its record is a document that is not gone,
    /// and it was neither removed nor found gone since.
    pub open spec fn is_reportable(self, id: u32) -> bool {
        let f = node_row(self.t, id as int);
        &&& !is_tombstone(f.flags)
        &&& !is_stub(f.flags)
        &&& self.node(f.url_key) matches Some(n) && !is_tombstone(n.flags)
    }
}

impl<'s> Snapshot<'s> {
    /// Where an expansion goes on from the base node `id`.
    pub fn hops(&self, id: NodeId, is_seed: bool, hub: u32) -> (r: Vec<Hop>)
        requires
            self.wf(),
            id.0 < self.graph().n(),
        ensures
            r@ == self.graph().hops(id.0, is_seed, hub),
    {
        let ghost g = self.graph();
        let mut out: Vec<Hop> = Vec::new();
        if !is_seed && self.total_degree(id) >= hub as u64 {
            assert(out@ =~= Seq::empty());
            return out;
        }
        let key: UrlKey = self.rec(id).url_key();
        let edges: Vec<EdgeRef<'_>> = self.neighbors(key).collect();
        let ghost es = g.edges(key.0);
        let n: usize = edges.len();
        let mut i: usize = 0;
        assert(n == es.len());
        assert(es.take(0) =~= Seq::empty());
        while i < n
            invariant
                i <= n == edges@.len(),
                n == es.len(),
                edges_view(edges@) == es,
                out@ == hops_along(es.take(i as int)),
            decreases n - i,
        {
            let e: EdgeRef<'_> = edges[i];
            assert(es[i as int] == e@);
            assert(es.take(i + 1).drop_last() =~= es.take(i as int));
            match e.dst {
                Some(dst) => {
                    let weight: u16 = if e.weight == 0 {
                        1
                    } else {
                        e.weight
                    };
                    out.push(Hop { dst, weight, inferred: e.is_inferred() });
                },
                None => {},
            }
            i = i + 1;
        }
        assert(es.take(n as int) =~= es);
        out
    }

    /// Whether the base node `id` may be reported.
    pub fn is_reportable(&self, id: NodeId) -> (r: bool)
        requires
            self.wf(),
            id.0 < self.graph().n(),
        ensures
            r == self.graph().is_reportable(id.0),
    {
        let rec = self.rec(id);
        if rec.flags() & nflags::TOMBSTONE != 0 || rec.flags() & nflags::STUB != 0 {
            return false;
        }
        match self.node(rec.url_key()) {
            Some(n) => !n.is_tombstone(),
            None => false,
        }
    }
}

/// An expansion under way: the best score each node was reached with, and how
/// many rounds are left.
#[derive(Debug)]
pub struct Spread {
    best: HashMap<u64, u32>,
    reached: Vec<u32>,
    next: Vec<(u32, u32)>,
    left: u8,
}

/// The value of a [`Spread`].
#[verifier::ext_equal]
pub struct SpreadV {
    /// The best score of every node that was reached.
    pub best: Map<u64, u32>,
    /// Those nodes in order of first arrival.
    pub reached: Seq<u32>,
    /// Where the next round goes on from.
    pub next: Seq<(u32, u32)>,
    /// The rounds that are left.
    pub left: nat,
}

impl View for Spread {
    type V = SpreadV;

    closed spec fn view(&self) -> SpreadV {
        SpreadV {
            best: self.best@,
            reached: self.reached@,
            next: self.next@,
            left: self.left as nat,
        }
    }
}

/// Exactly the listed nodes have a score, each listed once.
pub open spec fn lists_scored(best: Map<u64, u32>, reached: Seq<u32>) -> bool {
    &&& forall|i: int|
        0 <= i < reached.len() ==> best.contains_key((#[trigger] reached[i]) as u64)
    &&& forall|k: u64| #[trigger] best.contains_key(k) ==> k <= u32::MAX && reached.contains(k as u32)
    &&& reached.no_duplicates()
}

impl SpreadV {
    pub open spec fn wf(self) -> bool {
        lists_scored(self.best, self.reached)
    }

    /// The score of a node, zero before it is reached.
    pub open spec fn score(self, id: u32) -> u32 {
        if self.best.contains_key(id as u64) {
            self.best[id as u64]
        } else {
            0
        }
    }

    /// `id` reached with `score`: kept and expanded from only if that is its
    /// best so far.
    pub open spec fn offered(self, id: u32, score: u32) -> SpreadV {
        if score > self.score(id) {
            SpreadV {
                best: self.best.insert(id as u64, score),
                reached: reached_with(self.best, self.reached, id),
                next: self.next.push((id, score)),
                ..self
            }
        } else {
            self
        }
    }

    /// Where the next round goes on from: nowhere once the rounds are used up.
    pub open spec fn round(self) -> Seq<(u32, u32)> {
        if self.left == 0 {
            Seq::empty()
        } else {
            self.next
        }
    }

    /// The expansion with the next round under way.
    pub open spec fn in_round(self) -> SpreadV {
        if self.left == 0 {
            self
        } else {
            SpreadV { next: Seq::empty(), left: (self.left - 1) as nat, ..self }
        }
    }

    /// One arrival after the other.
    pub open spec fn offered_all(self, arrivals: Seq<(u32, u32)>) -> SpreadV
        decreases arrivals.len(),
    {
        if arrivals.len() == 0 {
            self
        } else {
            self.offered_all(arrivals.drop_last()).offered(arrivals.last().0, arrivals.last().1)
        }
    }

    /// One round after the other, each with its arrivals.
    pub open spec fn after(self, rounds: Seq<Seq<(u32, u32)>>) -> SpreadV
        decreases rounds.len(),
    {
        if rounds.len() == 0 {
            self
        } else {
            self.after(rounds.drop_last()).in_round().offered_all(rounds.last())
        }
    }

    pub open spec fn arrivals(self) -> Seq<(u32, u32)> {
        self.reached.map_values(|id: u32| (id, self.score(id)))
    }
}

/// An expansion of `depth` rounds that starts from `seeds`, one after the other.
pub open spec fn started(seeds: Seq<(u32, u32)>, depth: nat) -> SpreadV
    decreases seeds.len(),
{
    if seeds.len() == 0 {
        SpreadV { best: Map::empty(), reached: Seq::empty(), next: Seq::empty(), left: depth }
    } else {
        let pre = started(seeds.drop_last(), depth);
        let (id, score) = seeds.last();
        SpreadV {
            best: pre.best.insert(id as u64, score),
            reached: reached_with(pre.best, pre.reached, id),
            next: pre.next.push((id, score)),
            left: depth,
        }
    }
}

/// The nodes that were reached once `id` is.
pub open spec fn reached_with(best: Map<u64, u32>, reached: Seq<u32>, id: u32) -> Seq<u32> {
    if best.contains_key(id as u64) {
        reached
    } else {
        reached.push(id)
    }
}

proof fn lemma_reach(best: Map<u64, u32>, reached: Seq<u32>, id: u32, score: u32)
    requires
        lists_scored(best, reached),
    ensures
        lists_scored(best.insert(id as u64, score), reached_with(best, reached, id)),
{
    let now = reached_with(best, reached, id);
    let t = best.insert(id as u64, score);
    assert forall|k: u64| #[trigger] t.contains_key(k) implies k <= u32::MAX && now.contains(
        k as u32,
    ) by {
        if best.contains_key(k) {
            let i = choose|i: int| 0 <= i < reached.len() && reached[i] == k as u32;
            assert(now[i] == k as u32);
        } else {
            assert(now[reached.len() as int] == k as u32);
        }
    }
    assert(now.no_duplicates()) by {
        if !best.contains_key(id as u64) && reached.contains(id) {
            let i = choose|i: int| 0 <= i < reached.len() && reached[i] == id;
            assert(best.contains_key(reached[i] as u64));
        }
    }
}

impl Spread {
    /// Start from the seeds with their scores, for at most `depth` rounds.
    pub fn start(seeds: &[(u32, u32)], depth: u8) -> (r: Self)
        ensures
            r@ == started(seeds@, depth as nat),
            r@.wf(),
    {
        let n: usize = seeds.len();
        let mut r: Spread = Spread {
            best: HashMap::new(),
            reached: Vec::new(),
            next: Vec::new(),
            left: depth,
        };
        let mut i: usize = 0;
        assert(seeds@.take(0) =~= Seq::empty());
        assert(r@ =~= started(seeds@.take(0), depth as nat));
        while i < n
            invariant
                i <= n == seeds@.len(),
                r@ == started(seeds@.take(i as int), depth as nat),
                r@.wf(),
            decreases n - i,
        {
            let (id, score): (u32, u32) = seeds[i];
            let ghost was = r@;
            assert(seeds@.take(i + 1).drop_last() =~= seeds@.take(i as int));
            proof {
                lemma_reach(was.best, was.reached, id, score);
            }
            r.reach(id, score);
            r.next.push((id, score));
            assert(was.left == depth) by {
                if i > 0 {
                    assert(seeds@.take(i as int).len() > 0);
                }
            }
            assert(r@ =~= started(seeds@.take(i + 1), depth as nat));
            i = i + 1;
        }
        assert(seeds@.take(n as int) =~= seeds@);
        r
    }

    fn reach(&mut self, id: u32, score: u32)
        ensures
            final(self)@ == (SpreadV {
                best: old(self)@.best.insert(id as u64, score),
                reached: reached_with(old(self)@.best, old(self)@.reached, id),
                ..old(self)@
            }),
    {
        if !self.best.contains_key(&(id as u64)) {
            self.reached.push(id);
        }
        self.best.insert(id as u64, score);
    }

    /// `id` is reached with `score`. Returns whether that is its best so far.
    pub fn offer(&mut self, id: u32, score: u32) -> (better: bool)
        requires
            old(self)@.wf(),
        ensures
            final(self)@ == old(self)@.offered(id, score),
            final(self)@.wf(),
            better == (score > old(self)@.score(id)),
    {
        let known: u32 = match self.best.get(&(id as u64)) {
            Some(s) => *s,
            None => 0,
        };
        if score <= known {
            return false;
        }
        proof {
            lemma_reach(self@.best, self@.reached, id, score);
        }
        self.reach(id, score);
        self.next.push((id, score));
        assert(self@ =~= old(self)@.offered(id, score));
        true
    }

    /// Go on to the next round. Returns where it goes on from, with the scores
    /// of arrival: nothing once the rounds are used up or nothing was reached.
    pub fn next_round(&mut self) -> (r: Vec<(u32, u32)>)
        requires
            old(self)@.wf(),
        ensures
            r@ == old(self)@.round(),
            final(self)@ == old(self)@.in_round(),
            final(self)@.wf(),
    {
        let mut round: Vec<(u32, u32)> = Vec::new();
        if self.left == 0 {
            assert(round@ =~= Seq::empty());
            return round;
        }
        std::mem::swap(&mut round, &mut self.next);
        self.left = self.left - 1;
        assert(self@ =~= old(self)@.in_round());
        round
    }

    /// Every node that was reached, with its best score, in order of arrival.
    pub fn arrivals(&self) -> (r: Vec<(u32, u32)>)
        requires
            self@.wf(),
        ensures
            r@ == self@.arrivals(),
    {
        let n: usize = self.reached.len();
        let mut out: Vec<(u32, u32)> = Vec::with_capacity(n);
        let mut i: usize = 0;
        while i < n
            invariant
                i <= n == self.reached@.len(),
                self@.wf(),
                out@.len() == i,
                forall|j: int| 0 <= j < i ==> #[trigger] out@[j] == self@.arrivals()[j],
            decreases n - i,
        {
            let id: u32 = self.reached[i];
            assert(self@.best.contains_key(self@.reached[i as int] as u64));
            let score: u32 = match self.best.get(&(id as u64)) {
                Some(s) => *s,
                None => 0,
            };
            out.push((id, score));
            i = i + 1;
        }
        assert(out@ =~= self@.arrivals());
        out
    }
}

/// A score only ever rises, and a reached node stays reached.
pub proof fn law_scores_only_rise(s: SpreadV, id: u32, score: u32, other: u32)
    ensures
        s.offered(id, score).score(other) >= s.score(other),
        s.best.contains_key(other as u64) ==> s.offered(id, score).best.contains_key(other as u64),
        s.offered(id, score).score(id) >= score,
{
}

/// No expansion goes deeper than it was allowed to: after as many rounds,
/// whatever arrived in them, nothing is left to go on from.
pub proof fn law_depth_bounds_the_expansion(
    seeds: Seq<(u32, u32)>,
    depth: nat,
    rounds: Seq<Seq<(u32, u32)>>,
)
    requires
        rounds.len() >= depth,
    ensures
        started(seeds, depth).after(rounds).round() == Seq::<(u32, u32)>::empty(),
{
    lemma_rounds_left(started(seeds, depth), rounds);
}

proof fn lemma_rounds_left(s: SpreadV, rounds: Seq<Seq<(u32, u32)>>)
    ensures
        s.after(rounds).left == (if rounds.len() >= s.left {
            0
        } else {
            s.left - rounds.len()
        }),
    decreases rounds.len(),
{
    if rounds.len() > 0 {
        lemma_rounds_left(s, rounds.drop_last());
        lemma_offers_take_no_round(s.after(rounds.drop_last()).in_round(), rounds.last());
    }
}

proof fn lemma_offers_take_no_round(s: SpreadV, arrivals: Seq<(u32, u32)>)
    ensures
        s.offered_all(arrivals).left == s.left,
    decreases arrivals.len(),
{
    if arrivals.len() > 0 {
        lemma_offers_take_no_round(s, arrivals.drop_last());
    }
}

/// Every arrival is reported once.
pub proof fn law_arrivals_are_distinct(s: SpreadV, i: int, j: int)
    requires
        s.wf(),
        0 <= i < j < s.arrivals().len(),
    ensures
        s.arrivals()[i].0 != s.arrivals()[j].0,
{
}

/// A hop leads to a base node.
pub proof fn law_hops_stay_inside(g: GraphV, id: u32, is_seed: bool, hub: u32, i: int)
    requires
        g.wf(),
        id < g.n(),
        0 <= i < g.hops(id, is_seed, hub).len(),
    ensures
        g.hops(id, is_seed, hub)[i].dst.0 < g.n(),
{
    let es = g.edges(node_row(g.t, id as int).url_key);
    assert forall|j: int| 0 <= j < es.len() implies ((#[trigger] es[j]).dst matches Some(dst)
        ==> dst < g.n()) by {
        crate::model::lemma_edge_inside(g, node_row(g.t, id as int).url_key, j);
    }
    lemma_hops_inside(g, es, i);
}

proof fn lemma_hops_inside(g: GraphV, es: Seq<EdgeV>, i: int)
    requires
        forall|j: int| 0 <= j < es.len() ==> ((#[trigger] es[j]).dst matches Some(dst) ==> dst < g.n()),
        0 <= i < hops_along(es).len(),
    ensures
        hops_along(es)[i].dst.0 < g.n(),
    decreases es.len(),
{
    let pre = es.drop_last();
    assert forall|j: int| 0 <= j < pre.len() implies ((#[trigger] pre[j]).dst matches Some(dst)
        ==> dst < g.n()) by {
        assert(pre[j] == es[j]);
    }
    if i < hops_along(pre).len() {
        lemma_hops_inside(g, pre, i);
    } else {
        assert(es[es.len() - 1].dst is Some);
    }
}

/// A node at or above the hub threshold that is no seed leads nowhere.
pub proof fn law_hubs_are_not_expanded(g: GraphV, id: u32)
    requires
        g.degree(id as int) >= g.hub_cut(),
    ensures
        g.hops(id, false, g.hub_cut()) == Seq::<Hop>::empty(),
{
}

} // verus!
