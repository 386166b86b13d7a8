//! Local lookups that answer with **references** (URL, anchor and snippet)
//! inside a token budget, never with document bodies. The recipe:
//!
//! 1. Tiered lexical matching over node and segment labels, see
//!    [`crate::matching`].
//! 2. Seed selection with a per-term guarantee and bounded expansion that
//!    refuses to go through hubs, see [`crate::spread`].
//! 3. Deterministic seeds-first ranking and rendering that stops before the
//!    token budget is exceeded.
//!
//! Scores are non-negative floating-point numbers, carried by their bits.
#[allow(unused_imports)]
use crate::format::base::dir::node_row;
#[allow(unused_imports)]
use crate::format::base::eflags;
use crate::key::{NodeId, UrlKey};
#[allow(unused_imports)]
use crate::matching::{is_met, law_no_terms_no_hits, stands_at, Tier};
use crate::matching::starts_with;
#[allow(unused_imports)]
use crate::model::{is_stub, is_tombstone, AnchorV, EdgeV, GraphV, NodeV};
#[allow(unused_imports)]
use crate::order::{
    arranged, lemma_arranged_from, lemma_listing, lemma_same_rows, listing, lists, row_le, row_lt,
};
use crate::order::{arrange, Row};
#[allow(unused_imports)]
use crate::snapshot::anchors_view;
use crate::snapshot::{NodeRef, SegRef, Snapshot};
#[allow(unused_imports)]
use crate::spread::{filled, is_seated, seated, started};
#[allow(unused_imports)]
use crate::tokens::{strings_view, strs_view, text_tokens};
use crate::tokens::tokens;
#[allow(unused_imports)]
use crate::traverse::{edges_view, opt_text};
use crate::traverse::EdgeRef;
#[allow(unused_imports)]
use crate::ttl::min_nat;
use std::collections::HashMap;
use vstd::prelude::*;
use vstd::string::*;
#[allow(unused_imports)]
use vstd::utf8::*;

verus! {

broadcast use vstd::std_specs::hash::group_hash_axioms;

/// Token allowance for a rendered answer (about four bytes per token).
#[derive(Clone, Copy, Debug, PartialEq, Eq, Structural)]
pub struct TokenBudget(pub u32);

impl Default for TokenBudget {
    fn default() -> (r: Self)
        ensures
            r == TokenBudget(2000),
    {
        TokenBudget(2000)
    }
}

/// Query options.
#[derive(Clone, Copy, Debug)]
pub struct QueryOpts {
    /// Maximum hits returned (budget permitting).
    pub limit: usize,
    /// Expansion depth from the seeds.
    pub depth: u8,
    /// Maximum seed nodes.
    pub max_seeds: usize,
    /// Output token budget.
    pub budget: TokenBudget,
}

impl Default for QueryOpts {
    fn default() -> (r: Self)
        ensures
            r == (QueryOpts { limit: 20, depth: 3, max_seeds: 3, budget: TokenBudget(2000) }),
    {
        QueryOpts { limit: 20, depth: 3, max_seeds: 3, budget: TokenBudget::default() }
    }
}

/// A sub-document anchor attached to a hit: fetch the URL and slice by the
/// byte range (or resolve the heading) instead of re-reading the whole page.
#[derive(Clone, Copy, Debug)]
pub struct Anchor<'s> {
    /// Heading-path label.
    pub label: &'s str,
    /// Byte range in the source document, when known.
    pub byte_range: Option<(u32, u32)>,
    /// Segment importance in 1/65535 units.
    pub importance: u16,
}

/// The value of an [`Anchor`].
pub struct SpotV {
    pub label: Seq<char>,
    pub byte_range: Option<(u32, u32)>,
    pub importance: u16,
}

impl<'s> View for Anchor<'s> {
    type V = SpotV;

    open spec fn view(&self) -> SpotV {
        SpotV {
            label: self.label@,
            byte_range: self.byte_range,
            importance: self.importance,
        }
    }
}

/// One lookup answer entry. Borrowed from the snapshot; cheap to produce.
#[derive(Clone, Copy, Debug)]
pub struct Hit<'s> {
    /// Durable key.
    pub key: UrlKey,
    /// Canonical URL.
    pub url: &'s str,
    /// Title, if known.
    pub title: Option<&'s str>,
    /// Distilled snippet, if known.
    pub snippet: Option<&'s str>,
    /// Best matching segment anchor, if any.
    pub anchor: Option<Anchor<'s>>,
    /// Fused relevance score (higher is better), as the bits of a
    /// single-precision number.
    pub score: u32,
    /// True when this hit seeded the traversal (direct lexical match).
    pub seed: bool,
}

/// The value of a [`Hit`].
pub struct HitV {
    pub key: u64,
    pub url: Seq<char>,
    pub title: Option<Seq<char>>,
    pub snippet: Option<Seq<char>>,
    pub anchor: Option<SpotV>,
    pub score: u32,
    pub seed: bool,
}

pub open spec fn opt_spot<'s>(a: Option<Anchor<'s>>) -> Option<SpotV> {
    match a {
        Some(a) => Some(a@),
        None => None,
    }
}

impl<'s> View for Hit<'s> {
    type V = HitV;

    open spec fn view(&self) -> HitV {
        HitV {
            key: self.key.0,
            url: self.url@,
            title: opt_text(self.title),
            snippet: opt_text(self.snippet),
            anchor: opt_spot(self.anchor),
            score: self.score,
            seed: self.seed,
        }
    }
}

pub open spec fn hits_view<'s>(hits: Seq<Hit<'s>>) -> Seq<HitV> {
    hits.map_values(|h: Hit<'s>| h@)
}

/// The hit on a node.
pub open spec fn hit_on(n: NodeV, anchor: Option<SpotV>, score: u32, seed: bool) -> HitV {
    HitV { key: n.key, url: n.url, title: n.title, snippet: n.snippet, anchor, score, seed }
}

fn make_hit<'a>(n: &NodeRef<'a>, anchor: Option<Anchor<'a>>, score: u32, seed: bool) -> (r: Hit<'a>)
    ensures
        r@ == hit_on(n@, opt_spot(anchor), score, seed),
{
    Hit { key: n.key, url: n.url, title: n.title, snippet: n.snippet, anchor, score, seed }
}

// ---- what an answer costs -------------------------------------------------

pub open spec fn text_len(s: Seq<char>) -> nat {
    encode_utf8(s).len()
}

pub open spec fn opt_len(s: Option<Seq<char>>) -> nat {
    match s {
        Some(t) => text_len(t),
        None => 0,
    }
}

/// The bytes of a rendered entry: its texts, twelve for an anchor and sixteen
/// for the structure.
pub open spec fn entry_len(
    url: Seq<char>,
    title: Option<Seq<char>>,
    snippet: Option<Seq<char>>,
    anchor: Option<SpotV>,
) -> nat {
    text_len(url) + opt_len(title) + opt_len(snippet) + (match anchor {
        Some(a) => text_len(a.label) + 12,
        None => 0,
    }) + 16
}

/// The tokens of a rendered entry, four bytes each, as far as 32 bits count.
pub open spec fn entry_tokens(
    url: Seq<char>,
    title: Option<Seq<char>>,
    snippet: Option<Seq<char>>,
    anchor: Option<SpotV>,
) -> nat {
    ((entry_len(url, title, snippet, anchor) % 0x1_0000_0000 + 3) / 4) as nat
}

fn str_len(s: Option<&str>) -> (r: u128)
    ensures
        r == opt_len(opt_text(s)),
        r <= usize::MAX,
{
    match s {
        Some(t) => t.as_bytes().len() as u128,
        None => 0,
    }
}

/// The tokens that a rendered entry takes.
pub fn estimate_tokens(
    url: &str,
    title: Option<&str>,
    snippet: Option<&str>,
    anchor: Option<&Anchor<'_>>,
) -> (r: u32)
    ensures
        r == entry_tokens(
            url@,
            opt_text(title),
            opt_text(snippet),
            match anchor {
                Some(a) => Some(a@),
                None => None,
            },
        ),
{
    let label: u128 = match anchor {
        Some(a) => a.label.as_bytes().len() as u128 + 12,
        None => 0,
    };
    let bytes: u128 = url.as_bytes().len() as u128 + str_len(title) + str_len(snippet) + label + 16;
    let low: u128 = bytes % 0x1_0000_0000;
    ((low + 3) / 4) as u32
}

/// The tokens of a whole answer.
pub open spec fn answer_tokens(hits: Seq<HitV>) -> nat
    decreases hits.len(),
{
    if hits.len() == 0 {
        0
    } else {
        let h = hits.last();
        answer_tokens(hits.drop_last()) + entry_tokens(h.url, h.title, h.snippet, h.anchor)
    }
}

// ---- anchors --------------------------------------------------------------

/// A token begins with a term.
pub open spec fn meets(token: Seq<char>, terms: Seq<Seq<char>>) -> bool {
    exists|i: int|
        0 <= i < terms.len() && stands_at(encode_utf8(token), encode_utf8(#[trigger] terms[i]), 0)
}

/// How many tokens begin with a term.
pub open spec fn meeting(tokens: Seq<Seq<char>>, terms: Seq<Seq<char>>) -> nat
    decreases tokens.len(),
{
    if tokens.len() == 0 {
        0
    } else {
        meeting(tokens.drop_last(), terms) + (if meets(tokens.last(), terms) {
            1nat
        } else {
            0nat
        })
    }
}

pub open spec fn label_meeting(s: AnchorV, terms: Seq<Seq<char>>) -> nat {
    meeting(text_tokens(s.label), terms)
}

/// The best of the first `i` segments: most matches, then most important, then
/// first in the document. None if nothing matches.
pub open spec fn best_seg(segs: Seq<AnchorV>, terms: Seq<Seq<char>>, i: int) -> Option<int>
    decreases i,
{
    if i <= 0 {
        None
    } else {
        let pre = best_seg(segs, terms, i - 1);
        let m = label_meeting(segs[i - 1], terms);
        if m == 0 {
            pre
        } else {
            match pre {
                None => Some(i - 1),
                Some(b) => {
                    let bm = label_meeting(segs[b], terms);
                    if m > bm || (m == bm && segs[i - 1].importance > segs[b].importance) {
                        Some(i - 1)
                    } else {
                        pre
                    }
                },
            }
        }
    }
}

pub open spec fn spot_of(s: AnchorV) -> SpotV {
    SpotV { label: s.label, byte_range: s.byte_range, importance: s.importance }
}

impl GraphV {
    /// The best anchor of `key` for some terms.
    pub open spec fn best_anchor(self, key: u64, terms: Seq<Seq<char>>) -> Option<SpotV> {
        let segs = self.segs(key);
        match best_seg(segs, terms, segs.len() as int) {
            Some(b) => Some(spot_of(segs[b])),
            None => None,
        }
    }
}

fn token_meets(token: &str, terms: &Vec<String>) -> (r: bool)
    ensures
        r == meets(token@, strings_view(terms@)),
{
    let ghost ts = strings_view(terms@);
    let n: usize = terms.len();
    let mut i: usize = 0;
    while i < n
        invariant
            i <= n == terms@.len(),
            ts == strings_view(terms@),
            forall|j: int|
                0 <= j < i ==> !stands_at(encode_utf8(token@), encode_utf8(#[trigger] ts[j]), 0),
        decreases n - i,
    {
        assert(ts[i as int] == terms@[i as int]@);
        if starts_with(token, terms[i].as_str()) {
            return true;
        }
        i = i + 1;
    }
    false
}

/// How many tokens of `label` begin with a term.
fn count_meeting(label: &str, terms: &Vec<String>) -> (r: usize)
    ensures
        r == meeting(text_tokens(label@), strings_view(terms@)),
{
    let ghost ts = strings_view(terms@);
    let words: Vec<String> = tokens(label);
    let ghost ws = strings_view(words@);
    let n: usize = words.len();
    let mut count: usize = 0;
    let mut i: usize = 0;
    assert(ws.take(0) =~= Seq::empty());
    while i < n
        invariant
            i <= n == words@.len(),
            ws == strings_view(words@),
            ts == strings_view(terms@),
            count == meeting(ws.take(i as int), ts),
            count <= i,
        decreases n - i,
    {
        assert(ws[i as int] == words@[i as int]@);
        assert(ws.take(i + 1).drop_last() =~= ws.take(i as int));
        if token_meets(words[i].as_str(), terms) {
            count = count + 1;
        }
        i = i + 1;
    }
    assert(ws.take(n as int) =~= ws);
    count
}

impl<'s> Snapshot<'s> {
    /// The segment of `key` that meets the terms best.
    pub fn best_anchor(&self, key: UrlKey, terms: &Vec<String>) -> (r: Option<Anchor<'_>>)
        requires
            self.wf(),
        ensures
            opt_spot(r) == self.graph().best_anchor(key.0, strings_view(terms@)),
    {
        let ghost ts = strings_view(terms@);
        let segs: Vec<SegRef<'_>> = self.segments(key);
        let ghost vs = self.graph().segs(key.0);
        let n: usize = segs.len();
        assert(n == vs.len());
        let mut best: Option<(usize, usize)> = None;
        let mut i: usize = 0;
        while i < n
            invariant
                i <= n == segs@.len(),
                n == vs.len(),
                vs == anchors_view(segs@),
                ts == strings_view(terms@),
                match best {
                    Some((b, m)) => b < i && best_seg(vs, ts, i as int) == Some(b as int) && m
                        == label_meeting(vs[b as int], ts),
                    None => best_seg(vs, ts, i as int) is None,
                },
            decreases n - i,
        {
            assert(vs[i as int] == segs@[i as int]@);
            let m: usize = count_meeting(segs[i].label, terms);
            if m > 0 {
                let better: bool = match best {
                    None => true,
                    Some((b, bm)) => {
                        assert(vs[b as int] == segs@[b as int]@);
                        m > bm || (m == bm && segs[i].importance > segs[b].importance)
                    },
                };
                if better {
                    best = Some((i, m));
                }
            }
            i = i + 1;
        }
        match best {
            Some((b, _)) => {
                let s: SegRef<'_> = segs[b];
                assert(vs[b as int] == s@);
                Some(
                    Anchor { label: s.label, byte_range: s.byte_range, importance: s.importance },
                )
            },
            None => None,
        }
    }
}

// ---- ranking --------------------------------------------------------------

/// A node that may be reported.
#[derive(Clone, Copy, Debug, PartialEq, Eq, Structural)]
pub struct Candidate {
    /// It seeded the traversal.
    pub seed: bool,
    /// Its fused score, as the bits of a single-precision number.
    pub score: u32,
    /// Its durable key.
    pub key: u64,
}

/// Where a candidate stands: seeds first, then by descending score, then by
/// ascending key.
pub open spec fn candidate_row(c: Candidate) -> Row {
    (
        if c.seed {
            0
        } else {
            1
        },
        (u32::MAX - c.score) as u64,
        c.key,
        0,
    )
}

pub open spec fn row_candidate(r: Row) -> Candidate {
    Candidate { seed: r.0 == 0, score: (u32::MAX - r.1) as u32, key: r.2 }
}

pub open spec fn candidate_rows(cs: Seq<Candidate>) -> Seq<Row> {
    cs.map_values(|c: Candidate| candidate_row(c))
}

/// Candidates in order.
pub open spec fn ranked(cs: Seq<Candidate>) -> Seq<Candidate> {
    arranged(candidate_rows(cs)).map_values(|r: Row| row_candidate(r))
}

/// Put candidates in order: seeds first, then by descending score, then by
/// ascending key.
pub fn rank_candidates(cs: &[Candidate]) -> (r: Vec<Candidate>)
    ensures
        r@ == ranked(cs@),
{
    let n: usize = cs.len();
    let mut rows: Vec<Row> = Vec::with_capacity(n);
    let mut i: usize = 0;
    while i < n
        invariant
            i <= n == cs@.len(),
            rows@.len() == i,
            forall|j: int| 0 <= j < i ==> #[trigger] rows@[j] == candidate_row(cs@[j]),
        decreases n - i,
    {
        let c: Candidate = cs[i];
        let lead: u64 = if c.seed {
            0
        } else {
            1
        };
        rows.push((lead, (0xffff_ffff - c.score) as u64, c.key, 0));
        i = i + 1;
    }
    assert(rows@ =~= candidate_rows(cs@));
    let ghost before = rows@;
    arrange(&mut rows);
    let mut out: Vec<Candidate> = Vec::with_capacity(n);
    let mut i: usize = 0;
    while i < n
        invariant
            i <= n == rows@.len(),
            before == candidate_rows(cs@),
            rows@ == arranged(before),
            out@.len() == i,
            forall|j: int| 0 <= j < rows@.len() ==> before.contains(#[trigger] rows@[j]),
            forall|j: int| 0 <= j < i ==> #[trigger] out@[j] == row_candidate(rows@[j]),
        decreases n - i,
    {
        let row: Row = rows[i];
        proof {
            assert(before.contains(rows@[i as int]));
            let x = choose|x: int| 0 <= x < before.len() && before[x] == rows@[i as int];
            assert(before[x] == candidate_row(cs@[x]));
        }
        out.push(
            Candidate { seed: row.0 == 0, score: 0xffff_ffff - row.1 as u32, key: row.2 },
        );
        i = i + 1;
    }
    assert(out@ =~= ranked(cs@));
    out
}

/// `b` does not come before `a`.
pub open spec fn in_order(a: Candidate, b: Candidate) -> bool {
    !row_lt(candidate_row(b), candidate_row(a))
}

/// Ranked candidates are in order: no seed behind another node, no higher
/// score behind a lower one among equals, ties by key.
pub proof fn law_ranking_is_in_order(cs: Seq<Candidate>, i: int, j: int)
    requires
        0 <= i < j < cs.len(),
    ensures
        ranked(cs).len() == cs.len(),
        in_order(ranked(cs)[i], ranked(cs)[j]),
        cs.contains(ranked(cs)[i]),
{
    let rows = candidate_rows(cs);
    let sorted = arranged(rows);
    let le = row_le();
    assert(vstd::relations::total_ordering(le));
    rows.lemma_sort_by_ensures(le);
    lemma_same_rows(rows, sorted, (0, 0, 0, 0));
    assert(le(sorted[i], sorted[j]));
    lemma_arranged_from(rows, i);
    lemma_arranged_from(rows, j);
    let a = choose|a: int| 0 <= a < rows.len() && rows[a] == sorted[i];
    let b = choose|b: int| 0 <= b < rows.len() && rows[b] == sorted[j];
    assert(row_candidate(candidate_row(cs[a])) == cs[a]);
    assert(row_candidate(candidate_row(cs[b])) == cs[b]);
    assert(ranked(cs)[i] == cs[a]);
    assert(ranked(cs)[j] == cs[b]);
}

// ---- rendering ------------------------------------------------------------

/// An answer under way.
pub struct AnswerV {
    pub hits: Seq<HitV>,
    /// The tokens spent so far.
    pub spent: nat,
    /// Nothing more is rendered.
    pub done: bool,
}

impl GraphV {
    /// The answer after `cs`: a candidate that is no node is passed over;
    /// rendering stops at the limit, and before the first entry that would
    /// exceed the budget.
    pub open spec fn answer(
        self,
        cs: Seq<Candidate>,
        terms: Seq<Seq<char>>,
        limit: nat,
        budget: nat,
    ) -> AnswerV
        decreases cs.len(),
    {
        if cs.len() == 0 {
            AnswerV { hits: Seq::empty(), spent: 0, done: false }
        } else {
            let pre = self.answer(cs.drop_last(), terms, limit, budget);
            let c = cs.last();
            if pre.done || pre.hits.len() >= limit {
                AnswerV { done: true, ..pre }
            } else {
                match self.node(c.key) {
                    None => pre,
                    Some(n) => {
                        let anchor = self.best_anchor(c.key, terms);
                        let cost = entry_tokens(n.url, n.title, n.snippet, anchor);
                        if pre.spent + cost > budget {
                            AnswerV { done: true, ..pre }
                        } else {
                            AnswerV {
                                hits: pre.hits.push(hit_on(n, anchor, c.score, c.seed)),
                                spent: pre.spent + cost,
                                done: false,
                            }
                        }
                    },
                }
            }
        }
    }
}

proof fn lemma_done(
    g: GraphV,
    cs: Seq<Candidate>,
    i: int,
    terms: Seq<Seq<char>>,
    limit: nat,
    budget: nat,
)
    requires
        0 <= i <= cs.len(),
        g.answer(cs.take(i), terms, limit, budget).done || g.answer(
            cs.take(i),
            terms,
            limit,
            budget,
        ).hits.len() >= limit,
    ensures
        g.answer(cs, terms, limit, budget).hits == g.answer(cs.take(i), terms, limit, budget).hits,
    decreases cs.len() - i,
{
    if i < cs.len() {
        assert(cs.take(i + 1).drop_last() =~= cs.take(i));
        lemma_done(g, cs, i + 1, terms, limit, budget);
    } else {
        assert(cs.take(i) =~= cs);
    }
}

/// An answer never exceeds its budget or its limit, and what was spent is what
/// its entries cost.
pub proof fn law_answer_keeps_its_budget(
    g: GraphV,
    cs: Seq<Candidate>,
    terms: Seq<Seq<char>>,
    limit: nat,
    budget: nat,
)
    ensures
        ({
            let a = g.answer(cs, terms, limit, budget);
            &&& a.spent == answer_tokens(a.hits)
            &&& a.spent <= budget
            &&& a.hits.len() <= limit
            &&& a.hits.len() <= cs.len()
        }),
    decreases cs.len(),
{
    if cs.len() > 0 {
        law_answer_keeps_its_budget(g, cs.drop_last(), terms, limit, budget);
        let pre = g.answer(cs.drop_last(), terms, limit, budget);
        let a = g.answer(cs, terms, limit, budget);
        if a.hits.len() > pre.hits.len() {
            assert(a.hits.drop_last() =~= pre.hits);
        }
    }
}

proof fn lemma_hit_source(
    g: GraphV,
    cs: Seq<Candidate>,
    terms: Seq<Seq<char>>,
    limit: nat,
    budget: nat,
    k: int,
)
    requires
        0 <= k < g.answer(cs, terms, limit, budget).hits.len(),
    ensures
        exists|j: int|
            0 <= j < cs.len() && (#[trigger] cs[j]).key == g.answer(
                cs,
                terms,
                limit,
                budget,
            ).hits[k].key && cs[j].seed == g.answer(cs, terms, limit, budget).hits[k].seed
                && cs[j].score == g.answer(cs, terms, limit, budget).hits[k].score,
    decreases cs.len(),
{
    let pre = g.answer(cs.drop_last(), terms, limit, budget);
    if k < pre.hits.len() {
        lemma_hit_source(g, cs.drop_last(), terms, limit, budget, k);
        let j = choose|j: int|
            0 <= j < cs.drop_last().len() && (#[trigger] cs.drop_last()[j]).key == pre.hits[k].key
                && cs.drop_last()[j].seed == pre.hits[k].seed && cs.drop_last()[j].score
                == pre.hits[k].score;
        assert(cs[j] == cs.drop_last()[j]);
    } else {
        crate::model::lemma_node_key(g, cs.last().key);
        assert(cs[cs.len() - 1] == cs.last());
    }
}

/// The candidate that a hit stands for.
pub open spec fn as_candidate(h: HitV) -> Candidate {
    Candidate { seed: h.seed, score: h.score, key: h.key }
}

/// An answer keeps the order of the ranking: seeds come first, and among
/// equals the higher score.
pub proof fn law_answer_is_in_order(
    g: GraphV,
    cs: Seq<Candidate>,
    terms: Seq<Seq<char>>,
    limit: nat,
    budget: nat,
    a: int,
    b: int,
)
    requires
        forall|i: int, j: int| 0 <= i < j < cs.len() ==> in_order(#[trigger] cs[i], #[trigger] cs[j]),
        0 <= a < b < g.answer(cs, terms, limit, budget).hits.len(),
    ensures
        ({
            let hits = g.answer(cs, terms, limit, budget).hits;
            in_order(as_candidate(hits[a]), as_candidate(hits[b]))
        }),
    decreases cs.len(),
{
    let pre_cs = cs.drop_last();
    let pre = g.answer(pre_cs, terms, limit, budget);
    assert forall|i: int, j: int| 0 <= i < j < pre_cs.len() implies in_order(
        #[trigger] pre_cs[i],
        #[trigger] pre_cs[j],
    ) by {
        assert(in_order(cs[i], cs[j]));
    }
    if b < pre.hits.len() {
        law_answer_is_in_order(g, pre_cs, terms, limit, budget, a, b);
    } else {
        lemma_hit_source(g, pre_cs, terms, limit, budget, a);
        let i = choose|i: int|
            0 <= i < pre_cs.len() && (#[trigger] pre_cs[i]).key == pre.hits[a].key
                && pre_cs[i].seed == pre.hits[a].seed && pre_cs[i].score == pre.hits[a].score;
        crate::model::lemma_node_key(g, cs.last().key);
        assert(in_order(cs[i], cs[cs.len() - 1]));
    }
}

/// A candidate of a query: a base node that may be reported, or a fresh node
/// that can be searched.
pub open spec fn is_candidate(g: GraphV, key: u64) -> bool {
    ||| g.find(key) is Some && g.is_reportable(g.find(key)->0)
    ||| g.is_searchable(key)
}

/// No answer names a document that was removed or whose source is gone.
pub proof fn law_gone_documents_are_not_answered(
    g: GraphV,
    cs: Seq<Candidate>,
    terms: Seq<Seq<char>>,
    limit: nat,
    budget: nat,
    k: int,
)
    requires
        forall|i: int| 0 <= i < cs.len() ==> is_candidate(g, (#[trigger] cs[i]).key),
        0 <= k < g.answer(cs, terms, limit, budget).hits.len(),
    ensures
        ({
            let key = g.answer(cs, terms, limit, budget).hits[k].key;
            g.node(key) matches Some(n) && !is_tombstone(n.flags)
        }),
{
    lemma_hit_source(g, cs, terms, limit, budget, k);
    let key = g.answer(cs, terms, limit, budget).hits[k].key;
    let j = choose|j: int|
        0 <= j < cs.len() && (#[trigger] cs[j]).key == key && cs[j].seed == g.answer(
            cs,
            terms,
            limit,
            budget,
        ).hits[k].seed && cs[j].score == g.answer(cs, terms, limit, budget).hits[k].score;
    if g.find(key) is Some {
        crate::model::lemma_found(g, key);
    }
    assert(is_candidate(g, cs[j].key));
}

/// Candidates have distinct keys.
pub open spec fn keys_distinct(cs: Seq<Candidate>) -> bool {
    forall|i: int, j: int|
        0 <= i < j < cs.len() ==> (#[trigger] cs[i]).key != (#[trigger] cs[j]).key
}

/// The nodes are different ones of the base.
pub open spec fn are_nodes(g: GraphV, arrivals: Seq<(u32, u32)>) -> bool {
    &&& forall|i: int| 0 <= i < arrivals.len() ==> (#[trigger] arrivals[i]).0 < g.n()
    &&& forall|i: int, j: int|
        0 <= i < j < arrivals.len() ==> (#[trigger] arrivals[i]).0 != (#[trigger] arrivals[j]).0
}

/// The keys are different ones of fresh nodes that can be searched.
pub open spec fn are_fresh(g: GraphV, fresh: Seq<(u64, u32)>) -> bool {
    &&& forall|i: int|
        0 <= i < fresh.len() ==> g.is_fresh((#[trigger] fresh[i]).0) && g.is_searchable(fresh[i].0)
    &&& forall|i: int, j: int|
        0 <= i < j < fresh.len() ==> (#[trigger] fresh[i]).0 != (#[trigger] fresh[j]).0
}

impl GraphV {
    /// The arrivals that may be reported, each with its fused score, seeds
    /// marked.
    pub open spec fn base_candidates(
        self,
        arrivals: Seq<(u32, u32)>,
        seeds: Seq<u32>,
        fused: Seq<u32>,
    ) -> Seq<Candidate>
        decreases arrivals.len(),
    {
        if arrivals.len() == 0 {
            Seq::empty()
        } else {
            let pre = self.base_candidates(arrivals.drop_last(), seeds, fused);
            let id = arrivals.last().0;
            if self.is_reportable(id) {
                pre.push(
                    Candidate {
                        seed: seeds.contains(id),
                        score: fused[arrivals.len() - 1],
                        key: node_row(self.t, id as int).url_key,
                    },
                )
            } else {
                pre
            }
        }
    }

    /// The candidates of a query: the arrivals that may be reported, then the
    /// fresh nodes, which are seeds.
    pub open spec fn candidates(
        self,
        arrivals: Seq<(u32, u32)>,
        seeds: Seq<u32>,
        fused: Seq<u32>,
        fresh: Seq<(u64, u32)>,
    ) -> Seq<Candidate> {
        self.base_candidates(arrivals, seeds, fused) + fresh.map_values(
            |f: (u64, u32)| Candidate { seed: true, score: f.1, key: f.0 },
        )
    }
}

/// A candidate of the base is the record of an arrival.
proof fn lemma_base_candidate(
    g: GraphV,
    arrivals: Seq<(u32, u32)>,
    seeds: Seq<u32>,
    fused: Seq<u32>,
    i: int,
)
    requires
        0 <= i < g.base_candidates(arrivals, seeds, fused).len(),
    ensures
        exists|a: int|
            0 <= a < arrivals.len() && g.is_reportable((#[trigger] arrivals[a]).0) && node_row(
                g.t,
                arrivals[a].0 as int,
            ).url_key == g.base_candidates(arrivals, seeds, fused)[i].key,
    decreases arrivals.len(),
{
    let pre = arrivals.drop_last();
    let before = g.base_candidates(pre, seeds, fused);
    if i < before.len() {
        lemma_base_candidate(g, pre, seeds, fused, i);
        let a = choose|a: int|
            0 <= a < pre.len() && g.is_reportable((#[trigger] pre[a]).0) && node_row(
                g.t,
                pre[a].0 as int,
            ).url_key == before[i].key;
        assert(arrivals[a] == pre[a]);
    } else {
        assert(arrivals[arrivals.len() - 1] == arrivals.last());
    }
}

proof fn lemma_base_candidates(
    g: GraphV,
    arrivals: Seq<(u32, u32)>,
    seeds: Seq<u32>,
    fused: Seq<u32>,
)
    requires
        g.wf(),
        are_nodes(g, arrivals),
    ensures
        keys_distinct(g.base_candidates(arrivals, seeds, fused)),
    decreases arrivals.len(),
{
    if arrivals.len() > 0 {
        let pre = arrivals.drop_last();
        let before = g.base_candidates(pre, seeds, fused);
        let all = g.base_candidates(arrivals, seeds, fused);
        assert(are_nodes(g, pre)) by {
            assert(forall|i: int| 0 <= i < pre.len() ==> (#[trigger] pre[i]) == arrivals[i]);
        }
        lemma_base_candidates(g, pre, seeds, fused);
        assert forall|i: int, j: int| 0 <= i < j < all.len() implies (#[trigger] all[i]).key != (
        #[trigger] all[j]).key by {
            if j < before.len() {
                assert(before[i].key != before[j].key);
            } else {
                lemma_base_candidate(g, pre, seeds, fused, i);
                let a = choose|a: int|
                    0 <= a < pre.len() && g.is_reportable((#[trigger] pre[a]).0) && node_row(
                        g.t,
                        pre[a].0 as int,
                    ).url_key == before[i].key;
                assert(arrivals[a] == pre[a]);
                let b = arrivals.len() - 1;
                assert(arrivals[a].0 != arrivals[b].0);
                assert(arrivals[a].0 < g.n() && arrivals[b].0 < g.n());
                let x = arrivals[a].0 as int;
                let y = arrivals[b].0 as int;
                assert(node_row(g.t, x).url_key != node_row(g.t, y).url_key);
            }
        }
    }
}

/// The candidates of a query are nodes that may be reported, each named once.
pub proof fn law_candidates_are_distinct(
    g: GraphV,
    arrivals: Seq<(u32, u32)>,
    seeds: Seq<u32>,
    fused: Seq<u32>,
    fresh: Seq<(u64, u32)>,
)
    requires
        g.wf(),
        are_nodes(g, arrivals),
        are_fresh(g, fresh),
    ensures
        keys_distinct(g.candidates(arrivals, seeds, fused, fresh)),
        forall|i: int|
            0 <= i < g.candidates(arrivals, seeds, fused, fresh).len() ==> is_candidate(
                g,
                (#[trigger] g.candidates(arrivals, seeds, fused, fresh)[i]).key,
            ),
{
    let base = g.base_candidates(arrivals, seeds, fused);
    let all = g.candidates(arrivals, seeds, fused, fresh);
    lemma_base_candidates(g, arrivals, seeds, fused);
    assert forall|i: int| 0 <= i < base.len() implies g.find((#[trigger] base[i]).key) is Some
        && g.is_reportable(g.find(base[i].key)->0) by {
        lemma_base_candidate(g, arrivals, seeds, fused, i);
        let a = choose|a: int|
            0 <= a < arrivals.len() && g.is_reportable((#[trigger] arrivals[a]).0) && node_row(
                g.t,
                arrivals[a].0 as int,
            ).url_key == base[i].key;
        crate::model::lemma_find(g, base[i].key, arrivals[a].0 as int);
    }
    assert forall|i: int| 0 <= i < all.len() implies is_candidate(g, (#[trigger] all[i]).key) by {
        if i < base.len() {
            assert(all[i] == base[i]);
        } else {
            assert(all[i].key == fresh[i - base.len()].0);
        }
    }
    assert forall|i: int, j: int| 0 <= i < j < all.len() implies (#[trigger] all[i]).key != (
    #[trigger] all[j]).key by {
        if j < base.len() {
            assert(base[i].key != base[j].key);
        } else {
            assert(all[j].key == fresh[j - base.len()].0);
            if i < base.len() {
                assert(all[i] == base[i]);
            } else {
                assert(fresh[i - base.len()].0 != fresh[j - base.len()].0);
            }
        }
    }
}

/// Ranking neither drops nor invents a candidate, and keeps keys distinct.
pub proof fn law_ranking_keeps_the_candidates(cs: Seq<Candidate>)
    ensures
        ranked(cs).len() == cs.len(),
        forall|c: Candidate| #[trigger] ranked(cs).contains(c) <==> cs.contains(c),
        keys_distinct(cs) ==> keys_distinct(ranked(cs)),
{
    let rows = candidate_rows(cs);
    let sorted = arranged(rows);
    let out = ranked(cs);
    let le = row_le();
    assert(vstd::relations::total_ordering(le));
    rows.lemma_sort_by_ensures(le);
    lemma_same_rows(rows, sorted, (0, 0, 0, 0));
    assert forall|a: int| 0 <= a < cs.len() implies row_candidate(
        candidate_row(#[trigger] cs[a]),
    ) == cs[a] by {}
    assert forall|c: Candidate| #[trigger] out.contains(c) <==> cs.contains(c) by {
        if out.contains(c) {
            let i = choose|i: int| 0 <= i < out.len() && out[i] == c;
            lemma_arranged_from(rows, i);
            let a = choose|a: int| 0 <= a < rows.len() && rows[a] == sorted[i];
            assert(cs[a] == c);
        }
        if cs.contains(c) {
            let a = choose|a: int| 0 <= a < cs.len() && cs[a] == c;
            assert(rows[a] == candidate_row(c));
            assert(rows.contains(candidate_row(c)));
            lemma_same_rows(rows, sorted, candidate_row(c));
            let i = choose|i: int| 0 <= i < sorted.len() && sorted[i] == candidate_row(c);
            assert(out[i] == c);
        }
    }
    if keys_distinct(cs) {
        assert(rows.no_duplicates()) by {
            assert forall|x: int, y: int| 0 <= x < y < rows.len() implies rows[x] != rows[y] by {
                assert(cs[x].key != cs[y].key);
            }
        }
        rows.lemma_multiset_has_no_duplicates();
        sorted.lemma_multiset_has_no_duplicates_conv();
        assert forall|i: int, j: int| 0 <= i < j < out.len() implies (#[trigger] out[i]).key != (
        #[trigger] out[j]).key by {
            lemma_arranged_from(rows, i);
            lemma_arranged_from(rows, j);
            let a = choose|a: int| 0 <= a < rows.len() && rows[a] == sorted[i];
            let b = choose|b: int| 0 <= b < rows.len() && rows[b] == sorted[j];
            assert(sorted[i] != sorted[j]);
            assert(out[i] == cs[a] && out[j] == cs[b]);
            if a < b {
                assert(cs[a].key != cs[b].key);
            } else {
                assert(cs[b].key != cs[a].key);
            }
        }
    }
}

/// No document is answered twice, as long as none is a candidate twice.
pub proof fn law_answers_are_distinct(
    g: GraphV,
    cs: Seq<Candidate>,
    terms: Seq<Seq<char>>,
    limit: nat,
    budget: nat,
    a: int,
    b: int,
)
    requires
        keys_distinct(cs),
        0 <= a < b < g.answer(cs, terms, limit, budget).hits.len(),
    ensures
        ({
            let hits = g.answer(cs, terms, limit, budget).hits;
            hits[a].key != hits[b].key
        }),
    decreases cs.len(),
{
    let pre_cs = cs.drop_last();
    let pre = g.answer(pre_cs, terms, limit, budget);
    assert(keys_distinct(pre_cs)) by {
        assert(forall|i: int| 0 <= i < pre_cs.len() ==> (#[trigger] pre_cs[i]) == cs[i]);
    }
    if b < pre.hits.len() {
        law_answers_are_distinct(g, pre_cs, terms, limit, budget, a, b);
    } else {
        lemma_hit_source(g, pre_cs, terms, limit, budget, a);
        let j = choose|j: int|
            0 <= j < pre_cs.len() && (#[trigger] pre_cs[j]).key == pre.hits[a].key
                && pre_cs[j].seed == pre.hits[a].seed && pre_cs[j].score == pre.hits[a].score;
        crate::model::lemma_node_key(g, cs.last().key);
        assert(cs[j].key != cs[cs.len() - 1].key);
    }
}

/// What a lookup answers: documents that are neither removed nor gone, each
/// once, seeds first and then by score, within the limit and the budget.
pub proof fn law_lookup_answers(
    g: GraphV,
    arrivals: Seq<(u32, u32)>,
    seeds: Seq<u32>,
    fused: Seq<u32>,
    fresh: Seq<(u64, u32)>,
    terms: Seq<Seq<char>>,
    limit: nat,
    budget: nat,
    a: int,
)
    requires
        g.wf(),
        are_nodes(g, arrivals),
        are_fresh(g, fresh),
        ({
            let cs = ranked(g.candidates(arrivals, seeds, fused, fresh));
            0 <= a < g.answer(cs, terms, limit, budget).hits.len()
        }),
    ensures
        ({
            let cs = ranked(g.candidates(arrivals, seeds, fused, fresh));
            let hits = g.answer(cs, terms, limit, budget).hits;
            &&& g.node(hits[a].key) matches Some(n) && !is_tombstone(n.flags)
            &&& forall|b: int|
                a < b < hits.len() ==> hits[a].key != (#[trigger] hits[b]).key && in_order(
                    as_candidate(hits[a]),
                    as_candidate(hits[b]),
                )
            &&& hits.len() <= limit
            &&& answer_tokens(hits) <= budget
        }),
{
    let all = g.candidates(arrivals, seeds, fused, fresh);
    let cs = ranked(all);
    let hits = g.answer(cs, terms, limit, budget).hits;
    law_candidates_are_distinct(g, arrivals, seeds, fused, fresh);
    law_ranking_keeps_the_candidates(all);
    assert forall|i: int| 0 <= i < cs.len() implies is_candidate(g, (#[trigger] cs[i]).key) by {
        assert(cs.contains(cs[i]));
        let x = choose|x: int| 0 <= x < all.len() && all[x] == cs[i];
        assert(is_candidate(g, all[x].key));
    }
    assert forall|i: int, j: int| 0 <= i < j < cs.len() implies in_order(
        #[trigger] cs[i],
        #[trigger] cs[j],
    ) by {
        law_ranking_is_in_order(all, i, j);
    }
    law_gone_documents_are_not_answered(g, cs, terms, limit, budget, a);
    law_answer_keeps_its_budget(g, cs, terms, limit, budget);
    assert forall|b: int| a < b < hits.len() implies hits[a].key != (#[trigger] hits[b]).key
        && in_order(as_candidate(hits[a]), as_candidate(hits[b])) by {
        law_answers_are_distinct(g, cs, terms, limit, budget, a, b);
        law_answer_is_in_order(g, cs, terms, limit, budget, a, b);
    }
}

/// A lookup that reaches nothing answers nothing: without arrivals and fresh
/// nodes there is no candidate, and without candidates no answer.
pub proof fn law_nothing_reached_nothing_answered(
    g: GraphV,
    seeds: Seq<u32>,
    fused: Seq<u32>,
    terms: Seq<Seq<char>>,
    limit: nat,
    budget: nat,
)
    ensures
        ({
            let cs = g.candidates(Seq::empty(), seeds, fused, Seq::empty());
            &&& cs == Seq::<Candidate>::empty()
            &&& g.answer(ranked(cs), terms, limit, budget).hits == Seq::<HitV>::empty()
        }),
{
    let cs = g.candidates(Seq::empty(), seeds, fused, Seq::empty());
    assert(cs =~= Seq::empty());
    law_ranking_keeps_the_candidates(cs);
}

/// A query without terms meets nothing, seeds nothing, reaches nothing and
/// answers nothing.
pub proof fn law_no_terms_no_answer(
    g: GraphV,
    max_seeds: nat,
    depth: nat,
    limit: nat,
    budget: nat,
)
    ensures
        listing(is_met(Seq::empty())) == Seq::<u64>::empty(),
        g.fresh_hits(listing(g.fresh()), Seq::empty()) == Seq::<
            (u64, Seq<Option<Tier>>),
        >::empty(),
        filled(seated(Seq::empty(), max_seeds), Seq::empty(), max_seeds) == Seq::<u32>::empty(),
        started(Seq::empty(), depth).round() == Seq::<(u32, u32)>::empty(),
        started(Seq::empty(), depth).arrivals() == Seq::<(u32, u32)>::empty(),
        ({
            let cs = g.candidates(Seq::empty(), Seq::empty(), Seq::empty(), Seq::empty());
            g.answer(ranked(cs), Seq::empty(), limit, budget).hits == Seq::<HitV>::empty()
        }),
{
    let none = Seq::<u64>::empty();
    law_no_terms_no_hits(g, listing(g.fresh()));
    assert(lists(none, is_seated(Seq::empty())));
    lemma_listing(none, is_seated(Seq::empty()));
    assert(seated(Seq::empty(), max_seeds) =~= Seq::empty());
    assert(started(Seq::empty(), depth).arrivals() =~= Seq::empty());
    law_nothing_reached_nothing_answered(
        g,
        Seq::empty(),
        Seq::empty(),
        Seq::empty(),
        limit,
        budget,
    );
}

impl<'s> Snapshot<'s> {
    /// The candidates of a query: of the arrivals those that may be reported,
    /// with their fused scores and whether they are seeds, then the fresh nodes
    /// with their scores.
    pub fn candidates(
        &self,
        arrivals: &[(u32, u32)],
        seeds: &[u32],
        fused: &[u32],
        fresh: &[(u64, u32)],
    ) -> (r: Vec<Candidate>)
        requires
            self.wf(),
            are_nodes(self.graph(), arrivals@),
            fused@.len() == arrivals@.len(),
            are_fresh(self.graph(), fresh@),
        ensures
            r@ == self.graph().candidates(arrivals@, seeds@, fused@, fresh@),
            keys_distinct(r@),
            forall|i: int| 0 <= i < r@.len() ==> is_candidate(self.graph(), (#[trigger] r@[i]).key),
    {
        let ghost g = self.graph();
        let n: usize = arrivals.len();
        let mut out: Vec<Candidate> = Vec::new();
        let mut i: usize = 0;
        assert(arrivals@.take(0) =~= Seq::empty());
        while i < n
            invariant
                self.wf(),
                g == self.graph(),
                are_nodes(g, arrivals@),
                i <= n == arrivals@.len(),
                fused@.len() == n,
                out@ == g.base_candidates(arrivals@.take(i as int), seeds@, fused@),
            decreases n - i,
        {
            let id: u32 = arrivals[i].0;
            assert(arrivals@[i as int].0 < g.n());
            assert(arrivals@.take(i + 1).drop_last() =~= arrivals@.take(i as int));
            if self.is_reportable(NodeId(id)) {
                out.push(
                    Candidate {
                        seed: is_among(seeds, id),
                        score: fused[i],
                        key: self.rec(NodeId(id)).url_key().0,
                    },
                );
            }
            i = i + 1;
        }
        assert(arrivals@.take(n as int) =~= arrivals@);
        let ghost base = out@;
        let m: usize = fresh.len();
        let mut i: usize = 0;
        while i < m
            invariant
                i <= m == fresh@.len(),
                out@.len() == base.len() + i,
                base == g.base_candidates(arrivals@, seeds@, fused@),
                forall|j: int|
                    0 <= j < out@.len() ==> #[trigger] out@[j] == g.candidates(
                        arrivals@,
                        seeds@,
                        fused@,
                        fresh@,
                    )[j],
            decreases m - i,
        {
            out.push(Candidate { seed: true, score: fresh[i].1, key: fresh[i].0 });
            i = i + 1;
        }
        assert(out@ =~= g.candidates(arrivals@, seeds@, fused@, fresh@));
        proof {
            self.lemma_wf();
            law_candidates_are_distinct(g, arrivals@, seeds@, fused@, fresh@);
        }
        out
    }
}

fn is_among(ids: &[u32], id: u32) -> (r: bool)
    ensures
        r == ids@.contains(id),
{
    let n: usize = ids.len();
    let mut i: usize = 0;
    while i < n
        invariant
            i <= n == ids@.len(),
            forall|j: int| 0 <= j < i ==> ids@[j] != id,
        decreases n - i,
    {
        if ids[i] == id {
            return true;
        }
        i = i + 1;
    }
    false
}

impl<'s> Snapshot<'s> {
    /// Render ranked candidates inside the token budget, each with the anchor
    /// that meets the terms best.
    pub fn render_answer(
        &self,
        cs: &[Candidate],
        terms: &Vec<String>,
        limit: usize,
        budget: TokenBudget,
    ) -> (r: Vec<Hit<'_>>)
        requires
            self.wf(),
        ensures
            hits_view(r@) == self.graph().answer(
                cs@,
                strings_view(terms@),
                limit as nat,
                budget.0 as nat,
            ).hits,
            answer_tokens(hits_view(r@)) <= budget.0,
            r@.len() <= limit,
    {
        let ghost g = self.graph();
        let ghost ts = strings_view(terms@);
        let ghost lim = limit as nat;
        let ghost bud = budget.0 as nat;
        let n: usize = cs.len();
        let mut out: Vec<Hit<'_>> = Vec::new();
        let mut spent: u32 = 0;
        let mut i: usize = 0;
        assert(cs@.take(0) =~= Seq::empty());
        assert(hits_view(out@) =~= Seq::empty());
        proof {
            law_answer_keeps_its_budget(g, cs@, ts, lim, bud);
        }
        while i < n
            invariant
                self.wf(),
                g == self.graph(),
                ts == strings_view(terms@),
                lim == limit,
                bud == budget.0,
                i <= n == cs@.len(),
                hits_view(out@) == g.answer(cs@.take(i as int), ts, lim, bud).hits,
                out@.len() == hits_view(out@).len(),
                spent == g.answer(cs@.take(i as int), ts, lim, bud).spent,
                spent <= budget.0,
                !g.answer(cs@.take(i as int), ts, lim, bud).done,
                ({
                    let a = g.answer(cs@, ts, lim, bud);
                    a.spent == answer_tokens(a.hits) && a.spent <= bud && a.hits.len() <= lim
                }),
            decreases n - i,
        {
            if out.len() >= limit {
                proof {
                    lemma_done(g, cs@, i as int, ts, lim, bud);
                }
                return out;
            }
            let c: Candidate = cs[i];
            assert(cs@.take(i + 1).drop_last() =~= cs@.take(i as int));
            match self.node(UrlKey(c.key)) {
                None => {},
                Some(node) => {
                    let anchor: Option<Anchor<'_>> = self.best_anchor(UrlKey(c.key), terms);
                    let cost: u32 = estimate_tokens(
                        node.url,
                        node.title,
                        node.snippet,
                        anchor.as_ref(),
                    );
                    if spent as u64 + cost as u64 > budget.0 as u64 {
                        proof {
                            assert(g.answer(cs@.take(i + 1), ts, lim, bud).done);
                            lemma_done(g, cs@, i + 1, ts, lim, bud);
                        }
                        return out;
                    }
                    spent = spent + cost;
                    let ghost was = out@;
                    let hit: Hit<'_> = make_hit(&node, anchor, c.score, c.seed);
                    out.push(hit);
                    assert(hits_view(out@) =~= hits_view(was).push(hit@));
                },
            }
            i = i + 1;
        }
        assert(cs@.take(n as int) =~= cs@);
        out
    }
}

// ---- related documents ----------------------------------------------------

/// Edges by descending score, then by ascending destination.
pub open spec fn related_rows(edges: Seq<EdgeV>, scores: Seq<u32>) -> Seq<Row> {
    Seq::new(
        edges.len(),
        |i: int| ((u32::MAX - scores[i]) as u64, edges[i].dst_key, 0u64, 0u64),
    )
}

impl GraphV {
    /// The live nodes that `rows` lead to, at most `k`.
    pub open spec fn related_hits(self, rows: Seq<Row>, k: nat) -> Seq<HitV>
        decreases rows.len(),
    {
        if rows.len() == 0 {
            Seq::empty()
        } else {
            let pre = self.related_hits(rows.drop_last(), k);
            let r = rows.last();
            match self.shown(r.1) {
                Some(n) => if pre.len() >= k {
                    pre
                } else {
                    pre.push(hit_on(n, None, (u32::MAX - r.0) as u32, false))
                },
                None => pre,
            }
        }
    }
}

proof fn lemma_related_full(g: GraphV, rows: Seq<Row>, i: int, k: nat)
    requires
        0 <= i <= rows.len(),
        g.related_hits(rows.take(i), k).len() >= k,
    ensures
        g.related_hits(rows, k) == g.related_hits(rows.take(i), k),
    decreases rows.len() - i,
{
    if i < rows.len() {
        assert(rows.take(i + 1).drop_last() =~= rows.take(i));
        lemma_related_full(g, rows, i + 1, k);
    } else {
        assert(rows.take(i) =~= rows);
    }
}

impl<'s> Snapshot<'s> {
    /// Documents most related to `key`: outbound links and similarity edges,
    /// strongest first, given the score of each outbound edge.
    pub fn related(&self, key: UrlKey, scores: &[u32], k: usize) -> (r: Vec<Hit<'_>>)
        requires
            self.wf(),
            scores@.len() == self.graph().edges(key.0).len(),
        ensures
            hits_view(r@) == self.graph().related_hits(
                arranged(related_rows(self.graph().edges(key.0), scores@)),
                k as nat,
            ),
    {
        let ghost g = self.graph();
        let edges: Vec<EdgeRef<'_>> = self.neighbors(key).collect();
        let ghost es = g.edges(key.0);
        let n: usize = edges.len();
        assert(n == es.len());
        let mut rows: Vec<Row> = Vec::with_capacity(n);
        let mut i: usize = 0;
        while i < n
            invariant
                i <= n == edges@.len(),
                n == es.len(),
                n == scores@.len(),
                edges_view(edges@) == es,
                rows@.len() == i,
                forall|j: int| 0 <= j < i ==> #[trigger] rows@[j] == related_rows(es, scores@)[j],
            decreases n - i,
        {
            assert(es[i as int] == edges@[i as int]@);
            rows.push(((0xffff_ffff - scores[i]) as u64, edges[i].dst_key.0, 0, 0));
            i = i + 1;
        }
        assert(rows@ =~= related_rows(es, scores@));
        let ghost before = rows@;
        arrange(&mut rows);
        proof {
            assert forall|j: int| 0 <= j < rows@.len() implies (#[trigger] rows@[j]).0
                <= u32::MAX by {
                assert(before.contains(rows@[j]));
                let x = choose|x: int| 0 <= x < before.len() && before[x] == rows@[j];
            }
        }
        self.take_related(&rows, k)
    }

    fn take_related(&self, rows: &Vec<Row>, k: usize) -> (r: Vec<Hit<'_>>)
        requires
            self.wf(),
            forall|j: int| 0 <= j < rows@.len() ==> (#[trigger] rows@[j]).0 <= u32::MAX,
        ensures
            hits_view(r@) == self.graph().related_hits(rows@, k as nat),
    {
        let ghost g = self.graph();
        let n: usize = rows.len();
        let mut out: Vec<Hit<'_>> = Vec::new();
        let mut i: usize = 0;
        assert(rows@.take(0) =~= Seq::empty());
        assert(hits_view(out@) =~= Seq::empty());
        while i < n
            invariant
                self.wf(),
                g == self.graph(),
                i <= n == rows@.len(),
                forall|j: int| 0 <= j < rows@.len() ==> (#[trigger] rows@[j]).0 <= u32::MAX,
                out@.len() == hits_view(out@).len(),
                hits_view(out@) == g.related_hits(rows@.take(i as int), k as nat),
            decreases n - i,
        {
            if out.len() >= k {
                proof {
                    lemma_related_full(g, rows@, i as int, k as nat);
                }
                return out;
            }
            let row: Row = rows[i];
            assert(rows@.take(i + 1).drop_last() =~= rows@.take(i as int));
            match self.live_hit(UrlKey(row.1), 0xffff_ffff - row.0 as u32) {
                Some(hit) => {
                    let ghost was = out@;
                    out.push(hit);
                    assert(hits_view(out@) =~= hits_view(was).push(hit@));
                },
                None => {},
            }
            i = i + 1;
        }
        assert(rows@.take(n as int) =~= rows@);
        out
    }

    fn live_hit(&self, key: UrlKey, score: u32) -> (r: Option<Hit<'_>>)
        requires
            self.wf(),
        ensures
            match r {
                Some(h) => self.graph().shown(key.0) is Some && h@ == hit_on(
                    self.graph().shown(key.0)->0,
                    None,
                    score,
                    false,
                ),
                None => self.graph().shown(key.0) is None,
            },
    {
        match self.node(key) {
            Some(node) => {
                if node.is_stub() || node.is_tombstone() {
                    None
                } else {
                    Some(make_hit(&node, None, score, false))
                }
            },
            None => None,
        }
    }
}

// ---- communities ----------------------------------------------------------

/// A community overview.
#[derive(Clone, Debug)]
pub struct CommunitySummary<'s> {
    /// Stable community id (smallest member node id).
    pub id: u32,
    /// Hub-derived display name (title of the highest-ranked member).
    pub name: &'s str,
    /// Member count.
    pub size: usize,
    /// Top member URLs by rank.
    pub top_urls: Vec<&'s str>,
}

/// The value of a [`CommunitySummary`].
pub struct CommunityV {
    pub id: u32,
    pub name: Seq<char>,
    pub size: nat,
    pub top_urls: Seq<Seq<char>>,
}

impl<'s> View for CommunitySummary<'s> {
    type V = CommunityV;

    open spec fn view(&self) -> CommunityV {
        CommunityV {
            id: self.id,
            name: self.name@,
            size: self.size as nat,
            top_urls: strs_view(self.top_urls@),
        }
    }
}

impl GraphV {
    /// Where a member stands: by descending rank, then by ascending id.
    pub open spec fn member_row(self, id: u32) -> Row {
        ((65_535 - self.rank_of(id)) as u64, id as u64, 0, 0)
    }

    /// The members of a community among the first `i` nodes.
    pub open spec fn member_rows(self, community: u32, i: int) -> Seq<Row>
        decreases i,
    {
        if i <= 0 {
            Seq::empty()
        } else {
            let pre = self.member_rows(community, i - 1);
            if self.community((i - 1) as u32) == Some(community) {
                pre.push(self.member_row((i - 1) as u32))
            } else {
                pre
            }
        }
    }

    /// The members of a community, the highest rank first.
    pub open spec fn members(self, community: u32) -> Seq<Row> {
        arranged(self.member_rows(community, self.n()))
    }

    /// The node of a member, as readers see it.
    pub open spec fn member_node(self, row: Row) -> Option<NodeV> {
        self.node(node_row(self.t, row.1 as int).url_key)
    }

    /// The URLs of `rows`, those that are no node any more left out.
    pub open spec fn member_urls(self, rows: Seq<Row>) -> Seq<Seq<char>>
        decreases rows.len(),
    {
        if rows.len() == 0 {
            Seq::empty()
        } else {
            let pre = self.member_urls(rows.drop_last());
            match self.member_node(rows.last()) {
                Some(n) => pre.push(n.url),
                None => pre,
            }
        }
    }

    /// The overview of a community: named after its highest-ranked member.
    pub open spec fn summary(self, community: u32, top: nat) -> CommunityV {
        let rows = self.members(community);
        CommunityV {
            id: community,
            name: if rows.len() == 0 {
                Seq::empty()
            } else {
                match self.member_node(rows[0]) {
                    Some(n) => match n.title {
                        Some(t) => t,
                        None => n.url,
                    },
                    None => Seq::empty(),
                }
            },
            size: rows.len(),
            top_urls: self.member_urls(rows.take(min_nat(top, rows.len()) as int)),
        }
    }

    /// The overview of the community of `key`, which only base nodes have.
    pub open spec fn summary_of(self, key: u64, top: nat) -> Option<CommunityV> {
        match self.find(key) {
            Some(id) => match self.community(id) {
                Some(c) => Some(self.summary(c, top)),
                None => None,
            },
            None => None,
        }
    }
}

impl<'s> Snapshot<'s> {
    /// The members of a community, the highest rank first.
    fn member_rows(&self, community: u32) -> (r: Vec<Row>)
        requires
            self.wf(),
        ensures
            r@ == self.graph().members(community),
            forall|j: int| 0 <= j < r@.len() ==> (#[trigger] r@[j]).1 < self.graph().n(),
    {
        let ghost g = self.graph();
        let n: usize = self.base_len();
        let mut rows: Vec<Row> = Vec::new();
        let mut i: usize = 0;
        while i < n
            invariant
                self.wf(),
                g == self.graph(),
                i <= n == g.n(),
                n <= u32::MAX,
                rows@ == g.member_rows(community, i as int),
                forall|j: int| 0 <= j < rows@.len() ==> (#[trigger] rows@[j]).1 < i,
            decreases n - i,
        {
            let id: NodeId = NodeId(i as u32);
            match self.community_of(id) {
                Some(c) => {
                    if c == community {
                        rows.push((65_535 - self.rank_permille_of(id) as u64, i as u64, 0, 0));
                    }
                },
                None => {},
            }
            i = i + 1;
        }
        let ghost before = rows@;
        arrange(&mut rows);
        proof {
            assert forall|j: int| 0 <= j < rows@.len() implies (#[trigger] rows@[j]).1 < g.n() by {
                assert(before.contains(rows@[j]));
                let x = choose|x: int| 0 <= x < before.len() && before[x] == rows@[j];
                assert(before[x].1 < n);
            }
        }
        rows
    }

    /// The community around `key`: its stable id, a hub-derived name, and the
    /// top members by rank.
    #[must_use]
    pub fn community_summary(&self, key: UrlKey, top: usize) -> (r: Option<CommunitySummary<'_>>)
        requires
            self.wf(),
        ensures
            match r {
                Some(c) => self.graph().summary_of(key.0, top as nat) == Some(c@),
                None => self.graph().summary_of(key.0, top as nat) is None,
            },
    {
        let ghost g = self.graph();
        let id: NodeId = self.base_node_id(key)?;
        let community: u32 = self.community_of(id)?;
        let rows: Vec<Row> = self.member_rows(community);
        let size: usize = rows.len();
        let blank: &str = "";
        proof {
            reveal_strlit("");
            assert(blank@ =~= Seq::empty());
        }
        let name: &str = if size == 0 {
            blank
        } else {
            match self.node_by_id(NodeId(rows[0].1 as u32)) {
                Some(n) => match n.title {
                    Some(t) => t,
                    None => n.url,
                },
                None => blank,
            }
        };
        let most: usize = if top < size {
            top
        } else {
            size
        };
        let mut top_urls: Vec<&str> = Vec::new();
        let ghost first = rows@.take(most as int);
        let mut i: usize = 0;
        assert(first.take(0) =~= Seq::empty());
        assert(strs_view(top_urls@) =~= Seq::empty());
        while i < most
            invariant
                self.wf(),
                g == self.graph(),
                i <= most <= rows@.len(),
                first == rows@.take(most as int),
                forall|j: int| 0 <= j < rows@.len() ==> (#[trigger] rows@[j]).1 < g.n(),
                strs_view(top_urls@) == g.member_urls(first.take(i as int)),
            decreases most - i,
        {
            assert(first.take(i + 1).drop_last() =~= first.take(i as int));
            assert(rows@[i as int].1 < g.n());
            match self.node_by_id(NodeId(rows[i].1 as u32)) {
                Some(n) => {
                    let ghost was = top_urls@;
                    top_urls.push(n.url);
                    assert(strs_view(top_urls@) =~= strs_view(was).push(n.url@));
                },
                None => {},
            }
            i = i + 1;
        }
        assert(first.take(most as int) =~= first);
        Some(CommunitySummary { id: community, name, size, top_urls })
    }
}

// ---- connections across communities ---------------------------------------

/// An edge between two communities.
#[derive(Clone, Copy, Debug, PartialEq, Eq, Structural)]
pub struct CrossLink {
    /// The community with the smaller id.
    pub low: u32,
    /// The other community.
    pub high: u32,
    /// Where the edge starts.
    pub src: u64,
    /// Where it leads.
    pub dst: u64,
    /// Its weight in 1/65535 units.
    pub weight: u16,
    /// It was inferred rather than extracted from source.
    pub inferred: bool,
}

/// A pair of communities is represented.
pub open spec fn has_pair(links: Seq<CrossLink>, low: u32, high: u32) -> bool {
    exists|i: int|
        0 <= i < links.len() && (#[trigger] links[i]).low == low && links[i].high == high
}

pub open spec fn lesser(a: u32, b: u32) -> u32 {
    if a <= b {
        a
    } else {
        b
    }
}

pub open spec fn greater(a: u32, b: u32) -> u32 {
    if a <= b {
        b
    } else {
        a
    }
}

impl GraphV {
    /// `links` and what one edge adds: the first edge between two communities
    /// represents the pair.
    pub open spec fn link_across(self, links: Seq<CrossLink>, src: u64, ca: u32, e: EdgeV) -> Seq<
        CrossLink,
    > {
        match e.dst {
            Some(dst) => match self.community(dst) {
                Some(cb) => {
                    let low = lesser(ca, cb);
                    let high = greater(ca, cb);
                    if ca == cb || has_pair(links, low, high) {
                        links
                    } else {
                        links.push(
                            CrossLink {
                                low,
                                high,
                                src,
                                dst: e.dst_key,
                                weight: e.weight,
                                inferred: e.flags & eflags::INFERRED != 0,
                            },
                        )
                    }
                },
                None => links,
            },
            None => links,
        }
    }

    pub open spec fn links_across(
        self,
        links: Seq<CrossLink>,
        src: u64,
        ca: u32,
        es: Seq<EdgeV>,
    ) -> Seq<CrossLink>
        decreases es.len(),
    {
        if es.len() == 0 {
            links
        } else {
            self.link_across(
                self.links_across(links, src, ca, es.drop_last()),
                src,
                ca,
                es.last(),
            )
        }
    }

    /// One representative per pair of communities among the edges of the first
    /// `i` nodes.
    pub open spec fn cross_links(self, i: int) -> Seq<CrossLink>
        decreases i,
    {
        if i <= 0 {
            Seq::empty()
        } else {
            let pre = self.cross_links(i - 1);
            match self.community((i - 1) as u32) {
                Some(ca) => {
                    let src = node_row(self.t, i - 1).url_key;
                    self.links_across(pre, src, ca, self.edges(src))
                },
                None => pre,
            }
        }
    }
}

/// A pair of communities as one number.
spec fn pair_code(low: u32, high: u32) -> u64 {
    (low * 0x1_0000_0000 + high) as u64
}

/// The codes are those of the pairs that are represented.
spec fn codes_pairs(seen: Map<u64, bool>, links: Seq<CrossLink>) -> bool {
    forall|low: u32, high: u32|
        seen.contains_key(#[trigger] pair_code(low, high)) <==> has_pair(links, low, high)
}

proof fn lemma_pair_code(a: u32, b: u32, c: u32, d: u32)
    ensures
        pair_code(a, b) == pair_code(c, d) ==> a == c && b == d,
        pair_code(a, b) == a * 0x1_0000_0000 + b,
{
    assert(a * 0x1_0000_0000 + b <= u64::MAX);
    assert(c * 0x1_0000_0000 + d <= u64::MAX);
}

fn add_link(links: &mut Vec<CrossLink>, seen: &mut HashMap<u64, bool>, link: CrossLink)
    requires
        codes_pairs(old(seen)@, old(links)@),
    ensures
        final(links)@ == (if has_pair(old(links)@, link.low, link.high) {
            old(links)@
        } else {
            old(links)@.push(link)
        }),
        codes_pairs(final(seen)@, final(links)@),
{
    let ghost was = links@;
    let ghost known = seen@;
    proof {
        lemma_pair_code(link.low, link.high, 0, 0);
    }
    let code: u64 = link.low as u64 * 0x1_0000_0000 + link.high as u64;
    assert(code == pair_code(link.low, link.high));
    if seen.contains_key(&code) {
        return ;
    }
    seen.insert(code, true);
    links.push(link);
    proof {
        assert forall|low: u32, high: u32|
            seen@.contains_key(#[trigger] pair_code(low, high)) <==> has_pair(
                links@,
                low,
                high,
            ) by {
            lemma_pair_code(low, high, link.low, link.high);
            if has_pair(links@, low, high) {
                let x = choose|x: int|
                    0 <= x < links@.len() && (#[trigger] links@[x]).low == low && links@[x].high
                        == high;
                if x < was.len() {
                    assert(was[x] == links@[x]);
                    assert(has_pair(was, low, high));
                }
            }
            if has_pair(was, low, high) {
                let x = choose|x: int|
                    0 <= x < was.len() && (#[trigger] was[x]).low == low && was[x].high == high;
                assert(links@[x] == was[x]);
            }
            if low == link.low && high == link.high {
                assert(links@[was.len() as int] == link);
            }
        }
    }
}

impl<'s> Snapshot<'s> {
    /// Cross-community edges, one representative per community pair: the first
    /// met, by ascending node id.
    pub fn cross_links(&self) -> (r: Vec<CrossLink>)
        requires
            self.wf(),
        ensures
            r@ == self.graph().cross_links(self.graph().n()),
    {
        let ghost g = self.graph();
        let n: usize = self.base_len();
        let mut links: Vec<CrossLink> = Vec::new();
        let mut seen: HashMap<u64, bool> = HashMap::new();
        let mut i: usize = 0;
        assert(codes_pairs(seen@, links@));
        while i < n
            invariant
                self.wf(),
                g == self.graph(),
                i <= n == g.n(),
                n <= u32::MAX,
                links@ == g.cross_links(i as int),
                codes_pairs(seen@, links@),
            decreases n - i,
        {
            let id: NodeId = NodeId(i as u32);
            match self.community_of(id) {
                Some(ca) => {
                    let src: UrlKey = self.rec(id).url_key();
                    let edges: Vec<EdgeRef<'_>> = self.neighbors(src).collect();
                    let ghost es = g.edges(src.0);
                    let ghost pre = links@;
                    let m: usize = edges.len();
                    let mut j: usize = 0;
                    assert(m == es.len());
                    assert(es.take(0) =~= Seq::empty());
                    while j < m
                        invariant
                            self.wf(),
                            g == self.graph(),
                            j <= m == edges@.len(),
                            m == es.len(),
                            edges_view(edges@) == es,
                            links@ == g.links_across(pre, src.0, ca, es.take(j as int)),
                            codes_pairs(seen@, links@),
                        decreases m - j,
                    {
                        let e: EdgeRef<'_> = edges[j];
                        assert(es[j as int] == e@);
                        assert(es.take(j + 1).drop_last() =~= es.take(j as int));
                        match e.dst {
                            Some(dst) => match self.community_of(dst) {
                                Some(cb) => {
                                    if ca != cb {
                                        let (low, high): (u32, u32) = if ca <= cb {
                                            (ca, cb)
                                        } else {
                                            (cb, ca)
                                        };
                                        add_link(
                                            &mut links,
                                            &mut seen,
                                            CrossLink {
                                                low,
                                                high,
                                                src: src.0,
                                                dst: e.dst_key.0,
                                                weight: e.weight,
                                                inferred: e.is_inferred(),
                                            },
                                        );
                                    }
                                },
                                None => {},
                            },
                            None => {},
                        }
                        j = j + 1;
                    }
                    assert(es.take(m as int) =~= es);
                },
                None => {},
            }
            i = i + 1;
        }
        links
    }
}

/// Links by descending score, then by ascending source, then as they came. The
/// third number says which link it is.
pub open spec fn link_rows(links: Seq<CrossLink>, scores: Seq<u32>) -> Seq<Row> {
    Seq::new(
        links.len(),
        |i: int| ((u32::MAX - scores[i]) as u64, links[i].src, i as u64, 0u64),
    )
}

impl GraphV {
    /// The two ends of each link of `rows`, if both are nodes.
    pub open spec fn link_hits(self, links: Seq<CrossLink>, rows: Seq<Row>) -> Seq<(HitV, HitV)>
        decreases rows.len(),
    {
        if rows.len() == 0 {
            Seq::empty()
        } else {
            let pre = self.link_hits(links, rows.drop_last());
            let r = rows.last();
            let link = links[r.2 as int];
            let score = (u32::MAX - r.0) as u32;
            match (self.node(link.src), self.node(link.dst)) {
                (Some(a), Some(b)) => pre.push(
                    (hit_on(a, None, score, false), hit_on(b, None, score, false)),
                ),
                _ => pre,
            }
        }
    }
}

proof fn lemma_link_row(links: Seq<CrossLink>, scores: Seq<u32>, j: int)
    requires
        links.len() <= usize::MAX,
        0 <= j < arranged(link_rows(links, scores)).len(),
    ensures
        arranged(link_rows(links, scores))[j].2 < links.len(),
        arranged(link_rows(links, scores))[j].0 <= u32::MAX,
{
    let rows = link_rows(links, scores);
    lemma_arranged_from(rows, j);
    let x = choose|x: int| 0 <= x < rows.len() && rows[x] == arranged(rows)[j];
    assert(rows[x] == ((u32::MAX - scores[x]) as u64, links[x].src, x as u64, 0u64));
}

pub open spec fn pairs_view<'s>(pairs: Seq<(Hit<'s>, Hit<'s>)>) -> Seq<(HitV, HitV)> {
    pairs.map_values(|p: (Hit<'s>, Hit<'s>)| (p.0@, p.1@))
}

impl<'s> Snapshot<'s> {
    /// The connections most likely to be surprising, strongest first, given
    /// the score of each cross-community link: at most `k` links are looked
    /// at, and one with an end that is no node any more is left out.
    pub fn surprises(&self, links: &Vec<CrossLink>, scores: &[u32], k: usize) -> (r: Vec<
        (Hit<'_>, Hit<'_>),
    >)
        requires
            self.wf(),
            scores@.len() == links@.len(),
        ensures
            ({
                let rows = arranged(link_rows(links@, scores@));
                pairs_view(r@) == self.graph().link_hits(
                    links@,
                    rows.take(min_nat(k as nat, rows.len()) as int),
                )
            }),
    {
        let ghost g = self.graph();
        let n: usize = links.len();
        let mut rows: Vec<Row> = Vec::with_capacity(n);
        let mut i: usize = 0;
        while i < n
            invariant
                i <= n == links@.len(),
                n == scores@.len(),
                rows@.len() == i,
                forall|j: int| 0 <= j < i ==> #[trigger] rows@[j] == link_rows(links@, scores@)[j],
            decreases n - i,
        {
            rows.push(((0xffff_ffff - scores[i]) as u64, links[i].src, i as u64, 0));
            i = i + 1;
        }
        assert(rows@ =~= link_rows(links@, scores@));
        arrange(&mut rows);
        proof {
            assert forall|j: int| 0 <= j < rows@.len() implies (#[trigger] rows@[j]).2 < n
                && rows@[j].0 <= u32::MAX by {
                lemma_link_row(links@, scores@, j);
            }
        }
        let most: usize = if k < n {
            k
        } else {
            n
        };
        let ghost first = rows@.take(most as int);
        let mut out: Vec<(Hit<'_>, Hit<'_>)> = Vec::new();
        let mut i: usize = 0;
        assert(first.take(0) =~= Seq::empty());
        assert(pairs_view(out@) =~= Seq::empty());
        while i < most
            invariant
                self.wf(),
                g == self.graph(),
                i <= most <= rows@.len(),
                n == links@.len(),
                first == rows@.take(most as int),
                forall|j: int|
                    0 <= j < rows@.len() ==> (#[trigger] rows@[j]).2 < n && rows@[j].0 <= u32::MAX,
                pairs_view(out@) == g.link_hits(links@, first.take(i as int)),
            decreases most - i,
        {
            let row: Row = rows[i];
            assert(first.take(i + 1).drop_last() =~= first.take(i as int));
            let link: CrossLink = links[row.2 as usize];
            let score: u32 = 0xffff_ffff - row.0 as u32;
            match (self.node(UrlKey(link.src)), self.node(UrlKey(link.dst))) {
                (Some(a), Some(b)) => {
                    let ghost was = out@;
                    let pair: (Hit<'_>, Hit<'_>) = (
                        make_hit(&a, None, score, false),
                        make_hit(&b, None, score, false),
                    );
                    out.push(pair);
                    assert(pairs_view(out@) =~= pairs_view(was).push((pair.0@, pair.1@)));
                },
                _ => {},
            }
            i = i + 1;
        }
        assert(first.take(most as int) =~= first);
        out
    }
}

/// No pair of communities is represented twice, and no link stays within one
/// community.
pub proof fn law_one_link_per_pair(g: GraphV, n: int)
    ensures
        forall|i: int, j: int|
            0 <= i < j < g.cross_links(n).len() ==> (#[trigger] g.cross_links(n)[i]).low != (
            #[trigger] g.cross_links(n)[j]).low || g.cross_links(n)[i].high
                != g.cross_links(n)[j].high,
        forall|i: int|
            0 <= i < g.cross_links(n).len() ==> (#[trigger] g.cross_links(n)[i]).low
                < g.cross_links(n)[i].high,
{
    lemma_links_distinct(g, n);
    let links = g.cross_links(n);
    assert(pairs_distinct(links));
    assert forall|i: int, j: int| 0 <= i < j < g.cross_links(n).len() implies (
    #[trigger] g.cross_links(n)[i]).low != (#[trigger] g.cross_links(n)[j]).low || g.cross_links(
        n,
    )[i].high != g.cross_links(n)[j].high by {
        assert(links[i].low != links[j].low || links[i].high != links[j].high);
    }
}

proof fn lemma_links_distinct(g: GraphV, n: int)
    ensures
        pairs_distinct(g.cross_links(n)),
    decreases n,
{
    if n > 0 {
        lemma_links_distinct(g, n - 1);
        if let Some(ca) = g.community((n - 1) as u32) {
            let src = node_row(g.t, n - 1).url_key;
            lemma_one_per_pair(g, g.cross_links(n - 1), src, ca, g.edges(src));
        }
    }
}

spec fn pairs_distinct(links: Seq<CrossLink>) -> bool {
    &&& forall|i: int, j: int|
        0 <= i < j < links.len() ==> (#[trigger] links[i]).low != (#[trigger] links[j]).low
            || links[i].high != links[j].high
    &&& forall|i: int| 0 <= i < links.len() ==> (#[trigger] links[i]).low < links[i].high
}

proof fn lemma_one_per_pair(g: GraphV, links: Seq<CrossLink>, src: u64, ca: u32, es: Seq<EdgeV>)
    requires
        pairs_distinct(links),
    ensures
        pairs_distinct(g.links_across(links, src, ca, es)),
    decreases es.len(),
{
    if es.len() > 0 {
        lemma_one_per_pair(g, links, src, ca, es.drop_last());
    }
}

} // verus!
