//! What a lookup answers, in which order, and how a community is summed up.
#[allow(unused_imports)]
use super::lookup::begins;
#[allow(unused_imports)]
use crate::format::base::dir::node_row;
#[allow(unused_imports)]
use crate::format::base::nflags;
#[allow(unused_imports)]
use crate::model::{lemma_node_key, AnchorV, EdgeV, GraphV};
#[allow(unused_imports)]
use crate::order::{arranged, law_arranged_rows_ascend, Row};
#[allow(unused_imports)]
use crate::query::{
    answer_tokens, best_seg, entry_tokens, label_meeting, meeting, meets, ranked, related_rows,
    Candidate, HitV, SpotV,
};
#[allow(unused_imports)]
use crate::tokens::text_tokens;
use vstd::prelude::*;
#[allow(unused_imports)]
use vstd::utf8::*;

verus! {

// ---- anchors --------------------------------------------------------------

/// How many tokens of a heading a query meets: those that begin with one of
/// its terms. Each token counts by itself.
pub proof fn law_meeting_counts_tokens(
    a: Seq<Seq<char>>,
    t: Seq<char>,
    terms: Seq<Seq<char>>,
)
    ensures
        meeting(Seq::empty(), terms) == 0,
        meeting(a.push(t), terms) == meeting(a, terms) + (if exists|i: int|
            0 <= i < terms.len() && begins(encode_utf8(t), encode_utf8(#[trigger] terms[i])) {
            1nat
        } else {
            0nat
        }),
        forall|s: AnchorV| #[trigger]
            label_meeting(s, terms) == meeting(text_tokens(s.label), terms),
{
    assert(a.push(t).drop_last() =~= a);
    let hay = encode_utf8(t);
    if meets(t, terms) {
        let i = choose|i: int|
            0 <= i < terms.len() && crate::matching::stands_at(
                hay,
                encode_utf8(#[trigger] terms[i]),
                0,
            );
        let needle = encode_utf8(terms[i]);
        assert(hay =~= needle + hay.skip(needle.len() as int));
        assert(begins(hay, encode_utf8(terms[i])));
    }
    if exists|i: int| 0 <= i < terms.len() && begins(hay, encode_utf8(#[trigger] terms[i])) {
        let i = choose|i: int| 0 <= i < terms.len() && begins(hay, encode_utf8(#[trigger] terms[i]));
        let needle = encode_utf8(terms[i]);
        assert(hay.subrange(0, needle.len() as int) =~= needle);
        assert(crate::matching::stands_at(hay, encode_utf8(terms[i]), 0));
    }
}

/// The anchor of a hit is the heading that meets the query best: with the most
/// tokens, among those the most important, among those the first. There is none
/// only if no heading meets it at all.
pub proof fn law_the_best_heading_is_the_anchor(g: GraphV, key: u64, terms: Seq<Seq<char>>)
    ensures
        ({
            let segs = g.segs(key);
            match g.best_anchor(key, terms) {
                Some(a) => exists|b: int| #[trigger] is_best_heading(segs, terms, b, a),
                None => forall|j: int|
                    0 <= j < segs.len() ==> meeting(
                        text_tokens((#[trigger] segs[j]).label),
                        terms,
                    ) == 0,
            }
        }),
{
    let segs = g.segs(key);
    lemma_best_seg(segs, terms, segs.len() as int);
    if let Some(b) = best_seg(segs, terms, segs.len() as int) {
        assert(is_best_heading(segs, terms, b, g.best_anchor(key, terms)->0));
    } else {
        assert forall|j: int| 0 <= j < segs.len() implies meeting(
            text_tokens((#[trigger] segs[j]).label),
            terms,
        ) == 0 by {
            assert(label_meeting(segs[j], terms) == 0);
        }
    }
}

/// `a` is the heading `b` of `segs`, and none meets the terms better.
pub open spec fn is_best_heading(
    segs: Seq<AnchorV>,
    terms: Seq<Seq<char>>,
    b: int,
    a: SpotV,
) -> bool {
    let best = meeting(text_tokens(segs[b].label), terms);
    &&& 0 <= b < segs.len()
    &&& a.label == segs[b].label
    &&& a.byte_range == segs[b].byte_range
    &&& a.importance == segs[b].importance
    &&& best > 0
    &&& forall|j: int|
        0 <= j < segs.len() ==> {
            let m = meeting(text_tokens((#[trigger] segs[j]).label), terms);
            ||| m < best
            ||| m == best && segs[j].importance < segs[b].importance
            ||| m == best && segs[j].importance == segs[b].importance && b <= j
        }
}

proof fn lemma_best_seg(segs: Seq<AnchorV>, terms: Seq<Seq<char>>, i: int)
    requires
        0 <= i <= segs.len(),
    ensures
        match best_seg(segs, terms, i) {
            Some(b) => {
                &&& 0 <= b < i
                &&& label_meeting(segs[b], terms) > 0
                &&& forall|j: int|
                    0 <= j < i ==> {
                        let m = label_meeting(#[trigger] segs[j], terms);
                        let best = label_meeting(segs[b], terms);
                        ||| m < best
                        ||| m == best && segs[j].importance < segs[b].importance
                        ||| m == best && segs[j].importance == segs[b].importance && b <= j
                    }
            },
            None => forall|j: int| 0 <= j < i ==> label_meeting(#[trigger] segs[j], terms) == 0,
        },
    decreases i,
{
    if i > 0 {
        lemma_best_seg(segs, terms, i - 1);
    }
}

// ---- cost -----------------------------------------------------------------

pub open spec fn bytes_of(s: Option<Seq<char>>) -> nat {
    match s {
        Some(t) => encode_utf8(t).len(),
        None => 0,
    }
}

/// An entry costs a token for every four bytes begun: of its URL, title and
/// snippet and its anchor's label, with twelve more for an anchor and sixteen
/// for the entry itself.
pub proof fn law_entries_cost_a_token_per_four_bytes(
    url: Seq<char>,
    title: Option<Seq<char>>,
    snippet: Option<Seq<char>>,
    anchor: Option<SpotV>,
)
    ensures
        ({
            let bytes = encode_utf8(url).len() + bytes_of(title) + bytes_of(snippet) + (match anchor {
                Some(a) => encode_utf8(a.label).len() + 12,
                None => 0,
            }) + 16;
            let cost = entry_tokens(url, title, snippet, anchor);
            bytes <= u32::MAX ==> 4 * (cost - 1) < bytes <= 4 * cost
        }),
{
}

/// The cost of an answer is the cost of its entries.
pub proof fn law_answers_cost_what_their_entries_cost(hits: Seq<HitV>, h: HitV)
    ensures
        answer_tokens(Seq::empty()) == 0,
        answer_tokens(hits.push(h)) == answer_tokens(hits) + entry_tokens(
            h.url,
            h.title,
            h.snippet,
            h.anchor,
        ),
{
    assert(hits.push(h).drop_last() =~= hits);
}

// ---- ranking --------------------------------------------------------------

/// Seeds rank before all others, then higher scores before lower ones, then
/// smaller keys before larger ones; and ranking keeps every candidate.
pub proof fn law_seeds_rank_first(cs: Seq<Candidate>)
    ensures
        ranked(cs).len() == cs.len(),
        forall|c: Candidate| #[trigger] ranked(cs).contains(c) <==> cs.contains(c),
        forall|i: int, j: int|
            0 <= i < j < cs.len() ==> {
                let a = #[trigger] ranked(cs)[i];
                let b = #[trigger] ranked(cs)[j];
                ||| a.seed && !b.seed
                ||| a.seed == b.seed && a.score > b.score
                ||| a.seed == b.seed && a.score == b.score && a.key <= b.key
            },
{
    crate::query::law_ranking_keeps_the_candidates(cs);
    let rows = crate::query::candidate_rows(cs);
    law_arranged_rows_ascend(rows);
    let sorted = arranged(rows);
    assert forall|i: int| 0 <= i < sorted.len() implies {
        let r = #[trigger] sorted[i];
        let c = ranked(cs)[i];
        &&& r.0 == (if c.seed {
            0
        } else {
            1int
        })
        &&& r.1 == u32::MAX - c.score
        &&& r.2 == c.key
    } by {
        assert(sorted.contains(sorted[i]));
        let x = choose|x: int| 0 <= x < rows.len() && rows[x] == sorted[i];
        assert(rows[x] == crate::query::candidate_row(cs[x]));
    }
    assert forall|i: int, j: int| 0 <= i < j < cs.len() implies {
        let a = #[trigger] ranked(cs)[i];
        let b = #[trigger] ranked(cs)[j];
        ||| a.seed && !b.seed
        ||| a.seed == b.seed && a.score > b.score
        ||| a.seed == b.seed && a.score == b.score && a.key <= b.key
    } by {
        let x = sorted[i];
        let y = sorted[j];
    }
}

/// A base node may be reported if its record is of a document that was there,
/// and it was neither removed nor found gone since.
pub proof fn law_reportable(g: GraphV, id: u32)
    ensures
        ({
            let f = node_row(g.t, id as int);
            g.is_reportable(id) <==> f.flags & nflags::TOMBSTONE == 0 && f.flags & nflags::STUB == 0
                && g.node(f.url_key) is Some && g.node(f.url_key)->0.flags & nflags::TOMBSTONE == 0
        }),
{
}

/// What may be answered: an arrival that may be reported, with its key, its
/// fused score and whether it is a seed; and every fresh node, as a seed with
/// its score. Nothing else.
pub proof fn law_candidates(
    g: GraphV,
    arrivals: Seq<(u32, u32)>,
    seeds: Seq<u32>,
    fused: Seq<u32>,
    fresh: Seq<(u64, u32)>,
    c: Candidate,
)
    ensures
        g.candidates(arrivals, seeds, fused, fresh).contains(c) <==> {
            ||| exists|a: int|
                0 <= a < arrivals.len() && g.is_reportable((#[trigger] arrivals[a]).0) && c.key
                    == node_row(g.t, arrivals[a].0 as int).url_key && c.score == fused[a]
                    && c.seed == seeds.contains(arrivals[a].0)
            ||| exists|f: int|
                0 <= f < fresh.len() && c.key == (#[trigger] fresh[f]).0 && c.score == fresh[f].1
                    && c.seed
        },
{
    let base = g.base_candidates(arrivals, seeds, fused);
    let all = g.candidates(arrivals, seeds, fused, fresh);
    lemma_base_has(g, arrivals, seeds, fused, c);
    if all.contains(c) {
        let i = choose|i: int| 0 <= i < all.len() && all[i] == c;
        if i < base.len() {
            assert(base[i] == c);
        } else {
            let f = i - base.len();
            assert(c.key == fresh[f].0 && c.score == fresh[f].1 && c.seed);
        }
    }
    if base.contains(c) {
        let i = choose|i: int| 0 <= i < base.len() && base[i] == c;
        assert(all[i] == c);
    }
    if exists|f: int|
        0 <= f < fresh.len() && c.key == (#[trigger] fresh[f]).0 && c.score == fresh[f].1 && c.seed {
        let f = choose|f: int|
            0 <= f < fresh.len() && c.key == (#[trigger] fresh[f]).0 && c.score == fresh[f].1
                && c.seed;
        assert(all[base.len() + f] == c);
    }
}

proof fn lemma_base_has(
    g: GraphV,
    arrivals: Seq<(u32, u32)>,
    seeds: Seq<u32>,
    fused: Seq<u32>,
    c: Candidate,
)
    ensures
        g.base_candidates(arrivals, seeds, fused).contains(c) <==> exists|a: int|
            0 <= a < arrivals.len() && g.is_reportable((#[trigger] arrivals[a]).0) && c.key
                == node_row(g.t, arrivals[a].0 as int).url_key && c.score == fused[a] && c.seed
                == seeds.contains(arrivals[a].0),
    decreases arrivals.len(),
{
    let all = g.base_candidates(arrivals, seeds, fused);
    if arrivals.len() > 0 {
        let less = arrivals.drop_last();
        let pre = g.base_candidates(less, seeds, fused);
        let last = arrivals.len() - 1;
        lemma_base_has(g, less, seeds, fused, c);
        if pre.contains(c) {
            let i = choose|i: int| 0 <= i < pre.len() && pre[i] == c;
            assert(all[i] == c);
            let a = choose|a: int|
                0 <= a < less.len() && g.is_reportable((#[trigger] less[a]).0) && c.key == node_row(
                    g.t,
                    less[a].0 as int,
                ).url_key && c.score == fused[a] && c.seed == seeds.contains(less[a].0);
            assert(arrivals[a] == less[a]);
        }
        if all.contains(c) && !pre.contains(c) {
            let i = choose|i: int| 0 <= i < all.len() && all[i] == c;
            if i < pre.len() {
                assert(pre[i] == c);
            }
            assert(g.is_reportable(arrivals[last].0));
        }
        if exists|a: int|
            0 <= a < arrivals.len() && g.is_reportable((#[trigger] arrivals[a]).0) && c.key
                == node_row(g.t, arrivals[a].0 as int).url_key && c.score == fused[a] && c.seed
                == seeds.contains(arrivals[a].0) {
            let a = choose|a: int|
                0 <= a < arrivals.len() && g.is_reportable((#[trigger] arrivals[a]).0) && c.key
                    == node_row(g.t, arrivals[a].0 as int).url_key && c.score == fused[a]
                    && c.seed == seeds.contains(arrivals[a].0);
            if a < last {
                assert(less[a] == arrivals[a]);
            } else {
                assert(all[pre.len() as int] == c);
            }
        }
    }
}

// ---- rendering ------------------------------------------------------------

/// A hit shows the node of a candidate: its key, URL, title and snippet, the
/// best heading as its anchor, and the candidate's score and mark.
pub open spec fn is_hit_on(g: GraphV, h: HitV, c: Candidate, terms: Seq<Seq<char>>) -> bool {
    &&& g.node(c.key) is Some
    &&& h.key == c.key
    &&& h.url == g.node(c.key)->0.url
    &&& h.title == g.node(c.key)->0.title
    &&& h.snippet == g.node(c.key)->0.snippet
    &&& h.anchor == g.best_anchor(c.key, terms)
    &&& h.score == c.score
    &&& h.seed == c.seed
}

/// The hits are those on the candidates at `at`, in order: all up to `upto`
/// that are nodes. Either that is all, or the limit is reached, or the next
/// node would exceed the budget.
pub open spec fn is_answer(
    g: GraphV,
    cs: Seq<Candidate>,
    terms: Seq<Seq<char>>,
    limit: nat,
    budget: nat,
    at: Seq<int>,
    upto: int,
) -> bool {
    let hits = g.answer(cs, terms, limit, budget).hits;
    &&& at.len() == hits.len()
    &&& 0 <= upto <= cs.len()
    &&& forall|i: int|
        0 <= i < at.len() ==> 0 <= #[trigger] at[i] < upto && is_hit_on(g, hits[i], cs[at[i]], terms)
    &&& forall|i: int, j: int| 0 <= i < j < at.len() ==> #[trigger] at[i] < #[trigger] at[j]
    &&& forall|x: int| 0 <= x < upto && g.node((#[trigger] cs[x]).key) is Some ==> at.contains(x)
    &&& {
        ||| upto == cs.len()
        ||| hits.len() >= limit
        ||| {
            let n = g.node(cs[upto].key);
            &&& n is Some
            &&& answer_tokens(hits) + entry_tokens(
                n->0.url,
                n->0.title,
                n->0.snippet,
                g.best_anchor(cs[upto].key, terms),
            ) > budget
        }
    }
}

/// An answer renders candidates in their order, each node with all that it
/// shows, and leaves none out before it is full: the limit is reached, or the
/// next entry would not fit the budget.
pub proof fn law_answers_render_all_that_fits(
    g: GraphV,
    cs: Seq<Candidate>,
    terms: Seq<Seq<char>>,
    limit: nat,
    budget: nat,
)
    ensures
        exists|at: Seq<int>, upto: int| #[trigger] is_answer(g, cs, terms, limit, budget, at, upto),
        answer_tokens(g.answer(cs, terms, limit, budget).hits) <= budget,
        g.answer(cs, terms, limit, budget).hits.len() <= limit,
{
    crate::query::law_answer_keeps_its_budget(g, cs, terms, limit, budget);
    let (at, upto) = lemma_answer(g, cs, terms, limit, budget);
}

#[verifier::spinoff_prover]
#[verifier::rlimit(60)]
proof fn lemma_answer(
    g: GraphV,
    cs: Seq<Candidate>,
    terms: Seq<Seq<char>>,
    limit: nat,
    budget: nat,
) -> (r: (Seq<int>, int))
    ensures
        is_answer(g, cs, terms, limit, budget, r.0, r.1),
        !g.answer(cs, terms, limit, budget).done ==> r.1 == cs.len(),
        g.answer(cs, terms, limit, budget).done ==> r.1 < cs.len(),
    decreases cs.len(),
{
    if cs.len() == 0 {
        (Seq::empty(), 0)
    } else {
        let less = cs.drop_last();
        let last = cs.len() - 1;
        let (at, upto) = lemma_answer(g, less, terms, limit, budget);
        let pre = g.answer(less, terms, limit, budget);
        let now = g.answer(cs, terms, limit, budget);
        crate::query::law_answer_keeps_its_budget(g, less, terms, limit, budget);
        assert(forall|x: int| 0 <= x < less.len() ==> (#[trigger] cs[x]) == less[x]);
        assert forall|i: int| 0 <= i < at.len() implies 0 <= #[trigger] at[i] < upto && is_hit_on(
            g,
            pre.hits[i],
            cs[at[i]],
            terms,
        ) by {
            assert(cs[at[i]] == less[at[i]]);
        }
        assert forall|x: int| 0 <= x < upto && g.node((#[trigger] cs[x]).key) is Some implies at.contains(
            x,
        ) by {
            assert(g.node(less[x].key) is Some);
        }
        if now.hits.len() > pre.hits.len() {
            crate::model::lemma_node_key(g, cs.last().key);
            let more = at.push(last);
            assert(more[at.len() as int] == last);
            assert forall|x: int| 0 <= x < cs.len() && g.node((#[trigger] cs[x]).key) is Some implies more.contains(
                x,
            ) by {
                if x < last {
                    assert(at.contains(x));
                    let y = choose|y: int| 0 <= y < at.len() && at[y] == x;
                    assert(more[y] == x);
                }
            }
            assert(is_answer(g, cs, terms, limit, budget, more, cs.len() as int));
            (more, cs.len() as int)
        } else if now.done {
            if pre.done {
                assert(cs[upto] == less[upto]);
            }
            assert(is_answer(g, cs, terms, limit, budget, at, upto));
            (at, upto)
        } else {
            assert(is_answer(g, cs, terms, limit, budget, at, cs.len() as int));
            (at, cs.len() as int)
        }
    }
}

// ---- related documents ----------------------------------------------------

/// `key` is a live document: there, no stub, and not gone.
pub open spec fn is_live(g: GraphV, key: u64) -> bool {
    g.node(key) is Some && g.node(key)->0.flags & nflags::STUB == 0 && g.node(key)->0.flags
        & nflags::TOMBSTONE == 0
}

/// Related documents are live targets of edges, each with the score of its edge,
/// at most `k`, strongest first and then by key; a live target that is left out
/// comes after all that are not.
pub proof fn law_related_documents(g: GraphV, edges: Seq<EdgeV>, scores: Seq<u32>, k: nat)
    requires
        scores.len() == edges.len(),
    ensures
        ({
            let hits = g.related_hits(arranged(related_rows(edges, scores)), k);
            &&& hits.len() <= k
            &&& forall|i: int|
                0 <= i < hits.len() ==> {
                    let h = #[trigger] hits[i];
                    &&& is_live(g, h.key)
                    &&& h.url == g.node(h.key)->0.url
                    &&& h.title == g.node(h.key)->0.title
                    &&& h.snippet == g.node(h.key)->0.snippet
                    &&& h.anchor is None
                    &&& !h.seed
                    &&& exists|e: int|
                        0 <= e < edges.len() && (#[trigger] edges[e]).dst_key == h.key && scores[e]
                            == h.score
                }
            &&& forall|i: int, j: int|
                0 <= i < j < hits.len() ==> {
                    let a = #[trigger] hits[i];
                    let b = #[trigger] hits[j];
                    a.score > b.score || (a.score == b.score && a.key <= b.key)
                }
            &&& forall|e: int|
                0 <= e < edges.len() && is_live(g, (#[trigger] edges[e]).dst_key) ==> {
                    ||| exists|i: int|
                        0 <= i < hits.len() && (#[trigger] hits[i]).key == edges[e].dst_key
                            && hits[i].score == scores[e]
                    ||| hits.len() == k && forall|i: int|
                        0 <= i < hits.len() ==> (#[trigger] hits[i]).score > scores[e] || (
                        hits[i].score == scores[e] && hits[i].key <= edges[e].dst_key)
                }
        }),
{
    let rows = related_rows(edges, scores);
    let sorted = arranged(rows);
    let hits = g.related_hits(sorted, k);
    law_arranged_rows_ascend(rows);
    assert forall|i: int| 0 <= i < sorted.len() implies (#[trigger] sorted[i]).0 <= u32::MAX
        && sorted[i].2 == 0 && sorted[i].3 == 0 && exists|e: int|
        0 <= e < edges.len() && (#[trigger] edges[e]).dst_key == sorted[i].1 && scores[e] == (
        u32::MAX - sorted[i].0) by {
        assert(sorted.contains(sorted[i]));
        let e = choose|e: int| 0 <= e < rows.len() && rows[e] == sorted[i];
        assert(edges[e].dst_key == sorted[i].1);
    }
    lemma_related(g, sorted, k);
    assert forall|i: int| 0 <= i < hits.len() implies {
        let h = #[trigger] hits[i];
        &&& is_live(g, h.key)
        &&& h.url == g.node(h.key)->0.url
        &&& h.title == g.node(h.key)->0.title
        &&& h.snippet == g.node(h.key)->0.snippet
        &&& h.anchor is None
        &&& !h.seed
        &&& exists|e: int|
            0 <= e < edges.len() && (#[trigger] edges[e]).dst_key == h.key && scores[e] == h.score
    } by {
        let x = choose|x: int|
            0 <= x < sorted.len() && (#[trigger] sorted[x]).1 == hits[i].key && hits[i].score
                == u32::MAX - sorted[x].0;
        let e = choose|e: int|
            0 <= e < edges.len() && (#[trigger] edges[e]).dst_key == sorted[x].1 && scores[e] == (
            u32::MAX - sorted[x].0);
        assert(edges[e].dst_key == hits[i].key);
    }
    assert forall|e: int| 0 <= e < edges.len() && is_live(g, (#[trigger] edges[e]).dst_key) implies {
        ||| exists|i: int|
            0 <= i < hits.len() && (#[trigger] hits[i]).key == edges[e].dst_key && hits[i].score
                == scores[e]
        ||| hits.len() == k && forall|i: int|
            0 <= i < hits.len() ==> (#[trigger] hits[i]).score > scores[e] || (hits[i].score
                == scores[e] && hits[i].key <= edges[e].dst_key)
    } by {
        assert(rows[e] == ((u32::MAX - scores[e]) as u64, edges[e].dst_key, 0u64, 0u64));
        assert(rows.contains(rows[e]));
        assert(sorted.contains(rows[e]));
        let x = choose|x: int| 0 <= x < sorted.len() && sorted[x] == rows[e];
        assert(is_live(g, sorted[x].1));
    }
}

/// What the first live targets are, of rows in order.
#[verifier::spinoff_prover]
#[verifier::rlimit(60)]
proof fn lemma_related(g: GraphV, rows: Seq<Row>, k: nat)
    requires
        forall|i: int|
            0 <= i < rows.len() ==> (#[trigger] rows[i]).0 <= u32::MAX && rows[i].2 == 0
                && rows[i].3 == 0,
        forall|i: int, j: int|
            0 <= i < j < rows.len() ==> (#[trigger] rows[i]).0 < (#[trigger] rows[j]).0 || (
            rows[i].0 == rows[j].0 && rows[i].1 <= rows[j].1),
    ensures
        ({
            let hits = g.related_hits(rows, k);
            &&& hits.len() <= k
            &&& forall|i: int|
                0 <= i < hits.len() ==> {
                    let h = #[trigger] hits[i];
                    &&& is_live(g, h.key)
                    &&& h.url == g.node(h.key)->0.url
                    &&& h.title == g.node(h.key)->0.title
                    &&& h.snippet == g.node(h.key)->0.snippet
                    &&& h.anchor is None
                    &&& !h.seed
                    &&& exists|x: int|
                        0 <= x < rows.len() && (#[trigger] rows[x]).1 == h.key && h.score == u32::MAX
                            - rows[x].0
                }
            &&& forall|i: int, j: int|
                0 <= i < j < hits.len() ==> {
                    let a = #[trigger] hits[i];
                    let b = #[trigger] hits[j];
                    a.score > b.score || (a.score == b.score && a.key <= b.key)
                }
            &&& forall|x: int|
                0 <= x < rows.len() && is_live(g, (#[trigger] rows[x]).1) ==> {
                    ||| exists|i: int|
                        0 <= i < hits.len() && (#[trigger] hits[i]).key == rows[x].1
                            && hits[i].score == u32::MAX - rows[x].0
                    ||| hits.len() == k && forall|i: int|
                        0 <= i < hits.len() ==> (#[trigger] hits[i]).score > u32::MAX - rows[x].0
                            || (hits[i].score == u32::MAX - rows[x].0 && hits[i].key <= rows[x].1)
                }
        }),
    decreases rows.len(),
{
    if rows.len() > 0 {
        let less = rows.drop_last();
        let last = rows.len() - 1;
        let r = rows.last();
        assert(forall|i: int| 0 <= i < less.len() ==> (#[trigger] less[i]) == rows[i]);
        lemma_related(g, less, k);
        let pre = g.related_hits(less, k);
        let hits = g.related_hits(rows, k);
        if g.node(r.1) is Some {
            lemma_node_key(g, r.1);
        }
        assert forall|i: int| 0 <= i < pre.len() implies (#[trigger] pre[i]).score > u32::MAX - r.0
            || (pre[i].score == u32::MAX - r.0 && pre[i].key <= r.1) by {
            let x = choose|x: int|
                0 <= x < less.len() && (#[trigger] less[x]).1 == pre[i].key && pre[i].score
                    == u32::MAX - less[x].0;
            assert(rows[x].0 < rows[last].0 || (rows[x].0 == rows[last].0 && rows[x].1
                <= rows[last].1));
        }
        assert forall|i: int| 0 <= i < hits.len() implies {
            let h = #[trigger] hits[i];
            &&& is_live(g, h.key)
            &&& h.url == g.node(h.key)->0.url
            &&& h.title == g.node(h.key)->0.title
            &&& h.snippet == g.node(h.key)->0.snippet
            &&& h.anchor is None
            &&& !h.seed
            &&& exists|x: int|
                0 <= x < rows.len() && (#[trigger] rows[x]).1 == h.key && h.score == u32::MAX
                    - rows[x].0
        } by {
            if i < pre.len() {
                assert(hits[i] == pre[i]);
                let x = choose|x: int|
                    0 <= x < less.len() && (#[trigger] less[x]).1 == pre[i].key && pre[i].score
                        == u32::MAX - less[x].0;
                assert(rows[x] == less[x]);
            } else {
                assert(rows[last].1 == hits[i].key);
            }
        }
        assert forall|i: int, j: int| 0 <= i < j < hits.len() implies {
            let a = #[trigger] hits[i];
            let b = #[trigger] hits[j];
            a.score > b.score || (a.score == b.score && a.key <= b.key)
        } by {
            assert(hits[i] == pre[i]);
            if j < pre.len() {
                assert(hits[j] == pre[j]);
            }
        }
        assert forall|x: int| 0 <= x < rows.len() && is_live(g, (#[trigger] rows[x]).1) implies {
            ||| exists|i: int|
                0 <= i < hits.len() && (#[trigger] hits[i]).key == rows[x].1 && hits[i].score
                    == u32::MAX - rows[x].0
            ||| hits.len() == k && forall|i: int|
                0 <= i < hits.len() ==> (#[trigger] hits[i]).score > u32::MAX - rows[x].0 || (
                hits[i].score == u32::MAX - rows[x].0 && hits[i].key <= rows[x].1)
        } by {
            if x < last {
                assert(is_live(g, less[x].1));
                if exists|i: int|
                    0 <= i < pre.len() && (#[trigger] pre[i]).key == less[x].1 && pre[i].score
                        == u32::MAX - less[x].0 {
                    let i = choose|i: int|
                        0 <= i < pre.len() && (#[trigger] pre[i]).key == less[x].1 && pre[i].score
                            == u32::MAX - less[x].0;
                    assert(hits[i] == pre[i]);
                } else {
                    assert(hits == pre);
                }
            } else if pre.len() < k {
                assert(hits[pre.len() as int].key == r.1);
            } else {
                assert(hits == pre);
            }
        }
    }
}

} // verus!
