//! What a read gives back of a write: the graph after an op, seen through the
//! key that the op names.
#[allow(unused_imports)]
use crate::format::base::{nflags, sflags};
#[allow(unused_imports)]
use crate::format::wal::{OpV, OwnedEdge, SegV};
#[allow(unused_imports)]
use crate::key::{EdgeType, UrlKey};
#[allow(unused_imports)]
use crate::model::{
    at_least_one, is_stub, is_tombstone, overlay_seg, overlay_segs, scored, AnchorV, GraphV, NodeV,
};
#[allow(unused_imports)]
use crate::overlay::{
    beyond, blank, is_pinned, law_fold_is_incremental, patch_of, put_score, put_scores, score_index,
};
#[allow(unused_imports)]
use crate::traverse::opt_text;
#[allow(unused_imports)]
use crate::writer::{
    carried_score, doc_op, kept_score, replaced_edges, stored_seg, stored_segs, touch_op, DocRecord,
    SegmentRecord, Touch,
};
use vstd::prelude::*;

verus! {

/// The graph with one more op committed.
pub open spec fn with_op(g: GraphV, op: OpV) -> GraphV {
    GraphV { ops: g.ops.push(op), ..g }
}

/// `key` was removed and not ingested again since.
pub open spec fn is_removed(g: GraphV, key: u64) -> bool {
    patch_of(g.ops, key) matches Some(p) && p.removed
}

/// The base under the ops does not change with them.
pub(crate) proof fn lemma_same_base(g: GraphV, op: OpV)
    ensures
        forall|k: u64| with_op(g, op).find(k) == g.find(k),
        forall|id: u32| with_op(g, op).rank_of(id) == g.rank_of(id),
        forall|id: u32| with_op(g, op).base_segs(id) == g.base_segs(id),
        forall|id: u32| with_op(g, op).base_edges(id) == g.base_edges(id),
        forall|es: Seq<OwnedEdge>| with_op(g, op).overlay_edges(es) == g.overlay_edges(es),
{
    let later = with_op(g, op);
    assert forall|id: u32| later.base_segs(id) == g.base_segs(id) by {
        assert(forall|j: int| later.base_seg(j) == g.base_seg(j));
        assert(later.base_segs(id) =~= g.base_segs(id));
    }
    assert(forall|j: int| later.base_edge(j) == g.base_edge(j));
    assert forall|id: u32| later.base_edges(id) == g.base_edges(id) by {
        assert(later.base_edges(id) =~= g.base_edges(id));
    }
    assert forall|es: Seq<OwnedEdge>| later.overlay_edges(es) == g.overlay_edges(es) by {
        assert(forall|e: OwnedEdge| later.overlay_edge(e) == g.overlay_edge(e));
        assert(later.overlay_edges(es) =~= g.overlay_edges(es));
    }
}

/// After a remove only a new document brings a key back, and only a document
/// carries history.
proof fn lemma_severed_means_ingested(ops: Seq<OpV>, key: u64)
    ensures
        patch_of(ops, key) matches Some(p) ==> (p.severed && !p.removed ==> p.core is Some),
        patch_of(ops, key) matches Some(p) ==> (p.removed ==> p.severed && p.core is None),
        patch_of(ops, key) matches Some(p) ==> (p.carried is Some ==> p.core is Some),
        patch_of(ops, key) matches Some(p) ==> (p.learned is Some ==> p.core is Some),
    decreases ops.len(),
{
    if ops.len() > 0 {
        lemma_severed_means_ingested(ops.drop_last(), key);
    }
}

/// Setting and clearing a flag leaves the others alone.
pub(crate) proof fn lemma_flags()
    ensures
        forall|f: u16|
            #![trigger f | nflags::TOMBSTONE]
            is_tombstone(f | nflags::TOMBSTONE) && is_pinned(f | nflags::TOMBSTONE)
                == is_pinned(f) && is_stub(f | nflags::TOMBSTONE) == is_stub(f),
        forall|f: u16|
            #![trigger f | nflags::PINNED]
            is_pinned(f | nflags::PINNED) && is_tombstone(f | nflags::PINNED)
                == is_tombstone(f) && is_stub(f | nflags::PINNED) == is_stub(f),
        forall|f: u16|
            #![trigger f & !nflags::PINNED]
            !is_pinned(f & !nflags::PINNED) && is_tombstone(f & !nflags::PINNED)
                == is_tombstone(f) && is_stub(f & !nflags::PINNED) == is_stub(f),
        is_pinned(nflags::PINNED) && !is_stub(nflags::PINNED) && !is_tombstone(nflags::PINNED),
        !is_pinned(0) && !is_stub(0) && !is_tombstone(0),
{
    assert forall|f: u16|
        #![trigger f | nflags::TOMBSTONE]
        is_tombstone(f | nflags::TOMBSTONE) && is_pinned(f | nflags::TOMBSTONE)
            == is_pinned(f) && is_stub(f | nflags::TOMBSTONE) == is_stub(f) by {
        assert((f | 4) & 4 != 0 && (f | 4) & 1 == f & 1 && (f | 4) & 2 == f & 2) by (bit_vector);
    }
    assert forall|f: u16|
        #![trigger f | nflags::PINNED]
        is_pinned(f | nflags::PINNED) && is_tombstone(f | nflags::PINNED)
            == is_tombstone(f) && is_stub(f | nflags::PINNED) == is_stub(f) by {
        assert((f | 1) & 4 == f & 4 && (f | 1) & 1 != 0 && (f | 1) & 2 == f & 2) by (bit_vector);
    }
    assert forall|f: u16|
        #![trigger f & !nflags::PINNED]
        !is_pinned(f & !nflags::PINNED) && is_tombstone(f & !nflags::PINNED)
            == is_tombstone(f) && is_stub(f & !nflags::PINNED) == is_stub(f) by {
        assert((f & !1u16) & 4 == f & 4 && (f & !1u16) & 1 == 0 && (f & !1u16) & 2 == f & 2)
            by (bit_vector);
    }
    assert(1u16 & 1 != 0 && 1u16 & 2 == 0 && 1u16 & 4 == 0) by (bit_vector);
    assert(0u16 & 1 == 0 && 0u16 & 2 == 0 && 0u16 & 4 == 0) by (bit_vector);
}

/// `key` is pinned: its node is, or a pin was set before there was a node.
pub open spec fn had_pin(g: GraphV, key: u64) -> bool {
    match g.node(key) {
        Some(n) => is_pinned(n.flags),
        None => patch_of(g.ops, key) matches Some(p) && p.pinned == Some(true),
    }
}

/// A committed document reads back as it was written, live whatever it was
/// before, and keeps its segments, its edges and its history: how often it was
/// checked, how often it changed, and when last. It is pinned if it brings a
/// pin or the key had one, and otherwise not.
pub proof fn law_document_reads_back(g: GraphV, doc: DocRecord<'_>)
    ensures
        ({
            let key = doc.url_key.0;
            let later = with_op(g, doc_op(doc));
            let n = later.node(key)->0;
            &&& later.node(key) is Some
            &&& later.shown(key) == Some(n)
            &&& n.key == key
            &&& n.url == doc.url@
            &&& n.title == opt_text(doc.title)
            &&& n.snippet == opt_text(doc.snippet)
            &&& n.etag == opt_text(doc.etag)
            &&& n.content_hash == doc.content_hash
            &&& n.fetched_at_ms == doc.fetched_at_ms
            &&& is_pinned(n.flags) <==> doc.pinned || had_pin(g, key)
            &&& g.node(key) is Some ==> n.checks == g.node(key)->0.checks && n.changes == g.node(
                key,
            )->0.changes && n.last_change_ms == g.node(key)->0.last_change_ms
            &&& g.node(key) is Some ==> later.segs(key) == g.segs(key) && later.edges(key)
                == g.edges(key)
        }),
{
    let key = doc.url_key.0;
    let op = doc_op(doc);
    let later = with_op(g, op);
    law_fold_is_incremental(g.ops, op, key);
    lemma_same_base(g, op);
    lemma_severed_means_ingested(g.ops, key);
    lemma_flags();
    if g.node(key) is Some {
        assert(later.plain_segs(key) == g.plain_segs(key));
        assert(scored(g.plain_segs(key), Seq::<(u8, u16)>::empty()) == g.plain_segs(key));
        assert(beyond(Seq::empty(), g.base_list(key).len()) =~= Seq::empty());
        assert(later.base_list(key) == g.base_list(key));
    }
}

/// Ingesting the same content again does not reset what was learned of it: the
/// node is due after the interval it had.
pub proof fn law_identical_reingest_keeps_the_interval(g: GraphV, doc: DocRecord<'_>)
    requires
        g.node(doc.url_key.0) is Some,
        g.node(doc.url_key.0)->0.content_hash == doc.content_hash,
    ensures
        ({
            let key = doc.url_key.0;
            let later = with_op(g, doc_op(doc));
            &&& later.node(key) is Some
            &&& at_least_one(later.node(key)->0.interval_s) == at_least_one(
                g.node(key)->0.interval_s,
            )
        }),
{
    let key = doc.url_key.0;
    let op = doc_op(doc);
    law_fold_is_incremental(g.ops, op, key);
    lemma_same_base(g, op);
    lemma_severed_means_ingested(g.ops, key);
}

/// Content that is not what the node had starts over: the interval is the base
/// interval, unless the base record has the very content that comes back.
pub proof fn law_other_content_starts_over(g: GraphV, doc: DocRecord<'_>)
    requires
        g.node(doc.url_key.0) is Some,
        g.node(doc.url_key.0)->0.content_hash != doc.content_hash,
    ensures
        ({
            let key = doc.url_key.0;
            let later = with_op(g, doc_op(doc));
            &&& later.node(key) is Some
            &&& later.node(key)->0.interval_s == (match later.heir(
                key,
                patch_of(later.ops, key)->0,
            ) {
                Some(f) if f.content_hash == doc.content_hash => at_least_one(f.interval_s),
                _ => g.ttl.base_s,
            })
        }),
{
    let key = doc.url_key.0;
    let op = doc_op(doc);
    law_fold_is_incremental(g.ops, op, key);
    lemma_same_base(g, op);
    lemma_severed_means_ingested(g.ops, key);
}

/// The graph with a whole batch committed.
pub open spec fn with_batch(g: GraphV, staged: Seq<OpV>) -> GraphV {
    GraphV { ops: g.ops + staged, ..g }
}

/// The segments that a batch is about to show are those it shows once it is
/// committed.
pub proof fn law_staged_segments_come_true(g: GraphV, staged: Seq<OpV>, key: u64)
    ensures
        with_batch(g, staged).segs(key) == g.segs_after(staged, key),
        g.segs_after(Seq::empty(), key) == g.segs(key),
{
    let later = with_batch(g, staged);
    assert(g.ops + Seq::<OpV>::empty() =~= g.ops);
    assert(later.find(key) == g.find(key));
    if let Some(id) = g.find(key) {
        assert(forall|j: int| later.base_seg(j) == g.base_seg(j));
        assert(later.base_segs(id) =~= g.base_segs(id));
    }
}

impl GraphV {
    /// The overrides of `key` that its list of segments leaves open.
    pub open spec fn open_scores(self, key: u64) -> Seq<(u8, u16)> {
        match patch_of(self.ops, key) {
            Some(p) => beyond(
                beyond(p.early, self.base_list(key).len()) + p.importance,
                self.plain_segs(key).len(),
            ),
            None => Seq::empty(),
        }
    }
}

/// The last score that is given for `ordinal`.
pub open spec fn last_score(scores: Seq<(u8, u16)>, ordinal: int) -> Option<u16>
    decreases scores.len(),
{
    if scores.len() == 0 {
        None
    } else if scores.last().0 == ordinal {
        Some(scores.last().1)
    } else {
        last_score(scores.drop_last(), ordinal)
    }
}

/// Committed segments read back in their order, each under its heading: the
/// label, the byte range, and the depth with a floor of one. An override that
/// had no segment yet finds it by its place. Any other segment has the score
/// that its heading had, whether committed or staged in the same batch, and the
/// importance given where it had none. No override of a segment of the list
/// before reaches another by its place.
pub proof fn law_segments_read_back(
    g: GraphV,
    staged: Seq<OpV>,
    key: u64,
    segs: Seq<SegmentRecord<'_>>,
    i: int,
)
    requires
        !is_removed(with_batch(g, staged), key),
        0 <= i < segs.len(),
    ensures
        ({
            let built = with_batch(g, staged);
            let later = with_op(
                built,
                OpV::SetSegments { key: UrlKey(key), segs: stored_segs(g, staged, key, segs) },
            );
            let k = crate::key::seg_key(UrlKey(key), segs[i].label@);
            let score = match last_score(built.open_scores(key), i) {
                Some(s) => Some(s),
                None => kept_score(g, staged, key, k),
            };
            let a = later.segs(key)[i];
            &&& later.segs(key).len() == segs.len()
            &&& a.label == segs[i].label@
            &&& a.key == k
            &&& a.byte_range == segs[i].byte_range
            &&& a.depth == (if segs[i].depth == 0 {
                1
            } else {
                segs[i].depth
            })
            &&& a.importance == (match score {
                Some(s) => s,
                None => segs[i].importance,
            })
            &&& a.flags & sflags::LLM_SCORED != 0 <==> score is Some
        }),
{
    let built = with_batch(g, staged);
    let op = OpV::SetSegments { key: UrlKey(key), segs: stored_segs(g, staged, key, segs) };
    let later = with_op(built, op);
    let plain = overlay_segs(key, stored_segs(g, staged, key, segs));
    lemma_list_replaced(built, key, stored_segs(g, staged, key, segs));
    let open = built.open_scores(key);
    assert(later.segs(key) == scored(plain, open));
    assert(plain[i] == overlay_seg(key, stored_seg(g, staged, key, segs[i])));
    lemma_scores_change_no_heading(plain, open);
    lemma_last_score_shows(plain, open, i);
    assert((0u8 | 0u8) & 1 == 0 && (0u8 | 2u8) & 1 == 0 && (1u8 | 0u8) & 1 != 0 && (1u8 | 2u8) & 1
        != 0) by (bit_vector);
    assert((0u8 | 0u8) & 2 == 0 && (0u8 | 2u8) & 2 != 0 && (1u8 | 0u8) & 2 == 0 && (1u8 | 2u8) & 2
        != 0) by (bit_vector);
}

/// A new list reads as it was stored, under the overrides that the list before
/// it left open.
proof fn lemma_list_replaced(g: GraphV, key: u64, segs: Seq<SegV>)
    requires
        !is_removed(g, key),
    ensures
        with_op(g, OpV::SetSegments { key: UrlKey(key), segs }).segs(key) == scored(
            overlay_segs(key, segs),
            g.open_scores(key),
        ),
{
    let op = OpV::SetSegments { key: UrlKey(key), segs };
    let later = with_op(g, op);
    let plain = overlay_segs(key, segs);
    law_fold_is_incremental(g.ops, op, key);
    lemma_same_base(g, op);
    lemma_early_means_listed(g.ops, key);
    let n = g.base_list(key).len();
    let listed = g.plain_segs(key).len();
    assert(later.base_list(key) == g.base_list(key));
    match patch_of(g.ops, key) {
        Some(p) => {
            let early = beyond(p.early, n);
            lemma_beyond_joins(early, p.importance, listed);
            if p.segs is Some {
                lemma_beyond_commutes(p.early, n, listed);
                lemma_scored_joins(plain, beyond(early, listed), beyond(p.importance, listed));
            } else {
                assert(p.early =~= Seq::empty());
                assert(beyond(early, listed) =~= Seq::empty());
                assert(beyond(early, listed) + beyond(p.importance, listed) =~= beyond(
                    p.importance,
                    listed,
                ));
                if p.severed {
                    lemma_beyond_nothing(p.importance);
                }
            }
        },
        None => {
            assert(beyond(Seq::empty(), n) =~= Seq::empty());
        },
    }
}

/// Overrides over a list of the base are set apart only once there is another.
proof fn lemma_early_means_listed(ops: Seq<OpV>, key: u64)
    ensures
        patch_of(ops, key) matches Some(p) ==> (p.segs is None ==> p.early.len() == 0),
    decreases ops.len(),
{
    if ops.len() > 0 {
        lemma_early_means_listed(ops.drop_last(), key);
    }
}

proof fn lemma_beyond_nothing(scores: Seq<(u8, u16)>)
    ensures
        beyond(scores, 0) == scores,
    decreases scores.len(),
{
    if scores.len() > 0 {
        lemma_beyond_nothing(scores.drop_last());
        assert(scores.drop_last().push(scores.last()) =~= scores);
    }
}

proof fn lemma_beyond_joins(a: Seq<(u8, u16)>, b: Seq<(u8, u16)>, n: nat)
    ensures
        beyond(a + b, n) == beyond(a, n) + beyond(b, n),
    decreases b.len(),
{
    if b.len() == 0 {
        assert(a + b =~= a);
        assert(beyond(a, n) + beyond(b, n) =~= beyond(a, n));
    } else {
        lemma_beyond_joins(a, b.drop_last(), n);
        assert((a + b).drop_last() =~= a + b.drop_last());
        assert((a + b).last() == b.last());
        assert(beyond(a + b, n) =~= beyond(a, n) + beyond(b, n));
    }
}

proof fn lemma_beyond_commutes(scores: Seq<(u8, u16)>, m: nat, n: nat)
    ensures
        beyond(beyond(scores, m), n) == beyond(beyond(scores, n), m),
    decreases scores.len(),
{
    if scores.len() > 0 {
        let pre = scores.drop_last();
        lemma_beyond_commutes(pre, m, n);
        assert(beyond(pre, m).push(scores.last()).drop_last() =~= beyond(pre, m));
        assert(beyond(pre, n).push(scores.last()).drop_last() =~= beyond(pre, n));
    }
}

proof fn lemma_scored_joins(segs: Seq<AnchorV>, a: Seq<(u8, u16)>, b: Seq<(u8, u16)>)
    ensures
        scored(segs, a + b) == scored(scored(segs, a), b),
    decreases b.len(),
{
    if b.len() == 0 {
        assert(a + b =~= a);
    } else {
        lemma_scored_joins(segs, a, b.drop_last());
        assert((a + b).drop_last() =~= a + b.drop_last());
        assert((a + b).last() == b.last());
    }
}

/// The last override of a place shows there, marked as scored; a place without
/// one is as it was.
proof fn lemma_last_score_shows(segs: Seq<AnchorV>, scores: Seq<(u8, u16)>, i: int)
    requires
        0 <= i < segs.len(),
    ensures
        scored(segs, scores).len() == segs.len(),
        match last_score(scores, i) {
            Some(s) => scored(segs, scores)[i].importance == s && scored(segs, scores)[i].flags
                & sflags::LLM_SCORED != 0,
            None => scored(segs, scores)[i] == segs[i],
        },
    decreases scores.len(),
{
    if scores.len() > 0 {
        lemma_last_score_shows(segs, scores.drop_last(), i);
        let f = scored(segs, scores.drop_last())[i].flags;
        assert((f | 2) & 2 != 0) by (bit_vector);
    }
}

/// A score follows its heading: where a list was scored and is then replaced, a
/// segment reads the score of the first scored segment of its heading, and its
/// own importance where there was none. Only past the end of the old list does
/// an override wait that had no segment yet.
pub proof fn law_scores_follow_their_heading(
    g: GraphV,
    key: u64,
    segs: Seq<SegmentRecord<'_>>,
    i: int,
)
    requires
        !is_removed(g, key),
        0 <= i < segs.len(),
    ensures
        ({
            let later = with_op(
                g,
                OpV::SetSegments {
                    key: UrlKey(key),
                    segs: stored_segs(g, Seq::empty(), key, segs),
                },
            );
            let k = crate::key::seg_key(UrlKey(key), segs[i].label@);
            let open = last_score(g.open_scores(key), i);
            &&& i < g.segs(key).len() ==> open is None
            &&& later.segs(key)[i].importance == (match (open, carried_score(g.segs(key), k, 0)) {
                (Some(s), _) => s,
                (None, Some(s)) => s,
                (None, None) => segs[i].importance,
            })
        }),
{
    let none = Seq::<OpV>::empty();
    assert(g.ops + none =~= g.ops);
    assert(with_batch(g, none) == g);
    law_staged_segments_come_true(g, none, key);
    law_segments_read_back(g, none, key, segs, i);
    if let Some(p) = patch_of(g.ops, key) {
        let early = beyond(p.early, g.base_list(key).len());
        lemma_scores_change_no_heading(g.plain_segs(key), early);
        lemma_scores_change_no_heading(scored(g.plain_segs(key), early), p.importance);
        lemma_none_within(early + p.importance, g.plain_segs(key).len(), i);
    }
}

/// What a list leaves open is past its end.
proof fn lemma_none_within(scores: Seq<(u8, u16)>, n: nat, i: int)
    ensures
        i < n ==> last_score(beyond(scores, n), i) is None,
    decreases scores.len(),
{
    if scores.len() > 0 {
        let pre = beyond(scores.drop_last(), n);
        lemma_none_within(scores.drop_last(), n, i);
        assert(pre.push(scores.last()).drop_last() =~= pre);
    }
}

/// Overrides touch nothing but importance and the scored flag.
pub(crate) proof fn lemma_scores_change_no_heading(segs: Seq<AnchorV>, scores: Seq<(u8, u16)>)
    ensures
        scored(segs, scores).len() == segs.len(),
        forall|j: int|
            0 <= j < segs.len() ==> {
                let a = #[trigger] scored(segs, scores)[j];
                &&& a.label == segs[j].label
                &&& a.key == segs[j].key
                &&& a.byte_range == segs[j].byte_range
                &&& a.depth == segs[j].depth
            },
    decreases scores.len(),
{
    if scores.len() > 0 {
        lemma_scores_change_no_heading(segs, scores.drop_last());
    }
}

/// The edges that a batch is about to show are those it shows once it is
/// committed.
pub proof fn law_staged_edges_come_true(g: GraphV, staged: Seq<OpV>, key: u64)
    ensures
        with_batch(g, staged).edges(key) == g.edges_after(staged, key),
        g.edges_after(Seq::empty(), key) == g.edges(key),
{
    let later = with_batch(g, staged);
    assert(g.ops + Seq::<OpV>::empty() =~= g.ops);
    assert(forall|k: u64| later.find(k) == #[trigger] g.find(k));
    assert(forall|id: u32| later.url_of(id) == #[trigger] g.url_of(id));
    if let Some(p) = patch_of(later.ops, key) {
        if let Some(edges) = p.edges {
            assert forall|e: OwnedEdge| later.overlay_edge(e) == g.overlay_edge(e) by {}
            assert(later.overlay_edges(edges) =~= g.overlay_edges(edges));
        }
    }
    if let Some(id) = g.find(key) {
        assert(forall|j: int| later.base_edge(j) == g.base_edge(j));
        assert(later.base_edges(id) =~= g.base_edges(id));
    }
}

/// Committed edges read back in their order: destination, type, flags and
/// weight.
pub proof fn law_edges_read_back(
    g: GraphV,
    staged: Seq<OpV>,
    key: u64,
    edges: Seq<(UrlKey, EdgeType, u16)>,
    extra_flags: u8,
    i: int,
)
    requires
        !is_removed(with_batch(g, staged), key),
        0 <= i < replaced_edges(g.edges_after(staged, key), key, edges, extra_flags).len(),
    ensures
        ({
            let stored = replaced_edges(g.edges_after(staged, key), key, edges, extra_flags);
            let later = with_op(
                with_batch(g, staged),
                OpV::SetEdges { key: UrlKey(key), edges: stored },
            );
            let e = later.edges(key)[i];
            &&& later.edges(key).len() == stored.len()
            &&& e.dst_key == stored[i].0.0
            &&& e.etype.tag() == stored[i].1
            &&& e.flags == stored[i].2
            &&& e.weight == stored[i].3
        }),
{
    let built = with_batch(g, staged);
    let stored = replaced_edges(g.edges_after(staged, key), key, edges, extra_flags);
    let op = OpV::SetEdges { key: UrlKey(key), edges: stored };
    law_fold_is_incremental(built.ops, op, key);
    crate::key::law_edge_tags_round_trip(stored[i].1);
}

/// A pin takes effect and changes nothing else of the node.
pub proof fn law_pin_takes_effect(g: GraphV, key: u64, pinned: bool)
    requires
        g.node(key) is Some,
    ensures
        ({
            let later = with_op(g, OpV::SetPinned { key: UrlKey(key), pinned });
            let n = later.node(key)->0;
            &&& later.node(key) is Some
            &&& is_pinned(n.flags) == pinned
            &&& is_stub(n.flags) == is_stub(g.node(key)->0.flags)
            &&& is_tombstone(n.flags) == is_tombstone(g.node(key)->0.flags)
            &&& n == NodeV { flags: n.flags, ..g.node(key)->0 }
            &&& later.segs(key) == g.segs(key)
            &&& later.edges(key) == g.edges(key)
        }),
{
    let op = OpV::SetPinned { key: UrlKey(key), pinned };
    let later = with_op(g, op);
    law_fold_is_incremental(g.ops, op, key);
    lemma_same_base(g, op);
    lemma_flags();
    assert(later.plain_segs(key) == g.plain_segs(key));
    assert(scored(g.plain_segs(key), Seq::<(u8, u16)>::empty()) == g.plain_segs(key));
}

/// A source that is gone leaves the live set and keeps its place: the node, its
/// segments and its edges are still there to be read.
pub proof fn law_gone_documents_stay_as_history(g: GraphV, key: u64, t: Touch<'_>)
    requires
        g.node(key) is Some,
        t.outcome is Gone,
    ensures
        ({
            let n = g.node(key)->0;
            let later = with_op(g, touch_op(g, n, t));
            let m = later.node(key)->0;
            &&& later.node(key) is Some
            &&& is_tombstone(m.flags)
            &&& later.shown(key) is None
            &&& m.url == n.url && m.title == n.title && m.snippet == n.snippet
            &&& m.changes == n.changes && m.last_change_ms == n.last_change_ms
            &&& later.segs(key) == g.segs(key)
            &&& later.edges(key) == g.edges(key)
        }),
{
    let n = g.node(key)->0;
    let op = touch_op(g, n, t);
    let later = with_op(g, op);
    crate::model::lemma_node_key(g, key);
    law_fold_is_incremental(g.ops, op, key);
    lemma_same_base(g, op);
    crate::writer::law_touch_takes_effect(g, key, t);
    lemma_flags();
    assert(later.plain_segs(key) == g.plain_segs(key));
    assert(scored(g.plain_segs(key), Seq::<(u8, u16)>::empty()) == g.plain_segs(key));
}

// ---- importance overrides -------------------------------------------------

/// No ordinal occurs twice.
pub open spec fn one_each(scores: Seq<(u8, u16)>) -> bool {
    forall|i: int, j: int| 0 <= i < j < scores.len() ==> scores[i].0 != scores[j].0
}

pub(crate) proof fn lemma_score_index(scores: Seq<(u8, u16)>, ordinal: u8, i: int)
    requires
        0 <= i <= scores.len(),
    ensures
        match score_index(scores, ordinal, i) {
            Some(k) => i <= k < scores.len() && scores[k].0 == ordinal,
            None => forall|j: int| i <= j < scores.len() ==> (#[trigger] scores[j]).0 != ordinal,
        },
    decreases scores.len() - i,
{
    if i < scores.len() && scores[i].0 != ordinal {
        lemma_score_index(scores, ordinal, i + 1);
    }
}

proof fn lemma_put_score(scores: Seq<(u8, u16)>, s: (u8, u16))
    requires
        one_each(scores),
    ensures
        one_each(put_score(scores, s)),
        put_score(scores, s).contains(s),
{
    lemma_score_index(scores, s.0, 0);
    let out = put_score(scores, s);
    match score_index(scores, s.0, 0) {
        Some(k) => {
            assert(out[k] == s);
        },
        None => {
            assert(out[scores.len() as int] == s);
        },
    }
}

pub(crate) proof fn lemma_put_scores(scores: Seq<(u8, u16)>, more: Seq<(u8, u16)>)
    requires
        one_each(scores),
    ensures
        one_each(put_scores(scores, more)),
        more.len() > 0 ==> put_scores(scores, more).contains(more.last()),
    decreases more.len(),
{
    if more.len() > 0 {
        lemma_put_scores(scores, more.drop_last());
        lemma_put_score(put_scores(scores, more.drop_last()), more.last());
    }
}

/// The overrides of a key name every ordinal once.
pub(crate) proof fn lemma_overrides_are_distinct(ops: Seq<OpV>, key: u64)
    ensures
        patch_of(ops, key) matches Some(p) ==> one_each(p.importance),
    decreases ops.len(),
{
    if ops.len() > 0 {
        lemma_overrides_are_distinct(ops.drop_last(), key);
        let before = match patch_of(ops.drop_last(), key) {
            Some(p) => p,
            None => blank(),
        };
        if let OpV::SetImportance { scores, .. } = ops.last() {
            lemma_put_scores(before.importance, scores);
        }
        if let Some(listed) = before.segs {
            lemma_beyond_is_distinct(before.importance, listed.len());
        }
    }
}

proof fn lemma_beyond_is_distinct(scores: Seq<(u8, u16)>, n: nat)
    requires
        one_each(scores),
    ensures
        one_each(beyond(scores, n)),
        forall|s: (u8, u16)| #[trigger] beyond(scores, n).contains(s) ==> scores.contains(s),
    decreases scores.len(),
{
    if scores.len() > 0 {
        let pre = scores.drop_last();
        let kept = beyond(pre, n);
        let all = beyond(scores, n);
        assert(one_each(pre)) by {
            assert forall|i: int, j: int| 0 <= i < j < pre.len() implies pre[i].0 != pre[j].0 by {
                assert(scores[i].0 != scores[j].0);
            }
        }
        lemma_beyond_is_distinct(pre, n);
        assert forall|s: (u8, u16)| #[trigger] all.contains(s) implies scores.contains(s) by {
            let i = choose|i: int| 0 <= i < all.len() && all[i] == s;
            if i < kept.len() {
                assert(kept.contains(kept[i]));
                let j = choose|j: int| 0 <= j < pre.len() && pre[j] == s;
                assert(scores[j] == s);
            } else {
                assert(scores[scores.len() - 1] == s);
            }
        }
        assert forall|i: int, j: int| 0 <= i < j < all.len() implies all[i].0 != all[j].0 by {
            if j < kept.len() {
                assert(kept[i].0 != kept[j].0);
            } else {
                assert(kept.contains(kept[i]));
                let x = choose|x: int| 0 <= x < pre.len() && pre[x] == kept[i];
                assert(scores[x].0 != scores[scores.len() - 1].0);
            }
        }
    }
}

pub(crate) proof fn lemma_scored_at(segs: Seq<AnchorV>, scores: Seq<(u8, u16)>, k: int)
    requires
        one_each(scores),
        0 <= k < scores.len(),
        scores[k].0 < segs.len(),
    ensures
        scored(segs, scores).len() == segs.len(),
        scored(segs, scores)[scores[k].0 as int].importance == scores[k].1,
        scored(segs, scores)[scores[k].0 as int].flags & sflags::LLM_SCORED != 0,
    decreases scores.len(),
{
    lemma_scores_change_no_heading(segs, scores.drop_last());
    if k < scores.len() - 1 {
        let pre = scores.drop_last();
        assert(one_each(pre)) by {
            assert forall|i: int, j: int| 0 <= i < j < pre.len() implies pre[i].0 != pre[j].0 by {
                assert(scores[i].0 != scores[j].0);
            }
        }
        assert(scores[k].0 != scores[scores.len() - 1].0);
        lemma_scored_at(segs, pre, k);
    } else {
        let f = scored(segs, scores.drop_last())[scores[k].0 as int].flags;
        assert((f | 2) & 2 != 0) by (bit_vector);
    }
}

/// The last override of a segment is what a read gives back, marked as scored.
pub proof fn law_override_takes_effect(g: GraphV, key: u64, scores: Seq<(u8, u16)>)
    requires
        !is_removed(g, key),
        scores.len() > 0,
        scores.last().0 < g.segs(key).len(),
    ensures
        ({
            let later = with_op(g, OpV::SetImportance { key: UrlKey(key), scores });
            let a = later.segs(key)[scores.last().0 as int];
            &&& later.segs(key).len() == g.segs(key).len()
            &&& a.importance == scores.last().1
            &&& a.flags & sflags::LLM_SCORED != 0
        }),
{
    let op = OpV::SetImportance { key: UrlKey(key), scores };
    let later = with_op(g, op);
    law_fold_is_incremental(g.ops, op, key);
    lemma_same_base(g, op);
    lemma_overrides_are_distinct(g.ops, key);
    let before = match patch_of(g.ops, key) {
        Some(p) => p,
        None => blank(),
    };
    lemma_put_scores(before.importance, scores);
    let all = patch_of(later.ops, key)->0.importance;
    assert(all == put_scores(before.importance, scores));
    assert(later.plain_segs(key) == g.plain_segs(key));
    let early = beyond(before.early, g.base_list(key).len());
    let plain = scored(g.plain_segs(key), early);
    assert(later.base_list(key) == g.base_list(key));
    lemma_scores_change_no_heading(g.plain_segs(key), early);
    lemma_scores_change_no_heading(plain, before.importance);
    let k = choose|k: int| 0 <= k < all.len() && all[k] == scores.last();
    lemma_scored_at(plain, all, k);
}

} // verus!
