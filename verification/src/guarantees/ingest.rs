//! What a write leaves behind: documents, checks, segments and edges.
#[allow(unused_imports)]
use crate::enrich::{is_confident, related_edges, Proposal};
#[allow(unused_imports)]
use crate::format::wal::{OpV, OwnedEdge};
#[allow(unused_imports)]
use crate::guarantees::counting::{count, lemma_count_same};
#[allow(unused_imports)]
use crate::key::{EdgeType, UrlKey};
#[allow(unused_imports)]
use crate::model::{EdgeV, GraphV};
#[allow(unused_imports)]
use crate::overlay::law_fold_is_incremental;
#[allow(unused_imports)]
use crate::readback::lemma_flags;
#[allow(unused_imports)]
use crate::traverse::of_enrichment;
#[allow(unused_imports)]
use crate::writer::{
    doc_fault, doc_op, left_over, lemma_by_destination, lemma_left_over_elements, lemma_other_tier,
    lemma_replaced, new_edges, numbered, other_tier, replaced_edges, segs_fault, stored_seg,
    touch_op, DocRecord, Durability, SegmentRecord, Touch, WriteV, MAX_EDGES, MAX_LABEL, MAX_SEGS,
};
use vstd::prelude::*;
#[allow(unused_imports)]
use vstd::utf8::encode_utf8;

verus! {

// ---- documents ------------------------------------------------------------

/// A text takes more bytes than a label may.
pub open spec fn over_long(s: Option<&str>) -> bool {
    s is Some && encode_utf8(s->0@).len() > 2048
}

/// A document is refused exactly if it has no URL, or if its URL, title,
/// snippet or entity tag takes more than 2048 bytes.
pub proof fn law_which_documents_are_refused(doc: DocRecord<'_>)
    ensures
        doc_fault(doc) is Some <==> {
            ||| doc.url@.len() == 0
            ||| encode_utf8(doc.url@).len() > 2048
            ||| over_long(doc.title)
            ||| over_long(doc.snippet)
            ||| over_long(doc.etag)
        },
        doc_fault(doc) matches Some(f) ==> f is Format,
{
}

/// What a document is staged as: all that it says of itself, and a flag only if
/// it is pinned.
pub proof fn law_documents_are_staged_whole(doc: DocRecord<'_>)
    ensures
        match doc_op(doc) {
            OpV::UpsertNode {
                key,
                content_hash,
                fetched_at_ms,
                flags,
                url,
                title,
                snippet,
                etag,
            } => {
                &&& key == doc.url_key
                &&& content_hash == doc.content_hash
                &&& fetched_at_ms == doc.fetched_at_ms
                &&& flags == (if doc.pinned {
                    1u16
                } else {
                    0u16
                })
                &&& url == doc.url@
                &&& title is Some == doc.title is Some
                &&& title is Some ==> title->0 == doc.title->0@
                &&& snippet is Some == doc.snippet is Some
                &&& snippet is Some ==> snippet->0 == doc.snippet->0@
                &&& etag is Some == doc.etag is Some
                &&& etag is Some ==> etag->0 == doc.etag->0@
            },
            _ => false,
        },
{
}

// ---- checks ---------------------------------------------------------------

/// A check is recorded: when it was, one check more, and one change more if the
/// source changed, which then changed last at that time. A hash and a tag that
/// it brings replace those of the node, and without them the node keeps its
/// own. Only a source that is gone gets the tombstone.
pub proof fn law_checks_are_recorded(g: GraphV, key: u64, t: Touch<'_>)
    requires
        g.node(key) is Some,
    ensures
        ({
            let n = g.node(key)->0;
            let later = GraphV { ops: g.ops.push(touch_op(g, n, t)), ..g };
            let m = later.node(key)->0;
            &&& later.node(key) is Some
            &&& m.key == n.key
            &&& m.url == n.url
            &&& m.title == n.title
            &&& m.snippet == n.snippet
            &&& m.rank_permille == n.rank_permille
            &&& m.fetched_at_ms == t.checked_at_ms
            &&& n.checks < u16::MAX ==> m.checks == n.checks + 1
            &&& n.checks == u16::MAX ==> m.checks == u16::MAX
            &&& t.outcome is Changed ==> {
                &&& n.changes < u16::MAX ==> m.changes == n.changes + 1
                &&& n.changes == u16::MAX ==> m.changes == u16::MAX
                &&& m.last_change_ms == t.checked_at_ms
            }
            &&& !(t.outcome is Changed) ==> m.changes == n.changes && m.last_change_ms
                == n.last_change_ms
            &&& t.content_hash matches Some(h) ==> m.content_hash == h
            &&& t.content_hash is None ==> m.content_hash == n.content_hash
            &&& t.etag matches Some(e) ==> m.etag == Some(e@)
            &&& t.etag is None ==> m.etag == n.etag
            &&& t.outcome is Gone ==> m.flags & 4 != 0
            &&& !(t.outcome is Gone) && n.flags & 4 == 0 ==> m.flags == n.flags
            &&& n.interval_s > 0 ==> m.interval_s == g.ttl.after(
                n.interval_s as nat,
                t.outcome,
            ) as u32
        }),
{
    let n = g.node(key)->0;
    let op = touch_op(g, n, t);
    let later = GraphV { ops: g.ops.push(op), ..g };
    crate::model::lemma_node_key(g, key);
    law_fold_is_incremental(g.ops, op, key);
    lemma_flags();
    assert(later.find(key) == g.find(key));
    assert(forall|i: u32| later.rank_of(i) == g.rank_of(i));
}

// ---- removal --------------------------------------------------------------

/// A removed document is gone, with its segments and its edges, and nothing but
/// a new document of its key brings it back: not a check, a pin, segments or
/// edges.
pub proof fn law_removed_documents_stay_away(g: GraphV, key: u64, op: OpV)
    requires
        op.target().0 == key,
        !(op is UpsertNode),
    ensures
        ({
            let gone = GraphV { ops: g.ops.push(OpV::Remove { key: UrlKey(key) }), ..g };
            let later = GraphV { ops: gone.ops.push(op), ..g };
            &&& gone.node(key) is None
            &&& gone.edges(key).len() == 0
            &&& later.node(key) is None
            &&& later.edges(key).len() == 0
        }),
{
    let remove = OpV::Remove { key: UrlKey(key) };
    let gone = GraphV { ops: g.ops.push(remove), ..g };
    law_fold_is_incremental(g.ops, remove, key);
    law_fold_is_incremental(gone.ops, op, key);
}

/// A document that comes back after a removal starts anew: nothing of its
/// history, its segments, its edges or its pin is left.
pub proof fn law_documents_come_back_anew(g: GraphV, doc: DocRecord<'_>)
    ensures
        ({
            let key = doc.url_key.0;
            let gone = g.ops.push(OpV::Remove { key: doc.url_key });
            let later = GraphV { ops: gone.push(doc_op(doc)), ..g };
            let n = later.node(key)->0;
            &&& later.node(key) is Some
            &&& n.url == doc.url@
            &&& n.content_hash == doc.content_hash
            &&& n.checks == 0
            &&& n.changes == 0
            &&& n.last_change_ms == 0
            &&& n.interval_s == g.ttl.base_s
            &&& n.flags & 1 != 0 <==> doc.pinned
            &&& n.flags & 6 == 0
            &&& later.segs(key).len() == 0
            &&& later.edges(key).len() == 0
        }),
{
    let key = doc.url_key.0;
    let remove = OpV::Remove { key: doc.url_key };
    let gone = g.ops.push(remove);
    let later = GraphV { ops: gone.push(doc_op(doc)), ..g };
    law_fold_is_incremental(g.ops, remove, key);
    law_fold_is_incremental(gone, doc_op(doc), key);
    lemma_flags();
    assert(1u16 & 6 == 0 && 0u16 & 6 == 0 && 1u16 & 1 != 0 && 0u16 & 1 == 0 && ((0u16 & !1u16) == 0)
        && (1u16 | 1u16) == 1 && (0u16 | 1u16) == 1) by (bit_vector);
}

// ---- segments -------------------------------------------------------------

/// Segments are refused exactly if there are more than 128, or if the label of
/// one takes more than 2048 bytes.
pub proof fn law_which_segments_are_refused(segs: Seq<SegmentRecord<'_>>)
    ensures
        segs_fault(segs) is Some <==> {
            ||| segs.len() > 128
            ||| exists|i: int|
                0 <= i < segs.len() && encode_utf8((#[trigger] segs[i]).label@).len() > 2048
        },
{
    if exists|i: int|
        0 <= i < segs.len() && encode_utf8((#[trigger] segs[i]).label@).len() > 2048 {
        let i = choose|i: int|
            0 <= i < segs.len() && encode_utf8((#[trigger] segs[i]).label@).len() > 2048;
        assert(crate::writer::too_long(segs[i].label@));
    }
}

/// A segment is stored with its label, its range and at least a depth of one.
pub proof fn law_segments_are_stored_whole(
    g: GraphV,
    staged: Seq<OpV>,
    key: u64,
    s: SegmentRecord<'_>,
)
    ensures
        ({
            let v = stored_seg(g, staged, key, s);
            &&& v.label == s.label@
            &&& s.depth > 0 ==> v.depth == s.depth
            &&& s.depth == 0 ==> v.depth == 1
            &&& s.byte_range matches Some(r) ==> v.byte_start == r.0 && v.byte_len == r.1
        }),
{
}

// ---- edges ----------------------------------------------------------------

/// `e` is stored for the given edge `x`: destination, type and weight as given.
/// A related edge is always inferred.
pub open spec fn stores(e: OwnedEdge, x: (UrlKey, EdgeType, u16), extra: u8) -> bool {
    &&& e.0 == x.0
    &&& e.1 == x.1.tag()
    &&& e.3 == x.2
    &&& x.1 is Related ==> e.2 == extra | 2
    &&& !(x.1 is Related) ==> e.2 == extra
}

/// `e` is the old edge `x` as it was.
pub open spec fn keeps(e: OwnedEdge, x: EdgeV) -> bool {
    &&& e.0.0 == x.dst_key
    &&& e.1 == x.etype.tag()
    &&& e.2 == x.flags
    &&& e.3 == x.weight
}

spec fn is_given(e: OwnedEdge, key: u64, edges: Seq<(UrlKey, EdgeType, u16)>, extra: u8) -> bool {
    exists|j: int| 0 <= j < edges.len() && edges[j].0.0 != key && stores(e, #[trigger] edges[j], extra)
}

spec fn is_kept(e: OwnedEdge, old_edges: Seq<EdgeV>, enrich: bool) -> bool {
    exists|j: int|
        0 <= j < old_edges.len() && of_enrichment(old_edges[j].flags) != enrich && keeps(
            e,
            #[trigger] old_edges[j],
        )
}

proof fn lemma_new_edges_given(
    key: u64,
    others: Seq<OwnedEdge>,
    edges: Seq<(UrlKey, EdgeType, u16)>,
    extra: u8,
)
    ensures
        forall|i: int|
            0 <= i < new_edges(key, others, edges, extra).len() ==> is_given(
                #[trigger] new_edges(key, others, edges, extra)[i],
                key,
                edges,
                extra,
            ),
    decreases edges.len(),
{
    if edges.len() > 0 {
        let less = edges.drop_last();
        let last = edges.len() - 1;
        lemma_new_edges_given(key, others, less, extra);
        let pre = new_edges(key, others, less, extra);
        let now = new_edges(key, others, edges, extra);
        assert forall|i: int| 0 <= i < now.len() implies is_given(
            #[trigger] now[i],
            key,
            edges,
            extra,
        ) by {
            if i < pre.len() {
                assert(now[i] == pre[i]);
                let j = choose|j: int|
                    0 <= j < less.len() && less[j].0.0 != key && stores(
                        pre[i],
                        #[trigger] less[j],
                        extra,
                    );
                assert(stores(now[i], edges[j], extra));
            } else {
                assert(stores(now[i], edges[last], extra));
            }
        }
    }
}

proof fn lemma_others_kept(old_edges: Seq<EdgeV>, enrich: bool)
    ensures
        forall|i: int|
            0 <= i < other_tier(old_edges, enrich).len() ==> is_kept(
                #[trigger] other_tier(old_edges, enrich)[i],
                old_edges,
                enrich,
            ),
    decreases old_edges.len(),
{
    if old_edges.len() > 0 {
        let less = old_edges.drop_last();
        let last = old_edges.len() - 1;
        lemma_others_kept(less, enrich);
        let pre = other_tier(less, enrich);
        let now = other_tier(old_edges, enrich);
        assert forall|i: int| 0 <= i < now.len() implies is_kept(
            #[trigger] now[i],
            old_edges,
            enrich,
        ) by {
            if i < pre.len() {
                assert(now[i] == pre[i]);
                let j = choose|j: int|
                    0 <= j < less.len() && of_enrichment(less[j].flags) != enrich && keeps(
                        pre[i],
                        #[trigger] less[j],
                    );
                assert(keeps(now[i], old_edges[j]));
            } else {
                assert(keeps(now[i], old_edges[last]));
            }
        }
    }
}

/// Whatever is stored was given, and does not lead back to its source; or it
/// was there and is of the other tier, so that edges of the own tier that are
/// not given again are gone.
pub proof fn law_nothing_else_is_stored(
    old_edges: Seq<EdgeV>,
    key: u64,
    edges: Seq<(UrlKey, EdgeType, u16)>,
    extra: u8,
    e: OwnedEdge,
)
    requires
        replaced_edges(old_edges, key, edges, extra).contains(e),
    ensures
        ({
            ||| exists|j: int|
                0 <= j < edges.len() && edges[j].0.0 != key && stores(e, #[trigger] edges[j], extra)
            ||| exists|j: int|
                0 <= j < old_edges.len() && (old_edges[j].flags & 1 != 0) != (extra & 1 != 0)
                    && keeps(e, #[trigger] old_edges[j])
        }),
{
    let enrich = of_enrichment(extra);
    let others = other_tier(old_edges, enrich);
    let fresh = new_edges(key, others, edges, extra);
    let all = fresh + left_over(others, fresh);
    lemma_replaced(old_edges, key, edges, extra);
    lemma_by_destination(all);
    lemma_other_tier(old_edges, enrich);
    lemma_left_over_elements(others, fresh);
    lemma_new_edges_given(key, others, edges, extra);
    lemma_others_kept(old_edges, enrich);
    assert(all.contains(e));
    let i = choose|i: int| 0 <= i < all.len() && all[i] == e;
    if i < fresh.len() {
        assert(fresh[i] == e);
        assert(is_given(fresh[i], key, edges, extra));
    } else {
        let rest = left_over(others, fresh);
        assert(rest[i - fresh.len()] == e);
        assert(rest.contains(e));
        assert(others.contains(e));
        let x = choose|x: int| 0 <= x < others.len() && others[x] == e;
        assert(is_kept(others[x], old_edges, enrich));
    }
}

/// What limits there are: 64 edges, 128 segments, 2048 bytes.
pub proof fn law_limits()
    ensures
        MAX_EDGES == 64,
        MAX_SEGS == 128,
        MAX_LABEL == 2048,
{
}

// ---- enrichment -----------------------------------------------------------

/// A proposal counts if its confidence is at least one half: the bits of a
/// number from one half up, infinity with it, and not those of a smaller or
/// negative number or of what is no number.
pub proof fn law_confidence(bits: u32)
    ensures
        is_confident(0x3f00_0000),
        is_confident(0x7f80_0000),
        bits < 0x3f00_0000 ==> !is_confident(bits),
        bits > 0x7f80_0000 ==> !is_confident(bits),
        0x3f00_0000 <= bits <= 0x7f80_0000 ==> is_confident(bits),
{
}

/// Every proposal that counts is one related edge, in order, to where it leads,
/// with at least a weight of one. Nothing else is.
pub proof fn law_confident_proposals_are_edges(ps: Seq<Proposal>)
    ensures
        ({
            let es = related_edges(ps);
            &&& es.len() == count(ps.len() as int, |i: int| is_confident(ps[i].2))
            &&& forall|i: int|
                0 <= i < ps.len() && is_confident((#[trigger] ps[i]).2) ==> {
                    let at = count(i, |j: int| is_confident(ps[j].2)) as int;
                    &&& at < es.len()
                    &&& es[at].0 == ps[i].0
                    &&& es[at].1 is Related
                    &&& ps[i].1 > 0 ==> es[at].2 == ps[i].1
                    &&& ps[i].1 == 0 ==> es[at].2 == 1
                }
        }),
    decreases ps.len(),
{
    if ps.len() > 0 {
        let less = ps.drop_last();
        let last = ps.len() - 1;
        law_confident_proposals_are_edges(less);
        let pre = related_edges(less);
        let es = related_edges(ps);
        assert(forall|i: int| 0 <= i < last ==> #[trigger] less[i] == ps[i]);
        lemma_count_same(last, |j: int| is_confident(less[j].2), |j: int| is_confident(ps[j].2));
        assert forall|i: int| 0 <= i < ps.len() && is_confident((#[trigger] ps[i]).2) implies ({
            let at = count(i, |j: int| is_confident(ps[j].2)) as int;
            &&& at < es.len()
            &&& es[at].0 == ps[i].0
            &&& es[at].1 is Related
            &&& ps[i].1 > 0 ==> es[at].2 == ps[i].1
            &&& ps[i].1 == 0 ==> es[at].2 == 1
        }) by {
            lemma_count_same(i, |j: int| is_confident(less[j].2), |j: int| is_confident(ps[j].2));
            if i < last {
                assert(is_confident(less[i].2));
            }
        }
    }
}

// ---- durability -----------------------------------------------------------

/// A commit numbers its ops on, and its ops and bytes count towards the next
/// compaction, which is due once either has reached its threshold. After it the
/// log starts over, with nothing but its header.
pub proof fn law_commits_add_up(s: WriteV, ops: nat, bytes: nat, next_seq: u64, most_ops: nat, most_bytes: nat)
    requires
        s.next_seq + ops <= u64::MAX,
        s.wal_bytes + bytes <= u64::MAX,
        s.ops_since_compact + ops <= usize::MAX,
    ensures
        ({
            let t = s.committed(ops, bytes);
            &&& t.next_seq == s.next_seq + ops
            &&& t.wal_bytes == s.wal_bytes + bytes
            &&& t.ops_since_compact == s.ops_since_compact + ops
            &&& t.staged == s.staged
            &&& t.commits_since_sync == s.commits_since_sync
        }),
        s.next_seq > 0 ==> s.last_seq() == s.next_seq - 1,
        s.outgrown(most_ops, most_bytes) <==> s.ops_since_compact >= most_ops || s.wal_bytes
            >= most_bytes,
        ({
            let r = s.restarted(next_seq);
            &&& r.next_seq == next_seq
            &&& r.ops_since_compact == 0
            &&& r.wal_bytes == 64
            &&& r.commits_since_sync == 0
            &&& r.staged == s.staged
        }),
{
}

/// What is staged comes after what was, and nothing else changes.
pub proof fn law_staging_appends(s: WriteV, op: OpV)
    ensures
        s.stage(op).staged == s.staged.push(op),
        s.stage(op).next_seq == s.next_seq,
        s.stage(op).wal_bytes == s.wal_bytes,
        s.stage(op).ops_since_compact == s.ops_since_compact,
        s.stage(op).commits_since_sync == s.commits_since_sync,
{
}

/// Ops are numbered without a gap.
pub proof fn law_ops_are_numbered_on(first: u64, ops: Seq<OpV>, i: int)
    requires
        0 <= i < ops.len(),
        first + ops.len() <= u64::MAX,
    ensures
        numbered(first, ops).len() == ops.len(),
        numbered(first, ops)[i].0 == first + i,
        numbered(first, ops)[i].1 == ops[i],
{
}

/// A commit is made durable at once, never, or once so many commits have come
/// together since the last time, this one counted.
pub proof fn law_when_a_commit_is_synced(s: WriteV, n: u32)
    requires
        s.commits_since_sync < u32::MAX,
    ensures
        s.sync_due(Durability::Always),
        !s.sync_due(Durability::Never),
        s.sync_due(Durability::Batch(n)) <==> s.commits_since_sync + 1 >= n,
        s.unsynced(Durability::Batch(n)) == s.commits_since_sync + 1,
{
}

} // verus!
