//! The single writer. Mutations are staged as log ops, made durable by a
//! commit (encode, append, sync per policy), then published into the current
//! generation's overlay where new snapshots see them immediately. Freshness
//! math runs *here*, at touch time, and the computed state travels inside the
//! op, so replay never re-derives policy.
use crate::error::{Error, Result};
#[allow(unused_imports)]
use crate::error::Fault;
use crate::format::base::{eflags, nflags, sflags};
#[allow(unused_imports)]
use crate::format::wal::{
    ascending, frame_bytes, frames, loggable, loggable_ops, ops_view, opt_view, segs_bytes,
    segs_view, storable_entries, OpV, SegV,
};
use crate::format::wal::{clone_scores, encode_frame, Op, OwnedEdge, OwnedSeg};
use crate::key::{EdgeType, SegKey, UrlKey};
#[allow(unused_imports)]
use crate::key::seg_key;
#[allow(unused_imports)]
use crate::model::{at_least_one, AnchorV, EdgeV, GraphV, NodeV};
#[allow(unused_imports)]
use crate::order::{arranged, lemma_arranged_from, row_le};
use crate::order::{arrange, Row};
use crate::overlay::{Arena, OverlayNode};
#[allow(unused_imports)]
use crate::overlay::{patch_of, room};
#[allow(unused_imports)]
use crate::snapshot::anchors_view;
use crate::snapshot::{NodeRef, SegRef, Snapshot};
#[allow(unused_imports)]
use crate::traverse::{edges_view, of_enrichment, opt_text};
use crate::traverse::EdgeRef;
use crate::ttl::Outcome;
use vstd::prelude::*;
use vstd::string::*;
#[allow(unused_imports)]
use vstd::utf8::*;

verus! {

/// Maximum label length persisted (bytes of UTF-8).
pub const MAX_LABEL: usize = 2048;

/// Maximum segments per document.
pub const MAX_SEGS: usize = 128;

/// Maximum outbound edges per document.
pub const MAX_EDGES: usize = 64;

/// A document to upsert, borrowed from the caller. Everything here is compact
/// lookup metadata; bodies and vectors are deliberately not representable.
#[derive(Clone, Copy, Debug)]
pub struct DocRecord<'a> {
    /// Canonical URL.
    pub url: &'a str,
    /// Durable key (xxh3 of `url`).
    pub url_key: UrlKey,
    /// xxh3 of the fetched body.
    pub content_hash: u64,
    /// Fetch stamp, epoch ms.
    pub fetched_at_ms: u64,
    /// Title, if extracted.
    pub title: Option<&'a str>,
    /// Distilled snippet (about 180 characters by convention).
    pub snippet: Option<&'a str>,
    /// Entity tag from the fetch, for conditional revalidation.
    pub etag: Option<&'a str>,
    /// Exempt from eviction sweeps.
    pub pinned: bool,
}

/// A sub-document segment to record: an anchor reference, never content.
#[derive(Clone, Copy, Debug)]
pub struct SegmentRecord<'a> {
    /// Heading-path label (e.g. `"Install > Linux"`).
    pub label: &'a str,
    /// Byte range in the source document, when known.
    pub byte_range: Option<(u32, u32)>,
    /// Heading depth (1 = H1 ...).
    pub depth: u8,
    /// Importance in 1/65535 units (deterministic prior or enrichment score).
    pub importance: u16,
}

/// A revalidation observation to record against a node.
#[derive(Clone, Copy, Debug)]
pub struct Touch<'a> {
    /// When the check happened, epoch ms.
    pub checked_at_ms: u64,
    /// What was observed.
    pub outcome: Outcome,
    /// New content hash when `outcome == Changed`.
    pub content_hash: Option<u64>,
    /// New entity tag, if the server sent one.
    pub etag: Option<&'a str>,
}

/// What is staged and what was committed so far.
#[derive(Debug)]
pub struct WriteState {
    next_seq: u64,
    staged: Vec<Op>,
    ops_since_compact: usize,
    wal_bytes: u64,
    commits_since_sync: u32,
}

/// The value of a [`WriteState`].
#[verifier::ext_equal]
pub struct WriteV {
    pub next_seq: u64,
    pub staged: Seq<OpV>,
    pub ops_since_compact: nat,
    pub wal_bytes: nat,
    pub commits_since_sync: nat,
}

/// The values of staged ops.
pub open spec fn ops_values(ops: Seq<Op>) -> Seq<OpV> {
    ops.map_values(|op: Op| op@)
}

impl View for WriteState {
    type V = WriteV;

    closed spec fn view(&self) -> WriteV {
        WriteV {
            next_seq: self.next_seq,
            staged: ops_values(self.staged@),
            ops_since_compact: self.ops_since_compact as nat,
            wal_bytes: self.wal_bytes as nat,
            commits_since_sync: self.commits_since_sync as nat,
        }
    }
}

/// Every staged op fits a log frame.
pub open spec fn all_loggable(ops: Seq<OpV>) -> bool {
    forall|i: int| 0 <= i < ops.len() ==> loggable(#[trigger] ops[i])
}

impl WriteV {
    pub open spec fn wf(self) -> bool {
        all_loggable(self.staged)
    }

    /// `op` staged after what was staged before.
    pub open spec fn stage(self, op: OpV) -> WriteV {
        WriteV { staged: self.staged.push(op), ..self }
    }
}

// ---- how long an op can get -----------------------------------------------

proof fn lemma_opt_len(s: Option<Seq<char>>, bound: nat)
    requires
        s matches Some(t) ==> encode_utf8(t).len() <= bound,
    ensures
        crate::format::wal::opt_str_bytes(s).len() <= bound + 3,
{
    if let Some(t) = s {
        crate::bytesio::lemma_le_bytes_len(encode_utf8(t).len(), 2);
    }
}

proof fn lemma_segs_len(segs: Seq<SegV>)
    requires
        forall|i: int|
            0 <= i < segs.len() ==> encode_utf8((#[trigger] segs[i]).label).len() <= MAX_LABEL,
    ensures
        segs_bytes(segs).len() <= segs.len() * 2064,
    decreases segs.len(),
{
    if segs.len() > 0 {
        let s = segs.last();
        lemma_segs_len(segs.drop_last());
        crate::bytesio::lemma_le_bytes_len(encode_utf8(s.label).len(), 2);
        crate::bytesio::lemma_le_bytes_len(s.byte_start as nat, 4);
        crate::bytesio::lemma_le_bytes_len(s.byte_len as nat, 4);
        crate::bytesio::lemma_le_bytes_len(s.importance as nat, 2);
    }
}

proof fn lemma_edges_len(edges: Seq<OwnedEdge>)
    requires
        ascending(edges),
    ensures
        crate::format::wal::edges_bytes(edges).len() <= edges.len() * 14,
    decreases edges.len(),
{
    if edges.len() > 0 {
        let e = edges.last();
        lemma_edges_len(edges.drop_last());
        if edges.len() > 1 {
            assert(edges[edges.len() - 2].0.0 < edges[edges.len() - 1].0.0);
        }
        crate::bytesio::lemma_varint_len(crate::format::wal::edge_delta(edges) as u64);
        crate::bytesio::lemma_le_bytes_len(e.3 as nat, 2);
    }
}

proof fn lemma_scores_len(scores: Seq<(u8, u16)>)
    ensures
        crate::format::wal::scores_bytes(scores).len() == scores.len() * 3,
    decreases scores.len(),
{
    if scores.len() > 0 {
        lemma_scores_len(scores.drop_last());
        crate::bytesio::lemma_le_bytes_len(scores.last().1 as nat, 2);
    }
}

/// The ops that the writer makes fit a frame.
proof fn lemma_loggable(op: OpV)
    requires
        op.storable(),
        op matches OpV::SetSegments { segs, .. } ==> forall|i: int|
            0 <= i < segs.len() ==> encode_utf8((#[trigger] segs[i]).label).len() <= MAX_LABEL,
    ensures
        loggable(op),
{
    crate::bytesio::lemma_le_bytes_len(op.target().0 as nat, 8);
    match op {
        OpV::UpsertNode { content_hash, fetched_at_ms, flags, url, title, snippet, etag, .. } => {
            crate::bytesio::lemma_le_bytes_len(content_hash as nat, 8);
            crate::bytesio::lemma_le_bytes_len(fetched_at_ms as nat, 8);
            crate::bytesio::lemma_le_bytes_len(flags as nat, 2);
            crate::bytesio::lemma_le_bytes_len(encode_utf8(url).len(), 2);
            lemma_opt_len(title, 0xffff);
            lemma_opt_len(snippet, 0xffff);
            lemma_opt_len(etag, 0xffff);
        },
        OpV::SetSegments { segs, .. } => {
            lemma_segs_len(segs);
        },
        OpV::SetEdges { edges, .. } => {
            lemma_edges_len(edges);
        },
        OpV::Touch {
            checked_at_ms,
            content_hash,
            etag,
            interval_s,
            checks,
            changes,
            last_change_ms,
            ..
        } => {
            crate::bytesio::lemma_le_bytes_len(checked_at_ms as nat, 8);
            if let Some(h) = content_hash {
                crate::bytesio::lemma_le_bytes_len(h as nat, 8);
            }
            lemma_opt_len(etag, 0xffff);
            crate::bytesio::lemma_le_bytes_len(interval_s as nat, 4);
            crate::bytesio::lemma_le_bytes_len(checks as nat, 2);
            crate::bytesio::lemma_le_bytes_len(changes as nat, 2);
            crate::bytesio::lemma_le_bytes_len(last_change_ms as nat, 8);
        },
        OpV::Remove { .. } => {},
        OpV::SetPinned { .. } => {},
        OpV::SetImportance { scores, .. } => {
            lemma_scores_len(scores);
        },
    }
}

// ---- what each mutation stages --------------------------------------------

/// The fault of a label that is too long.
pub open spec fn label_too_long(name: Seq<char>) -> Fault {
    Fault::Format(name + " label exceeds 2048 bytes"@)
}

pub open spec fn too_long(s: Seq<char>) -> bool {
    encode_utf8(s).len() > MAX_LABEL
}

/// What is wrong with a document, if anything.
pub open spec fn doc_fault(doc: DocRecord<'_>) -> Option<Fault> {
    if too_long(doc.url@) {
        Some(label_too_long("url"@))
    } else if doc.url@.len() == 0 {
        Some(Fault::Format("url must not be empty"@))
    } else if doc.title is Some && too_long(doc.title->0@) {
        Some(label_too_long("title"@))
    } else if doc.snippet is Some && too_long(doc.snippet->0@) {
        Some(label_too_long("snippet"@))
    } else if doc.etag is Some && too_long(doc.etag->0@) {
        Some(label_too_long("etag"@))
    } else {
        None
    }
}

/// The op of a document.
pub open spec fn doc_op(doc: DocRecord<'_>) -> OpV {
    OpV::UpsertNode {
        key: doc.url_key,
        content_hash: doc.content_hash,
        fetched_at_ms: doc.fetched_at_ms,
        flags: if doc.pinned {
            nflags::PINNED
        } else {
            0
        },
        url: doc.url@,
        title: opt_text(doc.title),
        snippet: opt_text(doc.snippet),
        etag: opt_text(doc.etag),
    }
}

/// The enrichment score that `segs` hold for the segment `k`, from the `i`-th
/// on.
pub open spec fn carried_score(segs: Seq<AnchorV>, k: u64, i: int) -> Option<u16>
    decreases segs.len() - i,
{
    if i >= segs.len() {
        None
    } else if segs[i].flags & sflags::LLM_SCORED != 0 && segs[i].key == k {
        Some(segs[i].importance)
    } else {
        carried_score(segs, k, i + 1)
    }
}

/// The enrichment score that the segment `k` of `key` keeps: the one it has
/// once everything staged is committed, else the one that is committed, unless
/// a staged remove discards that.
pub open spec fn kept_score(g: GraphV, staged: Seq<OpV>, key: u64, k: u64) -> Option<u16> {
    match carried_score(g.segs_after(staged, key), k, 0) {
        Some(score) => Some(score),
        None => if removes(staged, key) {
            None
        } else {
            carried_score(g.segs(key), k, 0)
        },
    }
}

/// A segment as it is stored after `staged`: an enrichment score survives while
/// the heading path is unchanged.
pub open spec fn stored_seg(
    g: GraphV,
    staged: Seq<OpV>,
    key: u64,
    s: SegmentRecord<'_>,
) -> SegV {
    let carried = kept_score(g, staged, key, seg_key(UrlKey(key), s.label@));
    let range_flag: u8 = if s.byte_range is Some {
        0
    } else {
        sflags::NO_RANGE
    };
    let score_flag: u8 = if carried is Some {
        sflags::LLM_SCORED
    } else {
        0
    };
    SegV {
        label: s.label@,
        byte_start: match s.byte_range {
            Some(r) => r.0,
            None => 0,
        },
        byte_len: match s.byte_range {
            Some(r) => r.1,
            None => 0,
        },
        depth: if s.depth == 0 {
            1
        } else {
            s.depth
        },
        importance: match carried {
            Some(imp) => imp,
            None => s.importance,
        },
        flags: range_flag | score_flag,
    }
}

pub open spec fn stored_segs(
    g: GraphV,
    staged: Seq<OpV>,
    key: u64,
    segs: Seq<SegmentRecord<'_>>,
) -> Seq<SegV> {
    Seq::new(segs.len(), |i: int| stored_seg(g, staged, key, segs[i]))
}

/// What is wrong with a set of segments, if anything.
pub open spec fn segs_fault(segs: Seq<SegmentRecord<'_>>) -> Option<Fault> {
    if segs.len() > MAX_SEGS {
        Some(Fault::Format("more than 128 segments"@))
    } else if exists|i: int| 0 <= i < segs.len() && too_long((#[trigger] segs[i]).label@) {
        Some(label_too_long("segment"@))
    } else {
        None
    }
}

/// `edges` lead to `dst`.
pub open spec fn leads_to(edges: Seq<OwnedEdge>, dst: u64) -> bool {
    exists|i: int| 0 <= i < edges.len() && (#[trigger] edges[i]).0.0 == dst
}

/// A new edge as it is stored.
pub open spec fn new_edge(e: (UrlKey, EdgeType, u16), extra_flags: u8) -> OwnedEdge {
    (
        e.0,
        e.1.tag(),
        if e.1 is Related {
            extra_flags | eflags::INFERRED
        } else {
            extra_flags
        },
        e.2,
    )
}

/// An edge read from a snapshot, as it is stored.
pub open spec fn kept_edge(e: EdgeV) -> OwnedEdge {
    (UrlKey(e.dst_key), e.etype.tag(), e.flags, e.weight)
}

/// What of `old_edges` belongs to the tier that is not replaced: the first edge
/// of each destination, within the cap.
pub open spec fn other_tier(old_edges: Seq<EdgeV>, enrich: bool) -> Seq<OwnedEdge>
    decreases old_edges.len(),
{
    if old_edges.len() == 0 {
        Seq::empty()
    } else {
        let pre = other_tier(old_edges.drop_last(), enrich);
        let e = old_edges.last();
        if of_enrichment(e.flags) == enrich || pre.len() >= MAX_EDGES || leads_to(pre, e.dst_key) {
            pre
        } else {
            pre.push(kept_edge(e))
        }
    }
}

/// What `edges` leave of `others`: those that lead elsewhere.
pub open spec fn left_over(others: Seq<OwnedEdge>, edges: Seq<OwnedEdge>) -> Seq<OwnedEdge> {
    others.filter(|e: OwnedEdge| !leads_to(edges, e.0.0))
}

/// `edges` with one more, unless they already lead there or it does not fit
/// beside what they leave of `others`.
pub open spec fn add_edge(edges: Seq<OwnedEdge>, others: Seq<OwnedEdge>, e: OwnedEdge) -> Seq<
    OwnedEdge,
> {
    if leads_to(edges, e.0.0) || edges.len() + 1 + left_over(others, edges.push(e)).len()
        > MAX_EDGES {
        edges
    } else {
        edges.push(e)
    }
}

/// The new edges of `key` beside `others`: document order is salience order, so
/// the first occurrence of a destination wins and the cap keeps the front.
pub open spec fn new_edges(
    key: u64,
    others: Seq<OwnedEdge>,
    edges: Seq<(UrlKey, EdgeType, u16)>,
    extra_flags: u8,
) -> Seq<OwnedEdge>
    decreases edges.len(),
{
    if edges.len() == 0 {
        Seq::empty()
    } else {
        let pre = new_edges(key, others, edges.drop_last(), extra_flags);
        if edges.last().0.0 == key {
            pre
        } else {
            add_edge(pre, others, new_edge(edges.last(), extra_flags))
        }
    }
}

pub open spec fn edge_row(e: OwnedEdge) -> Row {
    (e.0.0, e.1 as u64, e.2 as u64, e.3 as u64)
}

pub open spec fn row_edge(r: Row) -> OwnedEdge {
    (UrlKey(r.0), r.1 as u8, r.2 as u8, r.3 as u16)
}

pub open spec fn edge_rows(edges: Seq<OwnedEdge>) -> Seq<Row> {
    edges.map_values(|e: OwnedEdge| edge_row(e))
}

/// `edges` by ascending destination.
pub open spec fn by_destination(edges: Seq<OwnedEdge>) -> Seq<OwnedEdge> {
    arranged(edge_rows(edges)).map_values(|r: Row| row_edge(r))
}

/// The outbound edges of `key` after a replacement of one tier, where it had
/// `old_edges`: the other tier stays, but for what a new edge leads to, and the
/// new edges take the room beside it.
pub open spec fn replaced_edges(
    old_edges: Seq<EdgeV>,
    key: u64,
    edges: Seq<(UrlKey, EdgeType, u16)>,
    extra_flags: u8,
) -> Seq<OwnedEdge> {
    let others = other_tier(old_edges, of_enrichment(extra_flags));
    let fresh = new_edges(key, others, edges, extra_flags);
    by_destination(fresh + left_over(others, fresh))
}

/// The op of an observation on the node `n`. It carries the node's full
/// effective state, not a delta: touches fold last-wins, so an unchanged check
/// must not erase the hash or tag that a prior change observed.
pub open spec fn touch_op(g: GraphV, n: NodeV, t: Touch<'_>) -> OpV {
    OpV::Touch {
        key: UrlKey(n.key),
        checked_at_ms: t.checked_at_ms,
        outcome: t.outcome.tag(),
        content_hash: Some(
            match t.content_hash {
                Some(h) => h,
                None => n.content_hash,
            },
        ),
        etag: match t.etag {
            Some(e) => Some(e@),
            None => n.etag,
        },
        interval_s: g.ttl.after(at_least_one(n.interval_s) as nat, t.outcome) as u32,
        checks: plus_one(n.checks),
        changes: if t.outcome is Changed {
            plus_one(n.changes)
        } else {
            n.changes
        },
        last_change_ms: if t.outcome is Changed {
            t.checked_at_ms
        } else {
            n.last_change_ms
        },
        tombstone: t.outcome is Gone,
    }
}

pub open spec fn plus_one(v: u16) -> u16 {
    if v == u16::MAX {
        u16::MAX
    } else {
        (v + 1) as u16
    }
}

/// `key` is upserted by one of `ops`.
pub open spec fn upserts(ops: Seq<OpV>, key: u64) -> bool {
    exists|i: int| 0 <= i < ops.len() && #[trigger] ops[i] is UpsertNode && ops[i].target().0 == key
}

/// `key` is removed by one of `ops`.
pub open spec fn removes(ops: Seq<OpV>, key: u64) -> bool {
    exists|i: int| 0 <= i < ops.len() && #[trigger] ops[i] is Remove && ops[i].target().0 == key
}

// ---- the writer -----------------------------------------------------------

fn check_label(name: &str, s: &str) -> (r: Result<()>)
    ensures
        r is Ok <==> !too_long(s@),
        r matches Err(e) ==> e@ == label_too_long(name@),
{
    if s.as_bytes().len() > MAX_LABEL {
        let mut message: String = name.to_owned();
        message.append(" label exceeds 2048 bytes");
        return Err(Error::Format { message });
    }
    Ok(())
}

fn owned(s: Option<&str>) -> (r: Option<String>)
    ensures
        opt_view(r) == opt_text(s),
{
    match s {
        Some(t) => Some(t.to_owned()),
        None => None,
    }
}

fn find_carried(segs: &Vec<SegRef<'_>>, k: u64) -> (r: Option<u16>)
    ensures
        r == carried_score(anchors_view(segs@), k, 0),
{
    let ghost vs = anchors_view(segs@);
    let n: usize = segs.len();
    let mut i: usize = 0;
    while i < n
        invariant
            i <= n == segs@.len(),
            vs == anchors_view(segs@),
            carried_score(vs, k, 0) == carried_score(vs, k, i as int),
        decreases n - i,
    {
        let s: &SegRef<'_> = &segs[i];
        assert(vs[i as int] == s@);
        if s.flags & sflags::LLM_SCORED != 0 && s.key.0 == k {
            return Some(s.importance);
        }
        i = i + 1;
    }
    None
}

fn has_edge_to(edges: &Vec<OwnedEdge>, dst: u64) -> (r: bool)
    ensures
        r == leads_to(edges@, dst),
{
    let n: usize = edges.len();
    let mut i: usize = 0;
    while i < n
        invariant
            i <= n == edges@.len(),
            forall|j: int| 0 <= j < i ==> (#[trigger] edges@[j]).0.0 != dst,
        decreases n - i,
    {
        if edges[i].0.0 == dst {
            return true;
        }
        i = i + 1;
    }
    false
}

/// Destinations are distinct.
pub open spec fn distinct(edges: Seq<OwnedEdge>) -> bool {
    forall|i: int, j: int| 0 <= i < j < edges.len() ==> edges[i].0.0 != edges[j].0.0
}

pub(crate) proof fn lemma_other_tier(old_edges: Seq<EdgeV>, enrich: bool)
    ensures
        distinct(other_tier(old_edges, enrich)),
        other_tier(old_edges, enrich).len() <= MAX_EDGES,
    decreases old_edges.len(),
{
    if old_edges.len() > 0 {
        lemma_other_tier(old_edges.drop_last(), enrich);
    }
}

/// One more edge leaves all of `others` but the one that leads there.
proof fn lemma_left_over(others: Seq<OwnedEdge>, edges: Seq<OwnedEdge>, e: OwnedEdge)
    requires
        distinct(others),
        !leads_to(edges, e.0.0),
    ensures
        left_over(others, edges.push(e)).len() == left_over(others, edges).len() - (if leads_to(
            others,
            e.0.0,
        ) {
            1int
        } else {
            0int
        }),
    decreases others.len(),
{
    let more = edges.push(e);
    let before = |o: OwnedEdge| !leads_to(edges, o.0.0);
    let after = |o: OwnedEdge| !leads_to(more, o.0.0);
    reveal(Seq::filter);
    if others.len() > 0 {
        let pre = others.drop_last();
        let last = others.last();
        lemma_left_over(pre, edges, e);
        assert(others.filter(before) == if before(last) {
            pre.filter(before).push(last)
        } else {
            pre.filter(before)
        });
        assert(others.filter(after) == if after(last) {
            pre.filter(after).push(last)
        } else {
            pre.filter(after)
        });
        lemma_leads_to_push(edges, e, last.0.0);
        lemma_leads_to_push(pre, last, e.0.0);
        assert(pre.push(last) =~= others);
        if last.0.0 == e.0.0 {
            assert(!leads_to(pre, e.0.0)) by {
                if leads_to(pre, e.0.0) {
                    let i = choose|i: int| 0 <= i < pre.len() && (#[trigger] pre[i]).0.0 == e.0.0;
                    assert(others[i].0.0 != others[others.len() - 1].0.0);
                }
            }
        }
    }
}

proof fn lemma_nothing_is_taken(others: Seq<OwnedEdge>)
    ensures
        left_over(others, Seq::empty()) == others,
    decreases others.len(),
{
    reveal(Seq::filter);
    if others.len() > 0 {
        lemma_nothing_is_taken(others.drop_last());
        assert(others.drop_last().push(others.last()) =~= others);
    }
}

proof fn lemma_leads_to_push(edges: Seq<OwnedEdge>, e: OwnedEdge, dst: u64)
    ensures
        leads_to(edges.push(e), dst) <==> leads_to(edges, dst) || e.0.0 == dst,
{
    let more = edges.push(e);
    if leads_to(edges, dst) {
        let i = choose|i: int| 0 <= i < edges.len() && (#[trigger] edges[i]).0.0 == dst;
        assert(more[i].0.0 == dst);
    }
    if e.0.0 == dst {
        assert(more[edges.len() as int].0.0 == dst);
    }
    if leads_to(more, dst) {
        let i = choose|i: int| 0 <= i < more.len() && (#[trigger] more[i]).0.0 == dst;
        if i < edges.len() {
            assert(edges[i].0.0 == dst);
        }
    }
}

/// What is left over is what leads elsewhere, each once.
pub(crate) proof fn lemma_left_over_elements(others: Seq<OwnedEdge>, edges: Seq<OwnedEdge>)
    requires
        distinct(others),
    ensures
        distinct(left_over(others, edges)),
        left_over(others, edges).len() <= others.len(),
        forall|e: OwnedEdge| #[trigger]
            left_over(others, edges).contains(e) <==> others.contains(e) && !leads_to(
                edges,
                e.0.0,
            ),
    decreases others.len(),
{
    let elsewhere = |o: OwnedEdge| !leads_to(edges, o.0.0);
    let rest = left_over(others, edges);
    reveal(Seq::filter);
    if others.len() > 0 {
        let pre = others.drop_last();
        let last = others.last();
        lemma_left_over_elements(pre, edges);
        let before = left_over(pre, edges);
        assert(pre.push(last) =~= others);
        assert(rest == if elsewhere(last) {
            before.push(last)
        } else {
            before
        });
        assert forall|e: OwnedEdge| others.contains(e) <==> pre.contains(e) || e == last by {
            if pre.contains(e) {
                let i = choose|i: int| 0 <= i < pre.len() && pre[i] == e;
                assert(others[i] == e);
            }
            assert(others[others.len() - 1] == last);
        }
        assert forall|e: OwnedEdge| #[trigger]
            rest.contains(e) <==> others.contains(e) && !leads_to(edges, e.0.0) by {
            if before.contains(e) {
                let i = choose|i: int| 0 <= i < before.len() && before[i] == e;
                assert(rest[i] == e);
            }
            if elsewhere(last) {
                assert(rest[rest.len() - 1] == last);
            }
            if rest.contains(e) {
                let i = choose|i: int| 0 <= i < rest.len() && rest[i] == e;
                if i < before.len() {
                    assert(before[i] == e);
                }
            }
        }
        assert forall|i: int, j: int| 0 <= i < j < rest.len() implies rest[i].0.0
            != rest[j].0.0 by {
            if j == before.len() {
                assert(before.contains(before[i]));
                let a = choose|a: int| 0 <= a < pre.len() && pre[a] == before[i];
                assert(others[a].0.0 != others[others.len() - 1].0.0);
            } else {
                assert(before[i].0.0 != before[j].0.0);
            }
        }
    }
}

proof fn lemma_new_edges(
    key: u64,
    others: Seq<OwnedEdge>,
    edges: Seq<(UrlKey, EdgeType, u16)>,
    extra_flags: u8,
)
    requires
        distinct(others),
        others.len() <= MAX_EDGES,
    ensures
        ({
            let fresh = new_edges(key, others, edges, extra_flags);
            &&& distinct(fresh)
            &&& fresh.len() <= edges.len()
            &&& fresh.len() + left_over(others, fresh).len() <= MAX_EDGES
        }),
    decreases edges.len(),
{
    if edges.len() == 0 {
        lemma_left_over_elements(others, Seq::empty());
    } else {
        lemma_new_edges(key, others, edges.drop_last(), extra_flags);
    }
}

/// What a replacement stores is new or left over, and nothing is stored twice.
pub(crate) proof fn lemma_replaced(
    old_edges: Seq<EdgeV>,
    key: u64,
    edges: Seq<(UrlKey, EdgeType, u16)>,
    extra_flags: u8,
)
    ensures
        ({
            let others = other_tier(old_edges, of_enrichment(extra_flags));
            let fresh = new_edges(key, others, edges, extra_flags);
            let out = replaced_edges(old_edges, key, edges, extra_flags);
            &&& distinct(fresh + left_over(others, fresh))
            &&& ascending(out)
            &&& out.len() <= MAX_EDGES
            &&& forall|e: OwnedEdge| #[trigger]
                out.contains(e) <==> fresh.contains(e) || others.contains(e) && !leads_to(
                    fresh,
                    e.0.0,
                )
        }),
{
    let others = other_tier(old_edges, of_enrichment(extra_flags));
    let fresh = new_edges(key, others, edges, extra_flags);
    let rest = left_over(others, fresh);
    let all = fresh + rest;
    lemma_other_tier(old_edges, of_enrichment(extra_flags));
    lemma_new_edges(key, others, edges, extra_flags);
    lemma_left_over_elements(others, fresh);
    assert forall|i: int, j: int| 0 <= i < j < all.len() implies all[i].0.0 != all[j].0.0 by {
        if i >= fresh.len() {
            assert(rest[i - fresh.len()].0.0 != rest[j - fresh.len()].0.0);
        } else if j >= fresh.len() {
            assert(rest.contains(rest[j - fresh.len()]));
            assert(fresh[i].0.0 == all[i].0.0);
        }
    }
    lemma_by_destination(all);
    assert forall|e: OwnedEdge| all.contains(e) <==> fresh.contains(e) || rest.contains(e) by {
        if fresh.contains(e) {
            let i = choose|i: int| 0 <= i < fresh.len() && fresh[i] == e;
            assert(all[i] == e);
        }
        if rest.contains(e) {
            let i = choose|i: int| 0 <= i < rest.len() && rest[i] == e;
            assert(all[fresh.len() + i] == e);
        }
        if all.contains(e) {
            let i = choose|i: int| 0 <= i < all.len() && all[i] == e;
            if i < fresh.len() {
                assert(fresh[i] == e);
            } else {
                assert(rest[i - fresh.len()] == e);
            }
        }
    }
}

fn fill_edges(
    key: UrlKey,
    others: &Vec<OwnedEdge>,
    edges: &[(UrlKey, EdgeType, u16)],
    extra_flags: u8,
) -> (r: Vec<OwnedEdge>)
    requires
        distinct(others@),
        others@.len() <= MAX_EDGES,
    ensures
        r@ == new_edges(key.0, others@, edges@, extra_flags),
{
    let n: usize = edges.len();
    let mut out: Vec<OwnedEdge> = Vec::new();
    let mut free: usize = MAX_EDGES - others.len();
    let mut i: usize = 0;
    assert(edges@.take(0) =~= Seq::empty());
    assert(left_over(others@, Seq::empty()) =~= others@) by {
        lemma_nothing_is_taken(others@);
    }
    while i < n
        invariant
            i <= n == edges@.len(),
            distinct(others@),
            out@ == new_edges(key.0, others@, edges@.take(i as int), extra_flags),
            out@.len() + left_over(others@, out@).len() + free == MAX_EDGES,
        decreases n - i,
    {
        let (dst, etype, weight): (UrlKey, EdgeType, u16) = edges[i];
        assert(edges@.take(i + 1).drop_last() =~= edges@.take(i as int));
        if dst.0 != key.0 && !has_edge_to(&out, dst.0) {
            let flags: u8 = match etype {
                EdgeType::Related => extra_flags | eflags::INFERRED,
                _ => extra_flags,
            };
            let e: OwnedEdge = (dst, etype.as_tag(), flags, weight);
            proof {
                lemma_left_over(others@, out@, e);
            }
            if has_edge_to(others, dst.0) {
                out.push(e);
            } else if free > 0 {
                out.push(e);
                free = free - 1;
            }
        }
        i = i + 1;
    }
    assert(edges@.take(n as int) =~= edges@);
    out
}

/// Edges by destination are the same edges, strictly ascending.
pub proof fn lemma_by_destination(edges: Seq<OwnedEdge>)
    requires
        distinct(edges),
    ensures
        ascending(by_destination(edges)),
        by_destination(edges).len() == edges.len(),
        forall|e: OwnedEdge| #[trigger] by_destination(edges).contains(e) <==> edges.contains(e),
{
    let rows = edge_rows(edges);
    let sorted = arranged(rows);
    let le = row_le();
    assert(vstd::relations::total_ordering(le));
    rows.lemma_sort_by_ensures(le);
    crate::order::lemma_same_rows(rows, sorted, (0, 0, 0, 0));
    rows.to_multiset_ensures();
    sorted.to_multiset_ensures();
    let out = by_destination(edges);
    assert forall|i: int, j: int| 0 <= i < j < out.len() implies out[i].0.0 < out[j].0.0 by {
        assert(le(sorted[i], sorted[j]));
        lemma_arranged_from(rows, i);
        lemma_arranged_from(rows, j);
        let a = choose|a: int| 0 <= a < rows.len() && rows[a] == sorted[i];
        let b = choose|b: int| 0 <= b < rows.len() && rows[b] == sorted[j];
        if sorted[i].0 == sorted[j].0 {
            if a == b {
                assert(rows.no_duplicates()) by {
                    assert forall|x: int, y: int|
                        0 <= x < rows.len() && 0 <= y < rows.len() && x != y implies rows[x]
                        != rows[y] by {
                        if x < y {
                            assert(edges[x].0.0 != edges[y].0.0);
                        } else {
                            assert(edges[y].0.0 != edges[x].0.0);
                        }
                    }
                }
                rows.lemma_multiset_has_no_duplicates();
                sorted.lemma_multiset_has_no_duplicates_conv();
                assert(sorted[i] != sorted[j]);
            } else if a < b {
                assert(edges[a].0.0 != edges[b].0.0);
            } else {
                assert(edges[b].0.0 != edges[a].0.0);
            }
        }
    }
    assert forall|e: OwnedEdge| #[trigger] out.contains(e) <==> edges.contains(e) by {
        if out.contains(e) {
            let i = choose|i: int| 0 <= i < out.len() && out[i] == e;
            lemma_arranged_from(rows, i);
            let a = choose|a: int| 0 <= a < rows.len() && rows[a] == sorted[i];
            assert(edges[a] == e);
        }
        if edges.contains(e) {
            let a = choose|a: int| 0 <= a < edges.len() && edges[a] == e;
            assert(rows[a] == edge_row(e));
            assert(rows.contains(edge_row(e)));
            crate::order::lemma_same_rows(rows, sorted, edge_row(e));
            let i = choose|i: int| 0 <= i < sorted.len() && sorted[i] == edge_row(e);
            assert(out[i] == e);
        }
    }
}

fn sort_by_destination(edges: Vec<OwnedEdge>) -> (r: Vec<OwnedEdge>)
    requires
        distinct(edges@),
    ensures
        r@ == by_destination(edges@),
        ascending(r@),
        r@.len() == edges@.len(),
{
    let n: usize = edges.len();
    let mut rows: Vec<Row> = Vec::with_capacity(n);
    let mut i: usize = 0;
    while i < n
        invariant
            i <= n == edges@.len(),
            rows@ =~= edge_rows(edges@).take(i as int),
        decreases n - i,
    {
        let e: OwnedEdge = edges[i];
        rows.push((e.0.0, e.1 as u64, e.2 as u64, e.3 as u64));
        assert(edge_rows(edges@)[i as int] == edge_row(e));
        i = i + 1;
    }
    assert(rows@ =~= edge_rows(edges@));
    arrange(&mut rows);
    let mut out: Vec<OwnedEdge> = Vec::with_capacity(n);
    let mut i: usize = 0;
    while i < n
        invariant
            i <= n == rows@.len(),
            rows@ == arranged(edge_rows(edges@)),
            out@ =~= by_destination(edges@).take(i as int),
            by_destination(edges@).len() == n,
        decreases n - i,
    {
        let r: Row = rows[i];
        out.push((UrlKey(r.0), r.1 as u8, r.2 as u8, r.3 as u16));
        i = i + 1;
    }
    assert(out@ =~= by_destination(edges@));
    proof {
        lemma_by_destination(edges@);
    }
    out
}

/// The exclusive write handle: what is staged, over the snapshot that the
/// mutations are decided against.
pub struct Writer<'s> {
    snap: &'s Snapshot<'s>,
    state: WriteState,
}

impl<'s> Writer<'s> {
    /// The graph that mutations are decided against.
    pub closed spec fn graph(&self) -> GraphV {
        self.snap.graph()
    }

    /// What is staged and committed.
    pub closed spec fn state(&self) -> WriteV {
        self.state@
    }

    pub closed spec fn inner_wf(&self) -> bool {
        self.snap.wf()
    }

    /// The snapshot is sound and every staged op fits a log frame.
    pub open spec fn wf(&self) -> bool {
        &&& self.inner_wf()
        &&& self.state().wf()
    }

    /// The handle still looks at the same graph.
    pub open spec fn follows(&self, before: &Self) -> bool {
        &&& self.wf()
        &&& self.graph() == before.graph()
    }

    /// Start writing against `snap`.
    pub fn new(snap: &'s Snapshot<'s>, state: WriteState) -> (w: Self)
        requires
            snap.wf(),
            state@.wf(),
        ensures
            w.wf(),
            w.graph() == snap.graph(),
            w.state() == state@,
    {
        Writer { snap, state }
    }

    /// Give the state back, with whatever was staged.
    pub fn into_state(self) -> (s: WriteState)
        ensures
            s@ == self.state(),
    {
        self.state
    }

    fn stage(&mut self, op: Op)
        requires
            old(self).wf(),
            loggable(op@),
        ensures
            final(self).follows(old(self)),
            final(self).state() == old(self).state().stage(op@),
    {
        self.state.staged.push(op);
        assert(self.state@.staged =~= old(self).state@.staged.push(op@));
    }

    /// Stage a node create/replace.
    pub fn upsert_node(&mut self, doc: &DocRecord<'_>) -> (r: Result<()>)
        requires
            old(self).wf(),
        ensures
            final(self).follows(old(self)),
            match r {
                Ok(_) => doc_fault(*doc) is None && final(self).state() == old(self).state().stage(
                    doc_op(*doc),
                ),
                Err(e) => doc_fault(*doc) == Some(e@) && final(self).state() == old(self).state(),
            },
    {
        check_label("url", doc.url)?;
        if doc.url.is_empty() {
            return Err(Error::format("url must not be empty"));
        }
        match doc.title {
            Some(t) => check_label("title", t)?,
            None => {},
        }
        match doc.snippet {
            Some(t) => check_label("snippet", t)?,
            None => {},
        }
        match doc.etag {
            Some(t) => check_label("etag", t)?,
            None => {},
        }
        let flags: u16 = if doc.pinned {
            nflags::PINNED
        } else {
            0
        };
        let op: Op = Op::UpsertNode {
            key: doc.url_key,
            content_hash: doc.content_hash,
            fetched_at_ms: doc.fetched_at_ms,
            flags,
            url: doc.url.to_owned(),
            title: owned(doc.title),
            snippet: owned(doc.snippet),
            etag: owned(doc.etag),
        };
        assert(op@ == doc_op(*doc));
        proof {
            lemma_loggable(op@);
        }
        self.stage(op);
        Ok(())
    }

    /// What the overlay says of `key` once everything staged is committed.
    fn patch_after(&self, key: UrlKey) -> (r: Option<OverlayNode>)
        requires
            self.wf(),
        ensures
            patch_of(self.graph().ops + self.state().staged, key.0) == (match r {
                Some(p) => Some(p@),
                None => None,
            }),
    {
        let ghost ops = self.graph().ops;
        let ghost staged = self.state().staged;
        let mut patch: Option<OverlayNode> = match self.snap.overlay().get(key.0) {
            Some(p) => Some(p.duplicate()),
            None => None,
        };
        let n: usize = self.state.staged.len();
        let mut i: usize = 0;
        assert(ops + staged.take(0) =~= ops);
        while i < n
            invariant
                i <= n == self.state.staged@.len(),
                staged == ops_values(self.state.staged@),
                patch_of(ops + staged.take(i as int), key.0) == (match patch {
                    Some(p) => Some(p@),
                    None => None,
                }),
            decreases n - i,
        {
            let op: &Op = &self.state.staged[i];
            assert(staged[i as int] == op@);
            assert(ops + staged.take(i + 1) =~= (ops + staged.take(i as int)).push(op@));
            proof {
                crate::overlay::law_fold_is_incremental(
                    ops + staged.take(i as int),
                    op@,
                    key.0,
                );
            }
            if op.key().0 == key.0 {
                let before: OverlayNode = match patch {
                    Some(p) => p,
                    None => OverlayNode::default(),
                };
                patch = Some(before.fold(op));
            }
            i = i + 1;
        }
        assert(staged.take(n as int) =~= staged);
        patch
    }

    /// Stage a whole-set segment replacement for `key`. Enrichment-scored
    /// importance survives for segments whose heading path (and therefore
    /// [`SegKey`]) is unchanged; what a staged remove discards does not.
    pub fn set_segments(&mut self, key: UrlKey, segs: &[SegmentRecord<'_>]) -> (r: Result<()>)
        requires
            old(self).wf(),
        ensures
            final(self).follows(old(self)),
            match r {
                Ok(_) => segs_fault(segs@) is None && final(self).state()
                    == old(self).state().stage(
                    OpV::SetSegments {
                        key,
                        segs: stored_segs(
                            old(self).graph(),
                            old(self).state().staged,
                            key.0,
                            segs@,
                        ),
                    },
                ),
                Err(e) => segs_fault(segs@) == Some(e@) && final(self).state()
                    == old(self).state(),
            },
    {
        let ghost g = self.snap.graph();
        let ghost staged = self.state().staged;
        if segs.len() > MAX_SEGS {
            return Err(Error::format("more than 128 segments"));
        }
        let snap: &'s Snapshot<'s> = self.snap;
        let current: Vec<SegRef<'_>> = snap.segments(key);
        let removed: bool = self.staged_remove(key);
        let patch: Option<OverlayNode> = self.patch_after(key);
        let upcoming: Vec<SegRef<'_>> = snap.segments_under(
            key,
            match &patch {
                Some(p) => Some(p),
                None => None,
            },
        );
        let n: usize = segs.len();
        let mut owned_segs: Vec<OwnedSeg> = Vec::with_capacity(n);
        let mut i: usize = 0;
        while i < n
            invariant
                i <= n == segs@.len(),
                n <= MAX_SEGS,
                g == snap.graph(),
                anchors_view(current@) == g.segs(key.0),
                removed == removes(staged, key.0),
                anchors_view(upcoming@) == g.segs_after(staged, key.0),
                owned_segs@.len() == i,
                forall|j: int|
                    0 <= j < i ==> (#[trigger] owned_segs@[j])@ == stored_seg(
                        g,
                        staged,
                        key.0,
                        segs@[j],
                    ),
                forall|j: int| 0 <= j < i ==> !too_long((#[trigger] segs@[j]).label@),
                self.wf(),
                self.state() == old(self).state(),
                self.graph() == old(self).graph(),
            decreases n - i,
        {
            let s: SegmentRecord<'_> = segs[i];
            match check_label("segment", s.label) {
                Ok(_) => {},
                Err(e) => {
                    assert(too_long(segs@[i as int].label@));
                    return Err(e);
                },
            }
            let k: SegKey = SegKey::derive(key, s.label);
            let carried: Option<u16> = match find_carried(&upcoming, k.0) {
                Some(score) => Some(score),
                None => if removed {
                    None
                } else {
                    find_carried(&current, k.0)
                },
            };
            let (importance, score_flag): (u16, u8) = match carried {
                Some(imp) => (imp, sflags::LLM_SCORED),
                None => (s.importance, 0),
            };
            let (byte_start, byte_len, range_flag): (u32, u32, u8) = match s.byte_range {
                Some((start, len)) => (start, len, 0),
                None => (0, 0, sflags::NO_RANGE),
            };
            let depth: u8 = if s.depth == 0 {
                1
            } else {
                s.depth
            };
            owned_segs.push(
                OwnedSeg {
                    label: s.label.to_owned(),
                    byte_start,
                    byte_len,
                    depth,
                    importance,
                    flags: range_flag | score_flag,
                },
            );
            i = i + 1;
        }
        let op: Op = Op::SetSegments { key, segs: owned_segs };
        proof {
            assert(segs_view(owned_segs@) =~= stored_segs(g, staged, key.0, segs@));
            lemma_loggable(op@);
        }
        self.stage(op);
        Ok(())
    }

    /// Stage a whole-set outbound-edge replacement for `key`. Edges are
    /// deduplicated by destination (first occurrence wins: document order is
    /// salience order) and stored sorted by destination key.
    pub fn set_edges(&mut self, key: UrlKey, edges: &[(UrlKey, EdgeType, u16)])
        requires
            old(self).wf(),
        ensures
            final(self).follows(old(self)),
            final(self).state() == old(self).state().stage(
                OpV::SetEdges {
                    key,
                    edges: replaced_edges(
                        old(self).graph().edges_after(old(self).state().staged, key.0),
                        key.0,
                        edges@,
                        0,
                    ),
                },
            ),
    {
        self.set_edges_flagged(key, edges, 0)
    }

    /// Tier-scoped replacement over a whole-set op: edges belonging to the
    /// *other* tier are preserved, committed or staged, so a crawl re-ingest can
    /// never destroy enrichment edges and vice versa. New edges win a
    /// destination tie and take the room that the other tier leaves.
    pub fn set_edges_flagged(
        &mut self,
        key: UrlKey,
        edges: &[(UrlKey, EdgeType, u16)],
        extra_flags: u8,
    )
        requires
            old(self).wf(),
        ensures
            final(self).follows(old(self)),
            final(self).state() == old(self).state().stage(
                OpV::SetEdges {
                    key,
                    edges: replaced_edges(
                        old(self).graph().edges_after(old(self).state().staged, key.0),
                        key.0,
                        edges@,
                        extra_flags,
                    ),
                },
            ),
    {
        let ghost old_edges = self.snap.graph().edges_after(self.state().staged, key.0);
        let others: Vec<OwnedEdge> = self.other_edges(key, extra_flags & eflags::TIER_ENRICH != 0);
        proof {
            lemma_other_tier(old_edges, of_enrichment(extra_flags));
            lemma_new_edges(key.0, others@, edges@, extra_flags);
        }
        let mut out: Vec<OwnedEdge> = fill_edges(key, &others, edges, extra_flags);
        let ghost fresh = out@;
        let m: usize = others.len();
        let mut i: usize = 0;
        let ghost elsewhere = |e: OwnedEdge| !leads_to(fresh, e.0.0);
        assert(others@.take(0).filter(elsewhere) =~= Seq::empty()) by {
            reveal(Seq::filter);
        }
        while i < m
            invariant
                i <= m == others@.len(),
                elsewhere == (|e: OwnedEdge| !leads_to(fresh, e.0.0)),
                fresh.len() <= out@.len(),
                out@ == fresh + others@.take(i as int).filter(elsewhere),
                distinct(others@),
            decreases m - i,
        {
            let e: OwnedEdge = others[i];
            let taken: bool = has_edge_to(&out, e.0.0);
            proof {
                let pre = others@.take(i as int);
                assert(others@.take(i + 1).drop_last() =~= pre);
                assert(others@.take(i + 1).filter(elsewhere) == if elsewhere(e) {
                    pre.filter(elsewhere).push(e)
                } else {
                    pre.filter(elsewhere)
                }) by {
                    reveal(Seq::filter);
                }
                assert(distinct(pre)) by {
                    assert forall|a: int, b: int| 0 <= a < b < pre.len() implies pre[a].0.0
                        != pre[b].0.0 by {
                        assert(others@[a].0.0 != others@[b].0.0);
                    }
                }
                lemma_left_over_elements(pre, fresh);
                let rest = left_over(pre, fresh);
                assert(taken == leads_to(fresh, e.0.0)) by {
                    if leads_to(fresh, e.0.0) {
                        let a = choose|a: int|
                            0 <= a < fresh.len() && (#[trigger] fresh[a]).0.0 == e.0.0;
                        assert(out@[a].0.0 == e.0.0);
                    }
                    if taken {
                        let a = choose|a: int|
                            0 <= a < out@.len() && (#[trigger] out@[a]).0.0 == e.0.0;
                        if a < fresh.len() {
                            assert(fresh[a].0.0 == e.0.0);
                        } else {
                            assert(rest.contains(rest[a - fresh.len()]));
                            let b = choose|b: int|
                                0 <= b < pre.len() && pre[b] == rest[a - fresh.len()];
                            assert(others@[b].0.0 != others@[i as int].0.0);
                        }
                    }
                }
            }
            if !taken {
                out.push(e);
            }
            i = i + 1;
        }
        assert(others@.take(m as int) =~= others@);
        proof {
            lemma_replaced(old_edges, key.0, edges@, extra_flags);
        }
        let sorted: Vec<OwnedEdge> = sort_by_destination(out);
        let op: Op = Op::SetEdges { key, edges: sorted };
        proof {
            lemma_loggable(op@);
        }
        self.stage(op)
    }

    /// The edges of the tier that is not replaced, as they stand once
    /// everything staged is committed.
    fn other_edges(&self, key: UrlKey, enrich: bool) -> (r: Vec<OwnedEdge>)
        requires
            self.wf(),
        ensures
            r@ == other_tier(self.graph().edges_after(self.state().staged, key.0), enrich),
    {
        let ghost old_edges = self.graph().edges_after(self.state().staged, key.0);
        let patch: Option<OverlayNode> = self.patch_after(key);
        let snap: &'s Snapshot<'s> = self.snap;
        let current: Vec<EdgeRef<'_>> = snap.neighbors_under(key, patch.as_ref()).collect();
        let m: usize = current.len();
        let mut out: Vec<OwnedEdge> = Vec::new();
        let mut i: usize = 0;
        assert(old_edges.take(0) =~= Seq::empty());
        assert(m == old_edges.len());
        while i < m
            invariant
                i <= m == current@.len(),
                edges_view(current@) == old_edges,
                m == old_edges.len(),
                out@ == other_tier(old_edges.take(i as int), enrich),
            decreases m - i,
        {
            let e: EdgeRef<'_> = current[i];
            assert(old_edges[i as int] == e@);
            assert(old_edges.take(i + 1).drop_last() =~= old_edges.take(i as int));
            if e.is_enrichment() != enrich && out.len() < MAX_EDGES && !has_edge_to(
                &out,
                e.dst_key.0,
            ) {
                out.push((e.dst_key, e.etype.as_tag(), e.flags, e.weight));
            }
            i = i + 1;
        }
        assert(old_edges.take(m as int) =~= old_edges);
        out
    }

    /// Record a revalidation outcome. Freshness policy (interval growth/cut,
    /// counters) is computed here from the node's current state and the
    /// store's policy; returns `false` when `key` is unknown.
    pub fn touch(&mut self, key: UrlKey, t: Touch<'_>) -> (r: Result<bool>)
        requires
            old(self).wf(),
            old(self).graph().node(key.0) is Some && (t.outcome is Unchanged || t.outcome is Changed)
                && !(t.etag is Some && too_long(t.etag->0@)) ==> old(self).graph().ttl.wf(),
        ensures
            final(self).follows(old(self)),
            match r {
                Ok(known) => {
                    &&& t.etag is Some ==> !too_long(t.etag->0@)
                    &&& known == (old(self).graph().node(key.0) is Some)
                    &&& final(self).state() == (if known {
                        old(self).state().stage(
                            touch_op(old(self).graph(), old(self).graph().node(key.0)->0, t),
                        )
                    } else {
                        old(self).state()
                    })
                },
                Err(e) => t.etag is Some && too_long(t.etag->0@) && e@ == label_too_long("etag"@)
                    && final(self).state() == old(self).state(),
            },
    {
        match t.etag {
            Some(e) => check_label("etag", e)?,
            None => {},
        }
        let snap: &'s Snapshot<'s> = self.snap;
        let ghost g = snap.graph();
        let node: NodeRef<'_> = match snap.node(key) {
            Some(n) => n,
            None => {
                return Ok(false);
            },
        };
        proof {
            snap.lemma_wf();
            crate::model::lemma_node_fits(g, key.0);
            crate::model::lemma_node_key(g, key.0);
        }
        let interval: u32 = if node.interval_s == 0 {
            1
        } else {
            node.interval_s
        };
        let next: u32 = snap.ttl().next_interval(interval, t.outcome);
        let changed: bool = match t.outcome {
            Outcome::Changed => true,
            _ => false,
        };
        let gone: bool = match t.outcome {
            Outcome::Gone => true,
            _ => false,
        };
        let content_hash: u64 = match t.content_hash {
            Some(h) => h,
            None => node.content_hash,
        };
        let etag: Option<String> = match t.etag {
            Some(e) => Some(e.to_owned()),
            None => owned(node.etag),
        };
        let op: Op = Op::Touch {
            key,
            checked_at_ms: t.checked_at_ms,
            outcome: t.outcome.as_tag(),
            content_hash: Some(content_hash),
            etag,
            interval_s: next,
            checks: node.checks.saturating_add(1),
            changes: if changed {
                node.changes.saturating_add(1)
            } else {
                node.changes
            },
            last_change_ms: if changed {
                t.checked_at_ms
            } else {
                node.last_change_ms
            },
            tombstone: gone,
        };
        assert(op@ == touch_op(g, node@, t));
        proof {
            lemma_loggable(op@);
        }
        self.stage(op);
        Ok(true)
    }

    /// Stage enrichment importance overrides `(segment ordinal, importance)`.
    pub fn set_importance(&mut self, key: UrlKey, scores: &[(u8, u16)]) -> (r: Result<()>)
        requires
            old(self).wf(),
        ensures
            final(self).follows(old(self)),
            match r {
                Ok(_) => scores@.len() <= MAX_SEGS && final(self).state()
                    == old(self).state().stage(OpV::SetImportance { key, scores: scores@ }),
                Err(e) => scores@.len() > MAX_SEGS && e@ == Fault::Format(
                    "too many importance overrides"@,
                ) && final(self).state() == old(self).state(),
            },
    {
        if scores.len() > MAX_SEGS {
            return Err(Error::format("too many importance overrides"));
        }
        let op: Op = Op::SetImportance { key, scores: clone_scores(scores) };
        proof {
            lemma_loggable(op@);
        }
        self.stage(op);
        Ok(())
    }

    /// Stage a pin/unpin. Returns `false` (staging nothing) when `key` is
    /// neither committed nor upserted earlier in this same batch: a pin on a
    /// document that does not exist must not lie in wait for a future upsert.
    pub fn set_pinned(&mut self, key: UrlKey, pinned: bool) -> (r: Result<bool>)
        requires
            old(self).wf(),
        ensures
            final(self).follows(old(self)),
            r is Ok,
            r->Ok_0 == (upserts(old(self).state().staged, key.0) || old(self).graph().node(
                key.0,
            ) is Some),
            final(self).state() == (if r->Ok_0 {
                old(self).state().stage(OpV::SetPinned { key, pinned })
            } else {
                old(self).state()
            }),
    {
        let exists: bool = self.staged_upsert(key) || self.snap.node(key).is_some();
        if !exists {
            return Ok(false);
        }
        let op: Op = Op::SetPinned { key, pinned };
        proof {
            lemma_loggable(op@);
        }
        self.stage(op);
        Ok(true)
    }

    fn staged_upsert(&self, key: UrlKey) -> (r: bool)
        ensures
            r == upserts(self.state().staged, key.0),
    {
        let ghost ops = self.state@.staged;
        let n: usize = self.state.staged.len();
        let mut i: usize = 0;
        while i < n
            invariant
                i <= n == self.state.staged@.len(),
                ops == ops_values(self.state.staged@),
                forall|j: int|
                    0 <= j < i ==> !(#[trigger] ops[j] is UpsertNode && ops[j].target().0 == key.0),
            decreases n - i,
        {
            let op: &Op = &self.state.staged[i];
            assert(ops[i as int] == op@);
            match op {
                Op::UpsertNode { key: k, .. } => {
                    if k.0 == key.0 {
                        return true;
                    }
                },
                _ => {},
            }
            i = i + 1;
        }
        false
    }

    fn staged_remove(&self, key: UrlKey) -> (r: bool)
        ensures
            r == removes(self.state().staged, key.0),
    {
        let ghost ops = self.state@.staged;
        let n: usize = self.state.staged.len();
        let mut i: usize = 0;
        while i < n
            invariant
                i <= n == self.state.staged@.len(),
                ops == ops_values(self.state.staged@),
                forall|j: int|
                    0 <= j < i ==> !(#[trigger] ops[j] is Remove && ops[j].target().0 == key.0),
            decreases n - i,
        {
            let op: &Op = &self.state.staged[i];
            assert(ops[i as int] == op@);
            match op {
                Op::Remove { key: k } => {
                    if k.0 == key.0 {
                        return true;
                    }
                },
                _ => {},
            }
            i = i + 1;
        }
        false
    }

    /// Stage a hard delete.
    pub fn remove(&mut self, key: UrlKey) -> (r: Result<()>)
        requires
            old(self).wf(),
        ensures
            final(self).follows(old(self)),
            r is Ok,
            final(self).state() == old(self).state().stage(OpV::Remove { key }),
    {
        let op: Op = Op::Remove { key };
        proof {
            lemma_loggable(op@);
        }
        self.stage(op);
        Ok(())
    }

    /// Number of staged (uncommitted) ops.
    #[must_use]
    pub fn staged(&self) -> (n: usize)
        ensures
            n == self.state().staged.len(),
    {
        self.state.staged.len()
    }
}

// ---- committing -----------------------------------------------------------

/// When a commit must sync the log.
#[derive(Clone, Copy, Debug, PartialEq, Eq, Structural)]
pub enum Durability {
    /// Sync on every commit (default).
    Always,
    /// Sync every `n` commits; a crash may lose up to the unsynced tail.
    Batch(u32),
    /// Never sync explicitly; durability follows the OS page cache.
    Never,
}

/// Staged ops on their way to the log.
#[derive(Debug)]
pub struct Batch {
    /// The sequence number of the first op.
    pub first_seq: u64,
    /// The ops, in order.
    pub ops: Vec<Op>,
    /// Their frames, one after the other.
    pub frames: Vec<u8>,
}

/// `ops` numbered from `first` on.
pub open spec fn numbered(first: u64, ops: Seq<OpV>) -> Seq<(u64, OpV)> {
    Seq::new(ops.len(), |i: int| ((first + i) as u64, ops[i]))
}

/// A count that stops at `most`.
pub open spec fn capped(n: nat, most: nat) -> nat {
    if n > most {
        most
    } else {
        n
    }
}

impl WriteV {
    /// The number of the last committed op.
    pub open spec fn last_seq(self) -> u64 {
        if self.next_seq == 0 {
            0
        } else {
            (self.next_seq - 1) as u64
        }
    }

    /// With `count` ops of `bytes` log bytes committed.
    pub open spec fn committed(self, count: nat, bytes: nat) -> WriteV {
        WriteV {
            next_seq: (self.next_seq + count) as u64,
            wal_bytes: capped(self.wal_bytes + bytes, u64::MAX as nat),
            ops_since_compact: capped(self.ops_since_compact + count, usize::MAX as nat),
            ..self
        }
    }

    /// The log has outgrown the thresholds.
    pub open spec fn outgrown(self, after_ops: nat, after_wal_bytes: nat) -> bool {
        self.ops_since_compact >= after_ops || self.wal_bytes >= after_wal_bytes
    }

    /// After a compaction: an empty log, numbered from `next_seq` on.
    pub open spec fn restarted(self, next_seq: u64) -> WriteV {
        WriteV { next_seq, ops_since_compact: 0, wal_bytes: 64, commits_since_sync: 0, ..self }
    }

    /// How many commits went unsynced once this one is appended.
    pub open spec fn unsynced(self, durability: Durability) -> nat {
        match durability {
            Durability::Batch(_) => capped(self.commits_since_sync + 1, u32::MAX as nat),
            _ => self.commits_since_sync,
        }
    }

    /// This commit must be synced.
    pub open spec fn sync_due(self, durability: Durability) -> bool {
        match durability {
            Durability::Always => true,
            Durability::Batch(n) => self.unsynced(durability) >= n && self.unsynced(durability) >= 1,
            Durability::Never => false,
        }
    }
}

impl WriteState {
    /// The state after opening a store.
    pub fn new(next_seq: u64, replayed_ops: usize, wal_bytes: u64) -> (s: Self)
        ensures
            s@ == (WriteV {
                next_seq,
                staged: Seq::empty(),
                ops_since_compact: replayed_ops as nat,
                wal_bytes: wal_bytes as nat,
                commits_since_sync: 0,
            }),
            s@.wf(),
    {
        let s: WriteState = WriteState {
            next_seq,
            staged: Vec::new(),
            ops_since_compact: replayed_ops,
            wal_bytes,
            commits_since_sync: 0,
        };
        assert(s@.staged =~= Seq::empty());
        s
    }

    /// The state after a compaction: the log is fresh.
    pub fn reset_after_compact(&mut self, next_seq: u64)
        ensures
            final(self)@ == (WriteV {
                next_seq,
                ops_since_compact: 0,
                wal_bytes: 64,
                commits_since_sync: 0,
                ..old(self)@
            }),
            final(self)@ == old(self)@.restarted(next_seq),
    {
        self.next_seq = next_seq;
        self.ops_since_compact = 0;
        self.wal_bytes = 64;
        self.commits_since_sync = 0;
    }

    /// Nothing is staged.
    pub fn staged_is_empty(&self) -> (r: bool)
        ensures
            r == (self@.staged.len() == 0),
    {
        self.staged.len() == 0
    }

    /// The number of the last committed op.
    pub fn last_committed_seq(&self) -> (r: u64)
        ensures
            r == self@.last_seq(),
    {
        self.next_seq.saturating_sub(1)
    }

    /// There is room to number everything staged.
    pub fn has_room(&self) -> (r: bool)
        ensures
            r == (self@.next_seq + self@.staged.len() <= u64::MAX),
    {
        self.staged.len() as u64 <= u64::MAX - self.next_seq
    }

    /// Take everything staged and encode it; `None` if nothing is.
    pub fn begin_commit(&mut self) -> (r: Option<Batch>)
        requires
            old(self)@.wf(),
            old(self)@.next_seq + old(self)@.staged.len() <= u64::MAX,
        ensures
            match r {
                None => old(self)@.staged.len() == 0 && final(self)@ == old(self)@,
                Some(b) => {
                    &&& old(self)@.staged.len() > 0
                    &&& final(self)@ == (WriteV { staged: Seq::empty(), ..old(self)@ })
                    &&& b.first_seq == old(self)@.next_seq
                    &&& ops_values(b.ops@) == old(self)@.staged
                    &&& b.frames@ == frames(numbered(b.first_seq, old(self)@.staged))
                },
            },
    {
        if self.staged.len() == 0 {
            return None;
        }
        let first_seq: u64 = self.next_seq;
        let mut ops: Vec<Op> = Vec::new();
        std::mem::swap(&mut ops, &mut self.staged);
        assert(self@.staged =~= Seq::empty());
        let ghost vs = ops_values(ops@);
        let ghost all = numbered(first_seq, vs);
        let n: usize = ops.len();
        let mut buf: Vec<u8> = Vec::new();
        let mut i: usize = 0;
        assert(all.take(0) =~= Seq::empty());
        while i < n
            invariant
                i <= n == ops@.len(),
                vs == ops_values(ops@),
                all == numbered(first_seq, vs),
                all_loggable(vs),
                first_seq + n <= u64::MAX,
                buf@ == frames(all.take(i as int)),
            decreases n - i,
        {
            assert(loggable(vs[i as int]));
            assert(vs[i as int] == ops@[i as int]@);
            let frame: Vec<u8> = encode_frame(first_seq + i as u64, &ops[i]);
            crate::bytesio::put_bytes(&mut buf, frame.as_slice());
            assert(all.take(i + 1).drop_last() =~= all.take(i as int));
            assert(all.take(i + 1).last() == all[i as int]);
            i = i + 1;
        }
        assert(all.take(n as int) =~= all);
        Some(Batch { first_seq, ops, frames: buf })
    }

    /// The frames are appended: count the commit and say whether the log must
    /// be synced now.
    pub fn after_append(&mut self, durability: Durability) -> (sync: bool)
        ensures
            sync == old(self)@.sync_due(durability),
            final(self)@ == (WriteV {
                commits_since_sync: old(self)@.unsynced(durability),
                ..old(self)@
            }),
    {
        match durability {
            Durability::Always => true,
            Durability::Batch(n) => {
                self.commits_since_sync = self.commits_since_sync.saturating_add(1);
                let least: u32 = if n == 0 {
                    1
                } else {
                    n
                };
                self.commits_since_sync >= least
            },
            Durability::Never => false,
        }
    }

    /// The log is synced.
    pub fn after_sync(&mut self)
        ensures
            final(self)@ == (WriteV { commits_since_sync: 0, ..old(self)@ }),
    {
        self.commits_since_sync = 0;
    }

    /// `count` ops of `bytes` log bytes are durable and published. Returns the
    /// last committed sequence number.
    pub fn finish_commit(&mut self, count: usize, bytes: usize) -> (last: u64)
        requires
            0 < count,
            old(self)@.next_seq + count <= u64::MAX,
        ensures
            final(self)@ == (WriteV {
                next_seq: (old(self)@.next_seq + count) as u64,
                wal_bytes: capped(old(self)@.wal_bytes + bytes as nat, u64::MAX as nat),
                ops_since_compact: capped(
                    old(self)@.ops_since_compact + count as nat,
                    usize::MAX as nat,
                ),
                ..old(self)@
            }),
            last == final(self)@.last_seq(),
            final(self)@ == old(self)@.committed(count as nat, bytes as nat),
    {
        self.wal_bytes = self.wal_bytes.saturating_add(bytes as u64);
        self.next_seq = self.next_seq + count as u64;
        self.ops_since_compact = self.ops_since_compact.saturating_add(count);
        self.next_seq - 1
    }

    /// The log has outgrown the thresholds: fold it into a new base.
    pub fn wants_compaction(&self, after_ops: usize, after_wal_bytes: u64) -> (r: bool)
        ensures
            r == (self@.ops_since_compact >= after_ops || self@.wal_bytes >= after_wal_bytes),
            r == self@.outgrown(after_ops as nat, after_wal_bytes as nat),
    {
        self.ops_since_compact >= after_ops || self.wal_bytes >= after_wal_bytes
    }
}

impl Batch {
    /// Publish the ops into the overlay.
    pub fn publish(&self, arena: &mut Arena) -> (r: Result<()>)
        requires
            self.first_seq + self.ops@.len() <= u64::MAX,
        ensures
            r is Ok <==> self.ops@.len() == 0 || old(arena)@.len() + self.ops@.len()
                <= crate::overlay::ARENA_CAP,
            r matches Err(e) ==> e@ == Fault::Busy("overlay arena full"@),
            r is Ok ==> ops_view(final(arena)@) == ops_view(old(arena)@) + numbered(
                self.first_seq,
                ops_values(self.ops@),
            ),
            r is Err ==> ops_view(final(arena)@) == ops_view(old(arena)@) + numbered(
                self.first_seq,
                ops_values(self.ops@),
            ).take(room(old(arena)@.len())),
            storable_entries(old(arena)@) && all_loggable(ops_values(self.ops@))
                ==> storable_entries(final(arena)@),
    {
        let ghost all = numbered(self.first_seq, ops_values(self.ops@));
        let n: usize = self.ops.len();
        let mut i: usize = 0;
        assert(ops_view(arena@) =~= ops_view(old(arena)@) + all.take(0));
        while i < n
            invariant
                i <= n == self.ops@.len(),
                all == numbered(self.first_seq, ops_values(self.ops@)),
                self.first_seq + n <= u64::MAX,
                arena@.len() == old(arena)@.len() + i,
                ops_view(arena@) == ops_view(old(arena)@) + all.take(i as int),
                old(arena)@.len() + i <= crate::overlay::ARENA_CAP || i == 0,
                storable_entries(old(arena)@) && all_loggable(ops_values(self.ops@))
                    ==> storable_entries(arena@),
            decreases n - i,
        {
            let op: Op = self.ops[i].clone();
            let seq: u64 = self.first_seq + i as u64;
            let ghost was = arena@;
            if !arena.publish(seq, op) {
                return Err(Error::busy("overlay arena full"));
            }
            assert(all[i as int] == (seq, op@));
            assert(ops_values(self.ops@)[i as int] == op@);
            assert(ops_view(arena@) =~= ops_view(was).push((seq, op@)));
            assert(ops_view(arena@) =~= ops_view(old(arena)@) + all.take(i + 1));
            i = i + 1;
        }
        assert(all.take(n as int) =~= all);
        Ok(())
    }
}

// ---- laws -----------------------------------------------------------------

proof fn lemma_frames_join(a: Seq<(u64, OpV)>, b: Seq<(u64, OpV)>)
    ensures
        frames(a + b) == frames(a) + frames(b),
    decreases b.len(),
{
    if b.len() == 0 {
        assert(a + b =~= a);
        assert(frames(a) + frames(b) =~= frames(a));
    } else {
        lemma_frames_join(a, b.drop_last());
        assert((a + b).drop_last() =~= a + b.drop_last());
        assert((a + b).last() == b.last());
        let f = frame_bytes(b.last().0, b.last().1);
        assert(frames(a) + frames(b.drop_last()) + f =~= frames(a) + (frames(b.drop_last()) + f));
    }
}

/// The ops of a batch follow those that were logged before.
proof fn lemma_batch_follows(logged: Seq<(u64, OpV)>, state: WriteV)
    requires
        loggable_ops(logged),
        state.wf(),
        state.next_seq + state.staged.len() <= u64::MAX,
        logged.len() > 0 ==> logged.last().0 < state.next_seq,
    ensures
        loggable_ops(logged + numbered(state.next_seq, state.staged)),
{
    let batch = numbered(state.next_seq, state.staged);
    let all = logged + batch;
    assert forall|i: int| 0 <= i < all.len() implies loggable((#[trigger] all[i]).1) by {
        if i < logged.len() {
            assert(all[i] == logged[i]);
        } else {
            assert(loggable(state.staged[i - logged.len()]));
        }
    }
    assert forall|i: int, j: int| 0 <= i < j < all.len() implies all[i].0 < all[j].0 by {
        if i < logged.len() && j >= logged.len() {
            if i < logged.len() - 1 {
                assert(logged[i].0 < logged[logged.len() - 1].0);
            }
        }
    }
}

/// A log with a batch appended is the log of all the ops.
proof fn lemma_log_grows(
    base_generation: u64,
    created_at_ms: u64,
    logged: Seq<(u64, OpV)>,
    batch: Seq<(u64, OpV)>,
)
    ensures
        crate::format::wal::log_bytes(base_generation, created_at_ms, logged) + frames(batch)
            == crate::format::wal::log_bytes(base_generation, created_at_ms, logged + batch),
{
    lemma_frames_join(logged, batch);
    let head = crate::format::wal::header_bytes(base_generation, created_at_ms);
    assert(head + frames(logged) + frames(batch) =~= head + (frames(logged) + frames(batch)));
}

/// Appending a committed batch to a log gives the log of all the ops: replay
/// gives back exactly what was there and what was committed.
pub proof fn law_commit_is_replayed(
    base_generation: u64,
    created_at_ms: u64,
    logged: Seq<(u64, OpV)>,
    state: WriteV,
)
    requires
        loggable_ops(logged),
        state.wf(),
        state.next_seq + state.staged.len() <= u64::MAX,
        logged.len() > 0 ==> logged.last().0 < state.next_seq,
    ensures
        ({
            let all = logged + numbered(state.next_seq, state.staged);
            let log = crate::format::wal::log_bytes(base_generation, created_at_ms, logged)
                + frames(numbered(state.next_seq, state.staged));
            &&& loggable_ops(all)
            &&& crate::format::wal::parsed_header(log) == Ok::<u64, Fault>(base_generation)
            &&& crate::format::wal::replay_from(log, 64, Seq::empty()) == Ok::<
                (Seq<(u64, OpV)>, int),
                Fault,
            >((all, log.len() as int))
        }),
{
    let batch = numbered(state.next_seq, state.staged);
    lemma_batch_follows(logged, state);
    lemma_log_grows(base_generation, created_at_ms, logged, batch);
    crate::format::wal::law_log_round_trip(base_generation, created_at_ms, logged + batch);
}

/// Replacing one tier never destroys an edge of the other: every place that the
/// other tier led to is still led to, by the very edge that led there unless a
/// new edge does. Where old edges repeat a destination, the first stands for
/// them. What is stored of a node never exceeds the cap, so neither does what
/// there is to keep.
pub proof fn law_replacement_keeps_the_other_tier(
    old_edges: Seq<EdgeV>,
    key: u64,
    edges: Seq<(UrlKey, EdgeType, u16)>,
    extra_flags: u8,
    i: int,
)
    requires
        0 <= i < old_edges.len(),
        i < MAX_EDGES,
        of_enrichment(old_edges[i].flags) != of_enrichment(extra_flags),
    ensures
        leads_to(replaced_edges(old_edges, key, edges, extra_flags), old_edges[i].dst_key),
        (forall|j: int|
            0 <= j < edges.len() ==> (#[trigger] edges[j]).0.0 != old_edges[i].dst_key || edges[j].0.0
                == key) && (forall|a: int|
            0 <= a < i ==> (#[trigger] old_edges[a]).dst_key != old_edges[i].dst_key)
            ==> replaced_edges(old_edges, key, edges, extra_flags).contains(
            kept_edge(old_edges[i]),
        ),
{
    let enrich = of_enrichment(extra_flags);
    let others = other_tier(old_edges, enrich);
    let fresh = new_edges(key, others, edges, extra_flags);
    let out = replaced_edges(old_edges, key, edges, extra_flags);
    let dst = old_edges[i].dst_key;
    lemma_replaced(old_edges, key, edges, extra_flags);
    lemma_other_tier_keeps(old_edges, enrich, i);
    lemma_new_edges_are_given(key, others, edges, extra_flags, dst);
    let e = if leads_to(fresh, dst) {
        fresh[choose|a: int| 0 <= a < fresh.len() && (#[trigger] fresh[a]).0.0 == dst]
    } else {
        others[choose|a: int| 0 <= a < others.len() && (#[trigger] others[a]).0.0 == dst]
    };
    assert(fresh.contains(e) || others.contains(e));
    assert(out.contains(e));
    let b = choose|b: int| 0 <= b < out.len() && out[b] == e;
    assert(out[b].0.0 == dst);
}

/// The other tier leads where its edges did, by the first of them.
proof fn lemma_other_tier_keeps(old_edges: Seq<EdgeV>, enrich: bool, i: int)
    requires
        0 <= i < old_edges.len(),
        i < MAX_EDGES,
        of_enrichment(old_edges[i].flags) != enrich,
    ensures
        leads_to(other_tier(old_edges, enrich), old_edges[i].dst_key),
        (forall|a: int| 0 <= a < i ==> (#[trigger] old_edges[a]).dst_key != old_edges[i].dst_key)
            ==> other_tier(old_edges, enrich).contains(kept_edge(old_edges[i])),
    decreases old_edges.len(),
{
    let pre = old_edges.drop_last();
    let before = other_tier(pre, enrich);
    let all = other_tier(old_edges, enrich);
    let e = kept_edge(old_edges[i]);
    lemma_other_tier_is_given(pre, enrich, old_edges[i].dst_key);
    if i == old_edges.len() - 1 {
        if !leads_to(before, e.0.0) {
            assert(all[before.len() as int] == e);
        }
    } else {
        lemma_other_tier_keeps(pre, enrich, i);
        assert(pre[i] == old_edges[i]);
        let a = choose|a: int| 0 <= a < before.len() && (#[trigger] before[a]).0.0 == e.0.0;
        assert(all[a].0.0 == e.0.0);
        if forall|a: int| 0 <= a < i ==> (#[trigger] old_edges[a]).dst_key != old_edges[i].dst_key {
            assert(forall|a: int| 0 <= a < i ==> (#[trigger] pre[a]) == old_edges[a]);
            let a = choose|a: int| 0 <= a < before.len() && before[a] == e;
            assert(all[a] == e);
        }
    }
}

proof fn lemma_other_tier_is_given(old_edges: Seq<EdgeV>, enrich: bool, dst: u64)
    ensures
        other_tier(old_edges, enrich).len() <= old_edges.len(),
        leads_to(other_tier(old_edges, enrich), dst) ==> exists|a: int|
            0 <= a < old_edges.len() && (#[trigger] old_edges[a]).dst_key == dst,
    decreases old_edges.len(),
{
    if old_edges.len() > 0 {
        let pre = old_edges.drop_last();
        let before = other_tier(pre, enrich);
        let last = old_edges.last();
        lemma_other_tier_is_given(pre, enrich, dst);
        lemma_leads_to_push(before, kept_edge(last), dst);
        if leads_to(before, dst) {
            let a = choose|a: int| 0 <= a < pre.len() && (#[trigger] pre[a]).dst_key == dst;
            assert(old_edges[a].dst_key == dst);
        } else if leads_to(other_tier(old_edges, enrich), dst) {
            assert(old_edges[old_edges.len() - 1].dst_key == dst);
        }
    }
}

/// New edges lead only where some given edge does, and never back.
proof fn lemma_new_edges_are_given(
    key: u64,
    others: Seq<OwnedEdge>,
    edges: Seq<(UrlKey, EdgeType, u16)>,
    extra_flags: u8,
    dst: u64,
)
    ensures
        leads_to(new_edges(key, others, edges, extra_flags), dst) ==> dst != key && exists|j: int|
            0 <= j < edges.len() && (#[trigger] edges[j]).0.0 == dst,
    decreases edges.len(),
{
    if edges.len() > 0 {
        let pre = edges.drop_last();
        let before = new_edges(key, others, pre, extra_flags);
        lemma_new_edges_are_given(key, others, pre, extra_flags, dst);
        lemma_leads_to_push(before, new_edge(edges.last(), extra_flags), dst);
        if leads_to(before, dst) {
            let j = choose|j: int| 0 <= j < pre.len() && (#[trigger] pre[j]).0.0 == dst;
            assert(edges[j].0.0 == dst);
        } else if leads_to(new_edges(key, others, edges, extra_flags), dst) {
            assert(edges[edges.len() - 1].0.0 == dst);
        }
    }
}

/// A new edge, the first of its destination and no loop, is stored with its
/// tier's flags wherever the other tier leads to the same place, and wherever it
/// and all before it fit beside the other tier.
pub proof fn law_new_edges_are_stored(
    old_edges: Seq<EdgeV>,
    key: u64,
    edges: Seq<(UrlKey, EdgeType, u16)>,
    extra_flags: u8,
    j: int,
)
    requires
        0 <= j < edges.len(),
        edges[j].0.0 != key,
        forall|a: int| 0 <= a < j ==> (#[trigger] edges[a]).0.0 != edges[j].0.0,
        ({
            let others = other_tier(old_edges, of_enrichment(extra_flags));
            leads_to(others, edges[j].0.0) || others.len() + j < MAX_EDGES
        }),
    ensures
        replaced_edges(old_edges, key, edges, extra_flags).contains(
            new_edge(edges[j], extra_flags),
        ),
{
    let enrich = of_enrichment(extra_flags);
    let others = other_tier(old_edges, enrich);
    let upto = edges.take(j + 1);
    let pre = edges.take(j);
    let before = new_edges(key, others, pre, extra_flags);
    let now = new_edges(key, others, upto, extra_flags);
    let fresh = new_edges(key, others, edges, extra_flags);
    let e = new_edge(edges[j], extra_flags);
    lemma_replaced(old_edges, key, edges, extra_flags);
    lemma_other_tier(old_edges, enrich);
    lemma_new_edges(key, others, pre, extra_flags);
    lemma_left_over_elements(others, before);
    lemma_new_edges_are_given(key, others, pre, extra_flags, e.0.0);
    assert(upto.drop_last() =~= pre);
    assert(!leads_to(before, e.0.0)) by {
        if leads_to(before, e.0.0) {
            let a = choose|a: int| 0 <= a < pre.len() && (#[trigger] pre[a]).0.0 == e.0.0;
            assert(edges[a].0.0 == e.0.0);
        }
    }
    lemma_left_over(others, before, e);
    assert(now == before.push(e));
    assert(upto + edges.skip(j + 1) =~= edges);
    law_cap_keeps_document_order(key, others, upto, edges.skip(j + 1), extra_flags);
    assert(fresh.take(now.len() as int)[before.len() as int] == e);
    assert(fresh[before.len() as int] == e);
    assert(fresh.contains(e));
}

/// What a replacement stores is strictly ascending, without repeats, and
/// within the cap.
pub proof fn law_stored_edges_are_ordered_and_capped(
    old_edges: Seq<EdgeV>,
    key: u64,
    edges: Seq<(UrlKey, EdgeType, u16)>,
    extra_flags: u8,
)
    ensures
        ascending(replaced_edges(old_edges, key, edges, extra_flags)),
        replaced_edges(old_edges, key, edges, extra_flags).len() <= MAX_EDGES,
{
    lemma_replaced(old_edges, key, edges, extra_flags);
}

/// No node links to itself by a new edge.
pub proof fn law_new_edges_never_loop(
    key: u64,
    others: Seq<OwnedEdge>,
    edges: Seq<(UrlKey, EdgeType, u16)>,
    extra_flags: u8,
)
    ensures
        !leads_to(new_edges(key, others, edges, extra_flags), key),
{
    lemma_new_edges_are_given(key, others, edges, extra_flags, key);
}

/// Past the cap, what comes first in the document stays.
pub proof fn law_cap_keeps_document_order(
    key: u64,
    others: Seq<OwnedEdge>,
    edges: Seq<(UrlKey, EdgeType, u16)>,
    more: Seq<(UrlKey, EdgeType, u16)>,
    extra_flags: u8,
)
    ensures
        new_edges(key, others, edges, extra_flags).is_prefix_of(
            new_edges(key, others, edges + more, extra_flags),
        ),
    decreases more.len(),
{
    let a = new_edges(key, others, edges, extra_flags);
    if more.len() == 0 {
        assert(edges + more =~= edges);
        assert(a =~= a.take(a.len() as int));
    } else {
        law_cap_keeps_document_order(key, others, edges, more.drop_last(), extra_flags);
        assert((edges + more).drop_last() =~= edges + more.drop_last());
        let b = new_edges(key, others, edges + more.drop_last(), extra_flags);
        let c = new_edges(key, others, edges + more, extra_flags);
        assert(a =~= c.take(a.len() as int)) by {
            assert(a =~= b.take(a.len() as int));
        }
    }
}

/// A touch is visible as soon as it is committed, and an unchanged check keeps
/// the hash and the tag that were observed before.
pub proof fn law_touch_takes_effect(g: GraphV, key: u64, t: Touch<'_>)
    requires
        g.node(key) is Some,
    ensures
        ({
            let n = g.node(key)->0;
            let later = GraphV { ops: g.ops.push(touch_op(g, n, t)), ..g };
            let m = later.node(key)->0;
            &&& later.node(key) is Some
            &&& m.fetched_at_ms == t.checked_at_ms
            &&& m.checks == plus_one(n.checks)
            &&& m.interval_s == g.ttl.after(at_least_one(n.interval_s) as nat, t.outcome) as u32
            &&& m.url == n.url && m.title == n.title && m.snippet == n.snippet
            &&& t.content_hash is None ==> m.content_hash == n.content_hash
            &&& t.etag is None ==> m.etag == n.etag
            &&& !(t.outcome is Changed) ==> m.changes == n.changes && m.last_change_ms
                == n.last_change_ms
        }),
{
    let n = g.node(key)->0;
    let op = touch_op(g, n, t);
    let later = GraphV { ops: g.ops.push(op), ..g };
    crate::model::lemma_node_key(g, key);
    crate::overlay::law_fold_is_incremental(g.ops, op, key);
    assert(later.find(key) == g.find(key));
    assert(forall|i: u32| later.rank_of(i) == g.rank_of(i));
}

/// An enrichment score survives a re-crawl that keeps the heading, also one
/// that is staged in the same batch: the segment is stored with the score it
/// has, and still marked as scored.
pub proof fn law_scores_survive_a_recrawl(
    g: GraphV,
    staged: Seq<OpV>,
    key: u64,
    s: SegmentRecord<'_>,
    i: int,
)
    requires
        0 <= i < g.segs_after(staged, key).len(),
        g.segs_after(staged, key)[i].key == seg_key(UrlKey(key), s.label@),
        g.segs_after(staged, key)[i].flags & sflags::LLM_SCORED != 0,
        forall|j: int|
            0 <= j < i ==> !((#[trigger] g.segs_after(staged, key)[j]).key == seg_key(
                UrlKey(key),
                s.label@,
            ) && g.segs_after(staged, key)[j].flags & sflags::LLM_SCORED != 0),
    ensures
        stored_seg(g, staged, key, s).importance == g.segs_after(staged, key)[i].importance,
        stored_seg(g, staged, key, s).flags & sflags::LLM_SCORED != 0,
{
    lemma_carried(g.segs_after(staged, key), seg_key(UrlKey(key), s.label@), 0, i);
    assert((0u8 | sflags::LLM_SCORED) & sflags::LLM_SCORED != 0) by (bit_vector);
    assert((sflags::NO_RANGE | sflags::LLM_SCORED) & sflags::LLM_SCORED != 0) by (bit_vector);
}

proof fn lemma_carried(segs: Seq<AnchorV>, k: u64, from: int, i: int)
    requires
        0 <= from <= i < segs.len(),
        segs[i].key == k,
        segs[i].flags & sflags::LLM_SCORED != 0,
        forall|j: int|
            from <= j < i ==> !((#[trigger] segs[j]).key == k && segs[j].flags & sflags::LLM_SCORED
                != 0),
    ensures
        carried_score(segs, k, from) == Some(segs[i].importance),
    decreases i - from,
{
    if from < i {
        assert(!(segs[from].key == k && segs[from].flags & sflags::LLM_SCORED != 0));
        lemma_carried(segs, k, from + 1, i);
    }
}

} // verus!
