//! Read views. A [`Snapshot`] pins one base generation plus the overlay ops
//! committed before it was taken; everything it returns borrows either the
//! base bytes or the overlay, so reads are never invalidated by concurrent
//! commits.
//!
//! Structural results (ranks, communities, the lexicon behind query seeds)
//! reflect the last compaction; point lookups, freshness and due-lists
//! additionally see every committed op.
use crate::bytesio::{get_u16, get_u32};
use crate::format::base::dir::record;
#[allow(unused_imports)]
use crate::format::base::dir::{
    edge_start, lemma_described, node_resolves, node_row, opt_bytes, raw, seg_fault, tables,
};
#[allow(unused_imports)]
use crate::format::base::records::{keys_ascend, label, label_fault, node_key, rec_at};
use crate::format::base::{
    find_node, label_at, nflags, sflags, BaseDir, NodeRec, SectionKind, SegRec, NODE_LEN, RANK_LEN,
    SEG_LEN,
};
#[allow(unused_imports)]
use crate::format::wal::{segs_view, storable_entries, OpV};
use crate::format::wal::{opt_str, Op, OwnedSeg};
use crate::key::{NodeId, SegKey, UrlKey};
#[allow(unused_imports)]
use crate::model::{
    is_stub, is_tombstone, lemma_find, lemma_found, or_blank, overlay_seg, overlay_segs, score_one,
    scored, touched, with_pin, AnchorV, GraphV, NodeV,
};
#[allow(unused_imports)]
use crate::order::{lemma_listing, listing};
use crate::order::sorted_distinct;
#[allow(unused_imports)]
use crate::overlay::{beyond, is_pinned, patch_of, plain_ops};
use crate::overlay::{scores_beyond, CoreFields, OverlayNode, OverlayView, TouchFields};
use crate::traverse::Neighbors;
#[allow(unused_imports)]
use crate::traverse::{opt_id, opt_text};
use crate::ttl::TtlConfig;
use vstd::prelude::*;
use vstd::string::*;

verus! {

/// A pinned, immutable read view of the store.
pub struct Snapshot<'s> {
    bytes: &'s [u8],
    dir: &'s BaseDir,
    view: OverlayView,
    ttl: TtlConfig,
    pending: usize,
}

/// A document node resolved through a snapshot. All strings are borrowed.
#[derive(Clone, Copy, Debug)]
pub struct NodeRef<'s> {
    /// Durable key.
    pub key: UrlKey,
    /// Dense id in the current base generation; `None` for nodes that only
    /// exist in the overlay (committed after the last compaction).
    pub id: Option<NodeId>,
    /// Canonical URL ("" for stubs).
    pub url: &'s str,
    /// Title, if known.
    pub title: Option<&'s str>,
    /// Distilled snippet, if known.
    pub snippet: Option<&'s str>,
    /// Last seen entity tag, if any (needed for conditional revalidation).
    pub etag: Option<&'s str>,
    /// xxh3 of the last-seen body.
    pub content_hash: u64,
    /// Last successful fetch/revalidation stamp.
    pub fetched_at_ms: u64,
    /// Last observed content change stamp.
    pub last_change_ms: u64,
    /// Current adaptive revalidation interval, seconds.
    pub interval_s: u32,
    /// Revalidations observed (saturating).
    pub checks: u16,
    /// Content changes observed (saturating).
    pub changes: u16,
    /// Node flags (`nflags`).
    pub flags: u16,
    /// Rank percentile in permille (0 for overlay-fresh nodes).
    pub rank_permille: u16,
}

impl<'s> View for NodeRef<'s> {
    type V = NodeV;

    open spec fn view(&self) -> NodeV {
        NodeV {
            key: self.key.0,
            id: opt_id(self.id),
            url: self.url@,
            title: opt_text(self.title),
            snippet: opt_text(self.snippet),
            etag: opt_text(self.etag),
            content_hash: self.content_hash,
            fetched_at_ms: self.fetched_at_ms,
            last_change_ms: self.last_change_ms,
            interval_s: self.interval_s,
            checks: self.checks,
            changes: self.changes,
            flags: self.flags,
            rank_permille: self.rank_permille,
        }
    }
}

impl<'s> NodeRef<'s> {
    /// Pinned nodes are exempt from eviction sweeps.
    #[must_use]
    pub fn pinned(&self) -> (r: bool)
        ensures
            r == is_pinned(self.flags),
    {
        self.flags & nflags::PINNED != 0
    }

    /// True for edge-target stubs never ingested themselves.
    #[must_use]
    pub fn is_stub(&self) -> (r: bool)
        ensures
            r == is_stub(self.flags),
    {
        self.flags & nflags::STUB != 0
    }

    /// True when the source was observed gone.
    #[must_use]
    pub fn is_tombstone(&self) -> (r: bool)
        ensures
            r == is_tombstone(self.flags),
    {
        self.flags & nflags::TOMBSTONE != 0
    }
}

/// A sub-document segment reference: an anchor, never content.
#[derive(Clone, Copy, Debug)]
pub struct SegRef<'s> {
    /// Durable segment key.
    pub key: SegKey,
    /// Heading-path label.
    pub label: &'s str,
    /// Byte range in the source document, when known.
    pub byte_range: Option<(u32, u32)>,
    /// Heading depth (1 = H1 ...).
    pub depth: u8,
    /// Importance in 1/65535 units.
    pub importance: u16,
    /// Raw segment flags (`sflags`).
    pub flags: u8,
}

impl<'s> View for SegRef<'s> {
    type V = AnchorV;

    open spec fn view(&self) -> AnchorV {
        AnchorV {
            key: self.key.0,
            label: self.label@,
            byte_range: self.byte_range,
            depth: self.depth,
            importance: self.importance,
            flags: self.flags,
        }
    }
}

/// The values of a run of segments.
pub open spec fn anchors_view<'a>(segs: Seq<SegRef<'a>>) -> Seq<AnchorV> {
    segs.map_values(|s: SegRef<'a>| s@)
}

/// The values of a run of nodes.
pub open spec fn nodes_view<'a>(nodes: Seq<NodeRef<'a>>) -> Seq<NodeV> {
    nodes.map_values(|n: NodeRef<'a>| n@)
}

/// Every op fits its encoding.
pub open spec fn all_storable(ops: Seq<OpV>) -> bool {
    forall|i: int| 0 <= i < ops.len() ==> (#[trigger] ops[i]).storable()
}

fn or_empty_str<'a>(s: Option<&'a str>) -> (r: &'a str)
    ensures
        r@ == or_blank(opt_text(s)),
{
    match s {
        Some(t) => t,
        None => {
            proof {
                reveal_strlit("");
            }
            let t: &'a str = "";
            assert(t@ =~= Seq::empty());
            t
        },
    }
}

fn or_no_bytes<'a>(s: Option<&'a [u8]>) -> (b: &'a [u8])
    ensures
        b@ == raw(opt_bytes(s)),
{
    match s {
        Some(b) => b,
        None => {
            let b: &'a [u8] = &[];
            assert(b@ =~= Seq::empty());
            b
        },
    }
}

fn pin_flags(flags: u16, pinned: bool) -> (r: u16)
    ensures
        r == with_pin(flags, pinned),
{
    if pinned {
        flags | nflags::PINNED
    } else {
        flags & !nflags::PINNED
    }
}

fn touch_node<'a>(n: NodeRef<'a>, t: &'a TouchFields) -> (r: NodeRef<'a>)
    ensures
        r@ == touched(n@, t@),
{
    let mut r: NodeRef<'a> = n;
    r.fetched_at_ms = t.checked_at_ms;
    r.interval_s = t.interval_s;
    r.checks = t.checks;
    r.changes = t.changes;
    r.last_change_ms = t.last_change_ms;
    match t.content_hash {
        Some(h) => {
            r.content_hash = h;
        },
        None => {},
    }
    match &t.etag {
        Some(e) => {
            r.etag = Some(e.as_str());
        },
        None => {},
    }
    if t.tombstone {
        r.flags = r.flags | nflags::TOMBSTONE;
    }
    r
}

proof fn lemma_scored_none(scores: Seq<(u8, u16)>)
    ensures
        scored(Seq::empty(), scores) == Seq::<AnchorV>::empty(),
    decreases scores.len(),
{
    if scores.len() > 0 {
        lemma_scored_none(scores.drop_last());
    }
}

impl<'s> Snapshot<'s> {
    /// What the snapshot shows.
    pub closed spec fn graph(&self) -> GraphV {
        GraphV {
            h: self.dir.header,
            t: tables(self.dir@, self.bytes@),
            ops: self.view.ops(),
            ttl: self.ttl,
        }
    }

    pub closed spec fn inner_wf(&self) -> bool {
        &&& self.dir.describes(self.bytes@)
        &&& self.view.wf()
        &&& self.pending == self.view.ops().len()
    }

    /// The base is a validated file and the overlay holds storable ops.
    pub open spec fn wf(&self) -> bool {
        &&& self.inner_wf()
        &&& all_storable(self.graph().ops)
    }

    pub proof fn lemma_wf(&self)
        requires
            self.wf(),
        ensures
            self.graph().wf(),
    {
        lemma_described(self.dir@, self.bytes@);
    }

    /// The view of `ops` over the base `bytes`.
    pub fn new(bytes: &'s [u8], dir: &'s BaseDir, ops: &[(u64, Op)], ttl: TtlConfig) -> (s: Self)
        requires
            dir.describes(bytes@),
            storable_entries(ops@),
        ensures
            s.wf(),
            s.graph() == (GraphV {
                h: dir@.header,
                t: tables(dir@, bytes@),
                ops: plain_ops(ops@),
                ttl,
            }),
    {
        let view: OverlayView = OverlayView::build(ops);
        Snapshot { bytes, dir, view, ttl, pending: ops.len() }
    }

    /// The freshness policy.
    pub fn ttl(&self) -> (r: &TtlConfig)
        ensures
            *r == self.graph().ttl,
    {
        &self.ttl
    }

    /// The folded overlay.
    pub fn overlay(&self) -> (r: &OverlayView)
        requires
            self.wf(),
        ensures
            r.wf(),
            r.ops() == self.graph().ops,
    {
        &self.view
    }

    /// The base generation this snapshot pins.
    #[must_use]
    pub fn generation(&self) -> (r: u64)
        ensures
            r == self.graph().h.generation,
    {
        self.dir.header.generation
    }

    /// Committed-but-uncompacted op count visible to this snapshot.
    #[must_use]
    pub fn pending_ops(&self) -> (r: usize)
        requires
            self.wf(),
        ensures
            r == self.graph().ops.len(),
    {
        self.pending
    }

    // ---- raw section access -----------------------------------------------

    fn section(&self, kind: SectionKind) -> (r: &'s [u8])
        requires
            self.wf(),
        ensures
            r@ == raw(
                crate::format::base::dir::section_bytes(self.dir@, self.bytes@, kind),
            ),
    {
        proof {
            lemma_described(self.dir@, self.bytes@);
        }
        or_no_bytes(self.dir.section(self.bytes, kind))
    }

    pub(crate) fn nodes_bytes(&self) -> (r: &'s [u8])
        requires
            self.wf(),
        ensures
            r@ == raw(self.graph().t.nodes),
    {
        self.section(SectionKind::Nodes)
    }

    pub(crate) fn labels(&self) -> (r: &'s [u8])
        requires
            self.wf(),
        ensures
            r@ == raw(self.graph().t.labels),
    {
        self.section(SectionKind::Labels)
    }

    pub(crate) fn segs_bytes(&self) -> (r: &'s [u8])
        requires
            self.wf(),
        ensures
            r@ == raw(self.graph().t.segs),
    {
        self.section(SectionKind::Segs)
    }

    pub(crate) fn edges_bytes(&self) -> (r: &'s [u8])
        requires
            self.wf(),
        ensures
            r@ == raw(self.graph().t.edges),
    {
        self.section(SectionKind::Edges)
    }

    pub(crate) fn edge_index(&self) -> (r: &'s [u8])
        requires
            self.wf(),
        ensures
            r@ == raw(self.graph().t.edge_index),
    {
        self.section(SectionKind::EdgeIndex)
    }

    pub(crate) fn ranks_bytes(&self) -> (r: &'s [u8])
        requires
            self.wf(),
        ensures
            r@ == raw(self.graph().t.ranks),
    {
        self.section(SectionKind::Ranks)
    }

    pub(crate) fn lexicon(&self) -> (r: &'s [u8])
        requires
            self.wf(),
        ensures
            r@ == raw(self.graph().t.lexicon),
    {
        self.section(SectionKind::Lexicon)
    }

    pub(crate) fn postings(&self) -> (r: &'s [u8])
        requires
            self.wf(),
        ensures
            r@ == raw(self.graph().t.postings),
    {
        self.section(SectionKind::Postings)
    }

    /// Node count in the base (including stubs and tombstones).
    #[must_use]
    pub fn base_len(&self) -> (n: usize)
        ensures
            n == self.graph().n(),
    {
        self.dir.header.node_count as usize
    }

    /// Token count of the lexicon.
    pub(crate) fn lexicon_len(&self) -> (n: usize)
        ensures
            n == self.graph().h.token_count,
    {
        self.dir.header.token_count as usize
    }

    /// The record of a base node.
    pub fn rec(&self, id: NodeId) -> (r: NodeRec<'s>)
        requires
            self.wf(),
            id.0 < self.graph().n(),
        ensures
            r.wf(),
            r.says() == node_row(self.graph().t, id.0 as int),
    {
        proof {
            self.lemma_wf();
        }
        NodeRec(record(self.nodes_bytes(), NODE_LEN, id.0 as usize))
    }

    /// The id of `key` in the base.
    pub fn base_node_id(&self, key: UrlKey) -> (r: Option<NodeId>)
        requires
            self.wf(),
        ensures
            opt_id(r) == self.graph().find(key.0),
            r matches Some(id) ==> id.0 < self.graph().n(),
    {
        let nodes: &[u8] = self.nodes_bytes();
        let ghost g = self.graph();
        proof {
            self.lemma_wf();
            assert forall|i: int| 0 <= i < g.n() implies #[trigger] node_key(nodes@, i) == node_row(
                g.t,
                i,
            ).url_key by {
                let r = rec_at(nodes@, NODE_LEN as int, i);
                assert(r.subrange(0, 8) =~= nodes@.subrange(i * NODE_LEN, i * NODE_LEN + 8));
            }
            assert(keys_ascend(nodes@, g.n())) by {
                assert forall|i: int, j: int| 0 <= i < j < g.n() implies node_key(nodes@, i)
                    < node_key(nodes@, j) by {
                    assert(node_row(g.t, i).url_key < node_row(g.t, j).url_key);
                }
            }
        }
        match find_node(nodes, key) {
            Some(i) => {
                proof {
                    lemma_find(g, key.0, i as int);
                }
                Some(NodeId(i))
            },
            None => {
                proof {
                    if g.find(key.0) is Some {
                        lemma_found(g, key.0);
                        let i = g.find(key.0)->0 as int;
                        assert(node_key(nodes@, i) == key.0);
                    }
                }
                None
            },
        }
    }

    fn label_of(&self, off: u32) -> (r: Option<&'s str>)
        requires
            self.wf(),
            label_fault(raw(self.graph().t.labels), off) is None,
        ensures
            opt_text(r) == self.graph().label(off),
    {
        label_at(self.labels(), off)
    }

    /// (key, url) of a base node; used by edge resolution.
    pub fn node_identity(&self, id: NodeId) -> (r: (UrlKey, Option<&'s str>))
        requires
            self.wf(),
            id.0 < self.graph().n(),
        ensures
            r.0.0 == node_row(self.graph().t, id.0 as int).url_key,
            opt_text(r.1) == self.graph().url_of(id.0),
    {
        let rec: NodeRec<'s> = self.rec(id);
        proof {
            self.lemma_wf();
            assert(node_resolves(self.graph().h, self.graph().t, id.0 as int));
        }
        (rec.url_key(), self.label_of(rec.url_off()))
    }

    /// Rank percentile of a base node.
    pub fn rank_permille_of(&self, id: NodeId) -> (r: u16)
        requires
            self.wf(),
        ensures
            r == self.graph().rank_of(id.0),
    {
        let ranks: &[u8] = self.ranks_bytes();
        if (id.0 as u64 + 1) * RANK_LEN as u64 <= ranks.len() as u64 {
            let len: usize = ranks.len();
            get_u16(ranks, id.0 as usize * RANK_LEN)
        } else {
            0
        }
    }

    /// Community id of a base node (smallest member node id), if ranked.
    #[must_use]
    pub fn community_of(&self, id: NodeId) -> (r: Option<u32>)
        requires
            self.wf(),
        ensures
            r == self.graph().community(id.0),
    {
        let ranks: &[u8] = self.ranks_bytes();
        if (id.0 as u64 + 1) * RANK_LEN as u64 <= ranks.len() as u64 {
            let len: usize = ranks.len();
            Some(get_u32(ranks, id.0 as usize * RANK_LEN + 4))
        } else {
            None
        }
    }

    // ---- merged lookups ---------------------------------------------------

    /// Look up a node by durable key, merging base and overlay state.
    #[must_use]
    pub fn node(&self, key: UrlKey) -> (r: Option<NodeRef<'_>>)
        requires
            self.wf(),
        ensures
            match r {
                Some(n) => self.graph().node(key.0) == Some(n@),
                None => self.graph().node(key.0) is None,
            },
    {
        match self.view.get(key.0) {
            Some(p) => {
                if p.removed {
                    return None;
                }
                match &p.core {
                    Some(core) => {
                        return Some(self.ingested_node(key, p, core));
                    },
                    None => {},
                }
                match self.base_node_id(key) {
                    Some(id) => {
                        proof {
                            lemma_found(self.graph(), key.0);
                        }
                        Some(self.base_node_ref(id, Some(p)))
                    },
                    None => None,
                }
            },
            None => match self.base_node_id(key) {
                Some(id) => Some(self.base_node_ref(id, None)),
                None => None,
            },
        }
    }

    fn ingested_node<'a>(&'a self, key: UrlKey, p: &'a OverlayNode, core: &'a CoreFields) -> (r:
        NodeRef<'a>)
        requires
            self.wf(),
        ensures
            r@ == self.graph().ingested(key.0, p@, core@),
    {
        let id: Option<NodeId> = self.base_node_id(key);
        let mut flags: u16 = core.flags;
        let mut interval: u32 = self.ttl.base_s;
        let mut checks: u16 = 0;
        let mut changes: u16 = 0;
        let mut last_change: u64 = 0;
        match id {
            Some(i) => {
                if !p.severed {
                    let rec: NodeRec<'_> = self.rec(i);
                    if rec.flags() & nflags::PINNED != 0 {
                        flags = flags | nflags::PINNED;
                    }
                    checks = rec.checks();
                    changes = rec.changes();
                    last_change = rec.last_change_ms();
                    if rec.content_hash() == core.content_hash {
                        let learned: u32 = match p.learned {
                            Some((None, interval_s)) => interval_s,
                            _ => rec.interval_s(),
                        };
                        interval = if learned == 0 {
                            1
                        } else {
                            learned
                        };
                    }
                }
            },
            None => {},
        }
        match p.pinned {
            Some(pinned) => {
                flags = pin_flags(core.flags, pinned);
            },
            None => {},
        }
        match p.learned {
            Some((Some(h), learned)) => {
                if h == core.content_hash {
                    interval = if learned == 0 {
                        1
                    } else {
                        learned
                    };
                }
            },
            _ => {},
        }
        match p.carried {
            Some(h) => {
                checks = h.0;
                changes = h.1;
                last_change = h.2;
            },
            None => {},
        }
        let rank: u16 = match id {
            Some(i) => self.rank_permille_of(i),
            None => 0,
        };
        let n: NodeRef<'a> = NodeRef {
            key,
            id,
            url: core.url.as_str(),
            title: opt_str(&core.title),
            snippet: opt_str(&core.snippet),
            etag: opt_str(&core.etag),
            content_hash: core.content_hash,
            fetched_at_ms: core.fetched_at_ms,
            last_change_ms: last_change,
            interval_s: interval,
            checks,
            changes,
            flags,
            rank_permille: rank,
        };
        match &p.touch {
            Some(t) => touch_node(n, t),
            None => n,
        }
    }

    /// A base node with what the overlay says of it.
    pub fn base_node_ref<'a>(&'a self, id: NodeId, patch: Option<&'a OverlayNode>) -> (r: NodeRef<
        'a,
    >)
        requires
            self.wf(),
            id.0 < self.graph().n(),
        ensures
            r@ == self.graph().patched(
                id.0,
                match patch {
                    Some(p) => Some(p@),
                    None => None,
                },
            ),
    {
        let rec: NodeRec<'_> = self.rec(id);
        proof {
            self.lemma_wf();
            assert(node_resolves(self.graph().h, self.graph().t, id.0 as int));
        }
        let mut n: NodeRef<'a> = NodeRef {
            key: rec.url_key(),
            id: Some(id),
            url: or_empty_str(self.label_of(rec.url_off())),
            title: self.label_of(rec.title_off()),
            snippet: self.label_of(rec.snippet_off()),
            etag: self.label_of(rec.etag_off()),
            content_hash: rec.content_hash(),
            fetched_at_ms: rec.fetched_at_ms(),
            last_change_ms: rec.last_change_ms(),
            interval_s: rec.interval_s(),
            checks: rec.checks(),
            changes: rec.changes(),
            flags: rec.flags(),
            rank_permille: self.rank_permille_of(id),
        };
        match patch {
            Some(p) => {
                match p.pinned {
                    Some(pinned) => {
                        n.flags = pin_flags(n.flags, pinned);
                    },
                    None => {},
                }
                match &p.touch {
                    Some(t) => touch_node(n, t),
                    None => n,
                }
            },
            None => n,
        }
    }

    /// Node by dense id in this generation.
    #[must_use]
    pub fn node_by_id(&self, id: NodeId) -> (r: Option<NodeRef<'_>>)
        requires
            self.wf(),
        ensures
            match r {
                Some(n) => id.0 < self.graph().n() && self.graph().node(
                    node_row(self.graph().t, id.0 as int).url_key,
                ) == Some(n@),
                None => id.0 >= self.graph().n() || self.graph().node(
                    node_row(self.graph().t, id.0 as int).url_key,
                ) is None,
            },
    {
        if id.0 as usize >= self.base_len() {
            return None;
        }
        let key: UrlKey = self.rec(id).url_key();
        self.node(key)
    }
}

impl<'s> Snapshot<'s> {
    /// Live (non-stub, non-tombstone, non-removed) document count.
    #[must_use]
    pub fn len(&self) -> (n: usize)
        requires
            self.wf(),
        ensures
            n == self.graph().live().len(),
    {
        self.live_nodes().len()
    }

    /// True when no live documents exist.
    #[must_use]
    pub fn is_empty(&self) -> (r: bool)
        requires
            self.wf(),
        ensures
            r == (self.graph().live().len() == 0),
    {
        self.len() == 0
    }

    /// The keys that the overlay ingested and the base does not know, in
    /// ascending order.
    pub(crate) fn fresh_keys(&self) -> (r: Vec<u64>)
        requires
            self.wf(),
        ensures
            r@ == listing(self.graph().fresh()),
    {
        let ghost g = self.graph();
        let keys: &Vec<u64> = self.view.keys();
        let n: usize = keys.len();
        let mut out: Vec<u64> = Vec::new();
        let mut i: usize = 0;
        while i < n
            invariant
                self.wf(),
                g == self.graph(),
                i <= n == keys@.len(),
                forall|k: u64| keys@.contains(k) <==> patch_of(g.ops, k) is Some,
                forall|k: u64| #[trigger] out@.contains(k) ==> g.is_fresh(k),
                forall|j: int| 0 <= j < i && g.is_fresh(#[trigger] keys@[j]) ==> out@.contains(
                    keys@[j],
                ),
            decreases n - i,
        {
            let k: u64 = keys[i];
            let ghost was = out@;
            match self.view.get(k) {
                Some(p) => {
                    if !p.removed && p.core.is_some() && self.base_node_id(UrlKey(k)).is_none() {
                        assert(g.is_fresh(k));
                        out.push(k);
                        assert(out@[was.len() as int] == k);
                        assert forall|x: u64| was.contains(x) implies #[trigger] out@.contains(
                            x,
                        ) by {
                            let y = choose|y: int| 0 <= y < was.len() && was[y] == x;
                            assert(out@[y] == x);
                        }
                        assert forall|x: u64| #[trigger] out@.contains(x) implies g.is_fresh(
                            x,
                        ) by {
                            let y = choose|y: int| 0 <= y < out@.len() && out@[y] == x;
                            if y < was.len() {
                                assert(was[y] == x);
                                assert(was.contains(x));
                            }
                        }
                    }
                },
                None => {},
            }
            i = i + 1;
        }
        let r: Vec<u64> = sorted_distinct(&out);
        proof {
            assert forall|k: u64| #[trigger] r@.contains(k) <==> g.fresh()(k) by {
                assert(r@.contains(k) <==> out@.contains(k));
                if g.is_fresh(k) {
                    assert(keys@.contains(k));
                    let j = choose|j: int| 0 <= j < keys@.len() && keys@[j] == k;
                    assert(g.is_fresh(keys@[j]));
                }
            }
            lemma_listing(r@, g.fresh());
        }
        r
    }

    /// Every live node: those of the base by id, then those only in the
    /// overlay by key.
    pub fn live_nodes(&self) -> (r: Vec<NodeRef<'_>>)
        requires
            self.wf(),
        ensures
            nodes_view(r@) == self.graph().live(),
    {
        let ghost g = self.graph();
        let n: usize = self.base_len();
        let mut out: Vec<NodeRef<'_>> = Vec::new();
        assert(nodes_view(out@) =~= Seq::empty());
        let mut i: usize = 0;
        while i < n
            invariant
                self.wf(),
                g == self.graph(),
                i <= n == g.n(),
                n <= u32::MAX,
                nodes_view(out@) == g.base_live(i as int),
            decreases n - i,
        {
            let ghost was = out@;
            let key: UrlKey = self.rec(NodeId(i as u32)).url_key();
            match self.node(key) {
                Some(node) => {
                    if !node.is_stub() && !node.is_tombstone() {
                        out.push(node);
                        assert(nodes_view(out@) =~= nodes_view(was).push(node@));
                    }
                },
                None => {},
            }
            i = i + 1;
        }
        let fresh: Vec<u64> = self.fresh_keys();
        let m: usize = fresh.len();
        let ghost base = nodes_view(out@);
        let mut i: usize = 0;
        assert(fresh@.take(0) =~= Seq::empty());
        assert(nodes_view(out@) =~= base + g.fresh_live(fresh@.take(0)));
        while i < m
            invariant
                self.wf(),
                g == self.graph(),
                i <= m == fresh@.len(),
                nodes_view(out@) == base + g.fresh_live(fresh@.take(i as int)),
            decreases m - i,
        {
            let ghost was = out@;
            assert(fresh@.take(i + 1).drop_last() =~= fresh@.take(i as int));
            match self.node(UrlKey(fresh[i])) {
                Some(node) => {
                    if !node.is_tombstone() {
                        out.push(node);
                        assert(nodes_view(out@) =~= nodes_view(was).push(node@));
                        assert(nodes_view(was).push(node@) =~= base + g.fresh_live(
                            fresh@.take(i as int),
                        ).push(node@));
                    }
                },
                None => {},
            }
            i = i + 1;
        }
        assert(fresh@.take(m as int) =~= fresh@);
        out
    }

    /// Outbound edges of `key`. Overlay whole-set replacements win over the
    /// base run.
    #[must_use]
    pub fn neighbors<'a>(&'a self, key: UrlKey) -> (r: Neighbors<'a>)
        requires
            self.wf(),
        ensures
            r.wf(),
            r.rest() == self.graph().edges(key.0),
    {
        self.neighbors_under(key, self.view.get(key.0))
    }

    /// The outbound edges under an overlay that says `patch` of the key.
    pub(crate) fn neighbors_under<'a>(&'a self, key: UrlKey, patch: Option<&'a OverlayNode>) -> (r:
        Neighbors<'a>)
        requires
            self.wf(),
        ensures
            r.wf(),
            r.rest() == self.graph().edges_under(
                key.0,
                match patch {
                    Some(p) => Some(p@),
                    None => None,
                },
            ),
    {
        let ghost g = self.graph();
        match patch {
            Some(p) => {
                if p.removed {
                    return Neighbors::none();
                }
                match &p.edges {
                    Some(edges) => {
                        return Neighbors::overlay(self, edges);
                    },
                    None => {},
                }
                if p.severed {
                    return Neighbors::none();
                }
            },
            None => {},
        }
        let id: NodeId = match self.base_node_id(key) {
            Some(id) => id,
            None => {
                return Neighbors::none();
            },
        };
        let idx: &[u8] = self.edge_index();
        if idx.len() == 0 {
            return Neighbors::none();
        }
        proof {
            self.lemma_wf();
            assert(edge_start(g.t, id.0 as int) <= edge_start(g.t, id.0 + 1));
            assert(edge_start(g.t, id.0 + 1) <= edge_start(g.t, g.n()));
        }
        let len: usize = idx.len();
        let from: usize = get_u32(idx, id.0 as usize * 4) as usize;
        let to: usize = get_u32(idx, (id.0 as usize + 1) * 4) as usize;
        Neighbors::base(self, self.edges_bytes(), from, to)
    }

    /// The node's segments (anchors). Overlay whole-set replacement wins.
    #[must_use]
    pub fn segments(&self, key: UrlKey) -> (r: Vec<SegRef<'_>>)
        requires
            self.wf(),
        ensures
            anchors_view(r@) == self.graph().segs(key.0),
    {
        self.segments_under(key, self.view.get(key.0))
    }

    /// The segments under an overlay that says `patch` of the key.
    pub(crate) fn segments_under<'a>(&'a self, key: UrlKey, patch: Option<&'a OverlayNode>) -> (r:
        Vec<SegRef<'a>>)
        requires
            self.wf(),
        ensures
            anchors_view(r@) == self.graph().segs_under(
                key.0,
                match patch {
                    Some(p) => Some(p@),
                    None => None,
                },
            ),
    {
        match patch {
            Some(p) => {
                let mut out: Vec<SegRef<'a>> = Vec::new();
                let ghost early = beyond(p@.early, self.graph().base_list(key.0).len());
                assert(anchors_view(out@) =~= Seq::empty());
                if p.removed {
                    proof {
                        lemma_scored_none(early);
                        lemma_scored_none(p@.importance);
                    }
                    return out;
                }
                match &p.segs {
                    Some(segs) => {
                        out = overlay_anchors(key, segs);
                    },
                    None => {
                        if p.severed {
                            proof {
                                lemma_scored_none(early);
                                lemma_scored_none(p@.importance);
                            }
                            return out;
                        }
                        out = self.base_anchors(key);
                    },
                }
                if p.early.len() > 0 {
                    let listed: usize = self.base_anchors(key).len();
                    apply_importance_overrides(&mut out, &scores_beyond(&p.early, listed));
                }
                apply_importance_overrides(&mut out, &p.importance);
                out
            },
            None => self.base_anchors(key),
        }
    }

    fn base_anchors(&self, key: UrlKey) -> (r: Vec<SegRef<'_>>)
        requires
            self.wf(),
        ensures
            anchors_view(r@) == self.graph().base_list(key.0),
    {
        let ghost g = self.graph();
        let mut out: Vec<SegRef<'_>> = Vec::new();
        assert(anchors_view(out@) =~= Seq::empty());
        let id: NodeId = match self.base_node_id(key) {
            Some(id) => id,
            None => {
                return out;
            },
        };
        let rec: NodeRec<'_> = self.rec(id);
        let segs: &[u8] = self.segs_bytes();
        let start: u32 = rec.seg_start();
        let count: u16 = rec.seg_count();
        let ghost f = node_row(g.t, id.0 as int);
        proof {
            self.lemma_wf();
            assert(node_resolves(g.h, g.t, id.0 as int));
        }
        let mut i: u16 = 0;
        while i < count
            invariant
                self.wf(),
                g == self.graph(),
                g.wf(),
                i <= count == f.seg_count,
                start == f.seg_start,
                start + count <= g.h.seg_count,
                segs@ == raw(g.t.segs),
                out@.len() == i,
                forall|j: int| 0 <= j < i ==> (#[trigger] out@[j])@ == g.base_seg(start + j),
            decreases count - i,
        {
            let at: u32 = start + i as u32;
            assert(seg_fault(g.t, at as int) is None);
            let s: SegRec<'_> = SegRec(record(segs, SEG_LEN, at as usize));
            let byte_range: Option<(u32, u32)> = if s.flags() & sflags::NO_RANGE == 0 {
                Some((s.byte_start(), s.byte_len()))
            } else {
                None
            };
            out.push(
                SegRef {
                    key: SegKey(s.seg_key()),
                    label: or_empty_str(self.label_of(s.label_off())),
                    byte_range,
                    depth: s.depth(),
                    importance: s.importance(),
                    flags: s.flags(),
                },
            );
            i = i + 1;
        }
        assert(anchors_view(out@) =~= g.base_segs(id.0));
        out
    }
}

fn overlay_anchors<'a>(key: UrlKey, segs: &'a Vec<OwnedSeg>) -> (r: Vec<SegRef<'a>>)
    ensures
        anchors_view(r@) == overlay_segs(key.0, segs_view(segs@)),
{
    let n: usize = segs.len();
    let mut out: Vec<SegRef<'a>> = Vec::with_capacity(n);
    let mut i: usize = 0;
    while i < n
        invariant
            i <= n == segs@.len(),
            out@.len() == i,
            forall|j: int| 0 <= j < i ==> (#[trigger] out@[j])@ == overlay_seg(key.0, segs@[j]@),
        decreases n - i,
    {
        let s: &'a OwnedSeg = &segs[i];
        let byte_range: Option<(u32, u32)> = if s.flags & sflags::NO_RANGE == 0 {
            Some((s.byte_start, s.byte_len))
        } else {
            None
        };
        out.push(
            SegRef {
                key: SegKey::derive(key, s.label.as_str()),
                label: s.label.as_str(),
                byte_range,
                depth: s.depth,
                importance: s.importance,
                flags: s.flags,
            },
        );
        i = i + 1;
    }
    assert(anchors_view(out@) =~= overlay_segs(key.0, segs_view(segs@)));
    out
}

fn apply_importance_overrides<'a>(segs: &mut Vec<SegRef<'a>>, scores: &Vec<(u8, u16)>)
    ensures
        anchors_view(final(segs)@) == scored(anchors_view(old(segs)@), scores@),
{
    let ghost start = anchors_view(segs@);
    let n: usize = scores.len();
    let mut i: usize = 0;
    assert(scores@.take(0) =~= Seq::empty());
    while i < n
        invariant
            i <= n == scores@.len(),
            anchors_view(segs@) == scored(start, scores@.take(i as int)),
        decreases n - i,
    {
        let (ordinal, importance): (u8, u16) = scores[i];
        let ghost was = segs@;
        if (ordinal as usize) < segs.len() {
            let mut s: SegRef<'a> = segs[ordinal as usize];
            s.importance = importance;
            s.flags = s.flags | sflags::LLM_SCORED;
            segs.set(ordinal as usize, s);
            assert(anchors_view(segs@) =~= score_one(anchors_view(was), (ordinal, importance)));
        }
        assert(scores@.take(i + 1).drop_last() =~= scores@.take(i as int));
        i = i + 1;
    }
    assert(scores@.take(n as int) =~= scores@);
}

} // verus!
