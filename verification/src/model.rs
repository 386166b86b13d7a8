//! What a store says: one base generation and the ops committed since, as one
//! graph. Every read of a snapshot is a function of this.
#[allow(unused_imports)]
use crate::bytesio::number_at;
#[allow(unused_imports)]
use crate::format::base::dir::{edge_dst, edge_start, node_resolves, node_row, raw, sound, Tables};
#[allow(unused_imports)]
use crate::format::base::records::{
    label, label_fault, label_raw, rec_at, seg_fields, NodeFields, EDGE_LEN, RANK_LEN, SEG_LEN,
};
#[allow(unused_imports)]
use crate::format::base::{nflags, sflags, Header};
#[allow(unused_imports)]
use crate::format::wal::{ascending, fits, opt_fits, OpV, OwnedEdge, SegV};
#[allow(unused_imports)]
use crate::key::{seg_key, EdgeType, UrlKey};
#[allow(unused_imports)]
use crate::overlay::{beyond, is_pinned, patch_of, CoreV, PatchV, TouchV};
#[allow(unused_imports)]
use crate::ttl::TtlConfig;
use vstd::prelude::*;

verus! {

/// One base generation, the ops committed since, and the freshness policy.
pub struct GraphV {
    pub h: Header,
    pub t: Tables,
    pub ops: Seq<OpV>,
    pub ttl: TtlConfig,
}

/// A node as a reader sees it.
#[verifier::ext_equal]
pub struct NodeV {
    pub key: u64,
    pub id: Option<u32>,
    pub url: Seq<char>,
    pub title: Option<Seq<char>>,
    pub snippet: Option<Seq<char>>,
    pub etag: Option<Seq<char>>,
    pub content_hash: u64,
    pub fetched_at_ms: u64,
    pub last_change_ms: u64,
    pub interval_s: u32,
    pub checks: u16,
    pub changes: u16,
    pub flags: u16,
    pub rank_permille: u16,
}

/// An outbound edge as a reader sees it.
pub struct EdgeV {
    pub dst: Option<u32>,
    pub dst_key: u64,
    pub dst_url: Option<Seq<char>>,
    pub etype: EdgeType,
    pub flags: u8,
    pub weight: u16,
}

/// A segment as a reader sees it.
pub struct AnchorV {
    pub key: u64,
    pub label: Seq<char>,
    pub byte_range: Option<(u32, u32)>,
    pub depth: u8,
    pub importance: u16,
    pub flags: u8,
}

pub open spec fn is_stub(flags: u16) -> bool {
    flags & nflags::STUB != 0
}

pub open spec fn is_tombstone(flags: u16) -> bool {
    flags & nflags::TOMBSTONE != 0
}

/// The flags with the pin set or cleared.
pub open spec fn with_pin(flags: u16, pinned: bool) -> u16 {
    if pinned {
        flags | nflags::PINNED
    } else {
        flags & !nflags::PINNED
    }
}

/// A label that stands for "" when it is missing.
pub open spec fn or_blank(s: Option<Seq<char>>) -> Seq<char> {
    match s {
        Some(t) => t,
        None => Seq::empty(),
    }
}

/// A node after a revalidation: the touch carries the full freshness state,
/// and what it observed of hash and tag wins.
pub open spec fn touched(n: NodeV, t: TouchV) -> NodeV {
    NodeV {
        fetched_at_ms: t.checked_at_ms,
        interval_s: t.interval_s,
        checks: t.checks,
        changes: t.changes,
        last_change_ms: t.last_change_ms,
        content_hash: match t.content_hash {
            Some(h) => h,
            None => n.content_hash,
        },
        etag: match t.etag {
            Some(e) => Some(e),
            None => n.etag,
        },
        flags: if t.tombstone {
            n.flags | nflags::TOMBSTONE
        } else {
            n.flags
        },
        ..n
    }
}

/// One or more.
pub open spec fn at_least_one(v: u32) -> u32 {
    if v == 0 {
        1
    } else {
        v
    }
}

impl GraphV {
    pub open spec fn n(self) -> int {
        self.h.node_count as int
    }

    pub open spec fn wf(self) -> bool {
        sound(self.h, self.t)
    }

    /// The record of `key` in the base.
    pub open spec fn find(self, key: u64) -> Option<u32> {
        if exists|i: int| 0 <= i < self.n() && (#[trigger] node_row(self.t, i)).url_key == key {
            let i = choose|i: int|
                0 <= i < self.n() && (#[trigger] node_row(self.t, i)).url_key == key;
            Some(i as u32)
        } else {
            None
        }
    }

    /// The rank percentile of a base node.
    pub open spec fn rank_of(self, id: u32) -> u16 {
        if id * RANK_LEN + RANK_LEN <= raw(self.t.ranks).len() {
            number_at(raw(self.t.ranks), id * RANK_LEN, 2) as u16
        } else {
            0
        }
    }

    /// The community of a base node: its smallest member.
    pub open spec fn community(self, id: u32) -> Option<u32> {
        if id * RANK_LEN + RANK_LEN <= raw(self.t.ranks).len() {
            Some(number_at(raw(self.t.ranks), id * RANK_LEN + 4, 4) as u32)
        } else {
            None
        }
    }

    pub open spec fn label(self, off: u32) -> Option<Seq<char>> {
        label(raw(self.t.labels), off)
    }

    /// A base node as its record has it.
    pub open spec fn base_node(self, id: u32) -> NodeV {
        let f = node_row(self.t, id as int);
        NodeV {
            key: f.url_key,
            id: Some(id),
            url: or_blank(self.label(f.url_off)),
            title: self.label(f.title_off),
            snippet: self.label(f.snippet_off),
            etag: self.label(f.etag_off),
            content_hash: f.content_hash,
            fetched_at_ms: f.fetched_at_ms,
            last_change_ms: f.last_change_ms,
            interval_s: f.interval_s,
            checks: f.checks,
            changes: f.changes,
            flags: f.flags,
            rank_permille: self.rank_of(id),
        }
    }

    /// A base node with what the overlay says of it.
    pub open spec fn patched(self, id: u32, patch: Option<PatchV>) -> NodeV {
        let n = self.base_node(id);
        match patch {
            None => n,
            Some(p) => {
                let n = match p.pinned {
                    Some(pinned) => NodeV { flags: with_pin(n.flags, pinned), ..n },
                    None => n,
                };
                match p.touch {
                    Some(t) => touched(n, t),
                    None => n,
                }
            },
        }
    }

    /// The base record that a freshly ingested node goes on from: none after
    /// a remove.
    pub open spec fn heir(self, key: u64, p: PatchV) -> Option<NodeFields> {
        match self.find(key) {
            Some(id) if !p.severed => Some(node_row(self.t, id as int)),
            _ => None,
        }
    }

    /// The flags of a freshly ingested node: an explicit pin state is
    /// authoritative; otherwise pins are sticky across the base generation.
    pub open spec fn ingested_flags(self, key: u64, p: PatchV, c: CoreV) -> u16 {
        match (p.pinned, self.heir(key, p)) {
            (Some(pinned), _) => with_pin(c.flags, pinned),
            (None, Some(f)) if is_pinned(f.flags) => c.flags | nflags::PINNED,
            _ => c.flags,
        }
    }

    /// The revalidation interval of a freshly ingested node: what was learned of
    /// the same content, by the overlay or else by the base record.
    pub open spec fn kept_interval(self, key: u64, p: PatchV, content_hash: u64) -> u32 {
        let by_base = match self.heir(key, p) {
            Some(f) if f.content_hash == content_hash => Some(f.interval_s),
            _ => None,
        };
        match (p.learned, by_base) {
            (Some((Some(h), interval_s)), _) if h == content_hash => at_least_one(interval_s),
            (Some((None, interval_s)), Some(_)) => at_least_one(interval_s),
            (_, Some(interval_s)) => at_least_one(interval_s),
            _ => self.ttl.base_s,
        }
    }

    /// A node whose newest fetch is in the overlay. The fetch wins wholesale;
    /// history always carries forward, from the overlay first, else from the
    /// base record; the interval keeps its learned value only when the content
    /// is in fact unchanged.
    pub open spec fn ingested(self, key: u64, p: PatchV, c: CoreV) -> NodeV {
        let id = self.find(key);
        let heir = self.heir(key, p);
        let (checks, changes, last_change_ms) = match (p.carried, heir) {
            (Some(h), _) => h,
            (None, Some(f)) => (f.checks, f.changes, f.last_change_ms),
            _ => (0, 0, 0),
        };
        let n = NodeV {
            key,
            id,
            url: c.url,
            title: c.title,
            snippet: c.snippet,
            etag: c.etag,
            content_hash: c.content_hash,
            fetched_at_ms: c.fetched_at_ms,
            last_change_ms,
            interval_s: self.kept_interval(key, p, c.content_hash),
            checks,
            changes,
            flags: self.ingested_flags(key, p, c),
            rank_permille: match id {
                Some(i) => self.rank_of(i),
                None => 0,
            },
        };
        match p.touch {
            Some(t) => touched(n, t),
            None => n,
        }
    }

    /// The node of `key`: nothing once removed; the newest fetch if there is
    /// one; else the base record.
    pub open spec fn node(self, key: u64) -> Option<NodeV> {
        let patch = patch_of(self.ops, key);
        match patch {
            Some(p) if p.removed => None,
            Some(p) if p.core is Some => Some(self.ingested(key, p, p.core->0)),
            _ => match self.find(key) {
                Some(id) => Some(self.patched(id, patch)),
                None => None,
            },
        }
    }

    /// The URL of a base node.
    pub open spec fn url_of(self, id: u32) -> Option<Seq<char>> {
        self.label(node_row(self.t, id as int).url_off)
    }

    /// The `j`-th edge of the base.
    pub open spec fn base_edge(self, j: int) -> EdgeV {
        let edges = raw(self.t.edges);
        let dst = edge_dst(self.t, j) as u32;
        EdgeV {
            dst: Some(dst),
            dst_key: node_row(self.t, dst as int).url_key,
            dst_url: self.url_of(dst),
            etype: EdgeType::of_tag(edges[j * EDGE_LEN + 4]),
            flags: edges[j * EDGE_LEN + 5],
            weight: number_at(edges, j * EDGE_LEN + 6, 2) as u16,
        }
    }

    /// An edge of the overlay, resolved against the base.
    pub open spec fn overlay_edge(self, e: OwnedEdge) -> EdgeV {
        let dst = self.find(e.0.0);
        EdgeV {
            dst,
            dst_key: e.0.0,
            dst_url: match dst {
                Some(id) => self.url_of(id),
                None => None,
            },
            etype: EdgeType::of_tag(e.1),
            flags: e.2,
            weight: e.3,
        }
    }

    pub open spec fn base_edges(self, id: u32) -> Seq<EdgeV> {
        if raw(self.t.edge_index).len() == 0 {
            Seq::empty()
        } else {
            let from = edge_start(self.t, id as int);
            let to = edge_start(self.t, id + 1);
            Seq::new((to - from) as nat, |j: int| self.base_edge(from + j))
        }
    }

    pub open spec fn overlay_edges(self, edges: Seq<OwnedEdge>) -> Seq<EdgeV> {
        edges.map_values(|e: OwnedEdge| self.overlay_edge(e))
    }

    /// The outbound edges of `key`: a whole-set replacement of the overlay
    /// wins over the base run, and a remove cuts the base run off.
    pub open spec fn edges(self, key: u64) -> Seq<EdgeV> {
        self.edges_under(key, patch_of(self.ops, key))
    }

    /// Those under an overlay that says `patch` of the key.
    pub open spec fn edges_under(self, key: u64, patch: Option<PatchV>) -> Seq<EdgeV> {
        match patch {
            Some(p) if p.removed => Seq::empty(),
            Some(p) if p.edges is Some => self.overlay_edges(p.edges->0),
            Some(p) if p.severed => Seq::empty(),
            _ => match self.find(key) {
                Some(id) => self.base_edges(id),
                None => Seq::empty(),
            },
        }
    }

    /// The `j`-th segment of the base.
    pub open spec fn base_seg(self, j: int) -> AnchorV {
        let f = seg_fields(rec_at(raw(self.t.segs), SEG_LEN as int, j));
        AnchorV {
            key: f.seg_key,
            label: or_blank(self.label(f.label_off)),
            byte_range: if f.flags & sflags::NO_RANGE == 0 {
                Some((f.byte_start, f.byte_len))
            } else {
                None
            },
            depth: f.depth,
            importance: f.importance,
            flags: f.flags,
        }
    }

    pub open spec fn base_segs(self, id: u32) -> Seq<AnchorV> {
        let f = node_row(self.t, id as int);
        Seq::new(f.seg_count as nat, |j: int| self.base_seg(f.seg_start + j))
    }

    /// The segments of `key` before importance overrides.
    pub open spec fn plain_segs(self, key: u64) -> Seq<AnchorV> {
        self.plain_segs_under(key, patch_of(self.ops, key))
    }

    /// Those under an overlay that says `patch` of the key.
    pub open spec fn plain_segs_under(self, key: u64, patch: Option<PatchV>) -> Seq<AnchorV> {
        match patch {
            Some(p) if p.removed => Seq::empty(),
            Some(p) if p.segs is Some => overlay_segs(key, p.segs->0),
            Some(p) if p.severed => Seq::empty(),
            _ => self.base_list(key),
        }
    }

    /// The segments that the base has of `key`.
    pub open spec fn base_list(self, key: u64) -> Seq<AnchorV> {
        match self.find(key) {
            Some(id) => self.base_segs(id),
            None => Seq::empty(),
        }
    }

    /// The segments of `key`: a whole-set replacement wins, then enrichment
    /// scores override importance by ordinal.
    pub open spec fn segs(self, key: u64) -> Seq<AnchorV> {
        self.segs_under(key, patch_of(self.ops, key))
    }

    /// The segments under an overlay that says `patch` of the key.
    pub open spec fn segs_under(self, key: u64, patch: Option<PatchV>) -> Seq<AnchorV> {
        match patch {
            Some(p) => scored(
                scored(
                    self.plain_segs_under(key, patch),
                    beyond(p.early, self.base_list(key).len()),
                ),
                p.importance,
            ),
            None => self.plain_segs_under(key, patch),
        }
    }

    /// The segments of `key` once `staged` is committed too.
    pub open spec fn segs_after(self, staged: Seq<OpV>, key: u64) -> Seq<AnchorV> {
        self.segs_under(key, patch_of(self.ops + staged, key))
    }

    /// The outbound edges of `key` once `staged` is committed too.
    pub open spec fn edges_after(self, staged: Seq<OpV>, key: u64) -> Seq<EdgeV> {
        self.edges_under(key, patch_of(self.ops + staged, key))
    }

    /// `key` names a live node: one that exists, was ingested and is not gone.
    pub open spec fn shown(self, key: u64) -> Option<NodeV> {
        match self.node(key) {
            Some(n) => if is_stub(n.flags) || is_tombstone(n.flags) {
                None
            } else {
                Some(n)
            },
            None => None,
        }
    }

    /// The live nodes among the first `i` of the base.
    pub open spec fn base_live(self, i: int) -> Seq<NodeV>
        decreases i,
    {
        if i <= 0 {
            Seq::empty()
        } else {
            let pre = self.base_live(i - 1);
            match self.shown(node_row(self.t, i - 1).url_key) {
                Some(n) => pre.push(n),
                None => pre,
            }
        }
    }

    /// `key` was ingested since the last compaction and has no base record.
    pub open spec fn is_fresh(self, key: u64) -> bool {
        &&& patch_of(self.ops, key) is Some
        &&& !(patch_of(self.ops, key)->0).removed
        &&& (patch_of(self.ops, key)->0).core is Some
        &&& self.find(key) is None
    }

    pub open spec fn fresh(self) -> spec_fn(u64) -> bool {
        |key: u64| self.is_fresh(key)
    }

    /// The nodes of `keys` that are not gone.
    pub open spec fn fresh_live(self, keys: Seq<u64>) -> Seq<NodeV>
        decreases keys.len(),
    {
        if keys.len() == 0 {
            Seq::empty()
        } else {
            let pre = self.fresh_live(keys.drop_last());
            match self.node(keys.last()) {
                Some(n) => if is_tombstone(n.flags) {
                    pre
                } else {
                    pre.push(n)
                },
                None => pre,
            }
        }
    }

    /// All live nodes: those of the base by id, then the fresh ones by key.
    pub open spec fn live(self) -> Seq<NodeV> {
        self.base_live(self.n()) + self.fresh_live(crate::order::listing(self.fresh()))
    }
}

pub open spec fn overlay_seg(key: u64, s: SegV) -> AnchorV {
    AnchorV {
        key: seg_key(UrlKey(key), s.label),
        label: s.label,
        byte_range: if s.flags & sflags::NO_RANGE == 0 {
            Some((s.byte_start, s.byte_len))
        } else {
            None
        },
        depth: s.depth,
        importance: s.importance,
        flags: s.flags,
    }
}

pub open spec fn overlay_segs(key: u64, segs: Seq<SegV>) -> Seq<AnchorV> {
    segs.map_values(|s: SegV| overlay_seg(key, s))
}

/// One importance override; an ordinal past the end is ignored.
pub open spec fn score_one(segs: Seq<AnchorV>, s: (u8, u16)) -> Seq<AnchorV> {
    if s.0 < segs.len() {
        let a = segs[s.0 as int];
        segs.update(
            s.0 as int,
            AnchorV { importance: s.1, flags: a.flags | sflags::LLM_SCORED, ..a },
        )
    } else {
        segs
    }
}

/// All importance overrides, in order.
pub open spec fn scored(segs: Seq<AnchorV>, scores: Seq<(u8, u16)>) -> Seq<AnchorV>
    decreases scores.len(),
{
    if scores.len() == 0 {
        segs
    } else {
        score_one(scored(segs, scores.drop_last()), scores.last())
    }
}

/// A node is found at its place in the sorted base.
pub proof fn lemma_find(g: GraphV, key: u64, i: int)
    requires
        g.wf(),
        0 <= i < g.n(),
        node_row(g.t, i).url_key == key,
    ensures
        g.find(key) == Some(i as u32),
{
    let j = choose|j: int| 0 <= j < g.n() && (#[trigger] node_row(g.t, j)).url_key == key;
    if j < i {
        assert(node_row(g.t, j).url_key < node_row(g.t, i).url_key);
    }
    if i < j {
        assert(node_row(g.t, i).url_key < node_row(g.t, j).url_key);
    }
}

/// What `find` gives is a node of that key.
pub proof fn lemma_found(g: GraphV, key: u64)
    requires
        g.find(key) is Some,
    ensures
        g.find(key)->0 < g.n(),
        node_row(g.t, g.find(key)->0 as int).url_key == key,
{
}

/// An edge that leads to a base node leads to one that is there.
pub proof fn lemma_edge_inside(g: GraphV, key: u64, j: int)
    requires
        g.wf(),
        0 <= j < g.edges(key).len(),
    ensures
        g.edges(key)[j].dst matches Some(dst) ==> dst < g.n(),
{
    let e = g.edges(key)[j];
    if let Some(dst) = g.find(e.dst_key) {
        lemma_found(g, e.dst_key);
    }
    if let Some(id) = g.find(key) {
        lemma_found(g, key);
        assert(edge_start(g.t, id as int) <= edge_start(g.t, id + 1));
        assert(edge_start(g.t, id + 1) <= edge_start(g.t, g.n()));
        assert(edge_dst(g.t, edge_start(g.t, id as int) + j) < g.n() || edge_start(g.t, id as int)
            + j >= edge_start(g.t, id + 1));
    }
}

/// A node goes by the key it was looked up with.
pub proof fn lemma_node_key(g: GraphV, key: u64)
    requires
        g.node(key) is Some,
    ensures
        g.node(key)->0.key == key,
{
    if g.find(key) is Some {
        lemma_found(g, key);
    }
}

/// Every string of a patch fits a label.
pub open spec fn patch_fits(p: PatchV) -> bool {
    &&& p.core matches Some(c) ==> fits(c.url) && opt_fits(c.title) && opt_fits(c.snippet)
        && opt_fits(c.etag)
    &&& p.touch matches Some(t) ==> opt_fits(t.etag)
    &&& p.segs matches Some(segs) ==> segs.len() <= 128 && forall|i: int|
        0 <= i < segs.len() ==> fits((#[trigger] segs[i]).label)
    &&& p.edges matches Some(edges) ==> ascending(edges) && edges.len() <= 64
}

/// What storable ops say fits.
pub proof fn lemma_patch_fits(ops: Seq<OpV>, key: u64)
    requires
        forall|i: int| 0 <= i < ops.len() ==> (#[trigger] ops[i]).storable(),
    ensures
        patch_of(ops, key) matches Some(p) ==> patch_fits(p),
    decreases ops.len(),
{
    if ops.len() > 0 {
        let pre = ops.drop_last();
        assert forall|i: int| 0 <= i < pre.len() implies (#[trigger] pre[i]).storable() by {
            assert(pre[i] == ops[i]);
        }
        lemma_patch_fits(pre, key);
        assert(ops[ops.len() - 1].storable());
    }
}

/// A label of the heap fits one.
pub proof fn lemma_label_fits(labels: Seq<u8>, off: u32)
    requires
        label_fault(labels, off) is None,
    ensures
        opt_fits(label(labels, off)),
{
    if off != crate::format::base::NO_LABEL {
        let raw = label_raw(labels, off);
        crate::bytesio::lemma_pow256_values();
        crate::bytesio::lemma_le_unique(labels.subrange(off as int, off + 2));
        vstd::utf8::decode_utf8_encode_utf8(raw);
    }
}

/// Every string of a node fits a label.
pub open spec fn node_fits(n: NodeV) -> bool {
    fits(n.url) && opt_fits(n.title) && opt_fits(n.snippet) && opt_fits(n.etag)
}

pub proof fn lemma_node_fits(g: GraphV, key: u64)
    requires
        g.wf(),
        forall|i: int| 0 <= i < g.ops.len() ==> (#[trigger] g.ops[i]).storable(),
    ensures
        g.node(key) matches Some(n) ==> node_fits(n),
{
    lemma_patch_fits(g.ops, key);
    if g.find(key) is Some {
        lemma_found(g, key);
        let i = g.find(key)->0 as int;
        let f = node_row(g.t, i);
        assert(node_resolves(g.h, g.t, i));
        lemma_label_fits(raw(g.t.labels), f.url_off);
        lemma_label_fits(raw(g.t.labels), f.title_off);
        lemma_label_fits(raw(g.t.labels), f.snippet_off);
        lemma_label_fits(raw(g.t.labels), f.etag_off);
        vstd::utf8::encode_utf8_valid_utf8(Seq::empty());
        assert(vstd::utf8::encode_utf8(Seq::<char>::empty()).len() == 0);
    }
}

/// An op on one key changes nothing that another key says.
pub proof fn law_other_keys_do_not_matter(g: GraphV, op: OpV, key: u64)
    requires
        op.target().0 != key,
    ensures
        ({
            let later = GraphV { ops: g.ops.push(op), ..g };
            &&& later.node(key) == g.node(key)
            &&& later.edges(key) == g.edges(key)
            &&& later.segs(key) == g.segs(key)
        }),
{
    let later = GraphV { ops: g.ops.push(op), ..g };
    crate::overlay::law_fold_is_incremental(g.ops, op, key);
    assert(forall|k: u64| later.find(k) == g.find(k));
    assert(patch_of(later.ops, key) == patch_of(g.ops, key));
    assert(later.edges(key) =~= g.edges(key)) by {
        assert(forall|e: OwnedEdge| later.overlay_edge(e) == g.overlay_edge(e));
        assert(forall|j: int| later.base_edge(j) == g.base_edge(j));
        match patch_of(g.ops, key) {
            Some(p) => if p.edges is Some {
                assert(later.overlay_edges(p.edges->0) =~= g.overlay_edges(p.edges->0));
            },
            None => {},
        }
        if let Some(id) = g.find(key) {
            assert(later.base_edges(id) =~= g.base_edges(id));
        }
    }
    if let Some(id) = g.find(key) {
        assert(later.base_segs(id) =~= g.base_segs(id)) by {
            assert(forall|j: int| later.base_seg(j) == g.base_seg(j));
        }
    }
}

/// A removed node is gone for every read.
pub proof fn law_removed_is_gone(g: GraphV, op: OpV)
    requires
        op is Remove,
    ensures
        ({
            let later = GraphV { ops: g.ops.push(op), ..g };
            let key = op.target().0;
            &&& later.node(key) is None
            &&& later.edges(key) == Seq::<EdgeV>::empty()
            &&& later.segs(key) == Seq::<AnchorV>::empty()
        }),
{
    let key = op.target().0;
    let later = GraphV { ops: g.ops.push(op), ..g };
    crate::overlay::law_fold_is_incremental(g.ops, op, key);
    assert(later.plain_segs(key) =~= Seq::empty());
}

/// A document ingested again after a remove starts over: no history, no pin
/// but its own, no edges and no segments.
pub proof fn law_resurrected_node_starts_over(g: GraphV, remove: OpV, upsert: OpV)
    requires
        remove is Remove,
        upsert is UpsertNode,
        remove.target() == upsert.target(),
    ensures
        ({
            let later = GraphV { ops: g.ops.push(remove).push(upsert), ..g };
            let key = upsert.target().0;
            &&& later.node(key) is Some
            &&& later.node(key)->0.checks == 0
            &&& later.node(key)->0.changes == 0
            &&& later.node(key)->0.last_change_ms == 0
            &&& later.node(key)->0.interval_s == g.ttl.base_s
            &&& is_pinned(later.node(key)->0.flags) == is_pinned(upsert->UpsertNode_flags)
            &&& later.edges(key) == Seq::<EdgeV>::empty()
            &&& later.segs(key) == Seq::<AnchorV>::empty()
        }),
{
    let key = upsert.target().0;
    let mid = g.ops.push(remove);
    let later = GraphV { ops: mid.push(upsert), ..g };
    crate::overlay::law_fold_is_incremental(g.ops, remove, key);
    crate::overlay::law_fold_is_incremental(mid, upsert, key);
    let flags = upsert->UpsertNode_flags;
    assert((flags | nflags::PINNED) & nflags::PINNED != 0) by (bit_vector);
    assert(later.plain_segs(key) =~= Seq::empty());
}

} // verus!
