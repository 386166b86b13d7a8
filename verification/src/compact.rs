//! Compaction: fold the base and the overlay into a fresh base generation.
//!
//! The fold reads every node through the *snapshot* merge path, the same code
//! queries use, so base and overlay semantics exist exactly once. Output is
//! deterministic end to end: nodes sorted by key, segments in document order,
//! edges by destination id, lexicon by token hash; identical logical state
//! always renders byte-identical files.
//!
//! Crash safety: the new base (carrying `wal_applied_seq`) is put into place
//! before the log is reset; replay of the old log against the new base skips
//! everything already folded, so any crash interleaving recovers.
#[allow(unused_imports)]
use crate::format::base::dir::node_row;
use crate::format::base::nflags;
#[allow(unused_imports)]
use crate::compaction::lemma_models_are_renderable;
#[allow(unused_imports)]
use crate::lexicon::lexicon;
use crate::lexicon::{build_lexicon, LexEntry};
#[allow(unused_imports)]
use crate::render::{
    edges_to, lemma_edges_grow, lemma_segs_grow, renderable, rendered, segs_to, within_limits,
};
use crate::render::{check_limits, render};
#[allow(unused_imports)]
use crate::format::wal::opt_view;
use crate::key::{NodeId, UrlKey};
#[allow(unused_imports)]
use crate::model::{is_stub, lemma_found, lemma_node_key, AnchorV, EdgeV, GraphV, NodeV};
#[allow(unused_imports)]
use crate::order::{arranged, lemma_listing, listing, strictly_up};
use crate::order::{arrange, sorted_distinct, Row};
#[allow(unused_imports)]
use crate::overlay::patch_of;
#[allow(unused_imports)]
use crate::path::links;
#[allow(unused_imports)]
use crate::snapshot::anchors_view;
use crate::snapshot::{SegRef, Snapshot};
use crate::traverse::EdgeRef;
#[allow(unused_imports)]
use crate::traverse::{edges_view, opt_text};
use vstd::prelude::*;
use vstd::string::*;

verus! {

/// What a compaction produced.
#[derive(Clone, Copy, Debug)]
pub struct CompactStats {
    /// New generation number.
    pub generation: u64,
    /// Nodes written (including stubs and tombstones).
    pub nodes: usize,
    /// Segments written.
    pub segs: usize,
    /// Edges written.
    pub edges: usize,
    /// Base file size in bytes.
    pub bytes: usize,
}

// ---- what a new generation holds ------------------------------------------

/// A segment on its way into a base.
#[derive(Debug)]
pub struct SegModel {
    pub key: u64,
    pub byte_start: u32,
    pub byte_len: u32,
    pub label: String,
    pub importance: u16,
    pub depth: u8,
    pub flags: u8,
}

pub struct SegModelV {
    pub key: u64,
    pub byte_start: u32,
    pub byte_len: u32,
    pub label: Seq<char>,
    pub importance: u16,
    pub depth: u8,
    pub flags: u8,
}

impl View for SegModel {
    type V = SegModelV;

    open spec fn view(&self) -> SegModelV {
        SegModelV {
            key: self.key,
            byte_start: self.byte_start,
            byte_len: self.byte_len,
            label: self.label@,
            importance: self.importance,
            depth: self.depth,
            flags: self.flags,
        }
    }
}

/// An edge on its way into a base: destination key, type tag, flags, weight.
pub type EdgeModel = (u64, u8, u8, u16);

/// A node on its way into a base.
#[derive(Debug)]
pub struct Model {
    pub key: u64,
    pub url: String,
    pub title: Option<String>,
    pub snippet: Option<String>,
    pub etag: Option<String>,
    pub content_hash: u64,
    pub fetched_at_ms: u64,
    pub last_change_ms: u64,
    pub interval_s: u32,
    pub checks: u16,
    pub changes: u16,
    pub flags: u16,
    pub segs: Vec<SegModel>,
    pub edges: Vec<EdgeModel>,
}

pub struct ModelV {
    pub key: u64,
    pub url: Seq<char>,
    pub title: Option<Seq<char>>,
    pub snippet: Option<Seq<char>>,
    pub etag: Option<Seq<char>>,
    pub content_hash: u64,
    pub fetched_at_ms: u64,
    pub last_change_ms: u64,
    pub interval_s: u32,
    pub checks: u16,
    pub changes: u16,
    pub flags: u16,
    pub segs: Seq<SegModelV>,
    pub edges: Seq<EdgeModel>,
}

pub open spec fn seg_models_view(segs: Seq<SegModel>) -> Seq<SegModelV> {
    segs.map_values(|s: SegModel| s@)
}

impl View for Model {
    type V = ModelV;

    open spec fn view(&self) -> ModelV {
        ModelV {
            key: self.key,
            url: self.url@,
            title: opt_view(self.title),
            snippet: opt_view(self.snippet),
            etag: opt_view(self.etag),
            content_hash: self.content_hash,
            fetched_at_ms: self.fetched_at_ms,
            last_change_ms: self.last_change_ms,
            interval_s: self.interval_s,
            checks: self.checks,
            changes: self.changes,
            flags: self.flags,
            segs: seg_models_view(self.segs@),
            edges: self.edges@,
        }
    }
}

pub open spec fn models_view(rows: Seq<Model>) -> Seq<ModelV> {
    rows.map_values(|m: Model| m@)
}

/// A segment as it is written.
pub open spec fn seg_model(a: AnchorV) -> SegModelV {
    SegModelV {
        key: a.key,
        byte_start: match a.byte_range {
            Some(r) => r.0,
            None => 0,
        },
        byte_len: match a.byte_range {
            Some(r) => r.1,
            None => 0,
        },
        label: a.label,
        importance: a.importance,
        depth: a.depth,
        flags: a.flags,
    }
}

pub open spec fn seg_models(segs: Seq<AnchorV>) -> Seq<SegModelV> {
    segs.map_values(|a: AnchorV| seg_model(a))
}

pub open spec fn edge_model_row(e: EdgeV) -> Row {
    (e.dst_key, e.etype.tag() as u64, e.flags as u64, e.weight as u64)
}

pub open spec fn edge_model_rows(edges: Seq<EdgeV>) -> Seq<Row> {
    edges.map_values(|e: EdgeV| edge_model_row(e))
}

/// Sorted rows, the first of each destination.
pub open spec fn first_of_each(rows: Seq<Row>) -> Seq<EdgeModel>
    decreases rows.len(),
{
    if rows.len() == 0 {
        Seq::empty()
    } else {
        let pre = first_of_each(rows.drop_last());
        let r = rows.last();
        if pre.len() > 0 && pre.last().0 == r.0 {
            pre
        } else {
            pre.push((r.0, r.1 as u8, r.2 as u8, r.3 as u16))
        }
    }
}

/// Edges as they are written: one per destination, by ascending key.
pub open spec fn edge_models(edges: Seq<EdgeV>) -> Seq<EdgeModel> {
    first_of_each(arranged(edge_model_rows(edges)))
}

/// A node as it is written.
pub open spec fn node_model(g: GraphV, n: NodeV) -> ModelV {
    ModelV {
        key: n.key,
        url: n.url,
        title: n.title,
        snippet: n.snippet,
        etag: n.etag,
        content_hash: n.content_hash,
        fetched_at_ms: n.fetched_at_ms,
        last_change_ms: n.last_change_ms,
        interval_s: n.interval_s,
        checks: n.checks,
        changes: n.changes,
        flags: n.flags,
        segs: seg_models(g.segs(n.key)),
        edges: edge_models(g.edges(n.key)),
    }
}

/// An edge target that was never ingested.
pub open spec fn stub_model(key: u64) -> ModelV {
    ModelV {
        key,
        url: Seq::empty(),
        title: None,
        snippet: None,
        etag: None,
        content_hash: 0,
        fetched_at_ms: 0,
        last_change_ms: 0,
        interval_s: 0,
        checks: 0,
        changes: 0,
        flags: nflags::STUB,
        segs: Seq::empty(),
        edges: Seq::empty(),
    }
}

impl GraphV {
    /// Some node has an edge to `key`.
    pub open spec fn is_referenced(self, key: u64) -> bool {
        exists|u: u64| self.node(u) is Some && #[trigger] links(self, u, key)
    }

    /// `key` gets a record in the next generation: every node does, except a
    /// stub that nothing references any more; and every edge target does.
    pub open spec fn survives(self, key: u64) -> bool {
        (self.node(key) is Some && !is_stub(self.node(key)->0.flags)) || self.is_referenced(key)
    }

    pub open spec fn survivors(self) -> spec_fn(u64) -> bool {
        |key: u64| self.survives(key)
    }

    /// The record of `key` in the next generation.
    pub open spec fn model(self, key: u64) -> ModelV {
        match self.node(key) {
            Some(n) => node_model(self, n),
            None => stub_model(key),
        }
    }

    /// The records of the next generation, by ascending key.
    pub open spec fn models(self) -> Seq<ModelV> {
        listing(self.survivors()).map_values(|k: u64| self.model(k))
    }
}

// ---- collecting -----------------------------------------------------------

fn own(s: Option<&str>) -> (r: Option<String>)
    ensures
        opt_view(r) == opt_text(s),
{
    match s {
        Some(t) => Some(t.to_owned()),
        None => None,
    }
}

fn collect_edges(edges: &Vec<EdgeRef<'_>>) -> (r: Vec<EdgeModel>)
    ensures
        r@ == edge_models(edges_view(edges@)),
{
    let ghost vs = edges_view(edges@);
    let n: usize = edges.len();
    let mut rows: Vec<Row> = Vec::with_capacity(n);
    let mut i: usize = 0;
    while i < n
        invariant
            i <= n == edges@.len(),
            vs == edges_view(edges@),
            rows@ =~= edge_model_rows(vs).take(i as int),
        decreases n - i,
    {
        let e: &EdgeRef<'_> = &edges[i];
        assert(vs[i as int] == e@);
        rows.push((e.dst_key.0, e.etype.as_tag() as u64, e.flags as u64, e.weight as u64));
        i = i + 1;
    }
    assert(rows@ =~= edge_model_rows(vs));
    arrange(&mut rows);
    let ghost sorted = rows@;
    let mut out: Vec<EdgeModel> = Vec::new();
    let mut i: usize = 0;
    assert(sorted.take(0) =~= Seq::empty());
    while i < n
        invariant
            i <= n == rows@.len(),
            sorted == rows@,
            out@ == first_of_each(sorted.take(i as int)),
        decreases n - i,
    {
        let r: Row = rows[i];
        assert(sorted.take(i + 1).drop_last() =~= sorted.take(i as int));
        if out.len() == 0 || out[out.len() - 1].0 != r.0 {
            out.push((r.0, r.1 as u8, r.2 as u8, r.3 as u16));
        }
        i = i + 1;
    }
    assert(sorted.take(n as int) =~= sorted);
    out
}

fn collect_segs(segs: &Vec<SegRef<'_>>) -> (r: Vec<SegModel>)
    ensures
        seg_models_view(r@) == seg_models(anchors_view(segs@)),
{
    let n: usize = segs.len();
    let mut out: Vec<SegModel> = Vec::with_capacity(n);
    let mut i: usize = 0;
    while i < n
        invariant
            i <= n == segs@.len(),
            out@.len() == i,
            forall|j: int| 0 <= j < i ==> (#[trigger] out@[j])@ == seg_model(segs@[j]@),
        decreases n - i,
    {
        let s: &SegRef<'_> = &segs[i];
        let (byte_start, byte_len): (u32, u32) = match s.byte_range {
            Some(r) => r,
            None => (0, 0),
        };
        out.push(
            SegModel {
                key: s.key.0,
                byte_start,
                byte_len,
                label: s.label.to_owned(),
                importance: s.importance,
                depth: s.depth,
                flags: s.flags,
            },
        );
        i = i + 1;
    }
    assert(seg_models_view(out@) =~= seg_models(anchors_view(segs@)));
    out
}

/// The record of `key` in the next generation.
fn collect_model(snap: &Snapshot<'_>, key: u64) -> (r: Model)
    requires
        snap.wf(),
    ensures
        r@ == snap.graph().model(key),
{
    match snap.node(UrlKey(key)) {
        Some(n) => {
            proof {
                lemma_node_key(snap.graph(), key);
            }
            let edges: Vec<EdgeModel> = collect_edges(&snap.neighbors(UrlKey(key)).collect());
            let segs: Vec<SegModel> = collect_segs(&snap.segments(UrlKey(key)));
            Model {
                key,
                url: n.url.to_owned(),
                title: own(n.title),
                snippet: own(n.snippet),
                etag: own(n.etag),
                content_hash: n.content_hash,
                fetched_at_ms: n.fetched_at_ms,
                last_change_ms: n.last_change_ms,
                interval_s: n.interval_s,
                checks: n.checks,
                changes: n.changes,
                flags: n.flags,
                segs,
                edges,
            }
        },
        None => {
            let m: Model = Model {
                key,
                url: String::new(),
                title: None,
                snippet: None,
                etag: None,
                content_hash: 0,
                fetched_at_ms: 0,
                last_change_ms: 0,
                interval_s: 0,
                checks: 0,
                changes: 0,
                flags: nflags::STUB,
                segs: Vec::new(),
                edges: Vec::new(),
            };
            assert(m.url@ =~= Seq::empty());
            assert(seg_models_view(m.segs@) =~= Seq::empty());
            m
        },
    }
}

/// Every key that can name a node.
fn candidate_keys(snap: &Snapshot<'_>) -> (r: Vec<u64>)
    requires
        snap.wf(),
    ensures
        forall|k: u64| snap.graph().node(k) is Some ==> #[trigger] r@.contains(k),
{
    let ghost g = snap.graph();
    let mut keys: Vec<u64> = snap.overlay_keys();
    let ghost touched = keys@;
    let n: usize = snap.base_len();
    let mut i: usize = 0;
    while i < n
        invariant
            snap.wf(),
            g == snap.graph(),
            i <= n == g.n(),
            n <= u32::MAX,
            touched.is_prefix_of(keys@),
            keys@.len() == touched.len() + i,
            forall|j: int|
                0 <= j < i ==> #[trigger] keys@[touched.len() + j] == node_row(g.t, j).url_key,
        decreases n - i,
    {
        let ghost was = keys@;
        keys.push(snap.rec(NodeId(i as u32)).url_key().0);
        assert(touched =~= keys@.take(touched.len() as int)) by {
            assert(touched =~= was.take(touched.len() as int));
        }
        i = i + 1;
    }
    proof {
        assert forall|k: u64| g.node(k) is Some implies #[trigger] keys@.contains(k) by {
            if patch_of(g.ops, k) is Some {
                assert(touched.contains(k));
                let x = choose|x: int| 0 <= x < touched.len() && touched[x] == k;
                assert(keys@[x] == k);
            } else {
                lemma_found(g, k);
                let j = g.find(k)->0 as int;
                assert(keys@[touched.len() + j] == k);
            }
        }
    }
    keys
}

/// The keys of the next generation, in ascending order.
fn surviving_keys(snap: &Snapshot<'_>) -> (r: Vec<u64>)
    requires
        snap.wf(),
    ensures
        r@ == listing(snap.graph().survivors()),
        strictly_up(r@),
{
    let ghost g = snap.graph();
    let cands: Vec<u64> = candidate_keys(snap);
    let n: usize = cands.len();
    let mut keep: Vec<u64> = Vec::new();
    let mut i: usize = 0;
    while i < n
        invariant
            snap.wf(),
            g == snap.graph(),
            i <= n == cands@.len(),
            forall|j: int| 0 <= j < keep@.len() ==> g.survives(#[trigger] keep@[j]),
            forall|j: int, k: u64|
                0 <= j < i && g.node(cands@[j]) is Some && #[trigger] links(
                    g,
                    #[trigger] cands@[j],
                    k,
                ) ==> keep@.contains(k),
            forall|j: int|
                0 <= j < i && g.node(#[trigger] cands@[j]) is Some && !is_stub(
                    g.node(cands@[j])->0.flags,
                ) ==> keep@.contains(cands@[j]),
        decreases n - i,
    {
        let k: u64 = cands[i];
        let ghost was = keep@;
        match snap.node(UrlKey(k)) {
            Some(node) => {
                if !node.is_stub() {
                    assert(g.survives(k));
                    keep.push(k);
                    assert(keep@[was.len() as int] == k);
                }
                let ghost mid = keep@;
                let edges: Vec<EdgeRef<'_>> = snap.neighbors(UrlKey(k)).collect();
                let ghost es = g.edges(k);
                let m: usize = edges.len();
                assert(m == es.len());
                let mut j: usize = 0;
                while j < m
                    invariant
                        j <= m == edges@.len(),
                        g.node(k) is Some,
                        es == g.edges(k),
                        m == es.len(),
                        edges_view(edges@) == es,
                        mid.is_prefix_of(keep@),
                        keep@.len() == mid.len() + j,
                        forall|x: int| 0 <= x < keep@.len() ==> g.survives(#[trigger] keep@[x]),
                        forall|x: int|
                            0 <= x < j ==> (#[trigger] es[x]).dst_key == keep@[mid.len() + x],
                    decreases m - j,
                {
                    let ghost prev = keep@;
                    let dst: u64 = edges[j].dst_key.0;
                    assert(es[j as int].dst_key == dst) by {
                        assert(edges_view(edges@)[j as int] == edges@[j as int]@);
                    }
                    assert(links(g, k, dst));
                    assert(g.is_referenced(dst));
                    keep.push(dst);
                    assert(mid =~= keep@.take(mid.len() as int)) by {
                        assert(mid =~= prev.take(mid.len() as int));
                    }
                    j = j + 1;
                }
                proof {
                    assert forall|d: u64| links(g, k, d) implies keep@.contains(d) by {
                        let x = choose|x: int| 0 <= x < es.len() && (#[trigger] es[x]).dst_key == d;
                        assert(keep@[mid.len() + x] == d);
                    }
                    assert forall|x: u64| mid.contains(x) implies keep@.contains(x) by {
                        let y = choose|y: int| 0 <= y < mid.len() && mid[y] == x;
                        assert(keep@[y] == x);
                    }
                    assert forall|x: u64| was.contains(x) implies mid.contains(x) by {
                        let y = choose|y: int| 0 <= y < was.len() && was[y] == x;
                        assert(mid[y] == x);
                    }
                }
            },
            None => {},
        }
        i = i + 1;
    }
    let r: Vec<u64> = sorted_distinct(&keep);
    proof {
        assert forall|k: u64| #[trigger] r@.contains(k) <==> g.survivors()(k) by {
            assert(r@.contains(k) <==> keep@.contains(k));
            if keep@.contains(k) {
                let x = choose|x: int| 0 <= x < keep@.len() && keep@[x] == k;
                assert(g.survives(keep@[x]));
            }
            if g.survives(k) {
                if g.node(k) is Some && !is_stub(g.node(k)->0.flags) {
                    assert(cands@.contains(k));
                    let x = choose|x: int| 0 <= x < cands@.len() && cands@[x] == k;
                    assert(keep@.contains(cands@[x]));
                } else {
                    let u = choose|u: u64| g.node(u) is Some && #[trigger] links(g, u, k);
                    assert(cands@.contains(u));
                    let x = choose|x: int| 0 <= x < cands@.len() && cands@[x] == u;
                    assert(links(g, cands@[x], k));
                }
            }
        }
        lemma_listing(r@, g.survivors());
    }
    r
}

/// The records of the next generation, by ascending key: every node of the
/// snapshot, a stub for every edge target that is not a node, and no stub that
/// nothing references.
pub fn collect_models(snap: &Snapshot<'_>) -> (r: Vec<Model>)
    requires
        snap.wf(),
    ensures
        models_view(r@) == snap.graph().models(),
        renderable(models_view(r@)),
{
    let ghost g = snap.graph();
    proof {
        snap.lemma_wf();
        lemma_models_are_renderable(g);
    }
    let keys: Vec<u64> = surviving_keys(snap);
    let n: usize = keys.len();
    let mut out: Vec<Model> = Vec::with_capacity(n);
    let mut i: usize = 0;
    while i < n
        invariant
            snap.wf(),
            g == snap.graph(),
            i <= n == keys@.len(),
            out@.len() == i,
            forall|j: int| 0 <= j < i ==> (#[trigger] out@[j])@ == g.model(keys@[j]),
        decreases n - i,
    {
        out.push(collect_model(snap, keys[i]));
        i = i + 1;
    }
    assert(models_view(out@) =~= g.models());
    out
}

/// What a generation of these records holds.
pub open spec fn stats_of(rows: Seq<ModelV>, generation: u64, bytes: nat) -> CompactStats {
    let n = rows.len() as int;
    CompactStats {
        generation,
        nodes: n as usize,
        segs: segs_to(rows, n).len() as usize,
        edges: edges_to(rows, n).len() as usize,
        bytes: bytes as usize,
    }
}

fn count_records(models: &Vec<Model>, generation: u64, bytes: usize) -> (r: CompactStats)
    requires
        segs_to(models_view(models@), models@.len() as int).len() <= u32::MAX,
        edges_to(models_view(models@), models@.len() as int).len() <= u32::MAX,
    ensures
        r == stats_of(models_view(models@), generation, bytes as nat),
{
    let ghost rows = models_view(models@);
    let n: usize = models.len();
    let mut segs: usize = 0;
    let mut edges: usize = 0;
    let mut i: usize = 0;
    while i < n
        invariant
            i <= n == models@.len(),
            rows == models_view(models@),
            segs_to(rows, n as int).len() <= u32::MAX,
            edges_to(rows, n as int).len() <= u32::MAX,
            segs == segs_to(rows, i as int).len(),
            edges == edges_to(rows, i as int).len(),
        decreases n - i,
    {
        assert(rows[i as int] == models@[i as int]@);
        assert(rows[i as int].segs.len() == models@[i as int].segs@.len());
        proof {
            lemma_segs_grow(rows, i + 1, n as int);
            lemma_edges_grow(rows, i + 1, n as int);
        }
        segs = segs + models[i].segs.len();
        edges = edges + models[i].edges.len();
        i = i + 1;
    }
    CompactStats { generation, nodes: n, segs, edges, bytes }
}

/// Render the records into a base file, with their lexicon and their ranks.
/// None if they do not fit the format: counts and offsets have 32 bits, and a
/// token is a label.
pub fn render_generation(
    models: &Vec<Model>,
    ranks: &Vec<(u16, u32)>,
    generation: u64,
    wal_applied_seq: u64,
) -> (r: Option<(Vec<u8>, CompactStats)>)
    requires
        renderable(models_view(models@)),
        ranks@.len() == models@.len(),
    ensures
        ({
            let rows = models_view(models@);
            match r {
                Some((bytes, stats)) => {
                    &&& within_limits(rows, lexicon(rows), ranks@)
                    &&& bytes@ == rendered(
                        rows,
                        lexicon(rows),
                        ranks@,
                        generation,
                        wal_applied_seq,
                    )
                    &&& stats == stats_of(rows, generation, bytes@.len())
                },
                None => !within_limits(rows, lexicon(rows), ranks@),
            }
        }),
{
    let lex: Vec<LexEntry> = build_lexicon(models);
    if !check_limits(models, &lex, ranks) {
        return None;
    }
    let bytes: Vec<u8> = render(models, &lex, ranks, generation, wal_applied_seq);
    let stats: CompactStats = count_records(models, generation, bytes.len());
    Some((bytes, stats))
}

} // verus!
