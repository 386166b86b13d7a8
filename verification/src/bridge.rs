//! Folding crawl reports into the graph: absorb what a crawler's index holds,
//! keep it fresh from per-page outcomes, and hand out what a fresh crawl needs
//! to know.
//!
//! Division of labor: the crawler acquires (network, extraction); the graph
//! remembers and serves (durable history, adaptive freshness, local lookups).
//! The shared foreign key is the xxh3 of the canonical URL, so after an absorb
//! the crawler's index can be discarded and every lookup keeps resolving.
#[allow(unused_imports)]
use crate::error::Fault;
use crate::error::Result;
#[allow(unused_imports)]
use crate::format::wal::OpV;
use crate::key::{EdgeType, UrlKey};
use crate::matching::same_text;
#[allow(unused_imports)]
use crate::model::{is_stub, EdgeV, GraphV, NodeV};
use crate::schedule::DueItem;
#[allow(unused_imports)]
use crate::schedule::{dues_view, DueV};
#[allow(unused_imports)]
use crate::snapshot::nodes_view;
use crate::snapshot::{NodeRef, Snapshot};
#[allow(unused_imports)]
use crate::tokens::{strings_view, strs_view, text_tokens};
use crate::tokens::{chars_of, tokens};
use crate::traverse::EdgeRef;
#[allow(unused_imports)]
use crate::traverse::{edges_view, opt_text};
use crate::ttl::Outcome;
use crate::writer::{DocRecord, SegmentRecord, Touch, Writer};
#[allow(unused_imports)]
use crate::writer::{doc_fault, doc_op, replaced_edges, segs_fault, stored_segs, touch_op, WriteV};
use std::collections::HashMap;
use vstd::prelude::*;
use vstd::string::*;

verus! {

broadcast use vstd::std_specs::hash::group_hash_axioms;

/// What an absorb/ingest pass wrote.
#[derive(Clone, Copy, Debug, PartialEq, Eq, Structural)]
pub struct BridgeReport {
    /// Documents created or replaced.
    pub upserted: usize,
    /// Freshness observations recorded.
    pub touched: usize,
    /// Documents tombstoned (source gone).
    pub tombstoned: usize,
    /// Edges written (crawl tier).
    pub edges: usize,
    /// Segments written.
    pub segments: usize,
}

/// The report of a pass that wrote nothing.
pub open spec fn blank_report() -> BridgeReport {
    BridgeReport { upserted: 0, touched: 0, tombstoned: 0, edges: 0, segments: 0 }
}

impl Default for BridgeReport {
    fn default() -> (r: Self)
        ensures
            r == blank_report(),
    {
        BridgeReport { upserted: 0, touched: 0, tombstoned: 0, edges: 0, segments: 0 }
    }
}

/// A sum, as far as `usize` counts.
pub open spec fn plus(a: usize, b: nat) -> usize {
    if a + b > usize::MAX {
        usize::MAX
    } else {
        (a + b) as usize
    }
}

/// A document as a crawler's index exports it.
#[derive(Clone, Copy, Debug)]
pub struct ExportedDoc<'a> {
    /// Its metadata.
    pub record: DocRecord<'a>,
    /// The pages it links to, in document order.
    pub links: &'a [UrlKey],
}

/// What a crawl observed of a page.
#[derive(Clone, Copy, Debug, PartialEq, Eq, Structural)]
pub enum PageChange {
    /// New to the crawler's index.
    Added,
    /// Changed since the crawler last saw it.
    Updated,
    /// Revalidated without a change.
    Unchanged,
    /// The source is gone.
    Removed,
    /// Not looked at.
    Skipped,
}

/// The outcome of one page.
#[derive(Clone, Copy, Debug)]
pub struct PageOutcome<'a> {
    /// The page.
    pub key: UrlKey,
    /// What was observed.
    pub change: PageChange,
    /// Its headings as segments, in document order.
    pub segments: &'a [SegmentRecord<'a>],
}

/// The edges of a document's links.
pub open spec fn link_edges(links: Seq<UrlKey>) -> Seq<(UrlKey, EdgeType, u16)> {
    links.map_values(|l: UrlKey| (l, EdgeType::Link, 65_535u16))
}

fn edges_of(links: &[UrlKey]) -> (r: Vec<(UrlKey, EdgeType, u16)>)
    ensures
        r@ == link_edges(links@),
{
    let n: usize = links.len();
    let mut out: Vec<(UrlKey, EdgeType, u16)> = Vec::with_capacity(n);
    let mut i: usize = 0;
    while i < n
        invariant
            i <= n == links@.len(),
            out@ =~= link_edges(links@).take(i as int),
        decreases n - i,
    {
        out.push((links[i], EdgeType::Link, 65_535));
        i = i + 1;
    }
    assert(out@ =~= link_edges(links@));
    out
}

/// A pass under way: what is staged, what was counted, and what ended it.
#[verifier::ext_equal]
pub struct PassV {
    pub state: WriteV,
    pub report: BridgeReport,
    pub fault: Option<Fault>,
}

impl PassV {
    pub open spec fn failed(self, fault: Fault) -> PassV {
        PassV { fault: Some(fault), ..self }
    }
}

// ---- absorbing an index ---------------------------------------------------

/// One document is upserted and its links replace its crawl-tier edges.
pub open spec fn absorb_one(g: GraphV, p: PassV, d: ExportedDoc<'_>) -> PassV {
    if p.fault is Some {
        p
    } else {
        match doc_fault(d.record) {
            Some(f) => p.failed(f),
            None => PassV {
                state: p.state.stage(doc_op(d.record)).stage(
                    OpV::SetEdges {
                        key: d.record.url_key,
                        edges: replaced_edges(
                            g.edges_after(
                                p.state.stage(doc_op(d.record)).staged,
                                d.record.url_key.0,
                            ),
                            d.record.url_key.0,
                            link_edges(d.links@),
                            0,
                        ),
                    },
                ),
                report: BridgeReport {
                    edges: plus(p.report.edges, d.links@.len()),
                    upserted: plus(p.report.upserted, 1),
                    ..p.report
                },
                fault: None,
            },
        }
    }
}

pub open spec fn absorbed(g: GraphV, start: WriteV, docs: Seq<ExportedDoc<'_>>) -> PassV
    decreases docs.len(),
{
    if docs.len() == 0 {
        PassV { state: start, report: blank_report(), fault: None }
    } else {
        absorb_one(g, absorbed(g, start, docs.drop_last()), docs.last())
    }
}

proof fn lemma_absorb_ended(g: GraphV, start: WriteV, docs: Seq<ExportedDoc<'_>>, i: int)
    requires
        0 <= i <= docs.len(),
        absorbed(g, start, docs.take(i)).fault is Some,
    ensures
        absorbed(g, start, docs) == absorbed(g, start, docs.take(i)),
    decreases docs.len() - i,
{
    if i < docs.len() {
        assert(docs.take(i + 1).drop_last() =~= docs.take(i));
        lemma_absorb_ended(g, start, docs, i + 1);
    } else {
        assert(docs.take(i) =~= docs);
    }
}

/// Stage the entire index: every document and its links. The first document
/// that cannot be stored ends the pass.
pub fn absorb(w: &mut Writer<'_>, docs: &[ExportedDoc<'_>]) -> (r: Result<BridgeReport>)
    requires
        old(w).wf(),
    ensures
        final(w).follows(old(w)),
        ({
            let p = absorbed(old(w).graph(), old(w).state(), docs@);
            &&& final(w).state() == p.state
            &&& match r {
                Ok(report) => p.fault is None && report == p.report,
                Err(e) => p.fault == Some(e@),
            }
        }),
{
    let ghost g = w.graph();
    let ghost start = w.state();
    let mut report: BridgeReport = BridgeReport::default();
    let n: usize = docs.len();
    let mut i: usize = 0;
    assert(docs@.take(0) =~= Seq::empty());
    while i < n
        invariant
            i <= n == docs@.len(),
            w.wf(),
            w.graph() == g,
            g == old(w).graph(),
            start == old(w).state(),
            absorbed(g, start, docs@.take(i as int)) == (PassV {
                state: w.state(),
                report,
                fault: None,
            }),
        decreases n - i,
    {
        let d: ExportedDoc<'_> = docs[i];
        assert(docs@.take(i + 1).drop_last() =~= docs@.take(i as int));
        match w.upsert_node(&d.record) {
            Ok(_) => {},
            Err(e) => {
                proof {
                    lemma_absorb_ended(g, start, docs@, i + 1);
                }
                return Err(e);
            },
        }
        let edges: Vec<(UrlKey, EdgeType, u16)> = edges_of(d.links);
        report.edges = report.edges.saturating_add(edges.len());
        w.set_edges(d.record.url_key, edges.as_slice());
        report.upserted = report.upserted.saturating_add(1);
        i = i + 1;
    }
    assert(docs@.take(n as int) =~= docs@);
    Ok(report)
}

// ---- ingesting page outcomes ----------------------------------------------

/// The last document of `key`.
pub open spec fn doc_of(docs: Seq<ExportedDoc<'_>>, key: u64) -> Option<int>
    decreases docs.len(),
{
    if docs.len() == 0 {
        None
    } else if docs.last().record.url_key.0 == key {
        Some(docs.len() - 1)
    } else {
        doc_of(docs.drop_last(), key)
    }
}

/// The committed content of `key` differs from `hash`. The graph, not the
/// crawler's index, decides what changed: a changed page that a fresh index
/// takes for new still counts. A stub was never fetched, so its first fetch
/// changes nothing.
pub open spec fn has_changed(g: GraphV, key: u64, hash: u64) -> bool {
    g.node(key) matches Some(n) && !is_stub(n.flags) && n.content_hash != hash
}

/// Folding the page in moves the revalidation interval of a committed node.
pub open spec fn moves_interval(
    g: GraphV,
    page: PageOutcome<'_>,
    docs: Seq<ExportedDoc<'_>>,
) -> bool {
    match page.change {
        PageChange::Added | PageChange::Updated => doc_of(docs, page.key.0) matches Some(i)
            && has_changed(g, page.key.0, docs[i].record.content_hash),
        PageChange::Unchanged => g.node(page.key.0) is Some,
        _ => false,
    }
}

/// Some page of the pass does.
pub open spec fn some_interval_moves(
    g: GraphV,
    pages: Seq<PageOutcome<'_>>,
    docs: Seq<ExportedDoc<'_>>,
) -> bool {
    exists|i: int| 0 <= i < pages.len() && moves_interval(g, #[trigger] pages[i], docs)
}

/// A revalidation of `key`, if it is a committed document.
pub open spec fn touch_state(g: GraphV, s: WriteV, key: u64, t: Touch<'_>) -> WriteV {
    match g.node(key) {
        Some(n) => s.stage(touch_op(g, n, t)),
        None => s,
    }
}

pub open spec fn change_touch<'a>(now: u64, d: DocRecord<'a>) -> Touch<'a> {
    Touch {
        checked_at_ms: now,
        outcome: Outcome::Changed,
        content_hash: Some(d.content_hash),
        etag: d.etag,
    }
}

pub open spec fn bare_touch<'a>(now: u64, outcome: Outcome) -> Touch<'a> {
    Touch { checked_at_ms: now, outcome, content_hash: None, etag: None }
}

/// A new or changed page: the document, its segments and its links, and a
/// change observation that cuts the revalidation interval if its content is
/// not what was committed.
pub open spec fn fetched_one(
    g: GraphV,
    p: PassV,
    page: PageOutcome<'_>,
    d: ExportedDoc<'_>,
    now: u64,
) -> PassV {
    let rec = DocRecord { url_key: page.key, ..d.record };
    match doc_fault(rec) {
        Some(f) => p.failed(f),
        None => {
            let upserted = p.state.stage(doc_op(rec));
            let counted = BridgeReport {
                segments: plus(p.report.segments, page.segments@.len()),
                ..p.report
            };
            match segs_fault(page.segments@) {
                Some(f) => PassV { state: upserted, report: counted, fault: Some(f) },
                None => {
                    let headed = upserted.stage(
                        OpV::SetSegments {
                            key: page.key,
                            segs: stored_segs(
                                g,
                                upserted.staged,
                                page.key.0,
                                page.segments@,
                            ),
                        },
                    );
                    let linked = headed.stage(
                        OpV::SetEdges {
                            key: page.key,
                            edges: replaced_edges(
                                g.edges_after(headed.staged, page.key.0),
                                page.key.0,
                                link_edges(d.links@),
                                0,
                            ),
                        },
                    );
                    let changed = has_changed(g, page.key.0, rec.content_hash);
                    PassV {
                        state: if changed {
                            touch_state(g, linked, page.key.0, change_touch(now, rec))
                        } else {
                            linked
                        },
                        report: BridgeReport {
                            edges: plus(counted.edges, d.links@.len()),
                            upserted: plus(counted.upserted, 1),
                            touched: if changed {
                                plus(counted.touched, 1)
                            } else {
                                counted.touched
                            },
                            ..counted
                        },
                        fault: None,
                    }
                },
            }
        },
    }
}

/// One page is folded in. A page that the index does not hold is passed over;
/// a gone source stays as history.
pub open spec fn ingest_one(
    g: GraphV,
    p: PassV,
    page: PageOutcome<'_>,
    docs: Seq<ExportedDoc<'_>>,
    now: u64,
) -> PassV {
    let known = g.node(page.key.0) is Some;
    if p.fault is Some {
        p
    } else {
        match page.change {
            PageChange::Added | PageChange::Updated => match doc_of(docs, page.key.0) {
                Some(i) => fetched_one(g, p, page, docs[i], now),
                None => p,
            },
            PageChange::Unchanged => PassV {
                state: touch_state(g, p.state, page.key.0, bare_touch(now, Outcome::Unchanged)),
                report: BridgeReport {
                    touched: if known {
                        plus(p.report.touched, 1)
                    } else {
                        p.report.touched
                    },
                    ..p.report
                },
                fault: None,
            },
            PageChange::Removed => PassV {
                state: touch_state(g, p.state, page.key.0, bare_touch(now, Outcome::Gone)),
                report: BridgeReport {
                    tombstoned: if known {
                        plus(p.report.tombstoned, 1)
                    } else {
                        p.report.tombstoned
                    },
                    ..p.report
                },
                fault: None,
            },
            PageChange::Skipped => p,
        }
    }
}

pub open spec fn ingested(
    g: GraphV,
    start: WriteV,
    pages: Seq<PageOutcome<'_>>,
    docs: Seq<ExportedDoc<'_>>,
    now: u64,
) -> PassV
    decreases pages.len(),
{
    if pages.len() == 0 {
        PassV { state: start, report: blank_report(), fault: None }
    } else {
        ingest_one(g, ingested(g, start, pages.drop_last(), docs, now), pages.last(), docs, now)
    }
}

proof fn lemma_ingest_ended(
    g: GraphV,
    start: WriteV,
    pages: Seq<PageOutcome<'_>>,
    docs: Seq<ExportedDoc<'_>>,
    now: u64,
    i: int,
)
    requires
        0 <= i <= pages.len(),
        ingested(g, start, pages.take(i), docs, now).fault is Some,
    ensures
        ingested(g, start, pages, docs, now) == ingested(g, start, pages.take(i), docs, now),
    decreases pages.len() - i,
{
    if i < pages.len() {
        assert(pages.take(i + 1).drop_last() =~= pages.take(i));
        lemma_ingest_ended(g, start, pages, docs, now, i + 1);
    } else {
        assert(pages.take(i) =~= pages);
    }
}

/// Where each document stands, by key.
fn index_docs(docs: &[ExportedDoc<'_>]) -> (r: HashMap<u64, usize>)
    ensures
        forall|k: u64| #[trigger] r@.contains_key(k) <==> doc_of(docs@, k) is Some,
        forall|k: u64| #[trigger]
            r@.contains_key(k) ==> doc_of(docs@, k) == Some(r@[k] as int) && r@[k] < docs@.len(),
{
    let n: usize = docs.len();
    let mut map: HashMap<u64, usize> = HashMap::new();
    let mut i: usize = 0;
    assert(docs@.take(0) =~= Seq::empty());
    while i < n
        invariant
            i <= n == docs@.len(),
            forall|k: u64| #[trigger]
                map@.contains_key(k) <==> doc_of(docs@.take(i as int), k) is Some,
            forall|k: u64| #[trigger]
                map@.contains_key(k) ==> doc_of(docs@.take(i as int), k) == Some(map@[k] as int)
                    && map@[k] < i,
        decreases n - i,
    {
        assert(docs@.take(i + 1).drop_last() =~= docs@.take(i as int));
        map.insert(docs[i].record.url_key.0, i);
        i = i + 1;
    }
    assert(docs@.take(n as int) =~= docs@);
    map
}

/// Whether the committed content of `key` differs from `hash`.
fn differs(snap: &Snapshot<'_>, key: UrlKey, hash: u64) -> (r: bool)
    requires
        snap.wf(),
    ensures
        r == has_changed(snap.graph(), key.0, hash),
{
    match snap.node(key) {
        Some(n) => !n.is_stub() && n.content_hash != hash,
        None => false,
    }
}

/// Stage one page that was fetched.
fn ingest_fetched(
    w: &mut Writer<'_>,
    report: &mut BridgeReport,
    snap: &Snapshot<'_>,
    page: &PageOutcome<'_>,
    d: &ExportedDoc<'_>,
    now: u64,
) -> (r: Result<()>)
    requires
        old(w).wf(),
        snap.wf(),
        snap.graph() == old(w).graph(),
        has_changed(old(w).graph(), page.key.0, d.record.content_hash) ==> old(
            w,
        ).graph().ttl.wf(),
    ensures
        final(w).follows(old(w)),
        ({
            let p = fetched_one(
                old(w).graph(),
                PassV { state: old(w).state(), report: *old(report), fault: None },
                *page,
                *d,
                now,
            );
            &&& final(w).state() == p.state
            &&& *final(report) == p.report
            &&& match r {
                Ok(_) => p.fault is None,
                Err(e) => p.fault == Some(e@),
            }
        }),
{
    let rec: DocRecord<'_> = DocRecord {
        url: d.record.url,
        url_key: page.key,
        content_hash: d.record.content_hash,
        fetched_at_ms: d.record.fetched_at_ms,
        title: d.record.title,
        snippet: d.record.snippet,
        etag: d.record.etag,
        pinned: d.record.pinned,
    };
    w.upsert_node(&rec)?;
    report.segments = report.segments.saturating_add(page.segments.len());
    w.set_segments(page.key, page.segments)?;
    let edges: Vec<(UrlKey, EdgeType, u16)> = edges_of(d.links);
    report.edges = report.edges.saturating_add(edges.len());
    w.set_edges(page.key, edges.as_slice());
    report.upserted = report.upserted.saturating_add(1);
    let changed: bool = differs(snap, page.key, rec.content_hash);
    if changed {
        // Cut the revalidation interval: the source is moving.
        let t: Touch<'_> = Touch {
            checked_at_ms: now,
            outcome: Outcome::Changed,
            content_hash: Some(rec.content_hash),
            etag: rec.etag,
        };
        if w.touch(page.key, t)? {
            report.touched = report.touched.saturating_add(1);
        }
    }
    Ok(())
}

/// Whether folding the pages in moves the revalidation interval of a committed
/// node, which takes a policy whose floor does not lie above its ceiling.
pub fn moves_intervals(
    snap: &Snapshot<'_>,
    pages: &[PageOutcome<'_>],
    docs: &[ExportedDoc<'_>],
) -> (r: bool)
    requires
        snap.wf(),
    ensures
        r == some_interval_moves(snap.graph(), pages@, docs@),
{
    let ghost g = snap.graph();
    let by_key: HashMap<u64, usize> = index_docs(docs);
    let n: usize = pages.len();
    let mut i: usize = 0;
    while i < n
        invariant
            i <= n == pages@.len(),
            snap.wf(),
            g == snap.graph(),
            forall|k: u64| #[trigger] by_key@.contains_key(k) <==> doc_of(docs@, k) is Some,
            forall|k: u64| #[trigger]
                by_key@.contains_key(k) ==> doc_of(docs@, k) == Some(by_key@[k] as int)
                    && by_key@[k] < docs@.len(),
            forall|j: int| 0 <= j < i ==> !moves_interval(g, #[trigger] pages@[j], docs@),
        decreases n - i,
    {
        let page: PageOutcome<'_> = pages[i];
        let moves: bool = match page.change {
            PageChange::Added | PageChange::Updated => match by_key.get(&page.key.0) {
                Some(at) => differs(snap, page.key, docs[*at].record.content_hash),
                None => false,
            },
            PageChange::Unchanged => match snap.node(page.key) {
                Some(_) => true,
                None => false,
            },
            _ => false,
        };
        assert(moves == moves_interval(g, pages@[i as int], docs@));
        if moves {
            return true;
        }
        i = i + 1;
    }
    false
}

/// Stage the outcomes of a crawl or a refresh: added and updated pages are
/// (re)upserted with segments and links, unchanged pages are touched, removed
/// pages are tombstoned. The first page that cannot be stored ends the pass.
pub fn ingest_pages(
    w: &mut Writer<'_>,
    snap: &Snapshot<'_>,
    pages: &[PageOutcome<'_>],
    docs: &[ExportedDoc<'_>],
    now: u64,
) -> (r: Result<BridgeReport>)
    requires
        old(w).wf(),
        snap.wf(),
        snap.graph() == old(w).graph(),
        some_interval_moves(old(w).graph(), pages@, docs@) ==> old(w).graph().ttl.wf(),
    ensures
        final(w).follows(old(w)),
        ({
            let p = ingested(old(w).graph(), old(w).state(), pages@, docs@, now);
            &&& final(w).state() == p.state
            &&& match r {
                Ok(report) => p.fault is None && report == p.report,
                Err(e) => p.fault == Some(e@),
            }
        }),
{
    let ghost g = w.graph();
    let ghost start = w.state();
    let by_key: HashMap<u64, usize> = index_docs(docs);
    let mut report: BridgeReport = BridgeReport::default();
    let n: usize = pages.len();
    let mut i: usize = 0;
    assert(pages@.take(0) =~= Seq::empty());
    while i < n
        invariant
            i <= n == pages@.len(),
            w.wf(),
            w.graph() == g,
            g == old(w).graph(),
            start == old(w).state(),
            snap.wf(),
            snap.graph() == g,
            some_interval_moves(g, pages@, docs@) ==> g.ttl.wf(),
            forall|k: u64| #[trigger] by_key@.contains_key(k) <==> doc_of(docs@, k) is Some,
            forall|k: u64| #[trigger]
                by_key@.contains_key(k) ==> doc_of(docs@, k) == Some(by_key@[k] as int)
                    && by_key@[k] < docs@.len(),
            ingested(g, start, pages@.take(i as int), docs@, now) == (PassV {
                state: w.state(),
                report,
                fault: None,
            }),
        decreases n - i,
    {
        let page: PageOutcome<'_> = pages[i];
        assert(pages@.take(i + 1).drop_last() =~= pages@.take(i as int));
        assert(moves_interval(g, pages@[i as int], docs@) ==> g.ttl.wf());
        match page.change {
            PageChange::Added | PageChange::Updated => match by_key.get(&page.key.0) {
                Some(at) => {
                    let at: usize = *at;
                    match ingest_fetched(w, &mut report, snap, &page, &docs[at], now) {
                        Ok(_) => {},
                        Err(e) => {
                            proof {
                                lemma_ingest_ended(g, start, pages@, docs@, now, i + 1);
                            }
                            return Err(e);
                        },
                    }
                },
                None => {},
            },
            PageChange::Unchanged => {
                let t: Touch<'_> = Touch {
                    checked_at_ms: now,
                    outcome: Outcome::Unchanged,
                    content_hash: None,
                    etag: None,
                };
                match w.touch(page.key, t) {
                    Ok(known) => {
                        if known {
                            report.touched = report.touched.saturating_add(1);
                        }
                    },
                    Err(e) => {
                        return Err(e);
                    },
                }
            },
            PageChange::Removed => {
                // The source is gone; the node stays as history, so lookups
                // can still say what pointed at it.
                let t: Touch<'_> = Touch {
                    checked_at_ms: now,
                    outcome: Outcome::Gone,
                    content_hash: None,
                    etag: None,
                };
                match w.touch(page.key, t) {
                    Ok(known) => {
                        if known {
                            report.tombstoned = report.tombstoned.saturating_add(1);
                        }
                    },
                    Err(e) => {
                        return Err(e);
                    },
                }
            },
            PageChange::Skipped => {},
        }
        i = i + 1;
    }
    assert(pages@.take(n as int) =~= pages@);
    Ok(report)
}

// ---- what a crawl asks of the graph ---------------------------------------

/// The URLs most in need of revalidation at `now_ms`, most important first.
/// Owned strings, so the snapshot is released before any network work begins.
pub fn due_urls(snap: &Snapshot<'_>, now_ms: u64, max: usize) -> (r: Vec<String>)
    requires
        snap.wf(),
    ensures
        strings_view(r@) == snap.graph().due_list(now_ms, max as nat).map_values(|d: DueV| d.url),
{
    let ghost ds = snap.graph().due_list(now_ms, max as nat);
    let items: Vec<DueItem<'_>> = snap.due(now_ms, max);
    let n: usize = items.len();
    let mut out: Vec<String> = Vec::with_capacity(n);
    let mut i: usize = 0;
    while i < n
        invariant
            i <= n == items@.len(),
            dues_view(items@) == ds,
            out@.len() == i,
            forall|j: int| 0 <= j < i ==> (#[trigger] out@[j])@ == ds[j].url,
        decreases n - i,
    {
        assert(ds[i as int] == items@[i as int]@);
        out.push(items[i].url.to_owned());
        i = i + 1;
    }
    assert(strings_view(out@) =~= ds.map_values(|d: DueV| d.url));
    out
}

/// What a fresh crawl needs to revalidate a known site without transferring
/// bodies.
#[derive(Debug)]
pub struct CrawlSeed {
    /// The stored entity tag of each URL that has one.
    pub validators: Vec<(String, String)>,
    /// The known link targets of each URL that has some.
    pub known_edges: Vec<(String, Vec<String>)>,
}

pub open spec fn tags_view(v: Seq<(String, String)>) -> Seq<(Seq<char>, Seq<char>)> {
    v.map_values(|p: (String, String)| (p.0@, p.1@))
}

pub open spec fn targets_view(v: Seq<(String, Vec<String>)>) -> Seq<(Seq<char>, Seq<Seq<char>>)> {
    v.map_values(|p: (String, Vec<String>)| (p.0@, strings_view(p.1@)))
}

/// The entity tags of `nodes`.
pub open spec fn tags_of(nodes: Seq<NodeV>) -> Seq<(Seq<char>, Seq<char>)>
    decreases nodes.len(),
{
    if nodes.len() == 0 {
        Seq::empty()
    } else {
        let pre = tags_of(nodes.drop_last());
        match nodes.last().etag {
            Some(t) => pre.push((nodes.last().url, t)),
            None => pre,
        }
    }
}

/// The URLs that the links among `edges` lead to.
pub open spec fn link_urls(edges: Seq<EdgeV>) -> Seq<Seq<char>>
    decreases edges.len(),
{
    if edges.len() == 0 {
        Seq::empty()
    } else {
        let pre = link_urls(edges.drop_last());
        let e = edges.last();
        match e.dst_url {
            Some(url) => if e.etype is Link {
                pre.push(url)
            } else {
                pre
            },
            None => pre,
        }
    }
}

/// The link targets of `nodes`.
pub open spec fn targets_of(g: GraphV, nodes: Seq<NodeV>) -> Seq<(Seq<char>, Seq<Seq<char>>)>
    decreases nodes.len(),
{
    if nodes.len() == 0 {
        Seq::empty()
    } else {
        let pre = targets_of(g, nodes.drop_last());
        let urls = link_urls(g.edges(nodes.last().key));
        if urls.len() > 0 {
            pre.push((nodes.last().url, urls))
        } else {
            pre
        }
    }
}

fn link_targets(snap: &Snapshot<'_>, key: UrlKey) -> (r: Vec<String>)
    requires
        snap.wf(),
    ensures
        strings_view(r@) == link_urls(snap.graph().edges(key.0)),
{
    let ghost es = snap.graph().edges(key.0);
    let edges: Vec<EdgeRef<'_>> = snap.neighbors(key).collect();
    let n: usize = edges.len();
    let mut out: Vec<String> = Vec::new();
    let mut i: usize = 0;
    assert(n == es.len());
    assert(es.take(0) =~= Seq::empty());
    assert(strings_view(out@) =~= Seq::empty());
    while i < n
        invariant
            i <= n == edges@.len(),
            n == es.len(),
            edges_view(edges@) == es,
            strings_view(out@) == link_urls(es.take(i as int)),
        decreases n - i,
    {
        let e: EdgeRef<'_> = edges[i];
        assert(es[i as int] == e@);
        assert(es.take(i + 1).drop_last() =~= es.take(i as int));
        match e.dst_url {
            Some(url) => match e.etype {
                EdgeType::Link => {
                    let ghost was = out@;
                    let own: String = url.to_owned();
                    out.push(own);
                    assert(strings_view(out@) =~= strings_view(was).push(url@));
                },
                _ => {},
            },
            None => {},
        }
        i = i + 1;
    }
    assert(es.take(n as int) =~= es);
    out
}

/// The stored validators and links of every live node.
pub fn crawl_seed(snap: &Snapshot<'_>) -> (r: CrawlSeed)
    requires
        snap.wf(),
    ensures
        tags_view(r.validators@) == tags_of(snap.graph().live()),
        targets_view(r.known_edges@) == targets_of(snap.graph(), snap.graph().live()),
{
    let ghost g = snap.graph();
    let nodes: Vec<NodeRef<'_>> = snap.live_nodes();
    let ghost vs = g.live();
    let n: usize = nodes.len();
    assert(n == vs.len());
    let mut validators: Vec<(String, String)> = Vec::new();
    let mut known_edges: Vec<(String, Vec<String>)> = Vec::new();
    let mut i: usize = 0;
    assert(vs.take(0) =~= Seq::empty());
    assert(tags_view(validators@) =~= Seq::empty());
    assert(targets_view(known_edges@) =~= Seq::empty());
    while i < n
        invariant
            snap.wf(),
            g == snap.graph(),
            i <= n == nodes@.len(),
            n == vs.len(),
            nodes_view(nodes@) == vs,
            tags_view(validators@) == tags_of(vs.take(i as int)),
            targets_view(known_edges@) == targets_of(g, vs.take(i as int)),
        decreases n - i,
    {
        let node: NodeRef<'_> = nodes[i];
        assert(vs[i as int] == node@);
        assert(vs.take(i + 1).drop_last() =~= vs.take(i as int));
        match node.etag {
            Some(t) => {
                let ghost was = validators@;
                let pair: (String, String) = (node.url.to_owned(), t.to_owned());
                validators.push(pair);
                assert(tags_view(validators@) =~= tags_view(was).push((node.url@, t@)));
            },
            None => {},
        }
        let urls: Vec<String> = link_targets(snap, node.key);
        assert(strings_view(urls@).len() == urls@.len());
        if urls.len() > 0 {
            let ghost was = known_edges@;
            let ghost us = strings_view(urls@);
            let pair: (String, Vec<String>) = (node.url.to_owned(), urls);
            known_edges.push(pair);
            assert(targets_view(known_edges@) =~= targets_view(was).push((node.url@, us)));
        }
        i = i + 1;
    }
    assert(vs.take(n as int) =~= vs);
    CrawlSeed { validators, known_edges }
}

// ---- segment importance ---------------------------------------------------

/// A character with ASCII letters made lowercase.
pub open spec fn ascii_lower(c: char) -> char {
    if 'A' <= c && c <= 'Z' {
        (c as u32 + 32) as char
    } else {
        c
    }
}

/// Two texts are the same but for the case of ASCII letters.
pub open spec fn same_but_case(a: Seq<char>, b: Seq<char>) -> bool {
    &&& a.len() == b.len()
    &&& forall|i: int| 0 <= i < a.len() ==> ascii_lower(#[trigger] a[i]) == ascii_lower(b[i])
}

/// A token is one of the keywords.
pub open spec fn is_keyword(token: Seq<char>, keywords: Seq<Seq<char>>) -> bool {
    exists|i: int| 0 <= i < keywords.len() && same_but_case(#[trigger] keywords[i], token)
}

/// How many tokens are keywords.
pub open spec fn keyword_count(tokens: Seq<Seq<char>>, keywords: Seq<Seq<char>>) -> nat
    decreases tokens.len(),
{
    if tokens.len() == 0 {
        0
    } else {
        keyword_count(tokens.drop_last(), keywords) + (if is_keyword(tokens.last(), keywords) {
            1nat
        } else {
            0nat
        })
    }
}

fn lower(c: char) -> (r: u32)
    ensures
        r == ascii_lower(c) as u32,
{
    if 'A' <= c && c <= 'Z' {
        c as u32 + 32
    } else {
        c as u32
    }
}

fn equal_but_case(a: &str, b: &str) -> (r: bool)
    ensures
        r == same_but_case(a@, b@),
{
    let x: Vec<char> = chars_of(a);
    let y: Vec<char> = chars_of(b);
    if x.len() != y.len() {
        return false;
    }
    let n: usize = x.len();
    let mut i: usize = 0;
    while i < n
        invariant
            i <= n,
            n == x@.len(),
            n == y@.len(),
            x@ == a@,
            y@ == b@,
            forall|j: int| 0 <= j < i ==> ascii_lower(#[trigger] a@[j]) == ascii_lower(b@[j]),
        decreases n - i,
    {
        if lower(x[i]) != lower(y[i]) {
            return false;
        }
        i = i + 1;
    }
    true
}

/// How many tokens a heading has, and how many of them are keywords.
pub fn keyword_hits(heading: &str, keywords: &[&str]) -> (r: (usize, usize))
    ensures
        r.0 == text_tokens(heading@).len(),
        r.1 == keyword_count(text_tokens(heading@), strs_view(keywords@)),
{
    let ghost ks = strs_view(keywords@);
    let words: Vec<String> = tokens(heading);
    let ghost ws = strings_view(words@);
    let n: usize = words.len();
    assert(n == ws.len());
    let m: usize = keywords.len();
    let mut hits: usize = 0;
    let mut i: usize = 0;
    assert(ws.take(0) =~= Seq::empty());
    while i < n
        invariant
            i <= n == words@.len(),
            m == keywords@.len(),
            ws == strings_view(words@),
            ks == strs_view(keywords@),
            hits == keyword_count(ws.take(i as int), ks),
            hits <= i,
        decreases n - i,
    {
        assert(ws[i as int] == words@[i as int]@);
        assert(ws.take(i + 1).drop_last() =~= ws.take(i as int));
        let mut found: bool = false;
        let mut j: usize = 0;
        while j < m && !found
            invariant
                j <= m == keywords@.len(),
                ks == strs_view(keywords@),
                i < words@.len(),
                found ==> is_keyword(words@[i as int]@, ks),
                !found ==> forall|k: int|
                    0 <= k < j ==> !same_but_case(#[trigger] ks[k], words@[i as int]@),
            decreases m - j,
        {
            assert(ks[j as int] == keywords@[j as int]@);
            if equal_but_case(keywords[j], words[i].as_str()) {
                found = true;
            }
            j = j + 1;
        }
        if found {
            hits = hits + 1;
        }
        i = i + 1;
    }
    assert(ws.take(n as int) =~= ws);
    (n, hits)
}

// ---- words of a caller ----------------------------------------------------

/// A revalidation outcome by its name.
pub open spec fn outcome_named(s: Seq<char>) -> Option<Outcome> {
    if s == "unchanged"@ {
        Some(Outcome::Unchanged)
    } else if s == "changed"@ {
        Some(Outcome::Changed)
    } else if s == "error"@ {
        Some(Outcome::Error)
    } else if s == "gone"@ {
        Some(Outcome::Gone)
    } else {
        None
    }
}

/// A revalidation outcome, from the caller's vocabulary.
pub fn parse_outcome(s: &str) -> (r: Option<Outcome>)
    ensures
        r == outcome_named(s@),
{
    if same_text(s, "unchanged") {
        Some(Outcome::Unchanged)
    } else if same_text(s, "changed") {
        Some(Outcome::Changed)
    } else if same_text(s, "error") {
        Some(Outcome::Error)
    } else if same_text(s, "gone") {
        Some(Outcome::Gone)
    } else {
        None
    }
}

/// How far a crawl may stray from its root.
#[derive(Clone, Copy, Debug, PartialEq, Eq, Structural)]
pub enum CrawlScope {
    /// Under the root's path.
    PathPrefix,
    /// On the root's host.
    SameHost,
    /// On the root's host and its subdomains.
    SameHostAndSubdomains,
}

/// A crawl scope by its name; the path is the default.
pub open spec fn scope_named(scope: Option<Seq<char>>) -> Option<CrawlScope> {
    match scope {
        None => Some(CrawlScope::PathPrefix),
        Some(s) => if s == "path"@ {
            Some(CrawlScope::PathPrefix)
        } else if s == "host"@ || s == "same_host"@ {
            Some(CrawlScope::SameHost)
        } else if s == "subdomains"@ {
            Some(CrawlScope::SameHostAndSubdomains)
        } else {
            None
        },
    }
}

/// A crawl scope, from the caller's vocabulary.
pub fn parse_scope(scope: Option<&str>) -> (r: Option<CrawlScope>)
    ensures
        r == scope_named(opt_text(scope)),
{
    match scope {
        None => Some(CrawlScope::PathPrefix),
        Some(s) => if same_text(s, "path") {
            Some(CrawlScope::PathPrefix)
        } else if same_text(s, "host") || same_text(s, "same_host") {
            Some(CrawlScope::SameHost)
        } else if same_text(s, "subdomains") {
            Some(CrawlScope::SameHostAndSubdomains)
        } else {
            None
        },
    }
}

// ---- laws -----------------------------------------------------------------

/// An index whose documents can all be stored is absorbed whole: one upsert
/// per document.
pub proof fn law_absorb_takes_every_document(
    g: GraphV,
    start: WriteV,
    docs: Seq<ExportedDoc<'_>>,
)
    requires
        docs.len() <= usize::MAX,
        forall|i: int| 0 <= i < docs.len() ==> doc_fault((#[trigger] docs[i]).record) is None,
    ensures
        absorbed(g, start, docs).fault is None,
        absorbed(g, start, docs).report.upserted == docs.len(),
        absorbed(g, start, docs).state.staged.len() == start.staged.len() + 2 * docs.len(),
    decreases docs.len(),
{
    if docs.len() > 0 {
        let pre = docs.drop_last();
        assert forall|i: int| 0 <= i < pre.len() implies doc_fault(
            (#[trigger] pre[i]).record,
        ) is None by {
            assert(pre[i] == docs[i]);
        }
        law_absorb_takes_every_document(g, start, pre);
        assert(doc_fault(docs[docs.len() - 1].record) is None);
    }
}

/// Change detection is relative to the graph: whatever the crawler calls a
/// fetched page, a committed document whose content differs gets a change
/// observation. One with the same content does not, nor does a page that was
/// known only as a link target.
pub proof fn law_the_graph_decides_what_changed(
    g: GraphV,
    p: PassV,
    page: PageOutcome<'_>,
    docs: Seq<ExportedDoc<'_>>,
    now: u64,
)
    requires
        p.fault is None,
        page.change is Added || page.change is Updated,
        doc_of(docs, page.key.0) is Some,
        p.report.touched < usize::MAX,
        ingest_one(g, p, page, docs, now).fault is None,
    ensures
        ({
            let d = docs[doc_of(docs, page.key.0)->0];
            let after = ingest_one(g, p, page, docs, now);
            if has_changed(g, page.key.0, d.record.content_hash) {
                &&& after.report.touched == p.report.touched + 1
                &&& after.state.staged.last() == touch_op(
                    g,
                    g.node(page.key.0)->0,
                    change_touch(now, DocRecord { url_key: page.key, ..d.record }),
                )
            } else {
                &&& after.report.touched == p.report.touched
                &&& after.state.staged.len() == p.state.staged.len() + 3
                &&& !(after.state.staged.last() is Touch)
            }
        }),
{
}

} // verus!
