//! Whole lifecycles: write, commit, query, compact, reopen, revalidate.
use graph_r::bridge::{
    absorb, due_urls, ingest_pages, keyword_hits, BridgeReport, ExportedDoc, PageChange,
    PageOutcome,
};
use graph_r::compact::{collect_models, render_generation, CompactStats};
use graph_r::format::base::{validate, BaseDir};
use graph_r::format::wal::{encode_header, replay};
use graph_r::matching::{collate, dedup_terms, TermHits, Tier};
use graph_r::overlay::Arena;
use graph_r::query::rank_candidates;
use graph_r::rank::{percentile_permille, Propagation};
use graph_r::render::{edge_rows, render_empty_base, EdgeRow};
use graph_r::spread::{pick_seeds, rank_ids, Spread};
use graph_r::store::{fill_arena, load_log, reload_plan, Reload, Repair};
use graph_r::traverse::LendingIterator;
use graph_r::writer::{WriteState, MAX_EDGES, MAX_LABEL, MAX_SEGS};
use graph_r::{
    Config, DocRecord, EdgeType, Error, Hit, NodeId, Outcome, QueryOpts, Result, SegmentRecord,
    Snapshot, TokenBudget, Touch, UrlKey, Writer,
};
use std::collections::{BTreeMap, HashMap, HashSet};

// ---- a store in memory ----------------------------------------------------

/// A base file and a log, kept in memory and driven like the files of a store.
struct Store {
    base: Vec<u8>,
    wal: Vec<u8>,
    dir: BaseDir,
    arena: Arena,
    state: Option<WriteState>,
    cfg: Config,
}

impl Store {
    fn create(cfg: Config) -> Store {
        Store::load(render_empty_base(1), encode_header(1, 0), cfg).unwrap()
    }

    fn load(base: Vec<u8>, wal: Vec<u8>, cfg: Config) -> Result<Store> {
        let dir = BaseDir::parse(&base)?;
        let log = load_log(&dir.header, &wal)?;
        let mut wal = wal;
        match log.repair {
            Repair::Keep => {}
            Repair::Reset => wal = encode_header(dir.header.generation, 0),
            Repair::Truncate(len) => wal.truncate(len),
        }
        let mut arena = Arena::new();
        assert!(fill_arena(&log.ops, 0, &mut arena));
        let state = WriteState::new(log.next_seq, log.ops.len(), log.wal_bytes as u64);
        Ok(Store { base, wal, dir, arena, state: Some(state), cfg })
    }

    fn reopen(self) -> Store {
        Store::load(self.base, self.wal, self.cfg).unwrap()
    }

    fn snapshot(&self) -> Snapshot<'_> {
        let ops = self.arena.committed(self.arena.len());
        Snapshot::new(&self.base, &self.dir, ops, self.cfg.ttl)
    }

    /// Stage through a writer, then commit.
    fn write<R>(&mut self, f: impl FnOnce(&mut Writer<'_>) -> R) -> R {
        let (r, mut state) = self.stage(f);
        self.commit(&mut state);
        self.state = Some(state);
        if self
            .state
            .as_ref()
            .unwrap()
            .wants_compaction(self.cfg.compact_after_ops, self.cfg.compact_after_wal_bytes)
        {
            self.compact();
        }
        r
    }

    fn stage<R>(&mut self, f: impl FnOnce(&mut Writer<'_>) -> R) -> (R, WriteState) {
        let state = self.state.take().unwrap();
        let snap = self.snapshot();
        let mut w = Writer::new(&snap, state);
        let r = f(&mut w);
        (r, w.into_state())
    }

    fn commit(&mut self, state: &mut WriteState) {
        assert!(state.has_room());
        if let Some(batch) = state.begin_commit() {
            self.wal.extend_from_slice(&batch.frames);
            if state.after_append(self.cfg.durability) {
                state.after_sync();
            }
            batch.publish(&mut self.arena).unwrap();
            state.finish_commit(batch.ops.len(), batch.frames.len());
        }
    }

    /// Fold the outcomes of a crawl into the graph, then compact.
    fn ingest(
        &mut self,
        pages: &[PageOutcome<'_>],
        docs: &[ExportedDoc<'_>],
        now: u64,
    ) -> Result<BridgeReport> {
        let state = self.state.take().unwrap();
        let (r, mut state) = {
            let snap = self.snapshot();
            let mut w = Writer::new(&snap, state);
            let r = ingest_pages(&mut w, &snap, pages, docs, now);
            (r, w.into_state())
        };
        self.commit(&mut state);
        self.state = Some(state);
        self.compact();
        r
    }

    fn compact(&mut self) -> CompactStats {
        let mut state = self.state.take().unwrap();
        let generation = self.dir.header.generation + 1;
        let applied = state.last_committed_seq();
        let (bytes, stats) = {
            let snap = self.snapshot();
            let models = collect_models(&snap);
            let ranks = metrics(&edge_rows(&models));
            render_generation(&models, &ranks, generation, applied).unwrap()
        };
        self.dir = BaseDir::parse(&bytes).unwrap();
        self.base = bytes;
        self.wal = encode_header(generation, 0);
        self.arena = Arena::new();
        state.reset_after_compact(applied + 1);
        self.state = Some(state);
        stats
    }
}

/// Link ranks and communities of a generation.
fn metrics(out_edges: &Vec<Vec<EdgeRow>>) -> Vec<(u16, u32)> {
    let n = out_edges.len();
    if n == 0 {
        return Vec::new();
    }
    let link_out: Vec<usize> =
        out_edges.iter().map(|es| es.iter().filter(|(_, t, _, _)| *t == 0).count()).collect();
    let mut rank = vec![1.0 / n as f64; n];
    for _ in 0..20 {
        let mut next = vec![0.0f64; n];
        let mut dangling = 0.0f64;
        for (u, es) in out_edges.iter().enumerate() {
            if link_out[u] == 0 {
                dangling += rank[u];
                continue;
            }
            let share = rank[u] / link_out[u] as f64;
            for &(dst, etype, _, _) in es {
                if etype == 0 {
                    next[dst as usize] += share;
                }
            }
        }
        for v in &mut next {
            *v = (1.0 - 0.85) / n as f64 + 0.85 * (*v + dangling / n as f64);
        }
        rank = next;
    }
    let bits: Vec<u64> = rank.into_iter().map(f64::to_bits).collect();
    let permille = percentile_permille(out_edges, &bits);
    let mut p = Propagation::start(out_edges);
    loop {
        for u in 0..p.len() {
            let mut sums: HashMap<u32, f64> = HashMap::new();
            for b in p.ballots(u) {
                let conf = if b.inferred { 0.6 } else { 1.0 };
                *sums.entry(b.label).or_insert(0.0) += f64::from(b.weight) / 65_535.0 * conf;
            }
            let votes: Vec<(u32, u64)> = sums.into_iter().map(|(l, w)| (l, w.to_bits())).collect();
            p.settle(u, &votes);
        }
        if !p.end_sweep() {
            break;
        }
    }
    permille.into_iter().zip(p.communities()).collect()
}

fn tier_weight(t: Tier) -> f32 {
    match t {
        Tier::Exact => 1000.0,
        Tier::Prefix => 100.0,
        Tier::Substring => 1.0,
    }
}

/// A tier per term, each with its inverse document frequency, scaled by
/// squared coverage.
fn lexical_score(tiers: &[Option<Tier>], idf: impl Fn(usize) -> f32) -> f32 {
    let mut tiered = 0.0f32;
    let mut matched = 0u32;
    for (t, tier) in tiers.iter().enumerate() {
        if let Some(tier) = tier {
            matched += 1;
            tiered += tier_weight(*tier) * idf(t);
        }
    }
    let coverage = matched as f32 / tiers.len() as f32;
    tiered * coverage * coverage
}

/// Answer a plain-language query.
fn query<'a>(snap: &'a Snapshot<'_>, text: &str, opts: &QueryOpts) -> Vec<Hit<'a>> {
    let terms = dedup_terms(text);
    let n_docs = snap.base_len().max(1) as f32;
    let hits: Vec<TermHits> = terms.iter().map(|t| snap.term_hits(t)).collect();
    let idf: Vec<f32> =
        hits.iter().map(|h| (1.0 + n_docs / (1.0 + h.df as f32)).ln().max(0.1)).collect();
    let bests: Vec<Option<u32>> = hits.iter().map(|h| h.best().map(|id| id.0)).collect();
    let scores: Vec<(u32, u32)> = collate(&hits)
        .iter()
        .map(|b| (b.id.0, lexical_score(&b.tiers, |t| idf[t]).to_bits()))
        .collect();
    let score_of: HashMap<u32, u32> = scores.iter().copied().collect();
    let seeds = pick_seeds(&bests, &rank_ids(&scores), opts.max_seeds);

    let hub = snap.hub_threshold();
    let start: Vec<(u32, u32)> =
        seeds.iter().map(|s| (*s, score_of.get(s).copied().unwrap_or(0))).collect();
    let mut spread = Spread::start(&start, opts.depth);
    loop {
        let round = spread.next_round();
        if round.is_empty() {
            break;
        }
        for (u, bits) in round {
            for hop in snap.hops(NodeId(u), seeds.contains(&u), hub) {
                let conf = if hop.inferred { 0.6 } else { 1.0 };
                let w = f32::from(hop.weight) / 65_535.0;
                let score = f32::from_bits(bits) * 0.5 * w * conf;
                spread.offer(hop.dst.0, score.to_bits());
            }
        }
    }

    let arrivals = spread.arrivals();
    let top = arrivals.iter().map(|a| f32::from_bits(a.1)).fold(0.0f32, f32::max);
    let top = top.max(f32::MIN_POSITIVE);
    let fused: Vec<u32> = arrivals
        .iter()
        .map(|(id, bits)| {
            let rank = f32::from(snap.rank_permille_of(NodeId(*id)));
            (0.8 * (f32::from_bits(*bits) / top) + 0.2 * rank / 1000.0).to_bits()
        })
        .collect();
    let lexical: Vec<(u64, f32)> = snap
        .fresh_hits(&terms)
        .iter()
        .map(|h| (h.key.0, lexical_score(&h.tiers, |_| (1.0 + n_docs).ln())))
        .collect();
    let top = lexical.iter().map(|f| f.1).fold(0.0f32, f32::max).max(f32::MIN_POSITIVE);
    let fresh: Vec<(u64, u32)> =
        lexical.iter().map(|(key, score)| (*key, (0.8 * (score / top)).to_bits())).collect();
    let cands = snap.candidates(&arrivals, &seeds, &fused, &fresh);
    snap.render_answer(&rank_candidates(&cands), &terms, opts.limit, opts.budget)
}

fn related<'a>(snap: &'a Snapshot<'_>, k: UrlKey, most: usize) -> Vec<Hit<'a>> {
    let mut scores = Vec::new();
    let mut it = snap.neighbors(k);
    while let Some(e) = it.next() {
        let conf = if e.is_inferred() { 0.6 } else { 1.0 };
        let bonus = if e.etype == EdgeType::Link { 0.25 } else { 0.0 };
        scores.push((f32::from(e.weight) / 65_535.0 * conf + bonus).to_bits());
    }
    snap.related(k, &scores, most)
}

fn surprises<'a>(snap: &'a Snapshot<'_>, k: usize) -> Vec<(Hit<'a>, Hit<'a>)> {
    let links = snap.cross_links();
    let scores: Vec<u32> = links
        .iter()
        .map(|l| {
            let conf = if l.inferred { 0.6 } else { 1.0 };
            (f32::from(l.weight) / 65_535.0 * conf).to_bits()
        })
        .collect();
    snap.surprises(&links, &scores, k)
}

fn key(url: &str) -> UrlKey {
    UrlKey::of(url)
}

fn unchanged(at: u64) -> Touch<'static> {
    Touch { checked_at_ms: at, outcome: Outcome::Unchanged, content_hash: None, etag: None }
}

/// Three interlinked doc pages and one external reference.
fn seed_store(store: &mut Store) {
    let pages = [
        (
            "https://docs.x.dev/guide",
            "Guide",
            "The install guide for the widget toolchain",
            vec![("Install > Linux", 1u8, 60_000u16), ("Install > Windows", 2, 40_000)],
            vec!["https://docs.x.dev/api", "https://docs.x.dev/faq"],
        ),
        (
            "https://docs.x.dev/api",
            "API reference",
            "Functions and types exposed by the widget api",
            vec![("Auth", 1, 50_000), ("Endpoints", 1, 55_000)],
            vec!["https://docs.x.dev/guide"],
        ),
        (
            "https://docs.x.dev/faq",
            "FAQ",
            "Common questions about widgets",
            vec![],
            vec!["https://docs.x.dev/guide", "https://elsewhere.example.com/spec"],
        ),
    ];
    store.write(|w| {
        for (url, title, snippet, segs, links) in pages {
            w.upsert_node(&DocRecord {
                url,
                url_key: key(url),
                content_hash: xxhash_rust::xxh3::xxh3_64(url.as_bytes()),
                fetched_at_ms: 1_000_000,
                title: Some(title),
                snippet: Some(snippet),
                etag: Some("\"v1\""),
                pinned: false,
            })
            .unwrap();
            let seg_records: Vec<SegmentRecord<'_>> = segs
                .iter()
                .map(|&(label, depth, importance)| SegmentRecord {
                    label,
                    byte_range: Some((0, 100)),
                    depth,
                    importance,
                })
                .collect();
            w.set_segments(key(url), &seg_records).unwrap();
            let edges: Vec<(UrlKey, EdgeType, u16)> =
                links.iter().map(|l| (key(l), EdgeType::Link, 65_535)).collect();
            w.set_edges(key(url), &edges);
        }
    });
}

#[test]
fn full_lifecycle_write_query_compact_reopen() {
    let mut store = Store::create(Config::default());
    seed_store(&mut store);

    // Before compaction: overlay-fresh nodes must already be findable.
    {
        let snap = store.snapshot();
        assert_eq!(snap.len(), 3);
        let hits = query(&snap, "install guide", &QueryOpts::default());
        assert!(!hits.is_empty(), "fresh overlay nodes are queryable");
        assert_eq!(hits[0].url, "https://docs.x.dev/guide");
        let node = snap.node(key("https://docs.x.dev/api")).unwrap();
        assert_eq!(node.title, Some("API reference"));
        assert_eq!(node.etag, Some("\"v1\""));
    }

    // Compact: lexicon, ranks and edge runs take over; a stub stands for the
    // external reference.
    let stats = store.compact();
    assert_eq!(stats.nodes, 4, "3 docs + 1 stub");
    assert_eq!(stats.generation, 2);
    assert_eq!(stats.segs, 4);
    assert_eq!(stats.edges, 5);
    assert_eq!(stats.bytes, store.base.len());
    {
        let snap = store.snapshot();
        assert_eq!(snap.len(), 3, "stub not counted live");
        assert_eq!(snap.generation(), 2);
        assert_eq!(snap.pending_ops(), 0);

        let hits = query(&snap, "install linux", &QueryOpts::default());
        assert_eq!(hits[0].url, "https://docs.x.dev/guide");
        let anchor = hits[0].anchor.expect("segment anchor attached");
        assert_eq!(anchor.label, "Install > Linux");

        // Graph structure.
        let mut n = snap.neighbors(key("https://docs.x.dev/guide"));
        let mut dsts = Vec::new();
        while let Some(e) = n.next() {
            dsts.push(e.dst_url.unwrap_or("").to_owned());
        }
        assert_eq!(dsts.len(), 2);
        let p = snap
            .path(key("https://docs.x.dev/api"), key("https://docs.x.dev/faq"), 4)
            .expect("api -> guide -> faq");
        assert_eq!(p.len(), 3);

        // The stub exists, is not live, and resolves by key.
        let stub = snap.node(key("https://elsewhere.example.com/spec")).unwrap();
        assert!(stub.is_stub());
        assert_eq!(stub.url, "");
    }

    // Reopen: identical view.
    let store = store.reopen();
    let snap = store.snapshot();
    assert_eq!(snap.len(), 3);
    assert_eq!(snap.generation(), 2);
    let hits = query(&snap, "widget api auth", &QueryOpts::default());
    assert_eq!(hits[0].url, "https://docs.x.dev/api");
}

#[test]
fn ttl_cycle_due_touch_backoff_and_tombstone() {
    let mut cfg = Config::default();
    // Disable the importance bias so due-times are exact multiples of the
    // interval.
    cfg.ttl.importance_bias_permille = 0;
    let mut store = Store::create(cfg);
    seed_store(&mut store);
    store.compact();

    let base_s = u64::from(cfg.ttl.base_s);
    let t0 = 1_000_000u64;

    // Not yet due just after ingest; due after base interval passes.
    {
        let snap = store.snapshot();
        assert!(snap.due(t0 + 1000, 10).is_empty());
        let due = snap.due(t0 + base_s * 1000 + 1, 10);
        assert_eq!(due.len(), 3);
        assert!(due.iter().all(|d| d.etag == Some("\"v1\"")), "etag rides along");
    }

    // Unchanged observation grows the interval 1.5x.
    let t1 = t0 + base_s * 1000 + 1;
    store.write(|w| {
        for url in ["https://docs.x.dev/guide", "https://docs.x.dev/api", "https://docs.x.dev/faq"]
        {
            assert!(w.touch(key(url), unchanged(t1)).unwrap());
        }
    });
    {
        let snap = store.snapshot();
        let n = snap.node(key("https://docs.x.dev/guide")).unwrap();
        assert_eq!(n.checks, 1);
        assert_eq!(u64::from(n.interval_s), base_s * 3 / 2);
        assert!(snap.due(t1 + base_s * 1000 + 1, 10).is_empty(), "not due at old interval");
        assert_eq!(snap.due(t1 + base_s * 3 / 2 * 1000 + 1, 10).len(), 3);
    }

    // Changed cuts the interval; Gone tombstones and leaves the schedule.
    let t2 = t1 + base_s * 2 * 1000;
    store.write(|w| {
        w.touch(
            key("https://docs.x.dev/api"),
            Touch {
                checked_at_ms: t2,
                outcome: Outcome::Changed,
                content_hash: Some(42),
                etag: Some("\"v2\""),
            },
        )
        .unwrap();
        w.touch(
            key("https://docs.x.dev/faq"),
            Touch { checked_at_ms: t2, outcome: Outcome::Gone, content_hash: None, etag: None },
        )
        .unwrap();
    });
    {
        let snap = store.snapshot();
        let api = snap.node(key("https://docs.x.dev/api")).unwrap();
        assert_eq!(api.changes, 1);
        assert_eq!(api.content_hash, 42);
        assert_eq!(api.etag, Some("\"v2\""));
        assert!(u64::from(api.interval_s) < base_s * 3 / 2, "changed cut the interval");
        let faq = snap.node(key("https://docs.x.dev/faq")).unwrap();
        assert!(faq.is_tombstone());
        assert_eq!(snap.len(), 2, "tombstone leaves the live set");
        let far_future = t2 + 365 * 86_400 * 1000;
        assert!(
            snap.due(far_future, 10).iter().all(|d| d.key != key("https://docs.x.dev/faq")),
            "tombstones never come due"
        );
    }

    // The freshness state survives compaction and reopen.
    store.compact();
    let store = store.reopen();
    let snap = store.snapshot();
    let api = snap.node(key("https://docs.x.dev/api")).unwrap();
    assert_eq!(api.changes, 1);
    assert_eq!(api.checks, 2);
    assert_eq!(api.etag, Some("\"v2\""));
}

#[test]
fn remove_and_pin_semantics() {
    let mut store = Store::create(Config::default());
    seed_store(&mut store);
    store.write(|w| {
        w.set_pinned(key("https://docs.x.dev/faq"), true).unwrap();
        w.remove(key("https://docs.x.dev/api")).unwrap();
    });
    {
        let snap = store.snapshot();
        assert!(snap.node(key("https://docs.x.dev/api")).is_none(), "removed pre-compact");
        assert!(snap.node(key("https://docs.x.dev/faq")).unwrap().pinned());
        assert_eq!(snap.len(), 2);
    }
    store.compact();
    let snap = store.snapshot();
    // The guide still links to the removed page, so compaction re-materializes
    // it as a stub: removed as a document, present as a reference, and
    // excluded from the live set.
    let api = snap.node(key("https://docs.x.dev/api")).expect("stub for referenced target");
    assert!(api.is_stub());
    assert_eq!(api.url, "");
    assert_eq!(snap.len(), 2);
    assert!(snap.node(key("https://docs.x.dev/faq")).unwrap().pinned());
}

#[test]
fn torn_wal_tail_recovers_committed_prefix() {
    let mut store = Store::create(Config::default());
    seed_store(&mut store);

    // A crash mid-append: garbage at the log tail.
    let intact = store.wal.len();
    store.wal.extend_from_slice(&[0xde, 0xad, 0xbe, 0xef, 0x00, 0x11, 0x22]);

    let store = store.reopen();
    assert_eq!(store.snapshot().len(), 3, "committed prefix fully recovered");
    assert_eq!(store.wal.len(), intact, "tail truncated");
}

#[test]
fn snapshot_isolation_across_commit_and_compact() {
    let mut store = Store::create(Config::default());
    seed_store(&mut store);
    store.compact();

    // The old generation stays in place while the store moves on.
    let (old_base, old_dir) = (store.base.clone(), BaseDir::parse(&store.base).unwrap());
    let old = Snapshot::new(&old_base, &old_dir, &[], store.cfg.ttl);
    let old_len = old.len();
    let old_generation = old.generation();

    store.write(|w| {
        w.upsert_node(&DocRecord {
            url: "https://docs.x.dev/new",
            url_key: key("https://docs.x.dev/new"),
            content_hash: 7,
            fetched_at_ms: 2_000_000,
            title: Some("Newcomer"),
            snippet: None,
            etag: None,
            pinned: false,
        })
        .unwrap();
    });
    store.compact();

    // The old snapshot is frozen; a new one sees the new world.
    assert_eq!(old.len(), old_len);
    assert_eq!(old.generation(), old_generation);
    assert!(old.node(key("https://docs.x.dev/new")).is_none());
    let new = store.snapshot();
    assert_eq!(new.generation(), old_generation + 1);
    assert!(new.node(key("https://docs.x.dev/new")).is_some());
    assert_eq!(new.len(), old_len + 1);
}

#[test]
fn compaction_is_byte_reproducible() {
    let render = || {
        let mut store = Store::create(Config::default());
        seed_store(&mut store);
        store.compact();
        store.base
    };
    assert_eq!(render(), render(), "identical ops render identical bytes");
}

#[test]
fn second_writer_process_is_locked_out_and_read_only_reloads() {
    let mut store = Store::create(Config::default());
    seed_store(&mut store);
    store.compact();

    // A reader of the same files observes later changes on reload.
    let mut ro = Store::load(store.base.clone(), store.wal.clone(), store.cfg).unwrap();
    assert_eq!(ro.snapshot().len(), 3);

    store.write(|w| {
        w.upsert_node(&DocRecord {
            url: "https://docs.x.dev/extra",
            url_key: key("https://docs.x.dev/extra"),
            content_hash: 1,
            fetched_at_ms: 3_000_000,
            title: None,
            snippet: None,
            etag: None,
            pinned: false,
        })
        .unwrap();
    });
    let found = load_log(&ro.dir.header, &store.wal).unwrap();
    let plan = reload_plan(
        ro.dir.header.generation,
        ro.arena.len(),
        store.dir.header.generation,
        found.ops.len(),
    );
    assert_eq!(plan, Reload::Extend(0));
    assert!(fill_arena(&found.ops, 0, &mut ro.arena));
    assert_eq!(ro.snapshot().len(), 4);
    assert_eq!(reload_plan(2, 1, 2, 1), Reload::Current);
    assert_eq!(reload_plan(2, 1, 3, 0), Reload::Install);
}

#[test]
fn enrichment_tier_survives_crawl_replacement() {
    let mut store = Store::create(Config::default());
    seed_store(&mut store);
    store.compact();

    let guide = key("https://docs.x.dev/guide");
    // Enrichment: score segment 0 up.
    store.write(|w| w.set_importance(guide, &[(0, 65_000)]).unwrap());
    // Crawl-tier re-ingest of the same segments (unchanged headings).
    store.write(|w| {
        w.set_segments(
            guide,
            &[
                SegmentRecord {
                    label: "Install > Linux",
                    byte_range: Some((0, 100)),
                    depth: 1,
                    importance: 60_000,
                },
                SegmentRecord {
                    label: "Install > Windows",
                    byte_range: Some((0, 100)),
                    depth: 2,
                    importance: 40_000,
                },
            ],
        )
        .unwrap();
    });
    {
        let snap = store.snapshot();
        let segs = snap.segments(guide);
        assert_eq!(segs[0].importance, 65_000, "score carried across re-ingest");
    }
    store.compact();
    let snap = store.snapshot();
    let segs = snap.segments(guide);
    assert_eq!(segs[0].importance, 65_000, "and across compaction");
}

/// Two link clusters joined by one weak bridge: each cluster is one community,
/// the summary names and sizes it, and the bridge edge is the top surprise.
#[test]
fn communities_and_surprises_reflect_cluster_structure() {
    let mut store = Store::create(Config::default());
    store.write(|w| {
        let cluster = |prefix: &str| -> Vec<String> {
            (0..3).map(|i| format!("https://{prefix}.x.dev/p{i}")).collect()
        };
        let (a, b) = (cluster("a"), cluster("b"));
        for (urls, title) in [(&a, "Alpha"), (&b, "Beta")] {
            for (i, url) in urls.iter().enumerate() {
                w.upsert_node(&DocRecord {
                    url,
                    url_key: key(url),
                    content_hash: i as u64 + 1,
                    fetched_at_ms: 1_000,
                    title: Some(title),
                    snippet: None,
                    etag: None,
                    pinned: false,
                })
                .unwrap();
                let edges: Vec<(UrlKey, EdgeType, u16)> = urls
                    .iter()
                    .filter(|u| *u != url)
                    .map(|u| (key(u), EdgeType::Link, 65_535))
                    .collect();
                w.set_edges(key(url), &edges);
            }
        }
        // One weak bridge from A to B: the cross-community edge.
        let mut bridge_edges: Vec<(UrlKey, EdgeType, u16)> =
            a.iter().skip(1).map(|u| (key(u), EdgeType::Link, 65_535)).collect();
        bridge_edges.push((key(&b[0]), EdgeType::Related, 200));
        w.set_edges(key(&a[0]), &bridge_edges);
    });
    store.compact(); // ranks and communities are computed here

    let snap = store.snapshot();
    let a0 = key("https://a.x.dev/p0");
    let b0 = key("https://b.x.dev/p0");

    // Each cluster resolves to one community of three; the two differ.
    let ca = snap.community_summary(a0, 5).expect("a0 is ranked");
    let cb = snap.community_summary(b0, 5).expect("b0 is ranked");
    assert_eq!(ca.size, 3, "cluster A is one community");
    assert_eq!(cb.size, 3, "cluster B is one community");
    assert_ne!(ca.id, cb.id, "the weak bridge must not merge the clusters");
    assert_eq!(ca.top_urls.len(), 3);
    assert!(!ca.name.is_empty(), "the summary names its top member");
    assert_eq!(ca.name, "Alpha");
    assert_eq!(snap.community_summary(a0, 2).unwrap().top_urls.len(), 2);
    assert!(snap.community_summary(key("https://nowhere.dev/"), 5).is_none());

    // The bridge edge is the surprise: exactly one cross-community pair.
    let found = surprises(&snap, 10);
    assert_eq!(found.len(), 1, "one community pair, one representative edge");
    let (from, to) = &found[0];
    assert_eq!(from.key, a0);
    assert_eq!(to.key, b0);
    assert!(surprises(&snap, 0).is_empty());
}

// ---- overlay folding semantics --------------------------------------------

fn doc(url: &str, hash: u64, pinned: bool) -> DocRecord<'_> {
    DocRecord {
        url,
        url_key: UrlKey::of(url),
        content_hash: hash,
        fetched_at_ms: 1_000,
        title: Some("T"),
        snippet: Some("S"),
        etag: Some("\"v1\""),
        pinned,
    }
}

/// A pin is a retention decision; a re-crawl is a mechanical event. Only an
/// explicit unpin may clear a pin.
#[test]
fn an_unpinned_upsert_never_clears_an_existing_pin() {
    let mut store = Store::create(Config::default());
    let url = "https://x.dev/keep";

    store.write(|w| w.upsert_node(&doc(url, 1, true)).unwrap());
    store.compact(); // pin now lives in the base generation

    store.write(|w| w.upsert_node(&doc(url, 2, false)).unwrap()); // content changed
    assert!(
        store.snapshot().node(UrlKey::of(url)).unwrap().pinned(),
        "pin must survive a re-crawl"
    );

    // Across compaction too: the stickiness must be persisted, not just folded.
    store.compact();
    assert!(
        store.snapshot().node(UrlKey::of(url)).unwrap().pinned(),
        "pin must survive compaction"
    );
}

#[test]
fn an_explicit_unpin_does_clear_the_pin() {
    let mut store = Store::create(Config::default());
    let url = "https://x.dev/keep";

    store.write(|w| w.upsert_node(&doc(url, 1, true)).unwrap());
    store.compact();

    store.write(|w| {
        assert!(w.set_pinned(UrlKey::of(url), false).unwrap(), "key exists, so this must stage");
    });
    assert!(!store.snapshot().node(UrlKey::of(url)).unwrap().pinned());
}

/// A pin staged against a key that does not exist must not lie in wait for a
/// future upsert to adopt it.
#[test]
fn pinning_an_unknown_key_stages_nothing() {
    let mut store = Store::create(Config::default());
    store.stage(|w| {
        assert!(!w.set_pinned(UrlKey::of("https://x.dev/ghost"), true).unwrap());
        assert_eq!(w.staged(), 0, "nothing may be staged for a key that does not exist");
    });
}

/// Freshness counters are history: a re-ingest must not reset them.
#[test]
fn freshness_history_survives_a_re_ingest() {
    let mut store = Store::create(Config::default());
    let url = "https://x.dev/a";
    let key = UrlKey::of(url);

    store.write(|w| w.upsert_node(&doc(url, 1, false)).unwrap());
    // Three observations, one of which is a change.
    for (at, outcome) in
        [(2_000, Outcome::Unchanged), (3_000, Outcome::Changed), (4_000, Outcome::Unchanged)]
    {
        store.write(|w| {
            w.touch(key, Touch { checked_at_ms: at, outcome, content_hash: None, etag: None })
                .unwrap();
        });
    }
    let last_change = {
        let snap = store.snapshot();
        let before = snap.node(key).unwrap();
        assert_eq!(before.checks, 3);
        assert_eq!(before.changes, 1);
        assert_eq!(before.last_change_ms, 3_000);
        before.last_change_ms
    };

    // Re-ingest the same document: the counters are history and must carry.
    store.write(|w| w.upsert_node(&doc(url, 1, false)).unwrap());
    let snap = store.snapshot();
    let after = snap.node(key).unwrap();
    assert_eq!(after.checks, 3, "checks are history, not per-generation state");
    assert_eq!(after.changes, 1, "changes are history");
    assert_eq!(after.last_change_ms, last_change, "last change stamp is history");
}

/// Touches fold last-wins, so a touch carries the node's whole effective
/// freshness state rather than a delta.
#[test]
fn an_unchanged_touch_does_not_erase_the_hash_or_etag_of_a_prior_change() {
    let mut store = Store::create(Config::default());
    let url = "https://x.dev/a";
    let key = UrlKey::of(url);

    store.write(|w| w.upsert_node(&doc(url, 1, false)).unwrap());
    // A change observes a new body and a new validator...
    store.write(|w| {
        assert!(w
            .touch(
                key,
                Touch {
                    checked_at_ms: 2_000,
                    outcome: Outcome::Changed,
                    content_hash: Some(0xDEAD_BEEF),
                    etag: Some("\"v2\""),
                },
            )
            .unwrap());
    });
    // ...and an unchanged check follows, carrying none of its own.
    store.write(|w| assert!(w.touch(key, unchanged(3_000)).unwrap()));

    let snap = store.snapshot();
    let n = snap.node(key).unwrap();
    assert_eq!(
        n.content_hash, 0xDEAD_BEEF,
        "the observed hash must survive a later unchanged check"
    );
    assert_eq!(n.etag, Some("\"v2\""), "the observed etag must survive a later unchanged check");
    assert_eq!(n.checks, 2, "both observations must be counted");
    assert_eq!(n.changes, 1);
}

/// `touch` computes the next freshness state from the *committed* store.
#[test]
fn touch_requires_a_committed_node() {
    let mut store = Store::create(Config::default());
    let url = "https://x.dev/fresh";
    let key = UrlKey::of(url);

    store.stage(|w| {
        w.upsert_node(&doc(url, 1, false)).unwrap(); // staged, not committed
        let recorded = w.touch(key, unchanged(2_000)).unwrap();
        assert!(!recorded, "a touch against an uncommitted node must report that it did nothing");
    });
}

/// A remove discards a document's history; a later upsert of the same URL is a
/// new document that happens to reuse the address.
#[test]
fn a_remove_severs_base_history_for_a_resurrected_key() {
    let mut store = Store::create(Config::default());
    let url = "https://x.dev/a";
    let key = UrlKey::of(url);

    store.write(|w| {
        w.upsert_node(&doc(url, 1, true)).unwrap();
        w.set_segments(
            key,
            &[SegmentRecord { label: "Old", byte_range: None, depth: 1, importance: 5 }],
        )
        .unwrap();
        w.set_edges(key, &[(UrlKey::of("https://x.dev/other"), EdgeType::Link, 65_535)]);
        w.touch(
            key,
            Touch {
                checked_at_ms: 2_000,
                outcome: Outcome::Changed,
                content_hash: Some(2),
                etag: None,
            },
        )
        .unwrap();
    });
    store.compact(); // history is now in the base generation

    store.write(|w| {
        w.remove(key).unwrap();
        w.upsert_node(&doc(url, 99, false)).unwrap(); // resurrect, same address
    });

    let snap = store.snapshot();
    let n = snap.node(key).unwrap();
    assert_eq!(n.content_hash, 99, "the resurrected document is the new one");
    assert!(!n.pinned(), "a removed node's pin must not be inherited");
    assert_eq!(n.checks, 0, "a removed node's counters must not be inherited");
    assert_eq!(n.changes, 0);
    assert!(snap.segments(key).is_empty(), "a removed node's segments must not be inherited");
    let mut it = snap.neighbors(key);
    assert!(
        graph_r::traverse::LendingIterator::next(&mut it).is_none(),
        "a removed node's edges must not be inherited"
    );
}

// ---- determinism and growth -----------------------------------------------

/// Re-compacting unchanged state must produce the same bytes, but for the
/// generation counter and the checksums that cover it.
#[test]
fn fifty_no_op_compactions_are_byte_identical() {
    let mut store = Store::create(Config::default());
    store.write(|w| {
        for i in 0..32u64 {
            let url = format!("https://x.dev/p{i}");
            w.upsert_node(&doc(&url, i, i % 4 == 0)).unwrap();
            w.set_segments(
                UrlKey::of(&url),
                &[SegmentRecord {
                    label: "Install > Linux",
                    byte_range: Some((0, 10)),
                    depth: 1,
                    importance: 100,
                }],
            )
            .unwrap();
            let targets: Vec<(UrlKey, EdgeType, u16)> = (0..4u64)
                .map(|j| {
                    (
                        UrlKey::of(&format!("https://x.dev/p{}", (i + j + 1) % 32)),
                        EdgeType::Link,
                        65_535,
                    )
                })
                .collect();
            w.set_edges(UrlKey::of(&url), &targets);
        }
    });
    store.compact();

    let first = store.base.clone();
    assert!(!first.is_empty());

    // Byte 32..40 is the generation, 120..128 the header checksum, and the
    // last eight bytes are the whole-file checksum. Everything in between must
    // be identical.
    const HEADER_LEN: usize = 128;
    const TRAILER_LEN: usize = 8;
    let body = |b: &[u8]| b[HEADER_LEN..b.len() - TRAILER_LEN].to_vec();
    let first_body = body(&first);

    for round in 0..50 {
        store.compact();
        let again = &store.base;
        assert_eq!(
            again.len(),
            first.len(),
            "round {round}: base size drifted, so the store grows on no-op syncs"
        );
        assert_eq!(
            body(again),
            first_body,
            "round {round}: recompacting unchanged state produced different section bytes"
        );
    }
}

#[test]
fn repeated_compaction_preserves_the_live_set() {
    let mut store = Store::create(Config::default());
    store.write(|w| {
        for i in 0..8u64 {
            let url = format!("https://x.dev/p{i}");
            w.upsert_node(&doc(&url, i, false)).unwrap();
        }
    });
    store.compact();
    let expected = store.snapshot().len();
    assert_eq!(expected, 8);

    for _ in 0..10 {
        store.compact();
        assert_eq!(store.snapshot().len(), expected);
    }
}

// ---- stubs ----------------------------------------------------------------

fn bare(url: &str) -> DocRecord<'_> {
    DocRecord {
        url,
        url_key: UrlKey::of(url),
        content_hash: 1,
        fetched_at_ms: 1,
        title: None,
        snippet: None,
        etag: None,
        pinned: false,
    }
}

/// An edge to a document that has not been ingested still has to resolve to
/// something: compaction materializes the target as a stub.
#[test]
fn a_referenced_but_unknown_target_becomes_a_stub() {
    let mut store = Store::create(Config::default());
    let src = "https://x.dev/a";
    let dst = "https://x.dev/never-ingested";
    store.write(|w| {
        w.upsert_node(&bare(src)).unwrap();
        w.set_edges(UrlKey::of(src), &[(UrlKey::of(dst), EdgeType::Link, 65_535)]);
    });
    store.compact();

    let snap = store.snapshot();
    let stub = snap.node(UrlKey::of(dst)).expect("the target must exist as a stub");
    assert!(stub.is_stub(), "an un-ingested edge target is a stub");
    assert_eq!(stub.url, "", "a stub carries no URL label until it is ingested");
    assert_eq!(snap.len(), 1, "stubs are not live documents");
}

/// A stub only exists to anchor an edge. Once nothing points at it, compaction
/// drops it.
#[test]
fn a_stub_is_dropped_once_nothing_references_it() {
    let mut store = Store::create(Config::default());
    let src = "https://x.dev/a";
    let dst = "https://x.dev/never-ingested";
    store.write(|w| {
        w.upsert_node(&bare(src)).unwrap();
        w.set_edges(UrlKey::of(src), &[(UrlKey::of(dst), EdgeType::Link, 65_535)]);
    });
    store.compact();
    assert!(store.snapshot().node(UrlKey::of(dst)).is_some(), "stub present while referenced");

    // Drop the edge, then compact: the stub has nothing holding it up.
    store.write(|w| w.set_edges(UrlKey::of(src), &[]));
    store.compact();
    assert!(
        store.snapshot().node(UrlKey::of(dst)).is_none(),
        "an unreferenced stub must not survive compaction"
    );
}

/// Ingesting a document that was only a stub promotes it in place, keeping the
/// inbound edge that created it.
#[test]
fn ingesting_a_stub_promotes_it_and_keeps_its_inbound_edge() {
    let mut store = Store::create(Config::default());
    let src = "https://x.dev/a";
    let dst = "https://x.dev/later";
    store.write(|w| {
        w.upsert_node(&bare(src)).unwrap();
        w.set_edges(UrlKey::of(src), &[(UrlKey::of(dst), EdgeType::Link, 65_535)]);
    });
    store.compact();

    store.write(|w| w.upsert_node(&bare(dst)).unwrap());
    store.compact();

    let snap = store.snapshot();
    let promoted = snap.node(UrlKey::of(dst)).unwrap();
    assert!(!promoted.is_stub(), "ingesting a stub must promote it");
    assert_eq!(promoted.url, dst);
    assert_eq!(snap.len(), 2, "both documents are now live");

    // The edge that created the stub still resolves to it.
    let mut it = snap.neighbors(UrlKey::of(src));
    let e = it.next().expect("edge survives promotion");
    assert_eq!(e.dst_key, UrlKey::of(dst));
    assert_eq!(e.dst_url, Some(dst), "the edge now resolves to a real URL");
}

// ---- hostile files --------------------------------------------------------

fn seed() -> Store {
    let mut store = Store::create(Config::default());
    store.write(|w| {
        let url = "https://x.dev/a";
        w.upsert_node(&DocRecord {
            url,
            url_key: UrlKey::of(url),
            content_hash: 7,
            fetched_at_ms: 1,
            title: Some("A"),
            snippet: Some("body"),
            etag: Some("\"v1\""),
            pinned: false,
        })
        .unwrap();
    });
    store.compact();
    store
}

/// Every byte of the base file is covered by a checksum.
#[test]
fn bit_flip_anywhere_in_the_base_is_rejected() {
    let good = seed().base;
    for i in 0..good.len() {
        let mut bad = good.clone();
        bad[i] ^= 0x01;
        assert!(validate(&bad).is_err(), "flipped byte {i} was accepted");
    }
}

#[test]
fn truncation_at_any_offset_is_rejected() {
    let good = seed().base;
    for cut in 0..good.len() {
        assert!(validate(&good[..cut]).is_err(), "truncation at {cut} was accepted");
    }
}

/// A torn log tail is the normal crash shape, not corruption: replay keeps the
/// intact prefix and the store opens.
#[test]
fn torn_wal_tail_recovers_the_committed_prefix() {
    let mut store = seed();
    store.write(|w| {
        let url = "https://x.dev/b";
        w.upsert_node(&DocRecord {
            url,
            url_key: UrlKey::of(url),
            content_hash: 9,
            fetched_at_ms: 2,
            title: Some("B"),
            snippet: None,
            etag: None,
            pinned: false,
        })
        .unwrap();
    });

    // Append garbage, as a half-written frame would look after a crash.
    let intact_len = store.wal.len();
    store.wal.extend_from_slice(&[0xde, 0xad, 0xbe, 0xef, 0x00, 0x01, 0x02]);

    // Replay stops at the tear and reports the intact length.
    let replayed = replay(&store.wal).unwrap();
    assert_eq!(replayed.good_len, intact_len, "torn tail must not be replayed");

    // And the store opens, sees both documents, and repairs the log.
    let reopened = store.reopen();
    assert_eq!(reopened.snapshot().len(), 2);
    assert_eq!(reopened.wal.len(), intact_len, "a writable open must truncate the torn tail");
}

// ---- limits ---------------------------------------------------------------

#[test]
fn oversized_labels_are_refused() {
    let mut store = Store::create(Config::default());
    let huge = "x".repeat(MAX_LABEL + 1);
    store.stage(|w| {
        let err = w
            .upsert_node(&DocRecord {
                url: &huge,
                url_key: UrlKey::of(&huge),
                content_hash: 0,
                fetched_at_ms: 0,
                title: None,
                snippet: None,
                etag: None,
                pinned: false,
            })
            .unwrap_err();
        assert!(matches!(err, Error::Format { .. }), "over-long url must be a format error");

        // An empty URL is equally invalid: it would produce a node
        // indistinguishable from an edge-target stub.
        let err = w
            .upsert_node(&DocRecord {
                url: "",
                url_key: UrlKey::of(""),
                content_hash: 0,
                fetched_at_ms: 0,
                title: None,
                snippet: None,
                etag: None,
                pinned: false,
            })
            .unwrap_err();
        assert!(matches!(err, Error::Format { .. }), "empty url must be a format error");
    });
}

#[test]
fn too_many_segments_is_an_error_not_a_silent_drop() {
    let mut store = Store::create(Config::default());
    store.stage(|w| {
        let url = "https://x.dev/a";
        w.upsert_node(&DocRecord {
            url,
            url_key: UrlKey::of(url),
            content_hash: 0,
            fetched_at_ms: 0,
            title: None,
            snippet: None,
            etag: None,
            pinned: false,
        })
        .unwrap();

        let labels: Vec<String> = (0..=MAX_SEGS).map(|i| format!("H{i}")).collect();
        let segs: Vec<SegmentRecord<'_>> = labels
            .iter()
            .map(|l| SegmentRecord { label: l, byte_range: None, depth: 1, importance: 1 })
            .collect();
        assert!(matches!(w.set_segments(UrlKey::of(url), &segs), Err(Error::Format { .. })));
    });
}

/// The outbound-edge set is capped, and it keeps the *first* edges.
#[test]
fn edge_count_is_capped_in_document_order() {
    let mut store = Store::create(Config::default());
    let url = "https://x.dev/hub";
    let targets: Vec<String> = (0..MAX_EDGES * 4).map(|i| format!("https://x.dev/t{i}")).collect();
    store.write(|w| {
        w.upsert_node(&DocRecord {
            url,
            url_key: UrlKey::of(url),
            content_hash: 0,
            fetched_at_ms: 0,
            title: None,
            snippet: None,
            etag: None,
            pinned: false,
        })
        .unwrap();
        let edges: Vec<(UrlKey, EdgeType, u16)> =
            targets.iter().map(|t| (UrlKey::of(t), EdgeType::Link, 65_535)).collect();
        w.set_edges(UrlKey::of(url), &edges);
    });

    let snap = store.snapshot();
    let mut count = 0usize;
    let mut seen: Vec<u64> = Vec::new();
    let mut it = snap.neighbors(UrlKey::of(url));
    while let Some(e) = graph_r::traverse::LendingIterator::next(&mut it) {
        seen.push(e.dst_key.0);
        count += 1;
    }
    assert_eq!(count, MAX_EDGES, "edge set must be capped at MAX_EDGES");

    let kept_prefix: HashSet<u64> =
        targets.iter().take(MAX_EDGES).map(|t| UrlKey::of(t).0).collect();
    assert!(seen.iter().all(|k| kept_prefix.contains(k)), "cap must keep the prominent prefix");
}

/// References, never bodies: nothing beyond the compact metadata a caller
/// passed reaches the base file.
#[test]
fn only_supplied_metadata_reaches_the_base_file() {
    let mut store = Store::create(Config::default());
    let url = "https://x.dev/page";
    store.write(|w| {
        w.upsert_node(&DocRecord {
            url,
            url_key: UrlKey::of(url),
            content_hash: 1,
            fetched_at_ms: 1,
            title: Some("Title"),
            snippet: Some("SNIPPET-MARKER"),
            etag: None,
            pinned: false,
        })
        .unwrap();
        w.set_segments(
            UrlKey::of(url),
            &[SegmentRecord {
                label: "Heading",
                byte_range: Some((0, 4096)),
                depth: 1,
                importance: 1,
            }],
        )
        .unwrap();
    });
    store.compact();

    let bytes = &store.base;
    let haystack = String::from_utf8_lossy(bytes);
    // What the caller supplied is present...
    assert!(haystack.contains(url));
    assert!(haystack.contains("SNIPPET-MARKER"));
    assert!(haystack.contains("Heading"));
    // ...and the byte range is recorded as an offset, not as content.
    assert!(
        bytes.len() < 4096,
        "a 4 KiB byte_range must store an offset, not the region ({} bytes)",
        bytes.len()
    );
}

// ---- agreement with a reference model -------------------------------------

/// A small deterministic stream of numbers.
struct Dice(u64);

impl Dice {
    fn roll(&mut self, n: u64) -> u64 {
        self.0 = self.0.wrapping_mul(6_364_136_223_846_793_005).wrapping_add(1_442_695_040_888_963_407);
        (self.0 >> 33) % n
    }
}

fn page(n: u64) -> String {
    format!("https://m.dev/page/{n}")
}

/// The store agrees with a trivial model (key -> hash, pinned, changes) under
/// arbitrary op sequences, through compaction and reopen.
#[test]
fn store_agrees_with_model_through_compaction_and_reopen() {
    for round in 0..12u64 {
        let mut dice = Dice(round + 1);
        let mut store = Store::create(Config::default());
        let mut live: BTreeMap<u64, (u64, bool, u16)> = BTreeMap::new();
        for _ in 0..60 {
            let n = dice.roll(12);
            let url = page(n);
            let k = key(&url);
            match dice.roll(5) {
                0 => {
                    let hash = dice.roll(1 << 30);
                    let pinned = dice.roll(2) == 0;
                    store.write(|w| {
                        w.upsert_node(&DocRecord {
                            url: &url,
                            url_key: k,
                            content_hash: hash,
                            fetched_at_ms: 1000 + n,
                            title: Some("T"),
                            snippet: None,
                            etag: None,
                            pinned,
                        })
                        .unwrap();
                    });
                    let (was, changes) = live.get(&n).map_or((false, 0), |v| (v.1, v.2));
                    live.insert(n, (hash, pinned || was, changes));
                }
                1 => {
                    let prev = store.snapshot().node(k).map(|x| x.content_hash);
                    let same = dice.roll(2) == 0;
                    let t = if same {
                        unchanged(5000)
                    } else {
                        Touch {
                            checked_at_ms: 5000,
                            outcome: Outcome::Changed,
                            content_hash: prev.map(|h| h.wrapping_add(1)),
                            etag: None,
                        }
                    };
                    store.write(|w| w.touch(k, t).unwrap());
                    if let Some(v) = live.get_mut(&n) {
                        if !same {
                            v.2 += 1;
                            v.0 = v.0.wrapping_add(1);
                        }
                    }
                }
                2 => {
                    store.write(|w| w.remove(k).unwrap());
                    live.remove(&n);
                }
                3 => {
                    let on = dice.roll(2) == 0;
                    store.write(|w| w.set_pinned(k, on).unwrap());
                    if let Some(v) = live.get_mut(&n) {
                        v.1 = on;
                    }
                }
                _ => {
                    store.compact();
                }
            }
        }
        let agree = |store: &Store| {
            let snap = store.snapshot();
            for (&n, &(hash, pinned, changes)) in &live {
                let node = snap.node(key(&page(n))).expect("the model has it");
                assert!(!node.is_tombstone());
                assert_eq!(node.content_hash, hash, "hash for {n}");
                assert_eq!(node.pinned(), pinned, "pin for {n}");
                assert_eq!(node.changes, changes, "changes for {n}");
            }
            assert_eq!(snap.len(), live.len(), "live counts agree");
            snap.check().unwrap();
        };
        agree(&store);
        store.compact();
        agree(&store);
        agree(&store.reopen());
    }
}

/// A log torn at any byte opens to a consistent store.
#[test]
fn wal_torn_at_any_byte_recovers_a_committed_prefix() {
    let mut store = Store::create(Config::default());
    seed_store(&mut store);
    store.write(|w| w.remove(key("https://docs.x.dev/faq")).unwrap());
    for cut in 64..store.wal.len() {
        let torn =
            Store::load(store.base.clone(), store.wal[..cut].to_vec(), store.cfg).unwrap();
        torn.snapshot().check().unwrap();
        assert!(torn.snapshot().len() <= 3);
        assert!(torn.wal.len() <= cut);
    }
}

// ---- lookups --------------------------------------------------------------

/// An answer stays inside its budget and its limit, seeds first.
#[test]
fn answers_stay_inside_the_budget() {
    let mut store = Store::create(Config::default());
    seed_store(&mut store);
    store.compact();
    let snap = store.snapshot();
    let all = query(&snap, "widget install", &QueryOpts::default());
    assert_eq!(all.len(), 3);
    assert!(all[0].seed);
    let first_plain = all.iter().position(|h| !h.seed).unwrap_or(all.len());
    assert!(all[first_plain..].iter().all(|h| !h.seed), "seeds come first");

    let cost = |h: &Hit<'_>| {
        graph_r::query::estimate_tokens(h.url, h.title, h.snippet, h.anchor.as_ref())
    };
    let tight = QueryOpts { budget: TokenBudget(cost(&all[0])), ..QueryOpts::default() };
    let one = query(&snap, "widget install", &tight);
    assert_eq!(one.len(), 1);
    assert_eq!(one[0].key, all[0].key);
    let none = QueryOpts { budget: TokenBudget(cost(&all[0]) - 1), ..QueryOpts::default() };
    assert!(query(&snap, "widget install", &none).is_empty());
    let two = QueryOpts { limit: 2, ..QueryOpts::default() };
    assert_eq!(query(&snap, "widget install", &two).len(), 2);
    assert!(query(&snap, "a !", &QueryOpts::default()).is_empty(), "no terms, no answer");
}

#[test]
fn related_lists_live_targets_strongest_first() {
    let mut store = Store::create(Config::default());
    seed_store(&mut store);
    store.write(|w| {
        w.apply_enrichment(
            key("https://docs.x.dev/faq"),
            &[],
            &[(key("https://docs.x.dev/api"), 30_000, 0.9f32.to_bits())],
        )
        .unwrap();
    });
    let snap = store.snapshot();
    let hits = related(&snap, key("https://docs.x.dev/faq"), 10);
    let urls: Vec<&str> = hits.iter().map(|h| h.url).collect();
    // The external spec is no document, so it is left out.
    assert_eq!(urls, ["https://docs.x.dev/guide", "https://docs.x.dev/api"]);
    assert_eq!(related(&snap, key("https://docs.x.dev/faq"), 1).len(), 1);
}

/// An explicit path is a shortest one, and none is found beyond the depth.
#[test]
fn paths_are_shortest_and_bounded() {
    let mut store = Store::create(Config::default());
    store.write(|w| {
        for i in 0..5u64 {
            let url = page(i);
            w.upsert_node(&bare(&url)).unwrap();
            let mut edges = vec![(key(&page(i + 1)), EdgeType::Link, 65_535)];
            if i == 0 {
                edges.push((key(&page(3)), EdgeType::Link, 65_535));
            }
            w.set_edges(key(&url), &edges);
        }
    });
    let snap = store.snapshot();
    let p = snap.path(key(&page(0)), key(&page(4)), 8).unwrap();
    assert_eq!(p, [key(&page(0)), key(&page(3)), key(&page(4))]);
    assert!(snap.path(key(&page(0)), key(&page(4)), 1).is_none());
    assert_eq!(snap.path(key(&page(2)), key(&page(2)), 0).unwrap(), [key(&page(2))]);
}

// ---- a crawled corpus -----------------------------------------------------

const ALPHA: &str = "file:///corpus/alpha.md";
const BETA: &str = "file:///corpus/beta.md";

fn heading(label: &'static str, depth: u8, ordinal: usize) -> SegmentRecord<'static> {
    let base = if depth <= 1 { 1.0f32 } else { 0.72 };
    let pos = 1.0 / (1.0 + 0.15 * ordinal as f32);
    let (toks, hits) = keyword_hits(label, &[]);
    let kd = if toks == 0 { 0.0 } else { hits as f32 / toks as f32 };
    let importance = ((base * pos * (1.0 + kd)) * 32_767.0).clamp(1.0, 65_535.0) as u16;
    SegmentRecord { label, byte_range: None, depth, importance }
}

fn alpha(now: u64) -> DocRecord<'static> {
    DocRecord {
        url: ALPHA,
        url_key: key(ALPHA),
        content_hash: 11,
        fetched_at_ms: now,
        title: Some("Alpha Install"),
        snippet: Some("How to install the alpha toolchain end to end."),
        etag: None,
        pinned: false,
    }
}

fn beta(now: u64) -> DocRecord<'static> {
    DocRecord {
        url: BETA,
        url_key: key(BETA),
        content_hash: 22,
        fetched_at_ms: now,
        title: Some("Beta Usage"),
        snippet: Some("Using the beta interface for daily work."),
        etag: None,
        pinned: false,
    }
}

/// The two documents of the corpus, as a crawl that found both hands them over.
fn crawl(store: &mut Store, now: u64) -> BridgeReport {
    let links = [key("https://spec.example.com/alpha")];
    let docs = [
        ExportedDoc { record: alpha(now), links: &links },
        ExportedDoc { record: beta(now), links: &[] },
    ];
    let of_alpha = [heading("Alpha Install", 1, 0), heading("Alpha Linux", 2, 1)];
    let of_beta = [heading("Beta Usage", 1, 0), heading("Beta Shortcuts", 2, 1)];
    let pages = [
        PageOutcome { key: key(ALPHA), change: PageChange::Added, segments: &of_alpha },
        PageOutcome { key: key(BETA), change: PageChange::Added, segments: &of_beta },
    ];
    store.ingest(&pages, &docs, now).unwrap()
}

#[test]
fn corpus_flows_into_graph_and_serves_standalone() {
    let mut store = Store::create(Config::default());
    let report = crawl(&mut store, 1_000_000);
    assert_eq!(report.upserted, 2);
    assert!(report.segments >= 4, "two headings per doc");
    assert!(report.edges >= 1, "external spec link became an edge");

    let alpha_key = key(ALPHA);
    let snap = store.snapshot();
    assert_eq!(snap.len(), 2);
    let alpha = snap.node(alpha_key).expect("alpha node");
    assert_eq!(alpha.title.unwrap(), "Alpha Install");
    assert!(alpha.snippet.is_some());

    // Segments carry heading anchors with the deterministic importance prior.
    let segs = snap.segments(alpha_key);
    assert_eq!(segs.len(), 2);
    assert_eq!(segs[0].label, "Alpha Install");
    assert_eq!(segs[0].depth, 1);
    assert!(segs[0].importance > segs[1].importance, "H1 first outranks H2 later");

    // The external link exists as a stub edge target.
    let mut it = snap.neighbors(alpha_key);
    let mut found_spec = false;
    while let Some(e) = it.next() {
        if e.dst_key == UrlKey::of("https://spec.example.com/alpha") {
            found_spec = true;
        }
    }
    assert!(found_spec, "spec link persisted as a graph edge");

    // Token-budgeted lookup answers with the URL and heading anchor.
    let hits = query(&snap, "alpha install linux", &QueryOpts::default());
    assert!(!hits.is_empty());
    assert_eq!(hits[0].key, alpha_key);
    let anchor = hits[0].anchor.expect("anchor");
    assert!(anchor.label.starts_with("Alpha"));
}

#[test]
fn due_list_drives_refresh_and_freshness_feeds_back() {
    let mut cfg = Config::default();
    cfg.ttl.importance_bias_permille = 0;
    let mut store = Store::create(cfg);
    let now = 1_000_000;
    crawl(&mut store, now);

    // Everything comes due after the base interval.
    let far = now + u64::from(cfg.ttl.base_s) * 1000 + 60_000;
    let due = due_urls(&store.snapshot(), far, 16);
    assert_eq!(due.len(), 2, "both documents due");
    assert!(due.iter().any(|u| u.contains("alpha")));
    assert!(due.iter().any(|u| u.contains("beta")));

    // One page changed, one did not.
    let mut rewritten = alpha(far);
    rewritten.content_hash = 12;
    rewritten.snippet = Some("Completely rewritten alpha guide today.");
    let docs = [
        ExportedDoc { record: rewritten, links: &[] },
        ExportedDoc { record: beta(now), links: &[] },
    ];
    let of_alpha = [heading("Alpha Install", 1, 0)];
    let pages = [
        PageOutcome { key: key(ALPHA), change: PageChange::Updated, segments: &of_alpha },
        PageOutcome { key: key(BETA), change: PageChange::Unchanged, segments: &[] },
    ];
    store.ingest(&pages, &docs, far).unwrap();
    let snap = store.snapshot();
    let alpha = snap.node(key(ALPHA)).unwrap();
    let beta = snap.node(key(BETA)).unwrap();
    assert_eq!(alpha.changes, 1, "change observed");
    assert!(alpha.interval_s < cfg.ttl.base_s, "changed page rechecks sooner");
    assert_eq!(beta.checks, 1, "unchanged page touched");
    assert!(beta.interval_s > cfg.ttl.base_s, "unchanged page backs off");
}

#[test]
fn absorb_offloads_whole_index() {
    let mut store = Store::create(Config::default());
    let links = [key("https://spec.example.com/alpha")];
    let mut of_beta = beta(1_000_000);
    of_beta.snippet = Some("Keyboard shortcuts for the beta.");
    let docs = [
        ExportedDoc { record: alpha(1_000_000), links: &links },
        ExportedDoc { record: of_beta, links: &[] },
    ];
    let report = store.write(|w| absorb(w, &docs)).unwrap();
    store.compact();
    assert_eq!(report.upserted, 2);

    let snap = store.snapshot();
    assert_eq!(snap.len(), 2);
    let hits = query(&snap, "beta shortcuts", &QueryOpts::default());
    assert!(!hits.is_empty());
    assert!(hits[0].url.contains("beta"));
}

#[test]
fn gone_documents_leave_the_answers_at_once() {
    let mut store = Store::create(Config::default());
    crawl(&mut store, 1_000_000);
    assert!(!query(&store.snapshot(), "beta usage", &QueryOpts::default()).is_empty());
    let gone = Touch {
        checked_at_ms: 2_000_000,
        outcome: Outcome::Gone,
        content_hash: None,
        etag: None,
    };
    assert!(store.write(|w| w.touch(key(BETA), gone)).unwrap());
    {
        let snap = store.snapshot();
        assert!(snap.node(key(BETA)).unwrap().is_tombstone());
        assert!(query(&snap, "beta usage", &QueryOpts::default()).is_empty());
        assert_eq!(snap.segments(key(BETA)).len(), 2);
    }
    store.compact();
    assert!(query(&store.snapshot(), "beta usage", &QueryOpts::default()).is_empty());
}
