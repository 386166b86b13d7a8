//! Exact values, edge cases and refusals, one small piece at a time.
use graph_r::bridge::{
    absorb, crawl_seed, due_urls, ingest_pages, keyword_hits, moves_intervals, parse_outcome,
    parse_scope, BridgeReport, CrawlScope, ExportedDoc, PageChange, PageOutcome,
};
use graph_r::compact::{collect_models, render_generation};
use graph_r::enrich::confident;
use graph_r::format::base::{validate, BaseDir};
use graph_r::format::wal::{encode_frame, encode_header, Op};
use graph_r::matching::{collate, dedup_terms, match_tier, TermHits, Tier};
use graph_r::overlay::{Arena, OverlayView};
use graph_r::query::{rank_candidates, Candidate};
use graph_r::rank::{canonical, elect, hub_cut, percentile_permille, Propagation};
use graph_r::render::{edge_rows, render_empty_base};
use graph_r::spread::{pick_seeds, rank_ids, Spread};
use graph_r::store::{fill_arena, load_log, reload_plan, settle, Reload, Repair};
use graph_r::tokens::{tokens, url_tokens};
use graph_r::writer::{WriteState, MAX_EDGES, MAX_LABEL};
use graph_r::{
    Config, DocRecord, Durability, EdgeType, Error, NodeId, Outcome, Result, SegmentRecord,
    Snapshot, TokenBudget, Touch, TtlConfig, UrlKey, Writer,
};

// ---- a graph in memory ----------------------------------------------------

/// A base and the ops committed on top of it.
struct Graph {
    base: Vec<u8>,
    dir: BaseDir,
    arena: Arena,
    state: Option<WriteState>,
    ttl: TtlConfig,
}

impl Graph {
    fn new() -> Graph {
        Graph::over(render_empty_base(1), 1)
    }

    fn over(base: Vec<u8>, next_seq: u64) -> Graph {
        let dir = BaseDir::parse(&base).unwrap();
        let state = Some(WriteState::new(next_seq, 0, 64));
        Graph { base, dir, arena: Arena::new(), state, ttl: TtlConfig::default() }
    }

    fn snapshot(&self) -> Snapshot<'_> {
        let ops = self.arena.committed(self.arena.len());
        Snapshot::new(&self.base, &self.dir, ops, self.ttl)
    }

    fn write<R>(&mut self, f: impl FnOnce(&mut Writer<'_>, &Snapshot<'_>) -> R) -> R {
        let state = self.state.take().unwrap();
        let (r, mut state) = {
            let snap = self.snapshot();
            let mut w = Writer::new(&snap, state);
            let r = f(&mut w, &snap);
            (r, w.into_state())
        };
        if let Some(batch) = state.begin_commit() {
            batch.publish(&mut self.arena).unwrap();
            state.finish_commit(batch.ops.len(), batch.frames.len());
        }
        self.state = Some(state);
        r
    }

    /// Fold everything into a new base, every node ranked alike.
    fn fold(&mut self) {
        let generation = self.dir.header.generation + 1;
        let applied = self.state.as_ref().unwrap().last_committed_seq();
        let bytes = {
            let snap = self.snapshot();
            let models = collect_models(&snap);
            let ranks = vec![(0, 0); models.len()];
            render_generation(&models, &ranks, generation, applied).unwrap().0
        };
        *self = Graph::over(bytes, applied + 1);
    }
}

fn at(url: &str) -> UrlKey {
    UrlKey::of(url)
}

fn record(url: &str, hash: u64) -> DocRecord<'_> {
    DocRecord {
        url,
        url_key: at(url),
        content_hash: hash,
        fetched_at_ms: 1_000,
        title: None,
        snippet: None,
        etag: None,
        pinned: false,
    }
}

fn message(e: Error) -> String {
    match e {
        Error::Format { message } => format!("format: {message}"),
        Error::Busy { message } => format!("busy: {message}"),
        Error::Corrupt { message } => format!("corrupt: {message}"),
        Error::Locked => String::from("locked"),
        Error::ReadOnly => String::from("read-only"),
        _ => String::from("other"),
    }
}

const A: &str = "https://x.dev/a";
const B: &str = "https://x.dev/b";
const C: &str = "https://x.dev/c";

// ---- the bridge -----------------------------------------------------------

#[test]
fn absorb_stages_every_document_and_link() {
    let mut g = Graph::new();
    let links = [at(B), at(C)];
    let docs = [
        ExportedDoc { record: record(A, 1), links: &links },
        ExportedDoc { record: record(B, 2), links: &[] },
    ];
    let report = g.write(|w, _| absorb(w, &docs)).unwrap();
    let expected =
        BridgeReport { upserted: 2, touched: 0, tombstoned: 0, edges: 2, segments: 0 };
    assert_eq!(report, expected);
    let snap = g.snapshot();
    assert_eq!(snap.len(), 2);
    let out: Vec<UrlKey> = snap.neighbors(at(A)).collect().iter().map(|e| e.dst_key).collect();
    let mut expected = vec![at(B), at(C)];
    expected.sort_unstable_by_key(|k| k.0);
    assert_eq!(out, expected);
}

#[test]
fn absorb_ends_at_the_first_document_that_cannot_be_stored() {
    let mut g = Graph::new();
    let docs = [
        ExportedDoc { record: record(A, 1), links: &[] },
        ExportedDoc { record: record("", 2), links: &[] },
        ExportedDoc { record: record(B, 3), links: &[] },
    ];
    let e = g.write(|w, _| absorb(w, &docs)).unwrap_err();
    assert!(message(e).starts_with("format: "));
    let snap = g.snapshot();
    assert!(snap.node(at(A)).is_some());
    assert!(snap.node(at(B)).is_none());
}

fn ingest(
    g: &mut Graph,
    change: PageChange,
    doc: DocRecord<'_>,
    now: u64,
) -> Result<BridgeReport> {
    let pages = [PageOutcome { key: doc.url_key, change, segments: &[] }];
    let docs = [ExportedDoc { record: doc, links: &[] }];
    g.write(|w, snap| ingest_pages(w, snap, &pages, &docs, now))
}

#[test]
fn the_committed_hash_decides_what_changed() {
    let mut g = Graph::new();
    let first = ingest(&mut g, PageChange::Added, record(A, 1), 2_000).unwrap();
    assert_eq!((first.upserted, first.touched), (1, 0));
    // A page that a fresh index calls new, with content the graph has not seen.
    let moved = ingest(&mut g, PageChange::Added, record(A, 2), 3_000).unwrap();
    assert_eq!((moved.upserted, moved.touched), (1, 1));
    let base_s = TtlConfig::default().base_s;
    {
        let snap = g.snapshot();
        let n = snap.node(at(A)).unwrap();
        assert_eq!(n.changes, 1);
        assert!(n.interval_s < base_s);
    }
    // A page that the index calls updated, with the content the graph holds.
    let same = ingest(&mut g, PageChange::Updated, record(A, 2), 4_000).unwrap();
    assert_eq!((same.upserted, same.touched), (1, 0));
    assert_eq!(g.snapshot().node(at(A)).unwrap().changes, 1);
}

#[test]
fn the_first_fetch_of_a_link_target_is_no_change() {
    let mut g = Graph::new();
    g.write(|w, _| {
        w.upsert_node(&record(A, 1)).unwrap();
        w.set_edges(at(A), &[(at(B), EdgeType::Link, 65_535)]);
    });
    g.fold();
    assert!(g.snapshot().node(at(B)).unwrap().is_stub());
    let first = ingest(&mut g, PageChange::Added, record(B, 2), 3_000).unwrap();
    assert_eq!((first.upserted, first.touched), (1, 0));
    {
        let snap = g.snapshot();
        let n = snap.node(at(B)).unwrap();
        assert!(!n.is_stub());
        assert_eq!((n.interval_s, n.checks, n.changes), (21_600, 0, 0));
    }
    let second = ingest(&mut g, PageChange::Updated, record(B, 3), 4_000).unwrap();
    assert_eq!((second.upserted, second.touched), (1, 1));
    assert_eq!(g.snapshot().node(at(B)).unwrap().changes, 1);
}

#[test]
fn only_revalidations_move_an_interval() {
    let mut g = Graph::new();
    g.write(|w, _| w.upsert_node(&record(A, 1)).unwrap());
    let snap = g.snapshot();
    let moves = |url: &str, change: PageChange, hash: u64| {
        let pages = [PageOutcome { key: at(url), change, segments: &[] }];
        let docs = [ExportedDoc { record: record(url, hash), links: &[] }];
        moves_intervals(&snap, &pages, &docs)
    };
    assert!(moves(A, PageChange::Updated, 2));
    assert!(moves(A, PageChange::Added, 2));
    assert!(moves(A, PageChange::Unchanged, 1));
    assert!(!moves(A, PageChange::Updated, 1));
    assert!(!moves(A, PageChange::Removed, 1));
    assert!(!moves(A, PageChange::Skipped, 2));
    assert!(!moves(B, PageChange::Added, 1));
    assert!(!moves(B, PageChange::Unchanged, 1));
    assert!(!moves_intervals(&snap, &[], &[]));
}

#[test]
fn unchanged_pages_back_off_and_removed_pages_stay_as_history() {
    let mut g = Graph::new();
    ingest(&mut g, PageChange::Added, record(A, 1), 2_000).unwrap();
    ingest(&mut g, PageChange::Added, record(B, 1), 2_000).unwrap();
    let r = ingest(&mut g, PageChange::Unchanged, record(A, 1), 3_000).unwrap();
    assert_eq!(r.touched, 1);
    let r = ingest(&mut g, PageChange::Removed, record(B, 1), 3_000).unwrap();
    assert_eq!((r.touched, r.tombstoned), (0, 1));
    let r = ingest(&mut g, PageChange::Removed, record(C, 1), 3_000).unwrap();
    assert_eq!(r, BridgeReport::default());
    let r = ingest(&mut g, PageChange::Skipped, record(A, 9), 3_000).unwrap();
    assert_eq!(r, BridgeReport::default());
    let snap = g.snapshot();
    assert!(snap.node(at(A)).unwrap().interval_s > TtlConfig::default().base_s);
    assert!(snap.node(at(B)).unwrap().is_tombstone());
    assert_eq!(snap.len(), 1);
}

#[test]
fn a_page_without_exported_metadata_is_passed_over() {
    let mut g = Graph::new();
    let pages = [PageOutcome { key: at(A), change: PageChange::Added, segments: &[] }];
    let r = g.write(|w, snap| ingest_pages(w, snap, &pages, &[], 5)).unwrap();
    assert_eq!(r, BridgeReport::default());
    assert!(g.snapshot().node(at(A)).is_none());
}

#[test]
fn a_crawl_is_seeded_with_stored_validators_and_links() {
    let mut g = Graph::new();
    g.write(|w, _| {
        let mut a = record(A, 1);
        a.etag = Some("\"v1\"");
        w.upsert_node(&a).unwrap();
        w.upsert_node(&record(B, 2)).unwrap();
        w.set_edges(at(A), &[(at(B), EdgeType::Link, 65_535)]);
    });
    g.fold();
    let seed = crawl_seed(&g.snapshot());
    assert_eq!(seed.validators, vec![(A.to_owned(), "\"v1\"".to_owned())]);
    assert_eq!(seed.known_edges, vec![(A.to_owned(), vec![B.to_owned()])]);
}

#[test]
fn due_urls_follow_the_due_list() {
    let mut g = Graph::new();
    g.write(|w, _| w.upsert_node(&record(A, 1)).unwrap());
    let base_ms = u64::from(TtlConfig::default().base_s) * 1_000;
    assert!(due_urls(&g.snapshot(), 1_000, 10).is_empty());
    assert_eq!(due_urls(&g.snapshot(), 1_000 + base_ms, 10), vec![A.to_owned()]);
    assert!(due_urls(&g.snapshot(), 1_000 + base_ms, 0).is_empty());
}

#[test]
fn outcomes_and_scopes_are_closed_vocabularies() {
    assert!(matches!(parse_outcome("unchanged"), Some(Outcome::Unchanged)));
    assert!(matches!(parse_outcome("changed"), Some(Outcome::Changed)));
    assert!(matches!(parse_outcome("error"), Some(Outcome::Error)));
    assert!(matches!(parse_outcome("gone"), Some(Outcome::Gone)));
    assert!(parse_outcome("Gone").is_none());
    assert!(parse_outcome("").is_none());
    assert_eq!(parse_scope(None), Some(CrawlScope::PathPrefix));
    assert_eq!(parse_scope(Some("path")), Some(CrawlScope::PathPrefix));
    assert_eq!(parse_scope(Some("host")), Some(CrawlScope::SameHost));
    assert_eq!(parse_scope(Some("same_host")), Some(CrawlScope::SameHost));
    assert_eq!(parse_scope(Some("subdomains")), Some(CrawlScope::SameHostAndSubdomains));
    assert_eq!(parse_scope(Some("web")), None);
}

#[test]
fn keyword_hits_count_tokens_case_insensitively() {
    assert_eq!(keyword_hits("Install on Linux", &["LINUX", "macos"]), (3, 1));
    assert_eq!(keyword_hits("Install on Linux", &[]), (3, 0));
    assert_eq!(keyword_hits("", &["x"]), (0, 0));
}

// ---- words ----------------------------------------------------------------

#[test]
fn tokens_lowercase_beyond_ascii() {
    assert_eq!(tokens("\u{c9}COLE Stra\u{df}e"), vec!["\u{e9}cole", "stra\u{df}e"]);
    // One capital can become two characters.
    assert_eq!(tokens("\u{130}stanbul"), vec!["i\u{307}stanbul"]);
    assert_eq!(tokens("a-b cd_ef 42"), vec!["a", "b", "cd", "ef", "42"]);
}

#[test]
fn url_tokens_skip_the_scheme() {
    let words = url_tokens("https://docs.x.dev/Install-Guide");
    assert!(words.contains(&"install".to_owned()));
    assert!(words.contains(&"guide".to_owned()));
    assert!(words.contains(&"docs".to_owned()));
}

#[test]
fn tiers_rank_whole_words_above_prefixes_above_parts() {
    assert_eq!(match_tier("install", "install"), Some(Tier::Exact));
    assert_eq!(match_tier("installer", "install"), Some(Tier::Prefix));
    assert_eq!(match_tier("reinstall", "install"), Some(Tier::Substring));
    assert_eq!(match_tier("inst", "install"), None);
    assert!(Tier::Exact.outranks(Tier::Prefix));
    assert!(Tier::Prefix.outranks(Tier::Substring));
    assert!(!Tier::Prefix.outranks(Tier::Prefix));
}

#[test]
fn a_term_meets_base_nodes_through_the_lexicon() {
    let mut g = Graph::new();
    g.write(|w, _| {
        let mut a = record(A, 1);
        a.title = Some("install guide");
        w.upsert_node(&a).unwrap();
        let mut b = record(B, 2);
        b.title = Some("installer notes");
        w.upsert_node(&b).unwrap();
    });
    let terms = dedup_terms("install");
    let fresh = g.snapshot().fresh_hits(&terms).len();
    assert_eq!(fresh, 2);
    g.fold();
    let snap = g.snapshot();
    assert!(snap.fresh_hits(&terms).is_empty());
    let id_a = snap.base_node_id(at(A)).unwrap();
    let id_b = snap.base_node_id(at(B)).unwrap();
    let hits = snap.term_hits("install");
    assert_eq!(hits.df, 1);
    assert!(hits.nodes.contains(&(id_a, Tier::Exact)));
    assert!(hits.nodes.contains(&(id_b, Tier::Prefix)));
    assert_eq!(hits.best(), Some(id_a));
    assert_eq!(snap.term_hits("absent").best(), None);
}

#[test]
fn collate_gathers_a_tier_per_term() {
    let hits = vec![
        TermHits { df: 1, nodes: vec![(NodeId(3), Tier::Exact), (NodeId(7), Tier::Prefix)] },
        TermHits { df: 0, nodes: vec![(NodeId(1), Tier::Substring), (NodeId(7), Tier::Exact)] },
    ];
    let rows: Vec<(u32, Vec<Option<Tier>>)> =
        collate(&hits).into_iter().map(|h| (h.id.0, h.tiers)).collect();
    assert_eq!(
        rows,
        vec![
            (1, vec![None, Some(Tier::Substring)]),
            (3, vec![Some(Tier::Exact), None]),
            (7, vec![Some(Tier::Prefix), Some(Tier::Exact)]),
        ]
    );
}

// ---- seeds and spreading --------------------------------------------------

#[test]
fn seeds_seat_every_term_before_the_highest_scores() {
    let ranked = rank_ids(&[(4, 10), (2, 30), (9, 30), (5, 20)]);
    assert_eq!(ranked, vec![2, 9, 5, 4]);
    assert_eq!(pick_seeds(&[Some(5), None, Some(4), Some(5)], &ranked, 3), vec![4, 5, 2]);
    assert_eq!(pick_seeds(&[Some(5), Some(4)], &ranked, 1), vec![4]);
    assert_eq!(pick_seeds(&[], &ranked, 2), vec![2, 9]);
}

#[test]
fn spreading_keeps_the_best_score_and_the_order_of_arrival() {
    let mut s = Spread::start(&[(7, 100), (3, 50)], 9);
    assert_eq!(s.next_round(), vec![(7, 100), (3, 50)]);
    assert!(s.offer(1, 40));
    assert!(!s.offer(7, 90));
    assert!(s.offer(3, 60));
    assert_eq!(s.next_round(), vec![(1, 40), (3, 60)]);
    assert_eq!(s.arrivals(), vec![(7, 100), (3, 60), (1, 40)]);
    assert!(s.next_round().is_empty());
}

#[test]
fn spreading_goes_no_deeper_than_allowed() {
    let mut s = Spread::start(&[(7, 100)], 2);
    assert_eq!(s.next_round(), vec![(7, 100)]);
    assert!(s.offer(1, 50));
    assert_eq!(s.next_round(), vec![(1, 50)]);
    assert!(s.offer(2, 25));
    assert!(s.next_round().is_empty());
    assert_eq!(s.arrivals(), vec![(7, 100), (1, 50), (2, 25)]);
    let mut still = Spread::start(&[(7, 100)], 0);
    assert!(still.next_round().is_empty());
    assert_eq!(still.arrivals(), vec![(7, 100)]);
}

#[test]
fn candidates_are_reportable_and_named_once() {
    let mut g = Graph::new();
    g.write(|w, _| {
        for url in [A, B, C] {
            w.upsert_node(&record(url, 1)).unwrap();
        }
        w.set_edges(at(A), &[(at("https://x.dev/stub"), EdgeType::Link, 9)]);
    });
    g.fold();
    let fresh_url = "https://x.dev/fresh";
    let gone = Touch {
        checked_at_ms: 5_000,
        outcome: Outcome::Gone,
        content_hash: None,
        etag: None,
    };
    g.write(|w, _| {
        w.upsert_node(&record(fresh_url, 1)).unwrap();
        w.touch(at(B), gone).unwrap();
        w.remove(at(C)).unwrap();
    });
    let snap = g.snapshot();
    let mut urls = vec![A, B, C, "https://x.dev/stub"];
    urls.sort_unstable_by_key(|u| at(u).0);
    let id = |url: &str| urls.iter().position(|u| *u == url).unwrap() as u32;
    let arrivals: Vec<(u32, u32)> = (0..4u32).map(|i| (i, 100 + i)).collect();
    let fused = [10, 20, 30, 40];
    let fresh = [(at(fresh_url).0, 7)];
    let cands = snap.candidates(&arrivals, &[id(A)], &fused, &fresh);
    let a = Candidate { seed: true, score: fused[id(A) as usize], key: at(A).0 };
    let f = Candidate { seed: true, score: 7, key: at(fresh_url).0 };
    assert_eq!(cands, vec![a, f]);
    let cands = snap.candidates(&arrivals, &[], &fused, &[]);
    assert_eq!(cands, vec![Candidate { seed: false, ..a }]);
    assert!(snap.candidates(&[], &[1], &[], &[]).is_empty());
    let none: Vec<String> = Vec::new();
    assert!(snap.fresh_hits(&none).is_empty());
    assert!(collate(&Vec::new()).is_empty());
    assert!(snap.render_answer(&[], &none, 5, TokenBudget(100)).is_empty());
}

#[test]
fn candidates_stand_in_seed_score_key_order() {
    let c = |seed: bool, score: u32, key: u64| Candidate { seed, score, key };
    let ranked = rank_candidates(&[c(false, 90, 1), c(true, 10, 5), c(true, 20, 9), c(true, 20, 3)]);
    let keys: Vec<u64> = ranked.iter().map(|x| x.key).collect();
    assert_eq!(keys, vec![3, 9, 5, 1]);
}

// ---- structure ------------------------------------------------------------

#[test]
fn percentiles_are_positions_in_rank_order() {
    // 0 and 1 point at each other, 2 points at both; 3 has one edge only.
    let l = |d: u32| (d, 0u8, 0u8, 65_535u16);
    let rows = vec![vec![l(1)], vec![l(0)], vec![l(0), l(1)], vec![l(0)]];
    assert_eq!(percentile_permille(&rows, &[40, 30, 20, 10]), vec![1000, 666, 333, 0]);
    // Equal ranks go by id.
    assert_eq!(percentile_permille(&rows, &[5, 5, 5, 5]), vec![0, 333, 666, 0]);
    let one = vec![vec![l(0), l(0)]];
    assert_eq!(percentile_permille(&one, &[1]), vec![1000]);
}

#[test]
fn the_mute_cut_is_the_ninety_fifth_percentile_but_eight_at_least() {
    assert_eq!(hub_cut(&[1, 2, 3]), 8);
    assert_eq!(hub_cut(&[100, 1, 2]), 100);
    let degrees: Vec<usize> = (1..=100).collect();
    assert_eq!(hub_cut(&degrees), 96);
}

#[test]
fn elections_prefer_the_smaller_label_and_names_the_smallest_member() {
    assert_eq!(elect(&[(4, 10), (2, 10), (9, 3)]), Some(2));
    assert_eq!(elect(&[(4, 11), (2, 10)]), Some(4));
    assert_eq!(elect(&[]), None);
    assert_eq!(canonical(&[5, 3, 5, 3, 4]), vec![0, 1, 0, 1, 4]);
}

// ---- the log and its base -------------------------------------------------

#[test]
fn a_community_is_connected() {
    // Two triangles apart, and one node alone.
    let link = |dst: u32| (dst, 0u8, 0u8, 65_535u16);
    let lists = vec![
        vec![link(1), link(2)],
        vec![link(2)],
        vec![],
        vec![link(4)],
        vec![link(5)],
        vec![link(3)],
        vec![],
    ];
    let mut p = Propagation::start(&lists);
    loop {
        for u in 0..p.len() {
            let mut votes: Vec<(u32, u64)> = Vec::new();
            for b in p.ballots(u) {
                match votes.iter_mut().find(|v| v.0 == b.label) {
                    Some(v) => v.1 += u64::from(b.weight),
                    None => votes.push((b.label, u64::from(b.weight))),
                }
            }
            p.settle(u, &votes);
        }
        if !p.end_sweep() {
            break;
        }
    }
    assert_eq!(p.communities(), vec![0, 0, 0, 3, 3, 3, 6]);
}

fn header(generation: u64, applied: u64) -> graph_r::format::base::Header {
    let bytes = render_generation(&Vec::new(), &Vec::new(), generation, applied).unwrap().0;
    BaseDir::parse(&bytes).unwrap().header
}

fn pin(seq: u64) -> Vec<u8> {
    encode_frame(seq, &Op::SetPinned { key: UrlKey(seq), pinned: true })
}

#[test]
fn a_log_newer_than_its_base_is_corrupt() {
    let e = load_log(&header(3, 0), &encode_header(4, 0)).unwrap_err();
    assert_eq!(message(e), "corrupt: wal is newer than base");
}

#[test]
fn a_log_older_than_its_base_is_reset() {
    let mut raw = encode_header(2, 0);
    raw.extend_from_slice(&pin(1));
    let log = load_log(&header(3, 9), &raw).unwrap();
    assert_eq!(log.repair, Repair::Reset);
    assert!(log.ops.is_empty());
    assert_eq!((log.next_seq, log.wal_bytes), (10, 64));
}

#[test]
fn folded_ops_are_skipped_and_torn_tails_cut() {
    let mut raw = encode_header(3, 0);
    for seq in 1..=4 {
        raw.extend_from_slice(&pin(seq));
    }
    let whole = raw.len();
    raw.extend_from_slice(&pin(5)[..7]);
    let log = load_log(&header(3, 2), &raw).unwrap();
    let seqs: Vec<u64> = log.ops.iter().map(|(s, _)| *s).collect();
    assert_eq!(seqs, vec![3, 4]);
    assert_eq!(log.next_seq, 5);
    assert_eq!(log.repair, Repair::Truncate(whole));
    // Everything folded already: numbering goes on after the base.
    let log = load_log(&header(3, 9), &raw).unwrap();
    assert!(log.ops.is_empty());
    assert_eq!(log.next_seq, 10);
}

#[test]
fn a_missing_log_reads_as_empty() {
    let log = load_log(&header(3, 2), &[]).unwrap();
    assert!(log.ops.is_empty());
    assert_eq!((log.next_seq, log.wal_bytes, log.repair), (3, 0, Repair::Keep));
}

#[test]
fn settling_an_intact_log_keeps_it() {
    let mut raw = encode_header(1, 0);
    raw.extend_from_slice(&pin(1));
    let log = graph_r::format::wal::replay(&raw).unwrap();
    let settled = settle(&header(1, 0), log, raw.len()).unwrap();
    assert_eq!((settled.ops.len(), settled.next_seq, settled.repair), (1, 2, Repair::Keep));
}

#[test]
fn readers_catch_up_by_generation_then_by_ops() {
    assert_eq!(reload_plan(1, 5, 1, 5), Reload::Current);
    assert_eq!(reload_plan(1, 5, 1, 8), Reload::Extend(5));
    assert_eq!(reload_plan(1, 5, 2, 0), Reload::Install);
}

#[test]
fn loaded_ops_extend_the_overlay_in_order() {
    let ops: Vec<(u64, Op)> =
        (1..=3).map(|s| (s, Op::SetPinned { key: UrlKey(s), pinned: true })).collect();
    let mut arena = Arena::new();
    assert!(fill_arena(&ops, 1, &mut arena));
    let seqs: Vec<u64> = arena.committed(arena.len()).iter().map(|(s, _)| *s).collect();
    assert_eq!(seqs, vec![2, 3]);
}

// ---- committing -----------------------------------------------------------

#[test]
fn batches_sync_every_nth_commit() {
    let mut s = WriteState::new(1, 0, 64);
    let three = Durability::Batch(3);
    assert!(!s.after_append(three));
    assert!(!s.after_append(three));
    assert!(s.after_append(three));
    s.after_sync();
    assert!(!s.after_append(three));
    assert!(s.after_append(Durability::Always));
    assert!(!s.after_append(Durability::Never));
    let mut zero = WriteState::new(1, 0, 64);
    assert!(zero.after_append(Durability::Batch(0)));
}

#[test]
fn the_thresholds_ask_for_compaction() {
    let mut s = WriteState::new(5, 2, 100);
    assert!(!s.wants_compaction(3, 200));
    assert!(s.wants_compaction(2, 200));
    assert!(s.wants_compaction(3, 100));
    assert_eq!(s.finish_commit(2, 50), 6);
    assert_eq!(s.last_committed_seq(), 6);
    assert!(s.wants_compaction(4, 1_000));
    assert!(s.wants_compaction(9, 150));
    s.reset_after_compact(7);
    assert!(!s.wants_compaction(1, 65));
    assert_eq!(s.last_committed_seq(), 6);
}

#[test]
fn an_empty_commit_is_nothing() {
    let mut s = WriteState::new(1, 0, 64);
    assert!(s.staged_is_empty());
    assert!(s.begin_commit().is_none());
    assert_eq!(s.last_committed_seq(), 0);
}

// ---- what a writer refuses ------------------------------------------------

#[test]
fn every_text_has_a_limit() {
    let long = "x".repeat(MAX_LABEL + 1);
    let mut g = Graph::new();
    g.write(|w, _| {
        let mut d = record(A, 1);
        d.title = Some(&long);
        assert!(message(w.upsert_node(&d).unwrap_err()).starts_with("format: "));
        let mut d = record(A, 1);
        d.snippet = Some(&long);
        assert!(message(w.upsert_node(&d).unwrap_err()).starts_with("format: "));
        let mut d = record(A, 1);
        d.etag = Some(&long);
        assert!(message(w.upsert_node(&d).unwrap_err()).starts_with("format: "));
        let seg = SegmentRecord { label: &long, byte_range: None, depth: 1, importance: 1 };
        assert!(message(w.set_segments(at(A), &[seg]).unwrap_err()).starts_with("format: "));
        let fits = "x".repeat(MAX_LABEL);
        let mut d = record(A, 1);
        d.title = Some(&fits);
        assert!(w.upsert_node(&d).is_ok());
        assert_eq!(w.staged(), 1);
    });
    g.write(|w, _| {
        let t = Touch {
            checked_at_ms: 5,
            outcome: Outcome::Changed,
            content_hash: None,
            etag: Some(&long),
        };
        assert!(message(w.touch(at(A), t).unwrap_err()).starts_with("format: "));
    });
}

#[test]
fn links_to_oneself_are_dropped() {
    let mut g = Graph::new();
    g.write(|w, _| {
        w.upsert_node(&record(A, 1)).unwrap();
        w.set_edges(at(A), &[(at(A), EdgeType::Link, 9), (at(B), EdgeType::Link, 7)]);
    });
    let snap = g.snapshot();
    let out: Vec<(UrlKey, u16)> =
        snap.neighbors(at(A)).collect().iter().map(|e| (e.dst_key, e.weight)).collect();
    assert_eq!(out, vec![(at(B), 7)]);
}

fn heading(label: &str, importance: u16) -> SegmentRecord<'_> {
    SegmentRecord { label, byte_range: None, depth: 1, importance }
}

const LINUX: &str = "Install > Linux";
const WINDOWS: &str = "Install > Windows";

fn importances(g: &Graph, url: &str) -> Vec<(String, u16)> {
    let snap = g.snapshot();
    snap.segments(at(url)).iter().map(|s| (String::from(s.label), s.importance)).collect()
}

#[test]
fn scores_follow_their_heading_and_not_their_place() {
    let mut g = Graph::new();
    g.write(|w, _| {
        w.upsert_node(&record(A, 1)).unwrap();
        w.set_segments(at(A), &[heading(LINUX, 60_000), heading(WINDOWS, 40_000)]).unwrap();
    });
    g.write(|w, _| w.set_importance(at(A), &[(0, 65_000)]).unwrap());
    let expected = vec![(String::from(LINUX), 65_000), (String::from(WINDOWS), 40_000)];
    assert_eq!(importances(&g, A), expected);
    g.write(|w, _| {
        w.set_segments(at(A), &[heading(WINDOWS, 40_000), heading(LINUX, 60_000)]).unwrap()
    });
    let turned = vec![(String::from(WINDOWS), 40_000), (String::from(LINUX), 65_000)];
    assert_eq!(importances(&g, A), turned);
    g.fold();
    assert_eq!(importances(&g, A), turned);
    g.write(|w, _| w.set_segments(at(A), &[heading(LINUX, 1), heading("New", 2)]).unwrap());
    let third = vec![(String::from(LINUX), 65_000), (String::from("New"), 2)];
    assert_eq!(importances(&g, A), third);
}

#[test]
fn a_score_of_the_same_batch_is_not_lost() {
    let mut g = Graph::new();
    g.write(|w, _| {
        w.upsert_node(&record(A, 1)).unwrap();
        w.set_segments(at(A), &[heading(LINUX, 60_000), heading(WINDOWS, 40_000)]).unwrap();
        w.set_importance(at(A), &[(1, 50_000)]).unwrap();
        w.set_segments(at(A), &[heading(WINDOWS, 40_000), heading(LINUX, 60_000)]).unwrap();
    });
    let expected = vec![(String::from(WINDOWS), 50_000), (String::from(LINUX), 60_000)];
    assert_eq!(importances(&g, A), expected);
}

#[test]
fn an_override_waits_for_its_segment() {
    let mut g = Graph::new();
    g.write(|w, _| w.upsert_node(&record(A, 1)).unwrap());
    g.write(|w, _| w.set_importance(at(A), &[(0, 65_000), (2, 50_000)]).unwrap());
    g.write(|w, _| w.set_segments(at(A), &[heading(LINUX, 100)]).unwrap());
    assert_eq!(importances(&g, A), vec![(String::from(LINUX), 65_000)]);
    // The first override has its heading now; the other still waits.
    let longer = [heading("New", 1), heading(LINUX, 2), heading(WINDOWS, 3)];
    g.write(|w, _| w.set_segments(at(A), &longer).unwrap());
    let expected = vec![
        (String::from("New"), 1),
        (String::from(LINUX), 65_000),
        (String::from(WINDOWS), 50_000),
    ];
    assert_eq!(importances(&g, A), expected);
    g.fold();
    assert_eq!(importances(&g, A), expected);
}

#[test]
fn an_override_past_a_base_list_waits_too() {
    let mut g = Graph::new();
    g.write(|w, _| {
        w.upsert_node(&record(A, 1)).unwrap();
        w.set_segments(at(A), &[heading(LINUX, 10), heading(WINDOWS, 20)]).unwrap();
    });
    g.fold();
    g.write(|w, _| w.set_importance(at(A), &[(1, 60_000), (2, 50_000)]).unwrap());
    // A shorter list, and then one in which other headings take the places.
    g.write(|w, _| w.set_segments(at(A), &[heading(LINUX, 11)]).unwrap());
    assert_eq!(importances(&g, A), vec![(String::from(LINUX), 11)]);
    let longer = [heading("X", 1), heading("Y", 2), heading("Z", 3)];
    g.write(|w, _| w.set_segments(at(A), &longer).unwrap());
    let expected =
        vec![(String::from("X"), 1), (String::from("Y"), 2), (String::from("Z"), 50_000)];
    assert_eq!(importances(&g, A), expected);
}

#[test]
fn a_staged_remove_discards_the_scores() {
    let mut g = Graph::new();
    g.write(|w, _| {
        w.upsert_node(&record(A, 1)).unwrap();
        w.set_segments(at(A), &[heading(LINUX, 100)]).unwrap();
        w.set_importance(at(A), &[(0, 65_000)]).unwrap();
    });
    g.write(|w, _| {
        w.remove(at(A)).unwrap();
        w.upsert_node(&record(A, 2)).unwrap();
        w.set_segments(at(A), &[heading(LINUX, 100)]).unwrap();
    });
    assert_eq!(importances(&g, A), vec![(String::from(LINUX), 100)]);
    // Without a remove, a heading that comes back in one batch keeps its score.
    g.write(|w, _| w.set_importance(at(A), &[(0, 64_000)]).unwrap());
    g.write(|w, _| {
        w.set_segments(at(A), &[heading(WINDOWS, 7)]).unwrap();
        w.set_segments(at(A), &[heading(LINUX, 100)]).unwrap();
    });
    assert_eq!(importances(&g, A), vec![(String::from(LINUX), 64_000)]);
}

/// Links from a page to as many others, `from` on.
fn crowd(from: usize, n: usize) -> Vec<(UrlKey, EdgeType, u16)> {
    (from..from + n).map(|i| (at(&format!("https://x.dev/t{i}")), EdgeType::Link, 1)).collect()
}

fn proposals(from: usize, n: usize) -> Vec<(UrlKey, u16, u32)> {
    crowd(from, n).iter().map(|e| (e.0, 65_535, 1.0f32.to_bits())).collect()
}

fn tiers(g: &Graph, url: &str) -> (Vec<UrlKey>, Vec<UrlKey>) {
    let snap = g.snapshot();
    let all = snap.neighbors(at(url)).collect();
    let of = |enrich: bool| {
        all.iter().filter(|e| e.is_enrichment() == enrich).map(|e| e.dst_key).collect()
    };
    (of(false), of(true))
}

#[test]
fn a_crawl_never_crowds_out_enrichment() {
    let mut g = Graph::new();
    g.write(|w, _| w.upsert_node(&record(A, 1)).unwrap());
    g.write(|w, _| w.apply_enrichment(at(A), &[], &[(at(B), 300, 0.9f32.to_bits())]).unwrap());
    let before = g.snapshot().neighbors(at(A)).collect()[0].weight;
    g.write(|w, _| w.set_edges(at(A), &crowd(0, MAX_EDGES)));
    let (links, related) = tiers(&g, A);
    assert_eq!(related, vec![at(B)]);
    let mut first: Vec<UrlKey> = crowd(0, MAX_EDGES - 1).iter().map(|e| e.0).collect();
    first.sort_unstable_by_key(|k| k.0);
    assert_eq!(links, first);
    let snap = g.snapshot();
    let kept = snap.neighbors(at(A)).collect();
    let e = kept.iter().find(|e| e.dst_key == at(B)).unwrap();
    assert!(e.is_enrichment() && e.is_inferred());
    assert_eq!(e.weight, before);
}

#[test]
fn enrichment_never_crowds_out_links() {
    let mut g = Graph::new();
    g.write(|w, _| {
        w.upsert_node(&record(A, 1)).unwrap();
        w.set_edges(at(A), &[(at(B), EdgeType::Link, 7)]);
    });
    g.write(|w, _| w.apply_enrichment(at(A), &[], &proposals(0, MAX_EDGES)).unwrap());
    let (links, related) = tiers(&g, A);
    assert_eq!(links, vec![at(B)]);
    assert_eq!(related.len(), MAX_EDGES - 1);
}

#[test]
fn a_new_edge_wins_a_destination_and_takes_its_place() {
    let mut g = Graph::new();
    g.write(|w, _| w.upsert_node(&record(A, 1)).unwrap());
    g.write(|w, _| w.apply_enrichment(at(A), &[], &proposals(0, MAX_EDGES)).unwrap());
    assert_eq!(tiers(&g, A).1.len(), MAX_EDGES);
    // There is no room for a link elsewhere, but one to the same place fits.
    let mut links = vec![(at(B), EdgeType::Link, 7)];
    links.extend(crowd(3, 1));
    g.write(|w, _| w.set_edges(at(A), &links));
    let (links, related) = tiers(&g, A);
    assert_eq!(links, vec![at("https://x.dev/t3")]);
    assert_eq!(related.len(), MAX_EDGES - 1);
}

#[test]
fn edges_of_the_same_batch_survive_the_other_tier() {
    let mut g = Graph::new();
    g.write(|w, _| {
        w.upsert_node(&record(A, 1)).unwrap();
        w.apply_enrichment(at(A), &[], &[(at(B), 300, 0.9f32.to_bits())]).unwrap();
        w.set_edges(at(A), &[(at(C), EdgeType::Link, 7)]);
    });
    assert_eq!(tiers(&g, A), (vec![at(C)], vec![at(B)]));
    g.write(|w, _| {
        w.remove(at(A)).unwrap();
        w.upsert_node(&record(A, 2)).unwrap();
        w.set_edges(at(A), &[(at(C), EdgeType::Link, 8)]);
    });
    assert_eq!(tiers(&g, A), (vec![at(C)], vec![]));
}

#[test]
fn a_pin_comes_with_the_document_or_stays() {
    let mut g = Graph::new();
    let pinned = |g: &Graph, url: &str| g.snapshot().node(at(url)).unwrap().pinned();
    let with_pin = DocRecord { pinned: true, ..record(B, 1) };
    g.write(|w, _| {
        w.upsert_node(&record(A, 1)).unwrap();
        w.upsert_node(&with_pin).unwrap();
    });
    assert!(!pinned(&g, A) && pinned(&g, B));
    g.write(|w, _| {
        w.upsert_node(&record(A, 2)).unwrap();
        w.upsert_node(&record(B, 2)).unwrap();
    });
    assert!(!pinned(&g, A) && pinned(&g, B));
    g.fold();
    g.write(|w, _| {
        w.upsert_node(&record(A, 3)).unwrap();
        w.upsert_node(&record(B, 3)).unwrap();
    });
    assert!(!pinned(&g, A) && pinned(&g, B));
    g.write(|w, _| w.set_pinned(at(B), false).unwrap());
    g.write(|w, _| w.upsert_node(&record(B, 4)).unwrap());
    assert!(!pinned(&g, B));
}

#[test]
fn compacting_twice_keeps_the_edges_of_a_referenced_stub() {
    let mut g = Graph::new();
    g.write(|w, _| {
        w.upsert_node(&record(A, 1)).unwrap();
        w.set_edges(at(A), &[(at(B), EdgeType::Link, 7)]);
    });
    g.fold();
    g.write(|w, _| w.set_edges(at(B), &[(at(C), EdgeType::Link, 9)]));
    g.fold();
    let links = |g: &Graph| {
        let snap = g.snapshot();
        let models = collect_models(&snap);
        (models.len(), edge_rows(&models))
    };
    let once = links(&g);
    assert_eq!(once.0, 3);
    assert_eq!(once.1.iter().map(|es| es.len()).sum::<usize>(), 2);
    g.fold();
    assert_eq!(links(&g), once);
}

#[test]
fn compacting_twice_drops_only_what_hung_on_a_loose_stub() {
    let mut g = Graph::new();
    let d = "https://x.dev/d";
    g.write(|w, _| {
        w.upsert_node(&record(A, 1)).unwrap();
        w.set_edges(at(A), &[(at(B), EdgeType::Link, 7), (at(C), EdgeType::Link, 7)]);
    });
    g.fold();
    // The stub B links to C, which A links to as well, and is then let go.
    g.write(|w, _| w.set_edges(at(B), &[(at(C), EdgeType::Link, 9)]));
    g.write(|w, _| w.set_edges(at(A), &[(at(C), EdgeType::Link, 7)]));
    g.fold();
    let count = |g: &Graph| collect_models(&g.snapshot()).len();
    assert_eq!(count(&g), 2);
    let payload = |g: &Graph| g.base[128..g.base.len() - 8].to_vec();
    let first = payload(&g);
    g.fold();
    assert_eq!(payload(&g), first);
    // Where only a stub that is let go links to something, that goes next.
    g.write(|w, _| w.set_edges(at(C), &[(at(d), EdgeType::Link, 9)]));
    g.write(|w, _| w.set_edges(at(A), &[]));
    g.fold();
    assert_eq!(g.dir.header.node_count, 2);
    assert_eq!(count(&g), 1);
}

#[test]
fn overlay_keys_come_in_the_order_of_their_first_op() {
    let ops = vec![
        (1, Op::SetPinned { key: at(B), pinned: true }),
        (2, Op::Remove { key: at(A) }),
        (3, Op::SetPinned { key: at(B), pinned: false }),
    ];
    assert_eq!(*OverlayView::build(&ops).keys(), vec![at(B).0, at(A).0]);
}

#[test]
fn a_file_with_a_fixed_byte_changed_is_refused() {
    let base = render_empty_base(1);
    assert!(validate(&base).is_ok());
    let end = base.len() - 8;
    let fixed = (0..6).chain(8..32).chain(48..56).chain(64..128).chain(end..base.len());
    for i in fixed {
        let mut other = base.clone();
        other[i] ^= 1;
        assert!(message(validate(&other).unwrap_err()).starts_with("format: "), "byte {i}");
    }
    for cut in 0..base.len() {
        assert!(message(validate(&base[..cut]).unwrap_err()).starts_with("format: "));
    }
}

#[test]
fn confidence_is_cut_at_one_half() {
    assert!(confident(0.5f32.to_bits()));
    assert!(confident(1.0f32.to_bits()));
    assert!(!confident(0.499f32.to_bits()));
    assert!(!confident(0.0f32.to_bits()));
    assert!(!confident(f32::NAN.to_bits()));
    assert!(!confident((-0.75f32).to_bits()));
}

#[test]
fn enrichment_is_scaled_and_stamped() {
    let mut g = Graph::new();
    g.write(|w, _| w.upsert_node(&record(A, 1)).unwrap());
    g.write(|w, _| {
        let related = [(at(B), 100, 0.9f32.to_bits()), (at(C), 100, 0.1f32.to_bits())];
        w.apply_enrichment(at(A), &[], &related).unwrap();
    });
    let snap = g.snapshot();
    let out = snap.neighbors(at(A)).collect();
    assert_eq!(out.len(), 1);
    assert_eq!(out[0].dst_key, at(B));
    assert!(out[0].is_enrichment() && out[0].is_inferred());
}

// ---- defaults -------------------------------------------------------------

#[test]
fn the_default_configuration() {
    let c = Config::default();
    assert_eq!(c.durability, Durability::Always);
    assert_eq!(c.compact_after_ops, 4096);
    assert_eq!(c.compact_after_wal_bytes, 4 << 20);
    assert_eq!(TokenBudget::default(), TokenBudget(2000));
}

#[test]
fn a_single_node_renders_its_own_row() {
    let mut g = Graph::new();
    g.write(|w, _| {
        w.upsert_node(&record(A, 1)).unwrap();
        w.upsert_node(&record(B, 1)).unwrap();
        w.set_edges(at(A), &[(at(B), EdgeType::Link, 65_535)]);
    });
    let snap = g.snapshot();
    let models = collect_models(&snap);
    let rows = edge_rows(&models);
    let a = models.iter().position(|m| m.url == A).unwrap();
    let b = models.iter().position(|m| m.url == B).unwrap();
    assert_eq!(rows[a], vec![(b as u32, 0, 0, 65_535)]);
    assert!(rows[b].is_empty());
}

#[test]
fn an_identical_page_keeps_its_interval() {
    let mut g = Graph::new();
    g.write(|w, _| w.upsert_node(&record(A, 1)).unwrap());
    let t = Touch {
        checked_at_ms: 5_000,
        outcome: Outcome::Unchanged,
        content_hash: None,
        etag: None,
    };
    assert!(g.write(|w, _| w.touch(at(A), t)).unwrap());
    g.fold();
    assert_eq!(g.snapshot().node(at(A)).unwrap().interval_s, 32_400);
    g.write(|w, _| w.upsert_node(&record(A, 1)).unwrap());
    assert_eq!(g.snapshot().node(at(A)).unwrap().interval_s, 32_400);
    assert_eq!(g.snapshot().node(at(A)).unwrap().checks, 1);
    g.write(|w, _| w.upsert_node(&record(A, 2)).unwrap());
    assert_eq!(g.snapshot().node(at(A)).unwrap().interval_s, 21_600);
    assert_eq!(g.snapshot().node(at(A)).unwrap().checks, 1);
}

#[test]
fn an_identical_page_keeps_an_interval_that_was_not_compacted_yet() {
    let mut g = Graph::new();
    g.write(|w, _| w.upsert_node(&record(A, 1)).unwrap());
    let t = Touch {
        checked_at_ms: 5_000,
        outcome: Outcome::Unchanged,
        content_hash: None,
        etag: None,
    };
    assert!(g.write(|w, _| w.touch(at(A), t)).unwrap());
    g.write(|w, _| w.upsert_node(&record(A, 1)).unwrap());
    g.write(|w, _| w.upsert_node(&record(A, 1)).unwrap());
    assert_eq!(g.snapshot().node(at(A)).unwrap().interval_s, 32_400);
    assert_eq!(g.snapshot().node(at(A)).unwrap().checks, 1);
    g.fold();
    assert_eq!(g.snapshot().node(at(A)).unwrap().interval_s, 32_400);
    // The same over a base record.
    assert!(g.write(|w, _| w.touch(at(A), t)).unwrap());
    g.write(|w, _| w.upsert_node(&record(A, 1)).unwrap());
    assert_eq!(g.snapshot().node(at(A)).unwrap().interval_s, 48_600);
    g.write(|w, _| w.upsert_node(&record(A, 2)).unwrap());
    assert_eq!(g.snapshot().node(at(A)).unwrap().interval_s, 21_600);
    // Content that comes back after other content has nothing but what the base
    // record learned of it.
    g.write(|w, _| w.upsert_node(&record(A, 1)).unwrap());
    assert_eq!(g.snapshot().node(at(A)).unwrap().interval_s, 32_400);
}

#[test]
fn an_interval_falls_with_the_content_it_was_learned_of() {
    let mut g = Graph::new();
    g.write(|w, _| w.upsert_node(&record(A, 11)).unwrap());
    let t = Touch {
        checked_at_ms: 5_000,
        outcome: Outcome::Unchanged,
        content_hash: None,
        etag: None,
    };
    assert!(g.write(|w, _| w.touch(at(A), t)).unwrap());
    assert_eq!(g.snapshot().node(at(A)).unwrap().interval_s, 32_400);
    g.write(|w, _| w.upsert_node(&record(A, 22)).unwrap());
    assert_eq!(g.snapshot().node(at(A)).unwrap().interval_s, 21_600);
    g.write(|w, _| w.upsert_node(&record(A, 11)).unwrap());
    assert_eq!(g.snapshot().node(at(A)).unwrap().interval_s, 21_600);
}
