//! The codec, the formats, the overlay, keys, freshness, tokens and metrics,
//! each by itself.
use graph_r::bridge::keyword_hits;
use graph_r::bytesio::{
    align_up, put_str, put_u16, put_u32, put_u64, put_u8, put_varint, Reader,
};
use graph_r::format::base::records::{write_node_rec, NodeFields};
use graph_r::format::base::{
    decode_postings, eflags, encode_postings, find_node, validate, BaseDir, BaseWriter, Header,
    NO_LABEL,
};
use graph_r::format::wal::{encode_frame, encode_header, replay, Op, OwnedSeg, HEADER_LEN};
use graph_r::matching::dedup_terms;
use graph_r::overlay::{locate, Arena, OverlayView};
use graph_r::query::{estimate_tokens, Anchor};
use graph_r::rank::{percentile_permille, Ballot, Propagation};
use graph_r::render::EdgeRow;
use graph_r::tokens::tokens;
use graph_r::enrich::confident_edges;
use graph_r::{EdgeType, Error, Outcome, SegKey, TtlConfig, UrlKey};
use std::collections::HashMap;

// ---- bytes ----------------------------------------------------------------

#[test]
fn round_trips_all_widths() {
    let mut out = Vec::new();
    put_u8(&mut out, 7);
    put_u16(&mut out, 300);
    put_u32(&mut out, 70_000);
    put_u64(&mut out, u64::MAX - 1);
    put_str(&mut out, "héllo");
    put_varint(&mut out, 0);
    put_varint(&mut out, 127);
    put_varint(&mut out, 128);
    put_varint(&mut out, u64::MAX);

    let mut r = Reader::new(&out);
    assert_eq!(r.u8().unwrap(), 7);
    assert_eq!(r.u16().unwrap(), 300);
    assert_eq!(r.u32().unwrap(), 70_000);
    assert_eq!(r.u64().unwrap(), u64::MAX - 1);
    assert_eq!(r.str().unwrap(), "héllo");
    assert_eq!(r.varint().unwrap(), 0);
    assert_eq!(r.varint().unwrap(), 127);
    assert_eq!(r.varint().unwrap(), 128);
    assert_eq!(r.varint().unwrap(), u64::MAX);
    assert_eq!(r.remaining(), 0);
}

#[test]
fn truncation_is_an_error_never_a_panic() {
    let mut out = Vec::new();
    put_str(&mut out, "abcdef");
    for cut in 0..out.len() {
        let mut r = Reader::new(&out[..cut]);
        assert!(r.str().is_err() || cut >= out.len());
    }
    let mut r = Reader::new(&[0xff, 0xff, 0xff, 0xff, 0xff, 0xff, 0xff, 0xff, 0xff, 0xff]);
    assert!(r.varint().is_err(), "overlong varint rejected");
}

#[test]
fn invalid_utf8_is_a_format_error() {
    let mut out = Vec::new();
    put_u16(&mut out, 2);
    out.extend_from_slice(&[0xff, 0xfe]);
    assert!(Reader::new(&out).str().is_err());
}

#[test]
fn align_up_works() {
    assert_eq!(align_up(0, 64), 0);
    assert_eq!(align_up(1, 64), 64);
    assert_eq!(align_up(64, 64), 64);
    assert_eq!(align_up(65, 64), 128);
}

// ---- base files -----------------------------------------------------------

fn empty_header() -> Header {
    Header {
        flags: 0,
        section_count: 0,
        node_count: 0,
        seg_count: 0,
        edge_count: 0,
        token_count: 0,
        generation: 1,
        wal_applied_seq: 0,
        total_len: 0,
        created_at_ms: 0,
    }
}

#[test]
fn empty_file_round_trips() {
    let bytes = BaseWriter::new(empty_header()).finish();
    let dir = BaseDir::parse(&bytes).unwrap();
    assert_eq!(dir.header.generation, 1);
    assert_eq!(dir.header.section_count, 0);
}

#[test]
fn flipped_byte_anywhere_is_rejected() {
    let bytes = BaseWriter::new(empty_header()).finish();
    for i in 0..bytes.len() {
        let mut bad = bytes.clone();
        bad[i] ^= 0x01;
        assert!(BaseDir::parse(&bad).is_err(), "flip at {i} accepted");
    }
}

#[test]
fn truncation_at_every_landmark_is_rejected() {
    let bytes = BaseWriter::new(empty_header()).finish();
    for cut in 0..bytes.len() {
        assert!(BaseDir::parse(&bytes[..cut]).is_err());
    }
}

#[test]
fn postings_round_trip_and_reject_overflow() {
    let ids = vec![0, 1, 5, 6, 1000, 70_000];
    let mut enc = Vec::new();
    encode_postings(&ids, &mut enc);
    assert_eq!(decode_postings(&enc).unwrap(), ids);
    assert!(decode_postings(&[0xff; 12]).is_err());
    // A second delta of u64::MAX must error, not overflow the accumulator.
    let mut hostile = Vec::new();
    put_varint(&mut hostile, 1);
    put_varint(&mut hostile, u64::MAX);
    assert!(decode_postings(&hostile).is_err());
}

#[test]
fn node_binary_search_finds_all() {
    let mut nodes = Vec::new();
    for k in [3u64, 9, 12, 400, 500] {
        write_node_rec(
            &mut nodes,
            NodeFields {
                url_key: k,
                content_hash: 0,
                fetched_at_ms: 0,
                last_change_ms: 0,
                url_off: NO_LABEL,
                title_off: NO_LABEL,
                snippet_off: NO_LABEL,
                etag_off: NO_LABEL,
                seg_start: 0,
                seg_count: 0,
                flags: 0,
                interval_s: 0,
                checks: 0,
                changes: 0,
                in_degree: 0,
            },
        );
    }
    for k in [3u64, 9, 12, 400, 500] {
        assert!(find_node(&nodes, UrlKey(k)).is_some());
    }
    assert!(find_node(&nodes, UrlKey(10)).is_none());
    assert!(find_node(&nodes, UrlKey(0)).is_none());
    assert!(find_node(&nodes, UrlKey(501)).is_none());
}

#[test]
fn arbitrary_bytes_as_a_base_file_never_panic() {
    for bytes in [Vec::new(), vec![0u8; 128], vec![0xffu8; 4096], b"GRPR".to_vec(), {
        let mut v = b"GRPR".to_vec();
        v.extend_from_slice(&u32::MAX.to_le_bytes());
        v.resize(1024, 0xab);
        v
    }] {
        // Must return, either way: the assertion is that it does not unwind.
        let _ = validate(&bytes);
    }
}

#[test]
fn hostile_postings_error_instead_of_over_allocating() {
    // A continuation-byte run with no terminator.
    assert!(decode_postings(&[0xff; 64]).is_err());

    // A second delta of u64::MAX must not wrap the accumulator.
    let mut hostile = Vec::new();
    put_varint(&mut hostile, 1);
    put_varint(&mut hostile, u64::MAX);
    assert!(decode_postings(&hostile).is_err());
}

#[test]
fn a_hostile_postings_delta_cannot_wrap_the_accumulator() {
    let mut hostile = Vec::new();
    graph_r::bytesio::put_varint(&mut hostile, 1);
    graph_r::bytesio::put_varint(&mut hostile, u64::MAX);
    assert!(graph_r::format::base::decode_postings(&hostile).is_err());
}

// ---- logs -----------------------------------------------------------------

fn sample_ops() -> Vec<Op> {
    vec![
        Op::UpsertNode {
            key: UrlKey(9),
            content_hash: 1,
            fetched_at_ms: 2,
            flags: 0,
            url: "https://x.dev/a".to_string(),
            title: Some("A".to_string()),
            snippet: None,
            etag: Some("\"v1\"".to_string()),
        },
        Op::SetSegments {
            key: UrlKey(9),
            segs: vec![OwnedSeg {
                label: "Install".to_string(),
                byte_start: 10,
                byte_len: 200,
                depth: 1,
                importance: 60_000,
                flags: 0,
            }],
        },
        Op::SetEdges {
            key: UrlKey(9),
            edges: vec![(UrlKey(11), 0, 0, 65_535), (UrlKey(400), 2, 3, 100)],
        },
        Op::Touch {
            key: UrlKey(9),
            checked_at_ms: 5,
            outcome: 0,
            content_hash: None,
            etag: None,
            interval_s: 3600,
            checks: 3,
            changes: 1,
            last_change_ms: 4,
            tombstone: false,
        },
        Op::Remove { key: UrlKey(11) },
        Op::SetPinned { key: UrlKey(9), pinned: true },
        Op::SetImportance { key: UrlKey(9), scores: vec![(0, 1000), (3, 65_535)] },
    ]
}

#[test]
fn ops_round_trip() {
    for op in sample_ops() {
        let mut buf = Vec::new();
        op.encode(&mut buf);
        let mut r = Reader::new(&buf);
        assert_eq!(Op::decode(&mut r).unwrap(), op);
        assert_eq!(r.remaining(), 0);
    }
}

#[test]
fn wal_replays_and_stops_at_tear() {
    let mut image = encode_header(7, 0);
    for (i, op) in sample_ops().into_iter().enumerate() {
        image.extend_from_slice(&encode_frame(i as u64 + 1, &op));
    }
    let full = replay(&image).unwrap();
    assert_eq!(full.ops.len(), 7);
    assert_eq!(full.good_len, image.len());
    assert_eq!(full.base_generation, 7);

    // Truncate at every byte: never a panic, always a valid prefix.
    for cut in HEADER_LEN..image.len() {
        let r = replay(&image[..cut]).unwrap();
        assert!(r.ops.len() <= 7);
        assert!(r.good_len <= cut);
    }
}

#[test]
fn corrupt_frame_ends_replay_and_bad_header_errors() {
    let mut image = encode_header(1, 0);
    image.extend_from_slice(&encode_frame(1, &Op::Remove { key: UrlKey(1) }));
    let good = image.len();
    image.extend_from_slice(&encode_frame(2, &Op::Remove { key: UrlKey(2) }));
    image[good + 6] ^= 0xff; // corrupt second frame checksum region
    let r = replay(&image).unwrap();
    assert_eq!(r.ops.len(), 1);
    assert_eq!(r.good_len, good);

    let mut bad_header = encode_header(1, 0);
    bad_header[3] ^= 0xff;
    assert!(replay(&bad_header).is_err());
}

#[test]
fn sequence_regression_is_corrupt() {
    let mut image = encode_header(1, 0);
    image.extend_from_slice(&encode_frame(5, &Op::Remove { key: UrlKey(1) }));
    image.extend_from_slice(&encode_frame(4, &Op::Remove { key: UrlKey(2) }));
    assert!(matches!(replay(&image), Err(Error::Corrupt { .. })));
}

#[test]
fn wal_sequence_regression_is_corruption() {
    let mut image = encode_header(1, 0);
    image.extend_from_slice(&encode_frame(5, &Op::Remove { key: UrlKey(1) }));
    image.extend_from_slice(&encode_frame(4, &Op::Remove { key: UrlKey(2) }));
    assert!(matches!(replay(&image), Err(Error::Corrupt { .. })));
}

#[test]
fn oversized_wal_frame_length_is_not_allocated() {
    let mut image = encode_header(1, 0);
    // A frame claiming far more payload than allowed, with no payload behind it.
    image.extend_from_slice(&u32::MAX.to_le_bytes()); // len
    image.extend_from_slice(&0u64.to_le_bytes()); // checksum
    image.extend_from_slice(&1u64.to_le_bytes()); // seq
    let replayed = replay(&image).unwrap();
    assert!(replayed.ops.is_empty(), "an unbacked frame must not be replayed");
    assert_eq!(replayed.good_len, HEADER_LEN);
}

// ---- keys -----------------------------------------------------------------

#[test]
fn url_key_matches_xxh3_of_string() {
    let k = UrlKey::of("https://example.com/a");
    assert_eq!(k.raw(), xxhash_rust::xxh3::xxh3_64(b"https://example.com/a"));
}

#[test]
fn seg_key_is_stable_and_distinct() {
    let owner = UrlKey::of("https://example.com/a");
    let a = SegKey::derive(owner, "Install > Linux");
    let b = SegKey::derive(owner, "Install > Linux");
    let c = SegKey::derive(owner, "Install > macOS");
    assert_eq!(a, b);
    assert_ne!(a, c);
    assert_ne!(a, SegKey::derive(UrlKey::of("https://example.com/b"), "Install > Linux"));
}

#[test]
fn edge_type_tags_round_trip() {
    for t in [EdgeType::Link, EdgeType::Related, EdgeType::Redirect, EdgeType::Unknown(9)] {
        assert_eq!(EdgeType::from_tag(t.as_tag()), t);
    }
}

// ---- the overlay ----------------------------------------------------------

#[test]
fn locate_walks_chunk_boundaries() {
    assert_eq!(locate(0), (0, 0));
    assert_eq!(locate(63), (0, 63));
    assert_eq!(locate(64), (1, 0));
    assert_eq!(locate(191), (1, 127));
    assert_eq!(locate(192), (2, 0));
}

#[test]
fn publish_then_read_below_frontier() {
    let mut a = Arena::new();
    for i in 0..200u64 {
        assert!(a.publish(i + 1, Op::Remove { key: UrlKey(i) }));
    }
    assert_eq!(a.len(), 200);
    let seen: Vec<u64> = a.committed(200).iter().map(|(s, _)| *s).collect();
    assert_eq!(seen, (1..=200).collect::<Vec<_>>());
}

#[test]
fn view_folds_last_writer_wins_and_remove_clears() {
    let key = UrlKey(5);
    let ops = [
        (1, Op::SetPinned { key, pinned: true }),
        (2, Op::Remove { key }),
        (
            3,
            Op::UpsertNode {
                key,
                content_hash: 9,
                fetched_at_ms: 10,
                flags: 0,
                url: "https://x.dev/a".to_string(),
                title: None,
                snippet: None,
                etag: None,
            },
        ),
    ];
    let view = OverlayView::build(&ops);
    let n = view.get(5).unwrap();
    assert!(!n.removed, "upsert resurrects");
    assert!(n.pinned.is_none(), "remove cleared the earlier pin");
    assert_eq!(n.core.as_ref().unwrap().content_hash, 9);
}

// ---- freshness ------------------------------------------------------------

#[test]
fn grows_on_unchanged_until_ceiling() {
    let cfg = TtlConfig::default();
    let mut iv = cfg.base_s;
    let mut prev = 0;
    for _ in 0..64 {
        iv = cfg.next_interval(iv, Outcome::Unchanged);
        assert!(iv >= prev, "monotone growth");
        assert!(iv <= cfg.max_s);
        prev = iv;
    }
    assert_eq!(iv, cfg.max_s, "parks at the ceiling");
}

#[test]
fn changed_cuts_and_error_floors() {
    let cfg = TtlConfig::default();
    let grown = cfg.next_interval(cfg.max_s, Outcome::Unchanged);
    let cut = cfg.next_interval(grown, Outcome::Changed);
    assert!(cut < grown);
    assert!(cut >= cfg.min_s);
    assert_eq!(cfg.next_interval(grown, Outcome::Error), cfg.min_s);
    assert_eq!(cfg.next_interval(grown, Outcome::Gone), grown);
}

#[test]
fn importance_shortens_the_effective_interval() {
    let cfg = TtlConfig::default();
    let nobody = cfg.next_check_at_ms(0, 1000, 0);
    let star = cfg.next_check_at_ms(0, 1000, 1000);
    assert_eq!(nobody, 1_000_000);
    assert_eq!(star, 500_000, "top rank halves the interval at bias 500");
    assert!(cfg.next_check_at_ms(0, 1000, 500) < nobody);
}

#[test]
fn outcome_tags_round_trip() {
    for o in [Outcome::Unchanged, Outcome::Changed, Outcome::Error, Outcome::Gone] {
        assert_eq!(Outcome::from_tag(o.as_tag()), o);
    }
    assert_eq!(Outcome::from_tag(200), Outcome::Error);
}

// ---- tokens ---------------------------------------------------------------

#[test]
fn tokenizer_lowercases_and_splits() {
    let toks = tokens("Install FooBar v2.1 (Löwe)");
    assert_eq!(toks, ["install", "foobar", "v2", "1", "löwe"]);
}

#[test]
fn dedup_terms_keeps_order_and_drops_singles() {
    let t = dedup_terms("the the auth Auth a flow");
    assert_eq!(t, ["the", "auth", "flow"]);
}

#[test]
fn token_estimate_counts_all_parts() {
    let a = Anchor { label: "Install", byte_range: None, importance: 1 };
    let with = estimate_tokens("https://x/y", Some("T"), Some("Snip"), Some(&a));
    let without = estimate_tokens("https://x/y", Some("T"), Some("Snip"), None);
    assert!(with > without);
    // 11 + 1 + 4 + 16 bytes, and 7 + 12 more for the anchor.
    assert_eq!(without, 8);
    assert_eq!(with, 13);
}

/// The importance prior of a heading: depth, position and keyword density.
fn seg_importance(depth: u8, ordinal: usize, heading: &str, keywords: &[&str]) -> u16 {
    let base = match depth {
        0 | 1 => 1.0f32,
        2 => 0.72,
        _ => 0.5,
    };
    let pos = 1.0 / (1.0 + 0.15 * ordinal as f32);
    let (toks, hits) = keyword_hits(heading, keywords);
    let kd = if toks == 0 { 0.0 } else { hits as f32 / toks as f32 };
    ((base * pos * (1.0 + kd)) * 32_767.0).clamp(1.0, 65_535.0) as u16
}

#[test]
fn seg_importance_orders_by_depth_position_and_keywords() {
    let h1 = seg_importance(1, 0, "Install", &[]);
    let h2 = seg_importance(2, 0, "Install", &[]);
    let h1_late = seg_importance(1, 5, "Install", &[]);
    let h1_kw = seg_importance(1, 0, "Install", &["install"]);
    assert!(h1 > h2, "H1 above H2");
    assert!(h1 > h1_late, "earlier beats later");
    assert!(h1_kw > h1, "keyword hit boosts");
}

// ---- structure metrics ----------------------------------------------------

/// Link rank: damping 0.85, twenty rounds, ascending node order.
fn pagerank(out_edges: &[Vec<EdgeRow>]) -> Vec<u64> {
    let n = out_edges.len();
    let link_out: Vec<usize> =
        out_edges.iter().map(|es| es.iter().filter(|(_, t, _, _)| *t == 0).count()).collect();
    let teleport = (1.0 - 0.85) / n as f64;
    let mut rank = vec![1.0 / n as f64; n];
    let mut next = vec![0.0f64; n];
    for _ in 0..20 {
        next.fill(0.0);
        let mut dangling = 0.0f64;
        for (u, es) in out_edges.iter().enumerate() {
            if link_out[u] == 0 {
                dangling += rank[u];
                continue;
            }
            let share = rank[u] / link_out[u] as f64;
            for &(dst, etype, _, _) in es {
                if etype == 0 {
                    next[dst as usize] += share;
                }
            }
        }
        let dangling_share = dangling / n as f64;
        for v in &mut next {
            *v = teleport + 0.85 * (*v + dangling_share);
        }
        std::mem::swap(&mut rank, &mut next);
    }
    rank.into_iter().map(f64::to_bits).collect()
}

fn tally(ballots: &[Ballot]) -> Vec<(u32, u64)> {
    let mut sums: HashMap<u32, f64> = HashMap::new();
    for b in ballots {
        let conf = if b.inferred { 0.6 } else { 1.0 };
        *sums.entry(b.label).or_insert(0.0) += f64::from(b.weight) / 65_535.0 * conf;
    }
    sums.into_iter().map(|(l, w)| (l, w.to_bits())).collect()
}

fn compute(n: usize, out_edges: &Vec<Vec<EdgeRow>>) -> (Vec<u16>, Vec<u32>) {
    assert_eq!(out_edges.len(), n);
    let permille = percentile_permille(out_edges, &pagerank(out_edges));
    let mut p = Propagation::start(out_edges);
    loop {
        for u in 0..p.len() {
            let votes = tally(&p.ballots(u));
            p.settle(u, &votes);
        }
        if !p.end_sweep() {
            return (permille, p.communities());
        }
    }
}

fn link(dst: u32) -> EdgeRow {
    (dst, 0, 0, 65_535)
}

#[test]
fn two_cliques_split_into_two_communities() {
    // 0-1-2 fully linked; 3-4-5 fully linked; one weak bridge 2->3.
    let edges = vec![
        vec![link(1), link(2)],
        vec![link(0), link(2)],
        vec![link(0), link(1), (3, 0, eflags::INFERRED, 100)],
        vec![link(4), link(5)],
        vec![link(3), link(5)],
        vec![link(3), link(4)],
    ];
    let (permille, comm) = compute(6, &edges);
    assert_eq!(comm[0], comm[1]);
    assert_eq!(comm[1], comm[2]);
    assert_eq!(comm[3], comm[4]);
    assert_eq!(comm[4], comm[5]);
    assert_ne!(comm[0], comm[3]);
    assert_eq!(comm[0], 0, "community id is smallest member");
    assert_eq!(comm[3], 3);
    assert_eq!(permille.len(), 6);
}

#[test]
fn pagerank_prefers_the_pointed_at() {
    // Everyone links to 0; 0 links to 1.
    let edges = vec![vec![link(1)], vec![link(0)], vec![link(0)], vec![link(0)]];
    let (permille, _) = compute(4, &edges);
    assert!(permille[0] > permille[2]);
    assert!(permille[1] > permille[2], "0 passes rank to 1");
}

#[test]
fn deterministic_across_runs() {
    let edges: Vec<Vec<EdgeRow>> =
        (0..50).map(|i| vec![link((i + 1) % 50), link((i * 7 + 3) % 50)]).collect();
    let a = compute(50, &edges);
    let b = compute(50, &edges);
    assert_eq!(a, b);
}

#[test]
fn leaf_noise_floored_to_zero() {
    // Node 2 has a single edge (degree 1), so it is floored.
    let edges = vec![vec![link(1)], vec![link(0)], vec![link(0)]];
    let (permille, _) = compute(3, &edges);
    assert_eq!(permille[2], 0);
}

// ---- enrichment -----------------------------------------------------------

#[test]
fn low_confidence_proposals_are_dropped() {
    let related = [
        (UrlKey(1), 60_000, 0.9f32.to_bits()),
        (UrlKey(2), 60_000, 0.4f32.to_bits()), // dropped
    ];
    let kept = confident_edges(&related);
    assert_eq!(kept.len(), 1);
    assert_eq!(kept[0], (UrlKey(1), EdgeType::Related, 60_000));
}
