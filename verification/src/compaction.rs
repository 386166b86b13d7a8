//! What compaction preserves: the file it renders is accepted, and reading it
//! back gives every node, edge and segment of the snapshot it was made from.
#[allow(unused_imports)]
use crate::bytesio::{
    le_bytes, lemma_le_bytes_len, lemma_le_round_trip, lemma_pow256_values, number_at, str_bytes,
};
#[allow(unused_imports)]
use crate::compact::{
    edge_model_row, edge_model_rows, edge_models, first_of_each, seg_model, seg_models, EdgeModel,
    ModelV, SegModelV,
};
#[allow(unused_imports)]
use crate::error::Fault;
#[allow(unused_imports)]
use crate::format::base::dir::{
    counts_fault, edge_dst, edge_start, find_span, law_accepted_means_sound, lex_resolves, lex_row,
    node_resolves, node_row, parsed_dir, raw, seg_fault, sound, span_bytes, tables, DirV, Tables,
};
#[allow(unused_imports)]
use crate::format::base::records::{
    label, label_fault, law_label_round_trip, law_lex_record_round_trip, law_node_record_round_trip,
    ids_ascend, law_postings_round_trip, postings_bytes,
    law_seg_record_round_trip, lex_bytes, node_bytes, node_fields, postings, rec_at, seg_fields,
    seg_rec_bytes, SegFields,
};
#[allow(unused_imports)]
use crate::format::base::writer::{
    header_for, law_sections_fix_the_file, law_written_base_parses, layout,
};
#[allow(unused_imports)]
use crate::format::base::{nflags, sflags, SectionKind, HEADER_LEN, NO_LABEL};
#[allow(unused_imports)]
use crate::format::wal::{fits, opt_fits, OpV};
#[allow(unused_imports)]
use crate::format::TRAILER_LEN;
#[allow(unused_imports)]
use crate::lexicon::{
    ids_up, law_every_token_is_indexed, law_lexicon_is_ordered, lexicon, mentions, model_tokens,
    token_hash, LexV,
};
#[allow(unused_imports)]
use crate::matching::{lemma_level_bound, Tier};
#[allow(unused_imports)]
use crate::model::{
    is_stub, lemma_find, lemma_found, lemma_label_fits, lemma_node_fits, lemma_node_key,
    lemma_patch_fits, or_blank, scored, AnchorV, EdgeV, GraphV, NodeV,
};
#[allow(unused_imports)]
use crate::order::{
    arranged, lemma_arranged_from, lemma_listing, lemma_same_rows, listing, lists, row_le, Row,
};
#[allow(unused_imports)]
use crate::overlay::{beyond, patch_of};
#[allow(unused_imports)]
use crate::path::links;
#[allow(unused_imports)]
use crate::render::{
    after_etag, after_segs, after_snippet, after_title, after_url, all_texts, base_header, cat,
    edge_rec, edges_table, edges_to, edges_up, has_key, heap, ids32, index_parts, index_table,
    lemma_edges_grow, lemma_file_len_bound, lemma_heap_push, lemma_id_of, lemma_postings_grow,
    lemma_segs_grow, lemma_table_lens, lex_record, lex_renderable, lex_table, model_fits,
    node_record, nodes_table, place, postings_to, push_opt, rank_rec, ranks_table, renderable,
    rendered, row_edges, row_segs, sections, seg_record, segs_table, segs_to, texts, url_text,
    section_if, within_limits, EdgeRow,
};
#[allow(unused_imports)]
use crate::snapshot::all_storable;
#[allow(unused_imports)]
use crate::ttl::TtlConfig;
use vstd::prelude::*;

verus! {

// ---- sections by kind -----------------------------------------------------

/// The bytes of the first section of `kind`, from the `i`-th on.
spec fn lookup(secs: Seq<(u16, Seq<u8>)>, kind: u16, i: int) -> Option<Seq<u8>>
    decreases secs.len() - i,
{
    if i >= secs.len() {
        None
    } else if secs[i].0 == kind {
        Some(secs[i].1)
    } else {
        lookup(secs, kind, i + 1)
    }
}

proof fn lemma_find_is_lookup(file: Seq<u8>, secs: Seq<(u16, Seq<u8>)>, kind: u16, i: int)
    requires
        0 <= i,
        forall|k: int|
            0 <= k < secs.len() ==> span_bytes(file, #[trigger] layout(secs)[k]) == secs[k].1,
    ensures
        lookup(secs, kind, i) == (match find_span(layout(secs), kind, i) {
            Some(k) => Some(span_bytes(file, layout(secs)[k])),
            None => None,
        }),
    decreases secs.len() - i,
{
    if i < secs.len() {
        assert(layout(secs)[i].kind == secs[i].0);
        if secs[i].0 != kind {
            lemma_find_is_lookup(file, secs, kind, i + 1);
        }
    }
}

proof fn lemma_lookup_join(a: Seq<(u16, Seq<u8>)>, b: Seq<(u16, Seq<u8>)>, kind: u16, i: int)
    requires
        0 <= i <= a.len(),
    ensures
        lookup(a + b, kind, i) == (if lookup(a, kind, i) is Some {
            lookup(a, kind, i)
        } else {
            lookup(b, kind, 0)
        }),
    decreases a.len() - i,
{
    if i < a.len() {
        lemma_lookup_join(a, b, kind, i + 1);
    } else {
        lemma_lookup_shift(a, b, kind, 0);
    }
}

proof fn lemma_lookup_shift(a: Seq<(u16, Seq<u8>)>, b: Seq<(u16, Seq<u8>)>, kind: u16, j: int)
    requires
        0 <= j,
    ensures
        lookup(a + b, kind, a.len() + j) == lookup(b, kind, j),
    decreases b.len() - j,
{
    if j < b.len() {
        lemma_lookup_shift(a, b, kind, j + 1);
    }
}

proof fn lemma_lookup_when(present: bool, k: SectionKind, bytes: Seq<u8>, kind: u16)
    ensures
        lookup(section_if(present, k, bytes), kind, 0) == (if present && k.code() == kind {
            Some(bytes)
        } else {
            None
        }),
{
    reveal_with_fuel(lookup, 2);
}

/// The sections of a rendered generation.
pub open spec fn rendered_tables(
    rows: Seq<ModelV>,
    lex: Seq<LexV>,
    ranks: Seq<(u16, u32)>,
) -> Tables {
    let n = rows.len() as int;
    let some = n > 0;
    Tables {
        nodes: if some {
            Some(nodes_table(rows))
        } else {
            None
        },
        segs: if some && segs_to(rows, n).len() > 0 {
            Some(segs_table(rows))
        } else {
            None
        },
        edge_index: if some {
            Some(index_table(rows))
        } else {
            None
        },
        edges: if some && edges_to(rows, n).len() > 0 {
            Some(edges_table(rows))
        } else {
            None
        },
        labels: if some {
            Some(heap(all_texts(rows, lex, lex.len() as int)))
        } else {
            None
        },
        lexicon: if some && lex.len() > 0 {
            Some(lex_table(rows, lex))
        } else {
            None
        },
        postings: if some && lex.len() > 0 {
            Some(postings_to(lex, lex.len() as int))
        } else {
            None
        },
        ranks: if some {
            Some(ranks_table(ranks))
        } else {
            None
        },
    }
}

proof fn lemma_lookup_sections(
    rows: Seq<ModelV>,
    lex: Seq<LexV>,
    ranks: Seq<(u16, u32)>,
    kind: u16,
)
    ensures
        ({
            let t = rendered_tables(rows, lex, ranks);
            let secs = sections(rows, lex, ranks);
            lookup(secs, kind, 0) == (if kind == 1 {
                t.nodes
            } else if kind == 2 {
                t.segs
            } else if kind == 3 {
                t.edge_index
            } else if kind == 4 {
                t.edges
            } else if kind == 5 {
                t.labels
            } else if kind == 6 {
                t.lexicon
            } else if kind == 7 {
                t.postings
            } else if kind == 8 {
                t.ranks
            } else {
                None
            })
        }),
{
    let n = rows.len() as int;
    let some = n > 0;
    let ps = some && segs_to(rows, n).len() > 0;
    let pe = some && edges_to(rows, n).len() > 0;
    let pl = some && lex.len() > 0;
    let labels = heap(all_texts(rows, lex, lex.len() as int));
    let posts = postings_to(lex, lex.len() as int);
    let a = section_if(some, SectionKind::Nodes, nodes_table(rows));
    let b = section_if(ps, SectionKind::Segs, segs_table(rows));
    let c = section_if(some, SectionKind::EdgeIndex, index_table(rows));
    let d = section_if(pe, SectionKind::Edges, edges_table(rows));
    let e = section_if(some, SectionKind::Labels, labels);
    let f = section_if(pl, SectionKind::Lexicon, lex_table(rows, lex));
    let g = section_if(pl, SectionKind::Postings, posts);
    let h = section_if(some, SectionKind::Ranks, ranks_table(ranks));
    lemma_lookup_when(some, SectionKind::Nodes, nodes_table(rows), kind);
    lemma_lookup_when(ps, SectionKind::Segs, segs_table(rows), kind);
    lemma_lookup_when(some, SectionKind::EdgeIndex, index_table(rows), kind);
    lemma_lookup_when(pe, SectionKind::Edges, edges_table(rows), kind);
    lemma_lookup_when(some, SectionKind::Labels, labels, kind);
    lemma_lookup_when(pl, SectionKind::Lexicon, lex_table(rows, lex), kind);
    lemma_lookup_when(pl, SectionKind::Postings, posts, kind);
    lemma_lookup_when(some, SectionKind::Ranks, ranks_table(ranks), kind);
    lemma_lookup_join(a, b, kind, 0);
    lemma_lookup_join(a + b, c, kind, 0);
    lemma_lookup_join(a + b + c, d, kind, 0);
    lemma_lookup_join(a + b + c + d, e, kind, 0);
    lemma_lookup_join(a + b + c + d + e, f, kind, 0);
    lemma_lookup_join(a + b + c + d + e + f, g, kind, 0);
    lemma_lookup_join(a + b + c + d + e + f + g, h, kind, 0);
}

// ---- records of fixed width -----------------------------------------------

proof fn lemma_cat_at(parts: Seq<Seq<u8>>, w: int, k: int)
    requires
        0 <= k < parts.len(),
        0 < w,
        forall|i: int| 0 <= i < parts.len() ==> (#[trigger] parts[i]).len() == w,
    ensures
        rec_at(cat(parts), w, k) == parts[k],
        cat(parts).len() == parts.len() * w,
    decreases parts.len(),
{
    let pre = parts.drop_last();
    let all = cat(parts);
    assert forall|i: int| 0 <= i < pre.len() implies (#[trigger] pre[i]).len() == w by {
        assert(pre[i] == parts[i]);
    }
    assert(parts[parts.len() - 1].len() == w);
    assert((parts.len() - 1) * w + w == parts.len() * w) by (nonlinear_arith);
    assert(k * w >= 0) by (nonlinear_arith)
        requires
            k >= 0,
            w > 0,
    ;
    if k < pre.len() {
        lemma_cat_at(pre, w, k);
        assert(k * w + w <= pre.len() * w) by (nonlinear_arith)
            requires
                0 <= k < pre.len(),
                w > 0,
        ;
        assert(rec_at(all, w, k) =~= rec_at(cat(pre), w, k));
    } else {
        if pre.len() > 0 {
            lemma_cat_at(pre, w, 0);
        }
        assert(cat(pre).len() == pre.len() * w);
        assert(rec_at(all, w, k) =~= parts[k]);
    }
}

pub(crate) proof fn lemma_read_node(rows: Seq<ModelV>, i: int)
    requires
        0 <= i < rows.len(),
    ensures
        node_fields(rec_at(nodes_table(rows), 72, i)) == node_record(rows, i),
{
    let parts = Seq::new(rows.len(), |k: int| node_bytes(node_record(rows, k)));
    assert forall|k: int| 0 <= k < parts.len() implies (#[trigger] parts[k]).len() == 72 by {
        law_node_record_round_trip(node_record(rows, k));
    }
    lemma_cat_at(parts, 72, i);
    law_node_record_round_trip(node_record(rows, i));
}

proof fn lemma_read_seg(rows: Seq<ModelV>, k: int)
    requires
        0 <= k < segs_to(rows, rows.len() as int).len(),
    ensures
        seg_fields(rec_at(segs_table(rows), 24, k)) == segs_to(rows, rows.len() as int)[k],
{
    let fs = segs_to(rows, rows.len() as int);
    let parts = fs.map_values(|f: SegFields| seg_rec_bytes(f));
    assert forall|j: int| 0 <= j < parts.len() implies (#[trigger] parts[j]).len() == 24 by {
        law_seg_record_round_trip(fs[j]);
    }
    lemma_cat_at(parts, 24, k);
    law_seg_record_round_trip(fs[k]);
}

proof fn lemma_read_index(rows: Seq<ModelV>, i: int)
    requires
        0 <= i <= rows.len(),
        edges_to(rows, rows.len() as int).len() <= u32::MAX,
    ensures
        number_at(index_table(rows), i * 4, 4) == edges_to(rows, i).len(),
{
    let parts = index_parts(rows, rows.len() + 1);
    assert forall|k: int| 0 <= k < parts.len() implies (#[trigger] parts[k]).len() == 4 by {
        lemma_le_bytes_len(edges_to(rows, k).len(), 4);
    }
    lemma_cat_at(parts, 4, i);
    lemma_edges_grow(rows, i, rows.len() as int);
    lemma_pow256_values();
    lemma_le_round_trip(edges_to(rows, i).len(), 4);
}

proof fn lemma_read_edge(rows: Seq<ModelV>, k: int)
    requires
        0 <= k < edges_to(rows, rows.len() as int).len(),
    ensures
        ({
            let e = edges_to(rows, rows.len() as int)[k];
            let t = edges_table(rows);
            &&& number_at(t, k * 8, 4) == e.0
            &&& t[k * 8 + 4] == e.1
            &&& t[k * 8 + 5] == e.2
            &&& number_at(t, k * 8 + 6, 2) == e.3
        }),
{
    let es = edges_to(rows, rows.len() as int);
    let e = es[k];
    let parts = es.map_values(|e: EdgeRow| edge_rec(e));
    assert forall|j: int| 0 <= j < parts.len() implies (#[trigger] parts[j]).len() == 8 by {
        lemma_le_bytes_len(es[j].0 as nat, 4);
        lemma_le_bytes_len(es[j].3 as nat, 2);
    }
    lemma_cat_at(parts, 8, k);
    let t = edges_table(rows);
    let rec = edge_rec(e);
    assert(rec_at(t, 8, k) == rec);
    lemma_pow256_values();
    lemma_le_bytes_len(e.0 as nat, 4);
    lemma_le_bytes_len(e.3 as nat, 2);
    lemma_le_round_trip(e.0 as nat, 4);
    lemma_le_round_trip(e.3 as nat, 2);
    assert(t.subrange(k * 8, k * 8 + 4) =~= rec.subrange(0, 4));
    assert(rec.subrange(0, 4) =~= le_bytes(e.0 as nat, 4));
    assert(t.subrange(k * 8 + 6, k * 8 + 8) =~= rec.subrange(6, 8));
    assert(rec.subrange(6, 8) =~= le_bytes(e.3 as nat, 2));
    assert(rec[4] == e.1);
    assert(rec[5] == e.2);
    assert(t[k * 8 + 4] == rec_at(t, 8, k)[4]);
    assert(t[k * 8 + 5] == rec_at(t, 8, k)[5]);
}

pub(crate) proof fn lemma_read_lex(rows: Seq<ModelV>, lex: Seq<LexV>, i: int)
    requires
        0 <= i < lex.len(),
    ensures
        crate::format::base::records::lex_fields(rec_at(lex_table(rows, lex), 24, i)) == lex_record(
            rows,
            lex,
            i,
        ),
{
    let parts = Seq::new(lex.len(), |k: int| lex_bytes(lex_record(rows, lex, k)));
    assert forall|k: int| 0 <= k < parts.len() implies (#[trigger] parts[k]).len() == 24 by {
        law_lex_record_round_trip(lex_record(rows, lex, k));
    }
    lemma_cat_at(parts, 24, i);
    law_lex_record_round_trip(lex_record(rows, lex, i));
}

pub(crate) proof fn lemma_read_rank(ranks: Seq<(u16, u32)>, i: int)
    requires
        0 <= i < ranks.len(),
    ensures
        number_at(ranks_table(ranks), i * 8, 2) == ranks[i].0,
        number_at(ranks_table(ranks), i * 8 + 4, 4) == ranks[i].1,
{
    let parts = ranks.map_values(|r: (u16, u32)| rank_rec(r));
    assert forall|j: int| 0 <= j < parts.len() implies (#[trigger] parts[j]).len() == 8 by {
        lemma_le_bytes_len(ranks[j].0 as nat, 2);
        lemma_le_bytes_len(0, 2);
        lemma_le_bytes_len(ranks[j].1 as nat, 4);
    }
    lemma_cat_at(parts, 8, i);
    let t = ranks_table(ranks);
    let r = ranks[i];
    let rec = rank_rec(r);
    assert(rec_at(t, 8, i) == rec);
    lemma_pow256_values();
    lemma_le_bytes_len(0, 2);
    lemma_le_round_trip(r.0 as nat, 2);
    lemma_le_round_trip(r.1 as nat, 4);
    assert(t.subrange(i * 8, i * 8 + 2) =~= rec.subrange(0, 2));
    assert(rec.subrange(0, 2) =~= le_bytes(r.0 as nat, 2));
    assert(t.subrange(i * 8 + 4, i * 8 + 8) =~= rec.subrange(4, 8));
    assert(rec.subrange(4, 8) =~= le_bytes(r.1 as nat, 4));
}

// ---- labels ---------------------------------------------------------------

proof fn lemma_heap_prefix(a: Seq<Seq<char>>, b: Seq<Seq<char>>)
    requires
        a.is_prefix_of(b),
    ensures
        heap(a).is_prefix_of(heap(b)),
    decreases b.len(),
{
    if a.len() == b.len() {
        assert(a =~= b);
        assert(heap(a) =~= heap(a).take(heap(a).len() as int));
    } else {
        let pre = b.drop_last();
        assert(a =~= pre.take(a.len() as int)) by {
            assert(a =~= b.take(a.len() as int));
        }
        lemma_heap_prefix(a, pre);
        assert(b =~= pre.push(b.last()));
        lemma_heap_push(pre, b.last());
        assert(heap(a) =~= heap(b).take(heap(a).len() as int)) by {
            assert(heap(a) =~= heap(pre).take(heap(a).len() as int));
        }
    }
}

/// A label that was pushed onto `ts` on the way to `all` is read back from the
/// heap of `all`.
proof fn lemma_placed(ts: Seq<Seq<char>>, t: Seq<char>, all: Seq<Seq<char>>)
    requires
        ts.push(t).is_prefix_of(all),
        fits(t),
        heap(all).len() <= u32::MAX,
    ensures
        label_fault(heap(all), heap(ts).len() as u32) is None,
        label(heap(all), heap(ts).len() as u32) == Some(t),
        heap(ts).len() < NO_LABEL,
{
    lemma_heap_push(ts, t);
    lemma_heap_prefix(ts.push(t), all);
    lemma_le_bytes_len(vstd::utf8::encode_utf8(t).len(), 2);
    let upto = heap(ts.push(t));
    let rest = heap(all).skip(upto.len() as int);
    assert(heap(all) =~= heap(ts) + str_bytes(t) + rest) by {
        assert(upto =~= heap(all).take(upto.len() as int));
    }
    law_label_round_trip(heap(ts), t, rest);
}

proof fn lemma_place(ts: Seq<Seq<char>>, s: Option<Seq<char>>, all: Seq<Seq<char>>)
    requires
        push_opt(ts, s).is_prefix_of(all),
        opt_fits(s),
        heap(all).len() <= u32::MAX,
    ensures
        label_fault(heap(all), place(ts, s)) is None,
        label(heap(all), place(ts, s)) == s,
{
    if let Some(t) = s {
        lemma_placed(ts, t, all);
    }
}

proof fn lemma_prefix_trans(a: Seq<Seq<char>>, b: Seq<Seq<char>>, c: Seq<Seq<char>>)
    requires
        a.is_prefix_of(b),
        b.is_prefix_of(c),
    ensures
        a.is_prefix_of(c),
{
    assert(a =~= c.take(a.len() as int)) by {
        assert(a =~= b.take(a.len() as int));
        assert(b =~= c.take(b.len() as int));
    }
}

proof fn lemma_push_opt_prefix(ts: Seq<Seq<char>>, s: Option<Seq<char>>)
    ensures
        ts.is_prefix_of(push_opt(ts, s)),
{
    assert(ts =~= push_opt(ts, s).take(ts.len() as int));
}

proof fn lemma_after_segs_prefix(ts: Seq<Seq<char>>, m: ModelV, i: int, j: int)
    requires
        0 <= i <= j,
    ensures
        after_segs(ts, m, i).is_prefix_of(after_segs(ts, m, j)),
    decreases j - i,
{
    let a = after_segs(ts, m, i);
    if i < j {
        lemma_after_segs_prefix(ts, m, i, j - 1);
        let b = after_segs(ts, m, j - 1);
        let c = after_segs(ts, m, j);
        assert(b =~= c.take(b.len() as int));
        lemma_prefix_trans(a, b, c);
    } else {
        assert(a =~= a.take(a.len() as int));
    }
}

proof fn lemma_texts_prefix(rows: Seq<ModelV>, i: int, j: int)
    requires
        0 <= i <= j,
    ensures
        texts(rows, i).is_prefix_of(texts(rows, j)),
    decreases j - i,
{
    let a = texts(rows, i);
    if i < j {
        lemma_texts_prefix(rows, i, j - 1);
        let b = texts(rows, j - 1);
        lemma_row_prefix(b, rows[j - 1]);
        lemma_prefix_trans(a, b, texts(rows, j));
    } else {
        assert(a =~= a.take(a.len() as int));
    }
}

proof fn lemma_row_prefix(ts: Seq<Seq<char>>, m: ModelV)
    ensures
        ({
            let end = after_segs(ts, m, m.segs.len() as int);
            &&& ts.is_prefix_of(end)
            &&& after_url(ts, m).is_prefix_of(end)
            &&& after_title(ts, m).is_prefix_of(end)
            &&& after_snippet(ts, m).is_prefix_of(end)
            &&& after_etag(ts, m).is_prefix_of(end)
        }),
{
    let end = after_segs(ts, m, m.segs.len() as int);
    lemma_after_segs_prefix(ts, m, 0, m.segs.len() as int);
    lemma_push_opt_prefix(after_snippet(ts, m), m.etag);
    lemma_prefix_trans(after_snippet(ts, m), after_etag(ts, m), end);
    lemma_push_opt_prefix(after_title(ts, m), m.snippet);
    lemma_prefix_trans(after_title(ts, m), after_snippet(ts, m), end);
    lemma_push_opt_prefix(after_url(ts, m), m.title);
    lemma_prefix_trans(after_url(ts, m), after_title(ts, m), end);
    lemma_push_opt_prefix(ts, url_text(m));
    lemma_prefix_trans(ts, after_url(ts, m), end);
}

proof fn lemma_all_texts_prefix(rows: Seq<ModelV>, lex: Seq<LexV>, i: int, j: int)
    requires
        0 <= i <= j,
    ensures
        all_texts(rows, lex, i).is_prefix_of(all_texts(rows, lex, j)),
    decreases j - i,
{
    let a = all_texts(rows, lex, i);
    if i < j {
        lemma_all_texts_prefix(rows, lex, i, j - 1);
        let b = all_texts(rows, lex, j - 1);
        let c = all_texts(rows, lex, j);
        assert(b =~= c.take(b.len() as int));
        lemma_prefix_trans(a, b, c);
    } else {
        assert(a =~= a.take(a.len() as int));
    }
}

/// What is pushed by the end of row `i` is there at the end.
proof fn lemma_row_in_all(rows: Seq<ModelV>, lex: Seq<LexV>, i: int, ts: Seq<Seq<char>>)
    requires
        0 <= i < rows.len(),
        ts.is_prefix_of(texts(rows, i + 1)),
    ensures
        ts.is_prefix_of(all_texts(rows, lex, lex.len() as int)),
{
    lemma_texts_prefix(rows, i + 1, rows.len() as int);
    lemma_all_texts_prefix(rows, lex, 0, lex.len() as int);
    lemma_prefix_trans(ts, texts(rows, i + 1), texts(rows, rows.len() as int));
    lemma_prefix_trans(
        ts,
        texts(rows, rows.len() as int),
        all_texts(rows, lex, lex.len() as int),
    );
}

/// The four labels of row `i` are read back.
proof fn lemma_row_labels(rows: Seq<ModelV>, lex: Seq<LexV>, ranks: Seq<(u16, u32)>, i: int)
    requires
        renderable(rows),
        within_limits(rows, lex, ranks),
        0 <= i < rows.len(),
    ensures
        ({
            let all = heap(all_texts(rows, lex, lex.len() as int));
            let f = node_record(rows, i);
            let m = rows[i];
            &&& label_fault(all, f.url_off) is None
            &&& label_fault(all, f.title_off) is None
            &&& label_fault(all, f.snippet_off) is None
            &&& label_fault(all, f.etag_off) is None
            &&& or_blank(label(all, f.url_off)) == m.url
            &&& label(all, f.url_off) == url_text(m)
            &&& label(all, f.title_off) == m.title
            &&& label(all, f.snippet_off) == m.snippet
            &&& label(all, f.etag_off) == m.etag
        }),
{
    let all = all_texts(rows, lex, lex.len() as int);
    let ts = texts(rows, i);
    let m = rows[i];
    assert(model_fits(rows[i]));
    lemma_row_prefix(ts, m);
    lemma_row_in_all(rows, lex, i, after_url(ts, m));
    lemma_row_in_all(rows, lex, i, after_title(ts, m));
    lemma_row_in_all(rows, lex, i, after_snippet(ts, m));
    lemma_row_in_all(rows, lex, i, after_etag(ts, m));
    lemma_place(ts, url_text(m), all);
    lemma_place(after_url(ts, m), m.title, all);
    lemma_place(after_title(ts, m), m.snippet, all);
    lemma_place(after_snippet(ts, m), m.etag, all);
    if m.url.len() == 0 {
        assert(m.url =~= Seq::empty());
    }
}

/// The label of segment `j` of row `i` is read back.
proof fn lemma_seg_label(rows: Seq<ModelV>, lex: Seq<LexV>, ranks: Seq<(u16, u32)>, i: int, j: int)
    requires
        renderable(rows),
        within_limits(rows, lex, ranks),
        0 <= i < rows.len(),
        0 <= j < rows[i].segs.len(),
    ensures
        ({
            let all = heap(all_texts(rows, lex, lex.len() as int));
            let f = seg_record(texts(rows, i), rows[i], j);
            &&& label_fault(all, f.label_off) is None
            &&& label(all, f.label_off) == Some(rows[i].segs[j].label)
        }),
{
    let all = all_texts(rows, lex, lex.len() as int);
    let ts = texts(rows, i);
    let m = rows[i];
    assert(model_fits(rows[i]));
    lemma_after_segs_prefix(ts, m, j + 1, m.segs.len() as int);
    lemma_row_in_all(rows, lex, i, after_segs(ts, m, j + 1));
    lemma_placed(after_segs(ts, m, j), m.segs[j].label, all);
}

proof fn lemma_segs_labels(rows: Seq<ModelV>, lex: Seq<LexV>, ranks: Seq<(u16, u32)>, i: int, k: int)
    requires
        renderable(rows),
        within_limits(rows, lex, ranks),
        0 <= i <= rows.len(),
        0 <= k < segs_to(rows, i).len(),
    ensures
        label_fault(
            heap(all_texts(rows, lex, lex.len() as int)),
            segs_to(rows, i)[k].label_off,
        ) is None,
    decreases i,
{
    let pre = segs_to(rows, i - 1);
    if k < pre.len() {
        lemma_segs_labels(rows, lex, ranks, i - 1, k);
    } else {
        lemma_seg_label(rows, lex, ranks, i - 1, k - pre.len());
    }
}

// ---- edges ----------------------------------------------------------------

proof fn lemma_edge_ids(rows: Seq<ModelV>, i: int, k: int)
    requires
        renderable(rows),
        rows.len() <= u32::MAX,
        0 <= i <= rows.len(),
        0 <= k < edges_to(rows, i).len(),
    ensures
        edges_to(rows, i)[k].0 < rows.len(),
    decreases i,
{
    let pre = edges_to(rows, i - 1);
    if k < pre.len() {
        lemma_edge_ids(rows, i - 1, k);
    } else {
        let j = k - pre.len();
        let dst = rows[i - 1].edges[j].0;
        assert(has_key(rows, dst));
        let x = choose|x: int| 0 <= x < rows.len() && (#[trigger] rows[x]).key == dst;
        lemma_id_of(rows, x);
    }
}

// ---- the file is accepted -------------------------------------------------

proof fn lemma_rendered_is_sound(
    rows: Seq<ModelV>,
    lex: Seq<LexV>,
    ranks: Seq<(u16, u32)>,
    generation: u64,
    applied: u64,
)
    requires
        renderable(rows),
        lex_renderable(rows, lex),
        within_limits(rows, lex, ranks),
        ranks.len() == rows.len(),
        rows.len() == 0 ==> lex.len() == 0,
    ensures
        ({
            let h = header_for(
                base_header(rows, lex, generation, applied),
                sections(rows, lex, ranks),
            );
            let t = rendered_tables(rows, lex, ranks);
            sound(h, t) && counts_fault(h, t) is None
        }),
{
    let h = header_for(base_header(rows, lex, generation, applied), sections(rows, lex, ranks));
    let t = rendered_tables(rows, lex, ranks);
    let n = rows.len() as int;
    let all = heap(all_texts(rows, lex, lex.len() as int));
    lemma_table_lens(rows, lex, ranks);
    assert(h.node_count == n);
    assert(raw(t.segs).len() == h.seg_count * 24);
    assert(raw(t.edges).len() == h.edge_count * 8);
    assert(raw(t.lexicon).len() == h.token_count * 24);
    assert forall|i: int| 0 <= i < n implies #[trigger] node_row(t, i) == node_record(
        rows,
        i,
    ) by {
        lemma_read_node(rows, i);
    }
    assert forall|i: int| 0 <= i < n implies #[trigger] node_resolves(h, t, i) by {
        lemma_row_labels(rows, lex, ranks, i);
        lemma_segs_grow(rows, i, n);
        lemma_segs_grow(rows, i + 1, n);
        assert(model_fits(rows[i]));
        assert(segs_to(rows, i + 1).len() == segs_to(rows, i).len() + rows[i].segs.len());
        assert(node_row(t, i) == node_record(rows, i));
    }
    assert forall|k: int| 0 <= k < h.seg_count implies (#[trigger] seg_fault(t, k)) is None by {
        lemma_read_seg(rows, k);
        lemma_segs_labels(rows, lex, ranks, n, k);
    }
    if n > 0 {
        assert forall|i: int| 0 <= i <= n implies #[trigger] edge_start(t, i) == edges_to(
            rows,
            i,
        ).len() by {
            lemma_read_index(rows, i);
        }
        assert forall|i: int, j: int| 0 <= i <= j <= n implies (#[trigger] edge_start(t, i)) <= (
        #[trigger] edge_start(t, j)) by {
            lemma_edges_grow(rows, i, j);
        }
        assert forall|k: int| 0 <= k < h.edge_count implies (#[trigger] edge_dst(t, k))
            < h.node_count by {
            lemma_read_edge(rows, k);
            lemma_edge_ids(rows, n, k);
        }
    }
    assert forall|i: int| 0 <= i < lex.len() implies #[trigger] lex_row(t, i) == lex_record(
        rows,
        lex,
        i,
    ) by {
        lemma_read_lex(rows, lex, i);
    }
    assert forall|i: int| 0 <= i < h.token_count implies #[trigger] lex_resolves(t, i) by {
        assert(fits(lex[i].label));
        lemma_all_texts_prefix(rows, lex, i + 1, lex.len() as int);
        lemma_placed(
            all_texts(rows, lex, i),
            lex[i].label,
            all_texts(rows, lex, lex.len() as int),
        );
        lemma_postings_grow(lex, i, lex.len() as int);
        lemma_postings_grow(lex, i + 1, lex.len() as int);
        assert(lex_row(t, i) == lex_record(rows, lex, i));
    }
    assert forall|i: int, j: int| 0 <= i < j < h.token_count implies (#[trigger] lex_row(
        t,
        i,
    )).token_hash < (#[trigger] lex_row(t, j)).token_hash by {
        assert(lex[i].hash < lex[j].hash);
    }
    assert forall|i: int, j: int| 0 <= i < j < n implies (#[trigger] node_row(t, i)).url_key < (
    #[trigger] node_row(t, j)).url_key by {
        assert(rows[i].key < rows[j].key);
    }
    law_accepted_means_sound(h, t);
}

/// The graph of a rendered generation, with nothing committed on top.
pub open spec fn rendered_graph(
    g: GraphV,
    rows: Seq<ModelV>,
    lex: Seq<LexV>,
    ranks: Seq<(u16, u32)>,
    generation: u64,
    applied: u64,
) -> GraphV {
    GraphV {
        h: header_for(base_header(rows, lex, generation, applied), sections(rows, lex, ranks)),
        t: rendered_tables(rows, lex, ranks),
        ops: Seq::empty(),
        ttl: g.ttl,
    }
}

/// A rendered file is accepted, and its sections are those that were rendered.
pub proof fn law_rendered_file_is_accepted(
    rows: Seq<ModelV>,
    lex: Seq<LexV>,
    ranks: Seq<(u16, u32)>,
    generation: u64,
    applied: u64,
)
    requires
        renderable(rows),
        lex_renderable(rows, lex),
        within_limits(rows, lex, ranks),
        ranks.len() == rows.len(),
        rows.len() == 0 ==> lex.len() == 0,
    ensures
        ({
            let file = rendered(rows, lex, ranks, generation, applied);
            let d = DirV {
                header: header_for(
                    base_header(rows, lex, generation, applied),
                    sections(rows, lex, ranks),
                ),
                spans: layout(sections(rows, lex, ranks)),
            };
            &&& parsed_dir(file) == Ok::<DirV, Fault>(d)
            &&& tables(d, file) == rendered_tables(rows, lex, ranks)
        }),
{
    let secs = sections(rows, lex, ranks);
    let h = base_header(rows, lex, generation, applied);
    let file = rendered(rows, lex, ranks, generation, applied);
    let d = DirV { header: header_for(h, secs), spans: layout(secs) };
    lemma_file_len_bound(secs, secs.len() as int);
    assert(secs.take(secs.len() as int) =~= secs);
    law_written_base_parses(h, secs);
    lemma_find_is_lookup(file, secs, 1, 0);
    lemma_find_is_lookup(file, secs, 2, 0);
    lemma_find_is_lookup(file, secs, 3, 0);
    lemma_find_is_lookup(file, secs, 4, 0);
    lemma_find_is_lookup(file, secs, 5, 0);
    lemma_find_is_lookup(file, secs, 6, 0);
    lemma_find_is_lookup(file, secs, 7, 0);
    lemma_find_is_lookup(file, secs, 8, 0);
    lemma_lookup_sections(rows, lex, ranks, 1);
    lemma_lookup_sections(rows, lex, ranks, 2);
    lemma_lookup_sections(rows, lex, ranks, 3);
    lemma_lookup_sections(rows, lex, ranks, 4);
    lemma_lookup_sections(rows, lex, ranks, 5);
    lemma_lookup_sections(rows, lex, ranks, 6);
    lemma_lookup_sections(rows, lex, ranks, 7);
    lemma_lookup_sections(rows, lex, ranks, 8);
    assert(tables(d, file) == rendered_tables(rows, lex, ranks));
    lemma_rendered_is_sound(rows, lex, ranks, generation, applied);
}

/// A store that was just created opens, and holds nothing.
pub proof fn law_created_store_is_empty(generation: u64, ttl: TtlConfig, key: u64)
    ensures
        ({
            let file = rendered(Seq::empty(), Seq::empty(), Seq::empty(), generation, 0);
            let d = parsed_dir(file)->Ok_0;
            let g = GraphV { h: d.header, t: tables(d, file), ops: Seq::empty(), ttl };
            &&& parsed_dir(file) is Ok
            &&& d.header.generation == generation
            &&& d.header.wal_applied_seq == 0
            &&& g.node(key) is None
            &&& g.edges(key) == Seq::<EdgeV>::empty()
            &&& g.segs(key) == Seq::<AnchorV>::empty()
            &&& g.base_live(g.n()) == Seq::<NodeV>::empty()
        }),
{
    let rows: Seq<ModelV> = Seq::empty();
    assert(segs_to(rows, 0) =~= Seq::empty());
    assert(edges_to(rows, 0) =~= Seq::empty());
    law_rendered_file_is_accepted(rows, Seq::empty(), Seq::empty(), generation, 0);
}

// ---- a snapshot can be rendered -------------------------------------------

/// The destinations of the edges of `keys`.
spec fn targets(g: GraphV, keys: Seq<u64>) -> Seq<u64>
    decreases keys.len(),
{
    if keys.len() == 0 {
        Seq::empty()
    } else {
        targets(g, keys.drop_last()) + g.edges(keys.last()).map_values(|e: EdgeV| e.dst_key)
    }
}

proof fn lemma_targets(g: GraphV, keys: Seq<u64>, u: u64, k: u64)
    requires
        keys.contains(u),
        links(g, u, k),
    ensures
        targets(g, keys).contains(k),
    decreases keys.len(),
{
    let pre = targets(g, keys.drop_last());
    let more = g.edges(keys.last()).map_values(|e: EdgeV| e.dst_key);
    if u == keys.last() {
        let j = choose|j: int| 0 <= j < g.edges(u).len() && (#[trigger] g.edges(u)[j]).dst_key == k;
        assert(more[j] == k);
        assert(targets(g, keys)[pre.len() + j] == k);
    } else {
        let i = choose|i: int| 0 <= i < keys.len() && keys[i] == u;
        assert(keys.drop_last()[i] == u);
        lemma_targets(g, keys.drop_last(), u, k);
        let j = choose|j: int| 0 <= j < pre.len() && pre[j] == k;
        assert(targets(g, keys)[j] == k);
    }
}

/// Every key that the base or an op names.
spec fn named(g: GraphV) -> Seq<u64> {
    Seq::new(g.n() as nat, |i: int| node_row(g.t, i).url_key) + g.ops.map_values(
        |o: OpV| o.target().0,
    )
}

proof fn lemma_patch_is_named(ops: Seq<OpV>, key: u64)
    requires
        patch_of(ops, key) is Some,
    ensures
        exists|i: int| 0 <= i < ops.len() && (#[trigger] ops[i]).target().0 == key,
    decreases ops.len(),
{
    if ops.last().target().0 == key {
        assert(ops[ops.len() - 1].target().0 == key);
    } else {
        let pre = ops.drop_last();
        lemma_patch_is_named(pre, key);
        let i = choose|i: int| 0 <= i < pre.len() && (#[trigger] pre[i]).target().0 == key;
        assert(ops[i].target().0 == key);
    }
}

proof fn lemma_node_is_named(g: GraphV, key: u64)
    requires
        g.node(key) is Some,
    ensures
        named(g).contains(key),
{
    if patch_of(g.ops, key) is Some {
        lemma_patch_is_named(g.ops, key);
        let i = choose|i: int| 0 <= i < g.ops.len() && (#[trigger] g.ops[i]).target().0 == key;
        assert(named(g)[g.n() + i] == key);
    } else {
        lemma_found(g, key);
        assert(named(g)[g.find(key)->0 as int] == key);
    }
}

/// The keys of the next generation are listed.
pub(crate) proof fn lemma_survivors_listed(g: GraphV)
    ensures
        lists(listing(g.survivors()), g.survivors()),
{
    let p = g.survivors();
    let keys = named(g) + targets(g, named(g));
    assert forall|k: u64| p(k) implies #[trigger] keys.contains(k) by {
        if g.node(k) is Some {
            lemma_node_is_named(g, k);
            let i = choose|i: int| 0 <= i < named(g).len() && named(g)[i] == k;
            assert(keys[i] == k);
        } else {
            let u = choose|u: u64| g.node(u) is Some && #[trigger] links(g, u, k);
            lemma_node_is_named(g, u);
            lemma_targets(g, named(g), u, k);
            let ts = targets(g, named(g));
            let i = choose|i: int| 0 <= i < ts.len() && ts[i] == k;
            assert(keys[named(g).len() + i] == k);
        }
    }
    crate::order::lemma_listed(keys, p);
}

proof fn lemma_scored(segs: Seq<AnchorV>, scores: Seq<(u8, u16)>)
    ensures
        scored(segs, scores).len() == segs.len(),
        forall|j: int|
            0 <= j < segs.len() ==> (#[trigger] scored(segs, scores)[j]).label == segs[j].label,
        (forall|j: int| 0 <= j < segs.len() ==> ranged(#[trigger] segs[j])) ==> forall|j: int|
            0 <= j < segs.len() ==> ranged(#[trigger] scored(segs, scores)[j]),
    decreases scores.len(),
{
    if scores.len() > 0 {
        lemma_scored(segs, scores.drop_last());
        let s = scores.last();
        let pre = scored(segs, scores.drop_last());
        if s.0 < pre.len() {
            let f = pre[s.0 as int].flags;
            assert((f | sflags::LLM_SCORED) & sflags::NO_RANGE == f & sflags::NO_RANGE)
                by (bit_vector);
        }
    }
}

/// A segment has a byte range exactly when its flags say so.
spec fn ranged(a: AnchorV) -> bool {
    a.byte_range is Some <==> a.flags & sflags::NO_RANGE == 0
}

proof fn lemma_segs(g: GraphV, key: u64)
    requires
        g.wf(),
        all_storable(g.ops),
    ensures
        g.segs(key).len() <= 0xffff,
        forall|j: int| 0 <= j < g.segs(key).len() ==> fits((#[trigger] g.segs(key)[j]).label),
        forall|j: int| 0 <= j < g.segs(key).len() ==> ranged(#[trigger] g.segs(key)[j]),
{
    lemma_patch_fits(g.ops, key);
    let plain = g.plain_segs(key);
    vstd::utf8::encode_utf8_valid_utf8(Seq::empty());
    if g.find(key) is Some {
        lemma_found(g, key);
        let i = g.find(key)->0 as int;
        let f = node_row(g.t, i);
        assert(node_resolves(g.h, g.t, i));
        assert forall|j: int| 0 <= j < f.seg_count implies fits(
            (#[trigger] g.base_segs(i as u32)[j]).label,
        ) by {
            assert(seg_fault(g.t, f.seg_start + j) is None);
            let s = seg_fields(rec_at(raw(g.t.segs), 24, f.seg_start + j));
            lemma_label_fits(raw(g.t.labels), s.label_off);
        }
    }
    assert(forall|j: int| 0 <= j < plain.len() ==> fits((#[trigger] plain[j]).label));
    assert(plain.len() <= 0xffff);
    if let Some(p) = patch_of(g.ops, key) {
        let early = beyond(p.early, g.base_list(key).len());
        lemma_scored(plain, early);
        lemma_scored(scored(plain, early), p.importance);
        assert forall|j: int| 0 <= j < plain.len() implies fits(
            (#[trigger] g.segs(key)[j]).label,
        ) by {
            assert(fits(plain[j].label));
        }
    }
}

/// A row as an edge.
spec fn as_edge(r: Row) -> EdgeModel {
    (r.0, r.1 as u8, r.2 as u8, r.3 as u16)
}

proof fn lemma_first_of_each(rows: Seq<Row>)
    requires
        forall|i: int, j: int| 0 <= i < j < rows.len() ==> rows[i].0 <= rows[j].0,
    ensures
        edges_up(first_of_each(rows)),
        rows.len() > 0 ==> first_of_each(rows).len() > 0 && first_of_each(rows).last().0
            == rows.last().0,
        forall|i: int|
            0 <= i < first_of_each(rows).len() ==> exists|j: int|
                0 <= j < rows.len() && (#[trigger] first_of_each(rows)[i]) == as_edge(
                    #[trigger] rows[j],
                ),
    decreases rows.len(),
{
    if rows.len() > 0 {
        let pre = rows.drop_last();
        let was = first_of_each(pre);
        lemma_first_of_each(pre);
        assert forall|i: int| 0 <= i < first_of_each(rows).len() implies exists|j: int|
            0 <= j < rows.len() && (#[trigger] first_of_each(rows)[i]) == as_edge(
                #[trigger] rows[j],
            ) by {
            if i < was.len() {
                let j = choose|j: int| 0 <= j < pre.len() && was[i] == as_edge(#[trigger] pre[j]);
                assert(rows[j] == pre[j]);
            } else {
                assert(first_of_each(rows)[i] == as_edge(rows[rows.len() - 1]));
            }
        }
        if pre.len() > 0 {
            assert(rows[pre.len() - 1].0 <= rows[rows.len() - 1].0);
        }
    }
}

/// The edges of a record ascend, and each is one of the edges it came from.
proof fn lemma_edge_models(es: Seq<EdgeV>)
    ensures
        edges_up(edge_models(es)),
        forall|i: int|
            0 <= i < edge_models(es).len() ==> exists|j: int|
                0 <= j < es.len() && (#[trigger] edge_models(es)[i]) == kept_edge(
                    #[trigger] es[j],
                ),
{
    let unsorted = edge_model_rows(es);
    let sorted = arranged(unsorted);
    let le = row_le();
    assert(vstd::relations::total_ordering(le));
    unsorted.lemma_sort_by_ensures(le);
    assert forall|i: int, j: int| 0 <= i < j < sorted.len() implies sorted[i].0 <= sorted[j].0 by {
        assert(le(sorted[i], sorted[j]));
    }
    lemma_first_of_each(sorted);
    assert forall|i: int| 0 <= i < edge_models(es).len() implies exists|j: int|
        0 <= j < es.len() && (#[trigger] edge_models(es)[i]) == kept_edge(#[trigger] es[j]) by {
        let x = choose|x: int|
            0 <= x < sorted.len() && edge_models(es)[i] == as_edge(#[trigger] sorted[x]);
        lemma_arranged_from(unsorted, x);
        let j = choose|j: int| 0 <= j < unsorted.len() && unsorted[j] == sorted[x];
        assert(edge_models(es)[i] == kept_edge(es[j]));
    }
}

/// What of an edge is written.
pub open spec fn kept_edge(e: EdgeV) -> EdgeModel {
    (e.dst_key, e.etype.tag(), e.flags, e.weight)
}

pub(crate) proof fn lemma_model_at(g: GraphV, key: u64)
    ensures
        g.model(key).key == key,
{
    if g.node(key) is Some {
        lemma_node_key(g, key);
    }
}

/// The records of a snapshot can be rendered, as far as the limits of the
/// format allow.
pub proof fn lemma_models_are_renderable(g: GraphV)
    requires
        g.wf(),
        all_storable(g.ops),
    ensures
        renderable(g.models()),
{
    let keys = listing(g.survivors());
    let rows = g.models();
    lemma_survivors_listed(g);
    assert forall|i: int| 0 <= i < rows.len() implies (#[trigger] rows[i]).key == keys[i] by {
        lemma_model_at(g, keys[i]);
    }
    assert forall|i: int| 0 <= i < rows.len() implies model_fits(#[trigger] rows[i]) by {
        let k = keys[i];
        lemma_node_fits(g, k);
        vstd::utf8::encode_utf8_valid_utf8(Seq::empty());
        if g.node(k) is Some {
            lemma_node_key(g, k);
            lemma_segs(g, k);
            assert forall|j: int| 0 <= j < rows[i].segs.len() implies fits(
                (#[trigger] rows[i].segs[j]).label,
            ) by {
                assert(fits(g.segs(k)[j].label));
            }
        }
    }
    assert forall|i: int| 0 <= i < rows.len() implies edges_up((#[trigger] rows[i]).edges) by {
        let k = keys[i];
        if g.node(k) is Some {
            lemma_node_key(g, k);
            lemma_edge_models(g.edges(k));
        }
    }
    assert forall|i: int, j: int|
        0 <= i < rows.len() && 0 <= j < rows[i].edges.len() implies has_key(
        rows,
        (#[trigger] rows[i].edges[j]).0,
    ) by {
        let k = keys[i];
        assert(g.node(k) is Some);
        lemma_node_key(g, k);
        lemma_edge_models(g.edges(k));
        let es = g.edges(k);
        let x = choose|x: int|
            0 <= x < es.len() && edge_models(es)[j] == kept_edge(#[trigger] es[x]);
        let dst = es[x].dst_key;
        assert(links(g, k, dst));
        assert(g.is_referenced(dst));
        assert(g.survivors()(dst));
        assert(keys.contains(dst));
        let y = choose|y: int| 0 <= y < keys.len() && keys[y] == dst;
        assert(rows[y].key == dst);
    }
}

// ---- reading a generation back --------------------------------------------

/// A record as a reader sees it.
pub open spec fn read_node(m: ModelV, id: u32, rank: u16) -> NodeV {
    NodeV {
        key: m.key,
        id: Some(id),
        url: m.url,
        title: m.title,
        snippet: m.snippet,
        etag: m.etag,
        content_hash: m.content_hash,
        fetched_at_ms: m.fetched_at_ms,
        last_change_ms: m.last_change_ms,
        interval_s: m.interval_s,
        checks: m.checks,
        changes: m.changes,
        flags: m.flags,
        rank_permille: rank,
    }
}

/// A segment record as a reader sees it.
pub open spec fn read_seg(s: SegModelV) -> AnchorV {
    AnchorV {
        key: s.key,
        label: s.label,
        byte_range: if s.flags & sflags::NO_RANGE == 0 {
            Some((s.byte_start, s.byte_len))
        } else {
            None
        },
        depth: s.depth,
        importance: s.importance,
        flags: s.flags,
    }
}

pub open spec fn read_segs(segs: Seq<SegModelV>) -> Seq<AnchorV> {
    segs.map_values(|s: SegModelV| read_seg(s))
}

/// What is written of edges.
pub open spec fn kept_edges(edges: Seq<EdgeV>) -> Seq<EdgeModel> {
    edges.map_values(|e: EdgeV| kept_edge(e))
}

proof fn lemma_segs_at(rows: Seq<ModelV>, i: int, j: int)
    requires
        0 <= i < rows.len(),
        0 <= j < rows[i].segs.len(),
    ensures
        segs_to(rows, i).len() + j < segs_to(rows, rows.len() as int).len(),
        segs_to(rows, rows.len() as int)[segs_to(rows, i).len() + j] == seg_record(
            texts(rows, i),
            rows[i],
            j,
        ),
{
    let n = rows.len() as int;
    lemma_segs_grow(rows, i + 1, n);
    assert(segs_to(rows, i + 1) =~= segs_to(rows, i) + row_segs(rows, i));
    assert(segs_to(rows, i + 1)[segs_to(rows, i).len() + j] == row_segs(rows, i)[j]);
}

proof fn lemma_edges_at(rows: Seq<ModelV>, i: int, j: int)
    requires
        0 <= i < rows.len(),
        0 <= j < rows[i].edges.len(),
    ensures
        edges_to(rows, i).len() + j < edges_to(rows, rows.len() as int).len(),
        edges_to(rows, rows.len() as int)[edges_to(rows, i).len() + j] == row_edges(rows, i)[j],
{
    let n = rows.len() as int;
    lemma_edges_grow(rows, i + 1, n);
    assert(edges_to(rows, i + 1) =~= edges_to(rows, i) + row_edges(rows, i));
    assert(edges_to(rows, i + 1)[edges_to(rows, i).len() + j] == row_edges(rows, i)[j]);
}

/// A rendered generation reads back as the records it was rendered from: the
/// node, its rank and community, its segments and its edges.
pub proof fn law_rendered_generation_reads_back(
    g: GraphV,
    rows: Seq<ModelV>,
    lex: Seq<LexV>,
    ranks: Seq<(u16, u32)>,
    generation: u64,
    applied: u64,
    i: int,
)
    requires
        renderable(rows),
        lex_renderable(rows, lex),
        within_limits(rows, lex, ranks),
        ranks.len() == rows.len(),
        0 <= i < rows.len(),
    ensures
        ({
            let g2 = rendered_graph(g, rows, lex, ranks, generation, applied);
            let m = rows[i];
            &&& g2.wf()
            &&& g2.find(m.key) == Some(i as u32)
            &&& g2.node(m.key) == Some(read_node(m, i as u32, ranks[i].0))
            &&& g2.community(i as u32) == Some(ranks[i].1)
            &&& g2.segs(m.key) == read_segs(m.segs)
            &&& kept_edges(g2.edges(m.key)) == m.edges
        }),
{
    let g2 = rendered_graph(g, rows, lex, ranks, generation, applied);
    let m = rows[i];
    let n = rows.len() as int;
    let t = g2.t;
    let all = heap(all_texts(rows, lex, lex.len() as int));
    lemma_rendered_is_sound(rows, lex, ranks, generation, applied);
    lemma_table_lens(rows, lex, ranks);
    assert(g2.n() == n);
    lemma_read_node(rows, i);
    assert(node_row(t, i) == node_record(rows, i));
    lemma_find(g2, m.key, i);
    assert(patch_of(g2.ops, m.key) is None);
    lemma_row_labels(rows, lex, ranks, i);
    lemma_read_rank(ranks, i);
    assert(g2.node(m.key) == Some(read_node(m, i as u32, ranks[i].0)));
    lemma_segs_grow(rows, i, n);
    assert(model_fits(rows[i]));
    assert(g2.segs(m.key) =~= read_segs(m.segs)) by {
        let f = node_row(t, i);
        assert(f.seg_start == segs_to(rows, i).len());
        assert(f.seg_count == m.segs.len());
        assert forall|j: int| 0 <= j < m.segs.len() implies g2.base_seg(f.seg_start + j)
            == #[trigger] read_seg(m.segs[j]) by {
            lemma_segs_at(rows, i, j);
            lemma_read_seg(rows, f.seg_start + j);
            lemma_seg_label(rows, lex, ranks, i, j);
        }
    }
    assert(kept_edges(g2.edges(m.key)) =~= m.edges) by {
        lemma_read_index(rows, i);
        lemma_read_index(rows, i + 1);
        let from = edges_to(rows, i).len() as int;
        assert(edge_start(t, i) == from);
        assert(edges_to(rows, i + 1) =~= edges_to(rows, i) + row_edges(rows, i));
        assert(edge_start(t, i + 1) == from + m.edges.len());
        assert forall|j: int| 0 <= j < m.edges.len() implies kept_edge(
            #[trigger] g2.base_edge(from + j),
        ) == m.edges[j] by {
            lemma_edges_at(rows, i, j);
            lemma_read_edge(rows, from + j);
            let dst = m.edges[j].0;
            assert(has_key(rows, m.edges[j].0));
            let x = choose|x: int| 0 <= x < rows.len() && (#[trigger] rows[x]).key == dst;
            lemma_id_of(rows, x);
            lemma_read_node(rows, x);
            assert(edge_dst(t, from + j) == x);
            assert(node_row(t, x) == node_record(rows, x));
            crate::key::law_edge_tags_round_trip(m.edges[j].1);
        }
    }
}

/// Only the rendered records are nodes.
proof fn lemma_no_other_node(
    g: GraphV,
    rows: Seq<ModelV>,
    lex: Seq<LexV>,
    ranks: Seq<(u16, u32)>,
    generation: u64,
    applied: u64,
    key: u64,
)
    requires
        rows.len() <= u32::MAX,
        !has_key(rows, key),
    ensures
        rendered_graph(g, rows, lex, ranks, generation, applied).node(key) is None,
{
    let g2 = rendered_graph(g, rows, lex, ranks, generation, applied);
    if g2.find(key) is Some {
        lemma_found(g2, key);
        let i = g2.find(key)->0 as int;
        lemma_read_node(rows, i);
        assert(rows[i].key == key);
    }
}

// ---- compaction -----------------------------------------------------------

/// The ranks are one per record, and the next generation of `g` fits its
/// format and memory.
pub open spec fn compactable(g: GraphV, ranks: Seq<(u16, u32)>) -> bool {
    let rows = g.models();
    &&& ranks.len() == rows.len()
    &&& mentions(rows, rows.len() as int).len() <= u64::MAX
    &&& within_limits(rows, lexicon(rows), ranks)
}

/// The file that compacting `g` writes.
pub open spec fn compacted_file(
    g: GraphV,
    ranks: Seq<(u16, u32)>,
    generation: u64,
    applied: u64,
) -> Seq<u8> {
    rendered(g.models(), lexicon(g.models()), ranks, generation, applied)
}

/// The graph of that file, with nothing committed on top.
pub open spec fn compacted(
    g: GraphV,
    ranks: Seq<(u16, u32)>,
    generation: u64,
    applied: u64,
) -> GraphV {
    rendered_graph(g, g.models(), lexicon(g.models()), ranks, generation, applied)
}

/// The same node but for its id and its rank, which belong to a generation.
pub open spec fn same_node(a: NodeV, b: NodeV) -> bool {
    a == NodeV { id: a.id, rank_permille: a.rank_permille, ..b }
}

pub(crate) proof fn lemma_compacted(g: GraphV, ranks: Seq<(u16, u32)>)
    requires
        g.wf(),
        all_storable(g.ops),
        compactable(g, ranks),
    ensures
        renderable(g.models()),
        lex_renderable(g.models(), lexicon(g.models())),
        g.models().len() == 0 ==> lexicon(g.models()).len() == 0,
{
    let rows = g.models();
    lemma_models_are_renderable(g);
    law_lexicon_is_ordered(rows);
    if rows.len() == 0 && lexicon(rows).len() > 0 {
        crate::lexicon::lemma_no_rows_no_tokens(rows);
    }
}

/// What compaction writes is accepted as a base file, under the generation it
/// was given, with the applied sequence number it was given.
pub proof fn law_compacted_file_is_accepted(
    g: GraphV,
    ranks: Seq<(u16, u32)>,
    generation: u64,
    applied: u64,
)
    requires
        g.wf(),
        all_storable(g.ops),
        compactable(g, ranks),
    ensures
        ({
            let file = compacted_file(g, ranks, generation, applied);
            let g2 = compacted(g, ranks, generation, applied);
            &&& parsed_dir(file) is Ok
            &&& parsed_dir(file)->Ok_0.header == g2.h
            &&& tables(parsed_dir(file)->Ok_0, file) == g2.t
            &&& g2.wf()
            &&& g2.h.generation == generation
            &&& g2.h.wal_applied_seq == applied
        }),
{
    lemma_compacted(g, ranks);
    law_rendered_file_is_accepted(g.models(), lexicon(g.models()), ranks, generation, applied);
    lemma_rendered_is_sound(g.models(), lexicon(g.models()), ranks, generation, applied);
}

/// Compaction changes no answer: every node comes back with the fields it had,
/// with its segments, and with its edges, one per destination by ascending
/// key. A target that was never ingested comes back as a stub. A stub that
/// nothing references is dropped, and no other key becomes a node.
pub proof fn law_compaction_preserves_the_graph(
    g: GraphV,
    ranks: Seq<(u16, u32)>,
    generation: u64,
    applied: u64,
    key: u64,
)
    requires
        g.wf(),
        all_storable(g.ops),
        compactable(g, ranks),
    ensures
        ({
            let g2 = compacted(g, ranks, generation, applied);
            &&& g2.node(key) is Some <==> g.survives(key)
            &&& g.survives(key) ==> match g.node(key) {
                Some(n) => {
                    &&& same_node(g2.node(key)->0, n)
                    &&& g2.segs(key) == g.segs(key)
                    &&& kept_edges(g2.edges(key)) == edge_models(g.edges(key))
                },
                None => {
                    &&& is_stub(g2.node(key)->0.flags)
                    &&& g2.segs(key).len() == 0
                    &&& g2.edges(key).len() == 0
                },
            }
        }),
{
    let g2 = compacted(g, ranks, generation, applied);
    let rows = g.models();
    let lex = lexicon(rows);
    let keys = listing(g.survivors());
    lemma_compacted(g, ranks);
    lemma_survivors_listed(g);
    assert(keys.contains(key) <==> g.survivors()(key));
    if g.survives(key) {
        let i = choose|i: int| 0 <= i < keys.len() && keys[i] == key;
        lemma_model_at(g, key);
        assert(rows[i] == g.model(key));
        law_rendered_generation_reads_back(g, rows, lex, ranks, generation, applied, i);
        match g.node(key) {
            Some(n) => {
                lemma_node_key(g, key);
                lemma_segs(g, key);
                let segs = g.segs(key);
                assert(read_segs(seg_models(segs)) =~= segs) by {
                    assert forall|j: int| 0 <= j < segs.len() implies read_seg(
                        seg_model(#[trigger] segs[j]),
                    ) == segs[j] by {
                        assert(ranged(segs[j]));
                    }
                }
            },
            None => {
                assert(nflags::STUB & nflags::STUB != 0) by (bit_vector);
                assert(kept_edges(g2.edges(key)).len() == g2.edges(key).len());
            },
        }
    } else {
        assert(!has_key(rows, key)) by {
            if has_key(rows, key) {
                let i = choose|i: int| 0 <= i < rows.len() && (#[trigger] rows[i]).key == key;
                lemma_model_at(g, keys[i]);
                assert(keys.contains(keys[i]));
            }
        }
        lemma_no_other_node(g, rows, lex, ranks, generation, applied, key);
    }
}

/// Edges that already ascend by destination are written one for one.
pub proof fn law_ascending_edges_are_kept(es: Seq<EdgeV>)
    requires
        forall|i: int, j: int| 0 <= i < j < es.len() ==> es[i].dst_key < es[j].dst_key,
    ensures
        edge_models(es) == kept_edges(es),
{
    let rows = edge_model_rows(es);
    assert(crate::order::rows_sorted(rows));
    crate::order::lemma_arranged(rows, rows);
    lemma_distinct_kept(rows, rows.len() as int);
    assert(rows.take(rows.len() as int) =~= rows);
    assert(edge_models(es) =~= kept_edges(es));
}

proof fn lemma_distinct_kept(rows: Seq<Row>, i: int)
    requires
        0 <= i <= rows.len(),
        forall|a: int, b: int| 0 <= a < b < rows.len() ==> rows[a].0 < rows[b].0,
    ensures
        first_of_each(rows.take(i)) == rows.take(i).map_values(|r: Row| as_edge(r)),
    decreases i,
{
    if i > 0 {
        lemma_distinct_kept(rows, i - 1);
        assert(rows.take(i).drop_last() =~= rows.take(i - 1));
        let pre = first_of_each(rows.take(i - 1));
        if pre.len() > 0 {
            assert(pre.last() == as_edge(rows[i - 2]));
        }
    }
    assert(first_of_each(rows.take(i)) =~= rows.take(i).map_values(|r: Row| as_edge(r)));
}

// ---- compacting again -----------------------------------------------------

/// `k` is a destination of `edges`.
pub open spec fn goes_to(edges: Seq<EdgeModel>, k: u64) -> bool {
    exists|i: int| 0 <= i < edges.len() && (#[trigger] edges[i]).0 == k
}

pub(crate) proof fn lemma_first_covers(rows: Seq<Row>, j: int)
    requires
        0 <= j < rows.len(),
    ensures
        goes_to(first_of_each(rows), rows[j].0),
    decreases rows.len(),
{
    let pre = rows.drop_last();
    let was = first_of_each(pre);
    let now = first_of_each(rows);
    if j < pre.len() {
        lemma_first_covers(pre, j);
        let i = choose|i: int| 0 <= i < was.len() && (#[trigger] was[i]).0 == pre[j].0;
        assert(now[i] == was[i]);
    } else {
        assert(now[now.len() - 1].0 == rows[j].0);
    }
}

/// A record goes wherever the edges it came from go.
pub(crate) proof fn lemma_edge_models_cover(es: Seq<EdgeV>, x: int)
    requires
        0 <= x < es.len(),
    ensures
        goes_to(edge_models(es), es[x].dst_key),
{
    let unsorted = edge_model_rows(es);
    let sorted = arranged(unsorted);
    let le = row_le();
    assert(vstd::relations::total_ordering(le));
    unsorted.lemma_sort_by_ensures(le);
    assert(unsorted[x] == edge_model_row(es[x]));
    assert(unsorted.contains(unsorted[x]));
    lemma_same_rows(unsorted, sorted, unsorted[x]);
    let j = choose|j: int| 0 <= j < sorted.len() && sorted[j] == unsorted[x];
    lemma_first_covers(sorted, j);
}

/// `k` stays without the stubs that nothing references: it is a document, or a
/// node that is kept references it.
pub open spec fn is_held(g: GraphV, k: u64) -> bool {
    ||| g.node(k) is Some && !is_stub(g.node(k)->0.flags)
    ||| exists|w: u64| g.node(w) is Some && g.survives(w) && #[trigger] links(g, w, k)
}

/// Nothing hangs on a stub that nothing references.
pub open spec fn no_loose_ends(g: GraphV) -> bool {
    forall|u: u64, k: u64|
        g.node(u) is Some && !g.survives(u) && #[trigger] links(g, u, k) ==> is_held(g, k)
}

proof fn lemma_links_kept(g: GraphV, g2: GraphV, u: u64, k: u64)
    requires
        kept_edges(g2.edges(u)) == edge_models(g.edges(u)),
    ensures
        links(g2, u, k) <==> links(g, u, k),
{
    let es = g.edges(u);
    let es2 = g2.edges(u);
    let kept = edge_models(es);
    lemma_edge_models(es);
    if links(g, u, k) {
        let x = choose|x: int| 0 <= x < es.len() && (#[trigger] es[x]).dst_key == k;
        lemma_edge_models_cover(es, x);
        let i = choose|i: int| 0 <= i < kept.len() && (#[trigger] kept[i]).0 == k;
        assert(kept_edges(es2)[i] == kept_edge(es2[i]));
        assert(es2[i].dst_key == k);
    }
    if links(g2, u, k) {
        let i = choose|i: int| 0 <= i < es2.len() && (#[trigger] es2[i]).dst_key == k;
        assert(kept_edges(es2)[i] == kept_edge(es2[i]));
        let x = choose|x: int| 0 <= x < es.len() && kept[i] == kept_edge(#[trigger] es[x]);
        assert(es[x].dst_key == k);
    }
}

/// Compacting what was just compacted renders the same records, unless
/// something hung on a stub that nothing references: that stub goes with the
/// first compaction, and what only it references with the second. With the same
/// records, the file is the same byte for byte between header and trailer, so a
/// store does not grow without its graph changing.
pub proof fn law_compacting_again_changes_nothing(
    g: GraphV,
    ranks: Seq<(u16, u32)>,
    generation: u64,
    applied: u64,
    next_generation: u64,
    next_applied: u64,
)
    requires
        g.wf(),
        all_storable(g.ops),
        compactable(g, ranks),
    ensures
        compacted(g, ranks, generation, applied).models() == g.models() <==> no_loose_ends(g),
        no_loose_ends(g) ==> {
            let g2 = compacted(g, ranks, generation, applied);
            let first = compacted_file(g, ranks, generation, applied);
            let second = compacted_file(g2, ranks, next_generation, next_applied);
            let end = first.len() - TRAILER_LEN;
            &&& sections(g2.models(), lexicon(g2.models()), ranks) == sections(
                g.models(),
                lexicon(g.models()),
                ranks,
            )
            &&& second.len() == first.len()
            &&& end >= HEADER_LEN
            &&& second.subrange(HEADER_LEN as int, end) == first.subrange(HEADER_LEN as int, end)
        },
{
    let g2 = compacted(g, ranks, generation, applied);
    if no_loose_ends(g) {
        lemma_compacted_alike(g, ranks, generation, applied);
        let rows = g.models();
        let lex = lexicon(rows);
        law_sections_fix_the_file(
            base_header(rows, lex, generation, applied),
            base_header(rows, lex, next_generation, next_applied),
            sections(rows, lex, ranks),
        );
    } else {
        let (u, k) = choose|u: u64, k: u64|
            g.node(u) is Some && !g.survives(u) && #[trigger] links(g, u, k) && !is_held(g, k);
        lemma_loose_end_goes(g, ranks, generation, applied, u, k);
        if g2.models() == g.models() {
            let keys = listing(g.survivors());
            let keys2 = listing(g2.survivors());
            lemma_survivors_listed(g);
            lemma_survivors_listed(g2);
            assert(g.survivors()(k));
            assert(keys.contains(k));
            let i = choose|i: int| 0 <= i < keys.len() && keys[i] == k;
            lemma_model_at(g, k);
            assert(g.models()[i] == g.model(k));
            lemma_model_at(g2, keys2[i]);
            assert(g2.models()[i] == g2.model(keys2[i]));
            assert(keys2.contains(keys2[i]));
            assert(g2.survivors()(k));
        }
    }
}

/// What only a stub that nothing references references is gone after the second
/// compaction.
proof fn lemma_loose_end_goes(
    g: GraphV,
    ranks: Seq<(u16, u32)>,
    generation: u64,
    applied: u64,
    u: u64,
    k: u64,
)
    requires
        g.wf(),
        all_storable(g.ops),
        compactable(g, ranks),
        g.node(u) is Some,
        links(g, u, k),
        !is_held(g, k),
    ensures
        g.survives(k),
        !compacted(g, ranks, generation, applied).survives(k),
{
    let g2 = compacted(g, ranks, generation, applied);
    assert(g.is_referenced(k));
    law_compaction_preserves_the_graph(g, ranks, generation, applied, k);
    assert(!g2.is_referenced(k)) by {
        if g2.is_referenced(k) {
            let w = choose|w: u64| g2.node(w) is Some && #[trigger] links(g2, w, k);
            law_compaction_preserves_the_graph(g, ranks, generation, applied, w);
            if g.node(w) is Some {
                lemma_links_kept(g, g2, w, k);
                assert(is_held(g, k));
            }
        }
    }
}

proof fn lemma_compacted_alike(
    g: GraphV,
    ranks: Seq<(u16, u32)>,
    generation: u64,
    applied: u64,
)
    requires
        g.wf(),
        all_storable(g.ops),
        compactable(g, ranks),
        no_loose_ends(g),
    ensures
        compacted(g, ranks, generation, applied).models() == g.models(),
{
    let g2 = compacted(g, ranks, generation, applied);
    let keys = listing(g.survivors());
    let rows = g.models();
    lemma_compacted(g, ranks);
    lemma_survivors_listed(g);
    assert forall|k: u64| g2.survives(k) <==> g.survives(k) by {
        law_compaction_preserves_the_graph(g, ranks, generation, applied, k);
        if g.survives(k) && !(g.node(k) is Some && !is_stub(g.node(k)->0.flags)) {
            let u = choose|u: u64| g.node(u) is Some && #[trigger] links(g, u, k);
            let w = if g.survives(u) {
                u
            } else {
                assert(is_held(g, k));
                choose|w: u64| g.node(w) is Some && g.survives(w) && #[trigger] links(g, w, k)
            };
            law_compaction_preserves_the_graph(g, ranks, generation, applied, w);
            lemma_links_kept(g, g2, w, k);
            assert(g2.is_referenced(k));
        }
        if g2.survives(k) && g2.node(k) is None {
            let u = choose|u: u64| g2.node(u) is Some && #[trigger] links(g2, u, k);
            law_compaction_preserves_the_graph(g, ranks, generation, applied, u);
            if g.node(u) is Some {
                lemma_links_kept(g, g2, u, k);
                assert(g.is_referenced(k));
            }
        }
    }
    assert(lists(keys, g2.survivors())) by {
        assert forall|k: u64| #[trigger] keys.contains(k) <==> g2.survivors()(k) by {
            assert(keys.contains(k) <==> g.survivors()(k));
            assert(g2.survives(k) <==> g.survives(k));
        }
    }
    lemma_listing(keys, g2.survivors());
    assert forall|i: int| 0 <= i < keys.len() implies g2.model(keys[i]) == #[trigger] rows[i] by {
        lemma_model_kept(g, ranks, generation, applied, i);
    }
    assert(g2.models() =~= rows);
}

proof fn lemma_model_kept(
    g: GraphV,
    ranks: Seq<(u16, u32)>,
    generation: u64,
    applied: u64,
    i: int,
)
    requires
        g.wf(),
        all_storable(g.ops),
        compactable(g, ranks),
        0 <= i < listing(g.survivors()).len(),
    ensures
        compacted(g, ranks, generation, applied).model(listing(g.survivors())[i]) == g.models()[i],
{
    let g2 = compacted(g, ranks, generation, applied);
    let rows = g.models();
    let key = listing(g.survivors())[i];
    let m = rows[i];
    lemma_compacted(g, ranks);
    lemma_model_at(g, key);
    law_rendered_generation_reads_back(
        g,
        rows,
        lexicon(rows),
        ranks,
        generation,
        applied,
        i,
    );
    assert(seg_models(read_segs(m.segs)) =~= m.segs) by {
        if g.node(key) is Some {
            lemma_node_key(g, key);
            lemma_segs(g, key);
            let segs = g.segs(key);
            assert forall|j: int| 0 <= j < m.segs.len() implies seg_model(
                read_seg(#[trigger] m.segs[j]),
            ) == m.segs[j] by {
                assert(m.segs[j] == seg_model(segs[j]));
                assert(ranged(segs[j]));
            }
        }
    }
    let es2 = g2.edges(key);
    assert(edge_models(es2) == m.edges) by {
        if g.node(key) is Some {
            lemma_node_key(g, key);
            lemma_edge_models(g.edges(key));
        }
        assert(edges_up(m.edges));
        assert forall|a: int, b: int| 0 <= a < b < es2.len() implies es2[a].dst_key
            < es2[b].dst_key by {
            assert(kept_edges(es2)[a] == kept_edge(es2[a]));
            assert(kept_edges(es2)[b] == kept_edge(es2[b]));
        }
        law_ascending_edges_are_kept(es2);
    }
}

// ---- words find their documents -------------------------------------------

pub(crate) proof fn lemma_mentioned(rows: Seq<ModelV>, i: int, x: int, n: int)
    requires
        0 <= i < n,
        0 <= x < model_tokens(rows[i]).len(),
    ensures
        ({
            let p = mentions(rows, i).len() + x;
            &&& p < mentions(rows, n).len()
            &&& mentions(rows, n)[p].id == i as u64
            &&& mentions(rows, n)[p].token == model_tokens(rows[i])[x]
        }),
    decreases n,
{
    if n > i + 1 {
        lemma_mentioned(rows, i, x, n - 1);
    }
}

/// The postings of a rendered token are the nodes it lists.
pub(crate) proof fn lemma_read_postings(
    rows: Seq<ModelV>,
    lex: Seq<LexV>,
    ranks: Seq<(u16, u32)>,
    g: GraphV,
    e: int,
)
    requires
        lex_renderable(rows, lex),
        within_limits(rows, lex, ranks),
        rows.len() > 0,
        g.t == rendered_tables(rows, lex, ranks),
        0 <= e < lex.len(),
    ensures
        lex_row(g.t, e).token_hash == lex[e].hash,
        g.lex_ids(e) == ids32(lex[e].ids),
{
    let all = postings_to(lex, lex.len() as int);
    let ids = ids32(lex[e].ids);
    let own = postings_bytes(ids, 0);
    lemma_read_lex(rows, lex, e);
    assert(lex_row(g.t, e) == lex_record(rows, lex, e));
    assert(raw(g.t.postings) == all);
    lemma_postings_grow(lex, e, lex.len() as int);
    lemma_postings_grow(lex, e + 1, lex.len() as int);
    let a = postings_to(lex, e);
    let b = postings_to(lex, e + 1);
    assert(b == a + own);
    assert(all.subrange(a.len() as int, (a.len() + own.len()) as int) =~= own) by {
        assert(b =~= all.take(b.len() as int));
        assert forall|k: int| 0 <= k < own.len() implies all[a.len() + k] == own[k] by {
            assert(b[a.len() + k] == own[k]);
            assert(all.take(b.len() as int)[a.len() + k] == all[a.len() + k]);
        }
    }
    assert(ids_ascend(ids)) by {
        assert(ids_up(lex[e].ids));
        assert forall|i: int, j: int| 0 <= i < j < ids.len() implies ids[i] < ids[j] by {
            assert(lex[e].ids[i] < rows.len() && lex[e].ids[j] < rows.len());
        }
    }
    law_postings_round_trip(ids);
}

proof fn lemma_level_reached(g: GraphV, n: int, e: int, term: Seq<char>, hash: u64, id: u32)
    requires
        0 <= e < n,
        g.lex_ids(e).contains(id),
        g.lex_tier(e, term, hash) == Some(Tier::Exact),
    ensures
        g.term_level(n, term, hash, id) >= 3,
    decreases n,
{
    if n > e + 1 {
        lemma_level_reached(g, n - 1, e, term, hash, id);
    }
}

/// After a compaction every word of a document finds it: a term that is a token
/// of its URL, title, snippet or headings meets it exactly.
pub proof fn law_words_find_their_document(
    g: GraphV,
    ranks: Seq<(u16, u32)>,
    generation: u64,
    applied: u64,
    i: int,
    x: int,
)
    requires
        g.wf(),
        all_storable(g.ops),
        compactable(g, ranks),
        0 <= i < g.models().len(),
        0 <= x < model_tokens(g.models()[i]).len(),
    ensures
        ({
            let g2 = compacted(g, ranks, generation, applied);
            let term = model_tokens(g.models()[i])[x];
            &&& g2.find(g.models()[i].key) == Some(i as u32)
            &&& g2.term_level(g2.lex_len(), term, token_hash(term), i as u32)
                == Tier::Exact.level()
        }),
{
    let rows = g.models();
    let lex = lexicon(rows);
    let g2 = compacted(g, ranks, generation, applied);
    let n = rows.len() as int;
    let term = model_tokens(rows[i])[x];
    let hash = token_hash(term);
    lemma_compacted(g, ranks);
    lemma_rendered_is_sound(rows, lex, ranks, generation, applied);
    lemma_read_node(rows, i);
    assert(node_row(g2.t, i) == node_record(rows, i));
    lemma_find(g2, rows[i].key, i);
    lemma_mentioned(rows, i, x, n);
    let p = mentions(rows, i).len() + x;
    law_every_token_is_indexed(rows, p as int);
    let e = choose|e: int|
        0 <= e < lex.len() && (#[trigger] lex[e]).hash == hash && lex[e].ids.contains(i as u64);
    lemma_read_postings(rows, lex, ranks, g2, e);
    let y = choose|y: int| 0 <= y < lex[e].ids.len() && lex[e].ids[y] == i as u64;
    assert(g2.lex_ids(e)[y] == i as u32);
    assert(g2.lex_ids(e).contains(i as u32));
    lemma_level_reached(g2, g2.lex_len(), e, term, hash, i as u32);
    lemma_level_bound(g2, g2.lex_len(), term, hash, i as u32);
}

} // verus!
