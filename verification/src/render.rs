//! Rendering the records of a generation into a base file.
#[allow(unused_imports)]
use crate::bytesio::{le_bytes, lemma_cat_assoc, lemma_le_bytes_len, str_bytes};
use crate::bytesio::{put_u16, put_u32, put_u8};
use crate::compact::{EdgeModel, Model, SegModel};
#[allow(unused_imports)]
use crate::compact::{models_view, ModelV};
use crate::format::base::records::{
    write_lex_rec, write_node_rec, write_seg_rec, LexFields, NodeFields, SegFields,
};
#[allow(unused_imports)]
use crate::format::base::records::{
    ids_ascend, lex_bytes, node_bytes, postings_bytes, seg_rec_bytes,
};
#[allow(unused_imports)]
use crate::format::base::writer::{file_bytes, off_of};
use crate::format::base::{
    encode_postings, push_label, BaseWriter, Header, SectionKind, NO_LABEL,
};
#[allow(unused_imports)]
use crate::format::wal::{fits, opt_fits, opt_view};
#[allow(unused_imports)]
use crate::lexicon::{ids_up, lex_view, LexV};
use crate::lexicon::LexEntry;
use vstd::prelude::*;
use vstd::string::*;
#[allow(unused_imports)]
use vstd::utf8::*;

verus! {

/// The parts, one after the other.
pub open spec fn cat(parts: Seq<Seq<u8>>) -> Seq<u8>
    decreases parts.len(),
{
    if parts.len() == 0 {
        Seq::empty()
    } else {
        cat(parts.drop_last()) + parts.last()
    }
}

pub proof fn lemma_cat_push(parts: Seq<Seq<u8>>, p: Seq<u8>)
    ensures
        cat(parts.push(p)) == cat(parts) + p,
{
    assert(parts.push(p).drop_last() =~= parts);
}

// ---- labels ---------------------------------------------------------------

/// The label heap that holds `texts`.
pub open spec fn heap(texts: Seq<Seq<char>>) -> Seq<u8> {
    cat(texts.map_values(|t: Seq<char>| str_bytes(t)))
}

pub proof fn lemma_heap_push(texts: Seq<Seq<char>>, t: Seq<char>)
    ensures
        heap(texts.push(t)) == heap(texts) + str_bytes(t),
{
    let f = |t: Seq<char>| str_bytes(t);
    assert(texts.push(t).map_values(f) =~= texts.map_values(f).push(str_bytes(t)));
    lemma_cat_push(texts.map_values(f), str_bytes(t));
}

pub open spec fn push_opt(texts: Seq<Seq<char>>, s: Option<Seq<char>>) -> Seq<Seq<char>> {
    match s {
        Some(t) => texts.push(t),
        None => texts,
    }
}

/// Where a label goes that is pushed next.
pub open spec fn place(texts: Seq<Seq<char>>, s: Option<Seq<char>>) -> u32 {
    match s {
        Some(_) => heap(texts).len() as u32,
        None => NO_LABEL,
    }
}

/// The URL label; stubs have none.
pub open spec fn url_text(m: ModelV) -> Option<Seq<char>> {
    if m.url.len() == 0 {
        None
    } else {
        Some(m.url)
    }
}

pub open spec fn after_url(texts: Seq<Seq<char>>, m: ModelV) -> Seq<Seq<char>> {
    push_opt(texts, url_text(m))
}

pub open spec fn after_title(texts: Seq<Seq<char>>, m: ModelV) -> Seq<Seq<char>> {
    push_opt(after_url(texts, m), m.title)
}

pub open spec fn after_snippet(texts: Seq<Seq<char>>, m: ModelV) -> Seq<Seq<char>> {
    push_opt(after_title(texts, m), m.snippet)
}

pub open spec fn after_etag(texts: Seq<Seq<char>>, m: ModelV) -> Seq<Seq<char>> {
    push_opt(after_snippet(texts, m), m.etag)
}

/// After the labels of the first `j` segments.
pub open spec fn after_segs(texts: Seq<Seq<char>>, m: ModelV, j: int) -> Seq<Seq<char>>
    decreases j,
{
    if j <= 0 {
        after_etag(texts, m)
    } else {
        after_segs(texts, m, j - 1).push(m.segs[j - 1].label)
    }
}

/// The labels of the first `i` nodes.
pub open spec fn texts(rows: Seq<ModelV>, i: int) -> Seq<Seq<char>>
    decreases i,
{
    if i <= 0 {
        Seq::empty()
    } else {
        after_segs(texts(rows, i - 1), rows[i - 1], rows[i - 1].segs.len() as int)
    }
}

/// The labels of all nodes and of the first `i` tokens.
pub open spec fn all_texts(rows: Seq<ModelV>, lex: Seq<LexV>, i: int) -> Seq<Seq<char>>
    decreases i,
{
    if i <= 0 {
        texts(rows, rows.len() as int)
    } else {
        all_texts(rows, lex, i - 1).push(lex[i - 1].label)
    }
}

// ---- records --------------------------------------------------------------

/// Where the record of `key` stands.
pub open spec fn id_of(rows: Seq<ModelV>, key: u64) -> u32 {
    (choose|i: int| 0 <= i < rows.len() && (#[trigger] rows[i]).key == key) as u32
}

/// An edge record: destination id, type tag, flags, weight.
pub type EdgeRow = (u32, u8, u8, u16);

pub open spec fn row_edges(rows: Seq<ModelV>, i: int) -> Seq<EdgeRow> {
    rows[i].edges.map_values(|e: EdgeModel| (id_of(rows, e.0), e.1, e.2, e.3))
}

/// The edges of the first `i` nodes.
pub open spec fn edges_to(rows: Seq<ModelV>, i: int) -> Seq<EdgeRow>
    decreases i,
{
    if i <= 0 {
        Seq::empty()
    } else {
        edges_to(rows, i - 1) + row_edges(rows, i - 1)
    }
}

/// How many of `edges` lead to `id`.
pub open spec fn count_to(edges: Seq<EdgeRow>, id: u32) -> nat
    decreases edges.len(),
{
    if edges.len() == 0 {
        0
    } else {
        count_to(edges.drop_last(), id) + (if edges.last().0 == id {
            1nat
        } else {
            0nat
        })
    }
}

pub open spec fn edge_rec(e: EdgeRow) -> Seq<u8> {
    le_bytes(e.0 as nat, 4) + (seq![e.1] + (seq![e.2] + le_bytes(e.3 as nat, 2)))
}

pub open spec fn seg_record(texts: Seq<Seq<char>>, m: ModelV, j: int) -> SegFields {
    SegFields {
        seg_key: m.segs[j].key,
        byte_start: m.segs[j].byte_start,
        byte_len: m.segs[j].byte_len,
        label_off: heap(after_segs(texts, m, j)).len() as u32,
        importance: m.segs[j].importance,
        depth: m.segs[j].depth,
        flags: m.segs[j].flags,
    }
}

pub open spec fn row_segs(rows: Seq<ModelV>, i: int) -> Seq<SegFields> {
    Seq::new(rows[i].segs.len(), |j: int| seg_record(texts(rows, i), rows[i], j))
}

/// The segments of the first `i` nodes.
pub open spec fn segs_to(rows: Seq<ModelV>, i: int) -> Seq<SegFields>
    decreases i,
{
    if i <= 0 {
        Seq::empty()
    } else {
        segs_to(rows, i - 1) + row_segs(rows, i - 1)
    }
}

pub open spec fn node_record(rows: Seq<ModelV>, i: int) -> NodeFields {
    let m = rows[i];
    let t = texts(rows, i);
    NodeFields {
        url_key: m.key,
        content_hash: m.content_hash,
        fetched_at_ms: m.fetched_at_ms,
        last_change_ms: m.last_change_ms,
        url_off: place(t, url_text(m)),
        title_off: place(after_url(t, m), m.title),
        snippet_off: place(after_title(t, m), m.snippet),
        etag_off: place(after_snippet(t, m), m.etag),
        seg_start: segs_to(rows, i).len() as u32,
        seg_count: m.segs.len() as u16,
        flags: m.flags,
        interval_s: m.interval_s,
        checks: m.checks,
        changes: m.changes,
        in_degree: count_to(edges_to(rows, rows.len() as int), i as u32) as u32,
    }
}

pub open spec fn ids32(ids: Seq<u64>) -> Seq<u32> {
    ids.map_values(|i: u64| i as u32)
}

/// The postings of the first `i` tokens.
pub open spec fn postings_to(lex: Seq<LexV>, i: int) -> Seq<u8>
    decreases i,
{
    if i <= 0 {
        Seq::empty()
    } else {
        postings_to(lex, i - 1) + postings_bytes(ids32(lex[i - 1].ids), 0)
    }
}

pub open spec fn lex_record(rows: Seq<ModelV>, lex: Seq<LexV>, i: int) -> LexFields {
    LexFields {
        token_hash: lex[i].hash,
        df: lex[i].ids.len() as u32,
        postings_off: postings_to(lex, i).len() as u32,
        postings_len: postings_bytes(ids32(lex[i].ids), 0).len() as u32,
        label_off: heap(all_texts(rows, lex, i)).len() as u32,
    }
}

pub open spec fn rank_rec(r: (u16, u32)) -> Seq<u8> {
    le_bytes(r.0 as nat, 2) + (le_bytes(0, 2) + le_bytes(r.1 as nat, 4))
}

// ---- sections -------------------------------------------------------------

pub open spec fn nodes_table(rows: Seq<ModelV>) -> Seq<u8> {
    cat(Seq::new(rows.len(), |i: int| node_bytes(node_record(rows, i))))
}

pub open spec fn segs_table(rows: Seq<ModelV>) -> Seq<u8> {
    cat(segs_to(rows, rows.len() as int).map_values(|f: SegFields| seg_rec_bytes(f)))
}

pub open spec fn index_parts(rows: Seq<ModelV>, n: nat) -> Seq<Seq<u8>> {
    Seq::new(n, |i: int| le_bytes(edges_to(rows, i).len(), 4))
}

pub open spec fn index_table(rows: Seq<ModelV>) -> Seq<u8> {
    cat(index_parts(rows, rows.len() + 1))
}

pub open spec fn edges_table(rows: Seq<ModelV>) -> Seq<u8> {
    cat(edges_to(rows, rows.len() as int).map_values(|e: EdgeRow| edge_rec(e)))
}

pub open spec fn lex_table(rows: Seq<ModelV>, lex: Seq<LexV>) -> Seq<u8> {
    cat(Seq::new(lex.len(), |i: int| lex_bytes(lex_record(rows, lex, i))))
}

pub open spec fn ranks_table(ranks: Seq<(u16, u32)>) -> Seq<u8> {
    cat(ranks.map_values(|r: (u16, u32)| rank_rec(r)))
}

pub open spec fn max_fetched(rows: Seq<ModelV>) -> u64
    decreases rows.len(),
{
    if rows.len() == 0 {
        0
    } else {
        let m = max_fetched(rows.drop_last());
        if rows.last().fetched_at_ms > m {
            rows.last().fetched_at_ms
        } else {
            m
        }
    }
}

/// The header of a generation. Its stamp is the newest fetch, so that equal
/// state renders equal bytes.
pub open spec fn base_header(
    rows: Seq<ModelV>,
    lex: Seq<LexV>,
    generation: u64,
    wal_applied_seq: u64,
) -> Header {
    Header {
        flags: 0,
        section_count: 0,
        node_count: rows.len() as u32,
        seg_count: segs_to(rows, rows.len() as int).len() as u32,
        edge_count: edges_to(rows, rows.len() as int).len() as u32,
        token_count: lex.len() as u32,
        generation,
        wal_applied_seq,
        total_len: 0,
        created_at_ms: max_fetched(rows),
    }
}

pub open spec fn section_if(present: bool, kind: SectionKind, bytes: Seq<u8>) -> Seq<(u16, Seq<u8>)> {
    if present {
        seq![(kind.code(), bytes)]
    } else {
        Seq::empty()
    }
}

/// The sections of a generation. Tables without records are left out.
pub open spec fn sections(
    rows: Seq<ModelV>,
    lex: Seq<LexV>,
    ranks: Seq<(u16, u32)>,
) -> Seq<(u16, Seq<u8>)> {
    let n = rows.len() as int;
    let some = n > 0;
    section_if(some, SectionKind::Nodes, nodes_table(rows)) + section_if(
        some && segs_to(rows, n).len() > 0,
        SectionKind::Segs,
        segs_table(rows),
    ) + section_if(some, SectionKind::EdgeIndex, index_table(rows)) + section_if(
        some && edges_to(rows, n).len() > 0,
        SectionKind::Edges,
        edges_table(rows),
    ) + section_if(some, SectionKind::Labels, heap(all_texts(rows, lex, lex.len() as int))) + section_if(
        some && lex.len() > 0,
        SectionKind::Lexicon,
        lex_table(rows, lex),
    ) + section_if(
        some && lex.len() > 0,
        SectionKind::Postings,
        postings_to(lex, lex.len() as int),
    ) + section_if(some, SectionKind::Ranks, ranks_table(ranks))
}

/// The file of a generation.
pub open spec fn rendered(
    rows: Seq<ModelV>,
    lex: Seq<LexV>,
    ranks: Seq<(u16, u32)>,
    generation: u64,
    wal_applied_seq: u64,
) -> Seq<u8> {
    file_bytes(
        base_header(rows, lex, generation, wal_applied_seq),
        sections(rows, lex, ranks),
    )
}

// ---- what can be rendered -------------------------------------------------

/// Every string fits a label, and the segments of a node fit their count.
pub open spec fn model_fits(m: ModelV) -> bool {
    &&& fits(m.url)
    &&& opt_fits(m.title)
    &&& opt_fits(m.snippet)
    &&& opt_fits(m.etag)
    &&& m.segs.len() <= 0xffff
    &&& forall|j: int| 0 <= j < m.segs.len() ==> fits((#[trigger] m.segs[j]).label)
}

pub open spec fn has_key(rows: Seq<ModelV>, key: u64) -> bool {
    exists|i: int| 0 <= i < rows.len() && (#[trigger] rows[i]).key == key
}

/// Destinations strictly ascend.
pub open spec fn edges_up(edges: Seq<EdgeModel>) -> bool {
    forall|i: int, j: int| 0 <= i < j < edges.len() ==> edges[i].0 < edges[j].0
}

/// Keys strictly ascend, strings fit, and every edge leads to a record, by
/// ascending destination.
pub open spec fn renderable(rows: Seq<ModelV>) -> bool {
    &&& forall|i: int, j: int| 0 <= i < j < rows.len() ==> rows[i].key < rows[j].key
    &&& forall|i: int| 0 <= i < rows.len() ==> model_fits(#[trigger] rows[i])
    &&& forall|i: int| 0 <= i < rows.len() ==> edges_up((#[trigger] rows[i]).edges)
    &&& forall|i: int, j: int|
        0 <= i < rows.len() && 0 <= j < rows[i].edges.len() ==> has_key(
            rows,
            (#[trigger] rows[i].edges[j]).0,
        )
}

/// The lexicon belongs to the records.
pub open spec fn lex_renderable(rows: Seq<ModelV>, lex: Seq<LexV>) -> bool {
    &&& forall|i: int, j: int| 0 <= i < j < lex.len() ==> lex[i].hash < lex[j].hash
    &&& forall|i: int| 0 <= i < lex.len() ==> ids_up((#[trigger] lex[i]).ids)
    &&& forall|i: int, j: int|
        0 <= i < lex.len() && 0 <= j < lex[i].ids.len() ==> (#[trigger] lex[i].ids[j]) < rows.len()
}

/// The bytes of all sections.
pub open spec fn total_len(secs: Seq<(u16, Seq<u8>)>) -> nat
    decreases secs.len(),
{
    if secs.len() == 0 {
        0
    } else {
        total_len(secs.drop_last()) + secs.last().1.len()
    }
}

/// The counts and the offsets fit 32 bits, every token fits a label, and the
/// file fits memory.
pub open spec fn within_limits(
    rows: Seq<ModelV>,
    lex: Seq<LexV>,
    ranks: Seq<(u16, u32)>,
) -> bool {
    let n = rows.len() as int;
    &&& n <= u32::MAX
    &&& segs_to(rows, n).len() <= u32::MAX
    &&& edges_to(rows, n).len() <= u32::MAX
    &&& lex.len() <= u32::MAX
    &&& forall|i: int| 0 <= i < lex.len() ==> fits((#[trigger] lex[i]).label)
    &&& heap(all_texts(rows, lex, lex.len() as int)).len() <= u32::MAX
    &&& postings_to(lex, lex.len() as int).len() <= u32::MAX
    &&& total_len(sections(rows, lex, ranks)) + 4096 <= usize::MAX
}

// ---- growth of the parts --------------------------------------------------

proof fn lemma_heap_opt(ts: Seq<Seq<char>>, s: Option<Seq<char>>)
    ensures
        heap(ts).len() <= heap(push_opt(ts, s)).len(),
{
    if let Some(t) = s {
        lemma_heap_push(ts, t);
    }
}

proof fn lemma_after_segs_grow(ts: Seq<Seq<char>>, m: ModelV, i: int, j: int)
    requires
        0 <= i <= j,
    ensures
        heap(after_segs(ts, m, i)).len() <= heap(after_segs(ts, m, j)).len(),
    decreases j - i,
{
    if i < j {
        lemma_after_segs_grow(ts, m, i, j - 1);
        lemma_heap_push(after_segs(ts, m, j - 1), m.segs[j - 1].label);
    }
}

proof fn lemma_row_heap(ts: Seq<Seq<char>>, m: ModelV)
    ensures
        heap(ts).len() <= heap(after_url(ts, m)).len(),
        heap(after_url(ts, m)).len() <= heap(after_title(ts, m)).len(),
        heap(after_title(ts, m)).len() <= heap(after_snippet(ts, m)).len(),
        heap(after_snippet(ts, m)).len() <= heap(after_etag(ts, m)).len(),
        heap(after_etag(ts, m)).len() <= heap(after_segs(ts, m, m.segs.len() as int)).len(),
{
    lemma_heap_opt(ts, url_text(m));
    lemma_heap_opt(after_url(ts, m), m.title);
    lemma_heap_opt(after_title(ts, m), m.snippet);
    lemma_heap_opt(after_snippet(ts, m), m.etag);
    lemma_after_segs_grow(ts, m, 0, m.segs.len() as int);
}

proof fn lemma_texts_grow(rows: Seq<ModelV>, i: int, j: int)
    requires
        0 <= i <= j,
    ensures
        heap(texts(rows, i)).len() <= heap(texts(rows, j)).len(),
    decreases j - i,
{
    if i < j {
        lemma_texts_grow(rows, i, j - 1);
        lemma_row_heap(texts(rows, j - 1), rows[j - 1]);
    }
}

proof fn lemma_all_texts_grow(rows: Seq<ModelV>, lex: Seq<LexV>, i: int, j: int)
    requires
        0 <= i <= j,
    ensures
        heap(all_texts(rows, lex, i)).len() <= heap(all_texts(rows, lex, j)).len(),
    decreases j - i,
{
    if i < j {
        lemma_all_texts_grow(rows, lex, i, j - 1);
        lemma_heap_push(all_texts(rows, lex, j - 1), lex[j - 1].label);
    }
}

/// The heap is never longer than at the end.
pub proof fn lemma_heap_bound(rows: Seq<ModelV>, lex: Seq<LexV>, i: int)
    requires
        0 <= i <= rows.len(),
    ensures
        heap(texts(rows, i)).len() <= heap(all_texts(rows, lex, lex.len() as int)).len(),
{
    lemma_texts_grow(rows, i, rows.len() as int);
    lemma_all_texts_grow(rows, lex, 0, lex.len() as int);
}

pub proof fn lemma_segs_grow(rows: Seq<ModelV>, i: int, j: int)
    requires
        0 <= i <= j,
    ensures
        segs_to(rows, i).is_prefix_of(segs_to(rows, j)),
    decreases j - i,
{
    let a = segs_to(rows, i);
    if i < j {
        lemma_segs_grow(rows, i, j - 1);
        let b = segs_to(rows, j - 1);
        let c = segs_to(rows, j);
        assert(a =~= c.take(a.len() as int)) by {
            assert(a =~= b.take(a.len() as int));
        }
    } else {
        assert(a =~= a.take(a.len() as int));
    }
}

pub proof fn lemma_edges_grow(rows: Seq<ModelV>, i: int, j: int)
    requires
        0 <= i <= j,
    ensures
        edges_to(rows, i).is_prefix_of(edges_to(rows, j)),
    decreases j - i,
{
    let a = edges_to(rows, i);
    if i < j {
        lemma_edges_grow(rows, i, j - 1);
        let b = edges_to(rows, j - 1);
        let c = edges_to(rows, j);
        assert(a =~= c.take(a.len() as int)) by {
            assert(a =~= b.take(a.len() as int));
        }
    } else {
        assert(a =~= a.take(a.len() as int));
    }
}

pub proof fn lemma_postings_grow(lex: Seq<LexV>, i: int, j: int)
    requires
        0 <= i <= j,
    ensures
        postings_to(lex, i).is_prefix_of(postings_to(lex, j)),
    decreases j - i,
{
    let a = postings_to(lex, i);
    if i < j {
        lemma_postings_grow(lex, i, j - 1);
        let b = postings_to(lex, j - 1);
        let c = postings_to(lex, j);
        assert(a =~= c.take(a.len() as int)) by {
            assert(a =~= b.take(a.len() as int));
        }
    } else {
        assert(a =~= a.take(a.len() as int));
    }
}

pub proof fn lemma_id_of(rows: Seq<ModelV>, i: int)
    requires
        renderable(rows),
        0 <= i < rows.len() <= u32::MAX,
    ensures
        id_of(rows, rows[i].key) == i,
{
    let key = rows[i].key;
    let j = choose|j: int| 0 <= j < rows.len() && (#[trigger] rows[j]).key == key;
    if i < j {
        assert(rows[i].key < rows[j].key);
    } else if j < i {
        assert(rows[j].key < rows[i].key);
    }
}

/// A file is little longer than its sections.
pub proof fn lemma_file_len_bound(secs: Seq<(u16, Seq<u8>)>, i: int)
    requires
        0 <= i <= secs.len() <= 16,
    ensures
        off_of(secs, i) <= 128 + 32 * secs.len() + 64 + total_len(secs.take(i)) + 64 * i,
    decreases i,
{
    crate::bytesio::lemma_aligned((128 + secs.len() * 32) as nat, 64);
    if i > 0 {
        lemma_file_len_bound(secs, i - 1);
        assert(secs.take(i).drop_last() =~= secs.take(i - 1));
        crate::bytesio::lemma_aligned(off_of(secs, i - 1) + secs[i - 1].1.len(), 64);
    } else {
        assert(secs.take(0) =~= Seq::empty());
    }
}

// ---- rendering ------------------------------------------------------------

fn put_label(labels: &mut Vec<u8>, s: &str, Ghost(ts): Ghost<Seq<Seq<char>>>) -> (off: u32)
    requires
        old(labels)@ == heap(ts),
        heap(ts).len() <= u32::MAX,
        fits(s@),
    ensures
        off == heap(ts).len(),
        final(labels)@ == heap(ts.push(s@)),
{
    proof {
        lemma_heap_push(ts, s@);
    }
    push_label(labels, s)
}

fn put_opt_label(
    labels: &mut Vec<u8>,
    s: &Option<String>,
    Ghost(ts): Ghost<Seq<Seq<char>>>,
) -> (off: u32)
    requires
        old(labels)@ == heap(ts),
        heap(ts).len() <= u32::MAX,
        opt_fits(opt_view(*s)),
    ensures
        off == place(ts, opt_view(*s)),
        final(labels)@ == heap(push_opt(ts, opt_view(*s))),
{
    match s {
        Some(t) => put_label(labels, t.as_str(), Ghost(ts)),
        None => NO_LABEL,
    }
}

fn find_key(models: &Vec<Model>, key: u64) -> (r: u32)
    requires
        renderable(models_view(models@)),
        models@.len() <= u32::MAX,
        has_key(models_view(models@), key),
    ensures
        r == id_of(models_view(models@), key),
        r < models@.len(),
        models_view(models@)[r as int].key == key,
{
    let ghost rows = models_view(models@);
    let n: usize = models.len();
    let mut lo: usize = 0;
    let mut hi: usize = n;
    let ghost w = choose|i: int| 0 <= i < rows.len() && (#[trigger] rows[i]).key == key;
    assert(rows.len() == n);
    while lo < hi
        invariant
            rows == models_view(models@),
            rows.len() == n == models@.len(),
            renderable(rows),
            n <= u32::MAX,
            lo <= w < hi <= n,
            rows[w].key == key,
        decreases hi - lo,
    {
        let mid: usize = lo + (hi - lo) / 2;
        let k: u64 = models[mid].key;
        assert(rows[mid as int].key == k);
        if k == key {
            proof {
                lemma_id_of(rows, mid as int);
            }
            return mid as u32;
        }
        if k < key {
            assert(w < mid ==> rows[w].key < rows[mid as int].key);
            lo = mid + 1;
        } else {
            assert(mid < w ==> rows[mid as int].key < rows[w].key);
            hi = mid;
        }
    }
    0
}

/// The edges of one node with their destinations as ids.
fn edge_row(models: &Vec<Model>, i: usize) -> (r: Vec<EdgeRow>)
    requires
        renderable(models_view(models@)),
        models@.len() <= u32::MAX,
        i < models@.len(),
    ensures
        r@ == row_edges(models_view(models@), i as int),
        forall|j: int| 0 <= j < r@.len() ==> (#[trigger] r@[j]).0 < models@.len(),
{
    let ghost rows = models_view(models@);
    let edges: &Vec<EdgeModel> = &models[i].edges;
    assert(rows[i as int].edges == edges@);
    let n: usize = edges.len();
    let mut out: Vec<EdgeRow> = Vec::with_capacity(n);
    let mut j: usize = 0;
    while j < n
        invariant
            rows == models_view(models@),
            renderable(rows),
            i < rows.len() == models@.len(),
            models@.len() <= u32::MAX,
            rows[i as int].edges == edges@,
            j <= n == edges@.len(),
            out@ =~= row_edges(rows, i as int).take(j as int),
            forall|k: int| 0 <= k < out@.len() ==> (#[trigger] out@[k]).0 < models@.len(),
        decreases n - j,
    {
        let e: EdgeModel = edges[j];
        assert(has_key(rows, rows[i as int].edges[j as int].0));
        out.push((find_key(models, e.0), e.1, e.2, e.3));
        j = j + 1;
    }
    assert(out@ =~= row_edges(rows, i as int));
    out
}

/// The edges of every node with their destinations as ids, as the structure
/// metrics take them.
pub fn edge_rows(models: &Vec<Model>) -> (r: Vec<Vec<EdgeRow>>)
    requires
        renderable(models_view(models@)),
        models@.len() <= u32::MAX,
    ensures
        r@.len() == models@.len(),
        forall|i: int|
            0 <= i < r@.len() ==> (#[trigger] r@[i])@ == row_edges(models_view(models@), i),
        forall|i: int, j: int|
            0 <= i < r@.len() && 0 <= j < r@[i]@.len() ==> (#[trigger] r@[i]@[j]).0 < models@.len(),
        crate::rank::leads_inside(crate::rank::edge_lists(r@)),
{
    let n: usize = models.len();
    let mut out: Vec<Vec<EdgeRow>> = Vec::with_capacity(n);
    let mut i: usize = 0;
    while i < n
        invariant
            renderable(models_view(models@)),
            i <= n == models@.len(),
            n <= u32::MAX,
            out@.len() == i,
            forall|k: int|
                0 <= k < i ==> (#[trigger] out@[k])@ == row_edges(models_view(models@), k),
            forall|k: int, j: int|
                0 <= k < i && 0 <= j < out@[k]@.len() ==> (#[trigger] out@[k]@[j]).0 < models@.len(),
        decreases n - i,
    {
        out.push(edge_row(models, i));
        i = i + 1;
    }
    out
}

proof fn lemma_count_join(a: Seq<EdgeRow>, b: Seq<EdgeRow>, id: u32)
    ensures
        count_to(a + b, id) == count_to(a, id) + count_to(b, id),
        count_to(a, id) <= a.len(),
    decreases b.len(), a.len(),
{
    if b.len() == 0 {
        assert(a + b =~= a);
        if a.len() > 0 {
            lemma_count_join(a.drop_last(), b, id);
        }
    } else {
        lemma_count_join(a, b.drop_last(), id);
        assert((a + b).drop_last() =~= a + b.drop_last());
    }
}

/// How many edges lead to each node.
fn in_degrees(models: &Vec<Model>, rows_e: &Vec<Vec<EdgeRow>>) -> (r: Vec<u32>)
    requires
        renderable(models_view(models@)),
        models@.len() <= u32::MAX,
        rows_e@.len() == models@.len(),
        forall|i: int|
            0 <= i < rows_e@.len() ==> (#[trigger] rows_e@[i])@ == row_edges(
                models_view(models@),
                i,
            ),
        forall|i: int, j: int|
            0 <= i < rows_e@.len() && 0 <= j < rows_e@[i]@.len() ==> (#[trigger] rows_e@[i]@[j]).0
                < models@.len(),
        edges_to(models_view(models@), models@.len() as int).len() <= u32::MAX,
    ensures
        r@.len() == models@.len(),
        forall|i: int|
            0 <= i < r@.len() ==> #[trigger] r@[i] == count_to(
                edges_to(models_view(models@), models@.len() as int),
                i as u32,
            ),
{
    let ghost rows = models_view(models@);
    let n: usize = models.len();
    let mut out: Vec<u32> = Vec::with_capacity(n);
    let mut i: usize = 0;
    while i < n
        invariant
            i <= n,
            out@.len() == i,
            forall|k: int| 0 <= k < i ==> #[trigger] out@[k] == 0,
        decreases n - i,
    {
        out.push(0);
        i = i + 1;
    }
    let mut i: usize = 0;
    while i < n
        invariant
            rows == models_view(models@),
            i <= n == models@.len(),
            n <= u32::MAX,
            rows.len() == n,
            rows_e@.len() == n,
            out@.len() == n,
            forall|k: int| 0 <= k < rows_e@.len() ==> (#[trigger] rows_e@[k])@ == row_edges(rows, k),
            forall|k: int, j: int|
                0 <= k < rows_e@.len() && 0 <= j < rows_e@[k]@.len() ==> (
                #[trigger] rows_e@[k]@[j]).0 < n,
            edges_to(rows, n as int).len() <= u32::MAX,
            forall|k: int|
                0 <= k < n ==> #[trigger] out@[k] == count_to(edges_to(rows, i as int), k as u32),
        decreases n - i,
    {
        let row: &Vec<EdgeRow> = &rows_e[i];
        let ghost pre = edges_to(rows, i as int);
        let m: usize = row.len();
        let mut j: usize = 0;
        proof {
            lemma_edges_grow(rows, i + 1, n as int);
            assert(pre + row@.take(0) =~= pre);
        }
        while j < m
            invariant
                j <= m == row@.len(),
                out@.len() == n,
                n <= u32::MAX,
                pre.len() + m <= u32::MAX,
                forall|k: int| 0 <= k < m ==> (#[trigger] row@[k]).0 < n,
                forall|k: int|
                    0 <= k < n ==> #[trigger] out@[k] == count_to(
                        pre + row@.take(j as int),
                        k as u32,
                    ),
            decreases m - j,
        {
            let dst: usize = row[j].0 as usize;
            let ghost here = pre + row@.take(j as int);
            proof {
                assert(row@[j as int].0 < n);
                lemma_count_join(here, Seq::empty(), dst as u32);
                assert((pre + row@.take(j + 1)).drop_last() =~= here);
                assert((pre + row@.take(j + 1)).last() == row@[j as int]);
            }
            let d: u32 = out[dst];
            out.set(dst, d + 1);
            j = j + 1;
        }
        assert(row@.take(m as int) =~= row_edges(rows, i as int));
        i = i + 1;
    }
    out
}

/// The sections under construction.
struct Parts {
    labels: Vec<u8>,
    nodes: Vec<u8>,
    segs: Vec<u8>,
    index: Vec<u8>,
    edges: Vec<u8>,
    seg_total: u32,
    edge_total: u32,
    newest: u64,
}

impl Parts {
    /// The first `i` nodes are written.
    spec fn holds(&self, rows: Seq<ModelV>, i: int) -> bool {
        &&& self.labels@ == heap(texts(rows, i))
        &&& self.nodes@ == cat(Seq::new(i as nat, |k: int| node_bytes(node_record(rows, k))))
        &&& self.segs@ == cat(segs_to(rows, i).map_values(|f: SegFields| seg_rec_bytes(f)))
        &&& self.index@ == cat(index_parts(rows, i as nat))
        &&& self.edges@ == cat(edges_to(rows, i).map_values(|e: EdgeRow| edge_rec(e)))
        &&& self.seg_total == segs_to(rows, i).len()
        &&& self.edge_total == edges_to(rows, i).len()
        &&& self.newest == max_fetched(rows.take(i))
    }
}

fn put_segs(
    labels: &mut Vec<u8>,
    segs: &mut Vec<u8>,
    models: &Vec<Model>,
    i: usize,
    Ghost(lex): Ghost<Seq<LexV>>,
)
    requires
        renderable(models_view(models@)),
        i < models@.len(),
        heap(all_texts(models_view(models@), lex, lex.len() as int)).len() <= u32::MAX,
        old(labels)@ == heap(
            after_etag(texts(models_view(models@), i as int), models_view(models@)[i as int]),
        ),
        old(segs)@ == cat(
            segs_to(models_view(models@), i as int).map_values(|f: SegFields| seg_rec_bytes(f)),
        ),
    ensures
        final(labels)@ == heap(texts(models_view(models@), i + 1)),
        final(segs)@ == cat(
            segs_to(models_view(models@), i + 1).map_values(|f: SegFields| seg_rec_bytes(f)),
        ),
{
    let ghost rows = models_view(models@);
    let ghost m = rows[i as int];
    let ghost ts = texts(rows, i as int);
    let ghost f = |f: SegFields| seg_rec_bytes(f);
    let ghost pre = segs_to(rows, i as int);
    let ghost own = row_segs(rows, i as int);
    let list: &Vec<SegModel> = &models[i].segs;
    let n: usize = list.len();
    assert(m.segs.len() == n);
    assert(model_fits(rows[i as int]));
    let mut j: usize = 0;
    assert((pre + own.take(0)).map_values(f) =~= pre.map_values(f));
    while j < n
        invariant
            rows == models_view(models@),
            renderable(rows),
            i < rows.len() == models@.len(),
            m == rows[i as int],
            model_fits(m),
            ts == texts(rows, i as int),
            f == (|f: SegFields| seg_rec_bytes(f)),
            pre == segs_to(rows, i as int),
            own == row_segs(rows, i as int),
            m.segs == crate::compact::seg_models_view(list@),
            j <= n == list@.len(),
            heap(all_texts(rows, lex, lex.len() as int)).len() <= u32::MAX,
            labels@ == heap(after_segs(ts, m, j as int)),
            segs@ == cat((pre + own.take(j as int)).map_values(f)),
        decreases n - j,
    {
        let s: &SegModel = &list[j];
        assert(m.segs[j as int] == s@);
        proof {
            lemma_after_segs_grow(ts, m, j as int, n as int);
            lemma_heap_bound(rows, lex, i + 1);
        }
        let label_off: u32 = put_label(labels, s.label.as_str(), Ghost(after_segs(ts, m, j as int)));
        let fields: SegFields = SegFields {
            seg_key: s.key,
            byte_start: s.byte_start,
            byte_len: s.byte_len,
            label_off,
            importance: s.importance,
            depth: s.depth,
            flags: s.flags,
        };
        assert(fields == own[j as int]);
        write_seg_rec(segs, fields);
        proof {
            let a = (pre + own.take(j as int)).map_values(f);
            assert((pre + own.take(j + 1)).map_values(f) =~= a.push(seg_rec_bytes(fields)));
            lemma_cat_push(a, seg_rec_bytes(fields));
        }
        j = j + 1;
    }
    assert(own.take(n as int) =~= own);
}

fn put_edges(edges: &mut Vec<u8>, row: &Vec<EdgeRow>, Ghost(pre): Ghost<Seq<EdgeRow>>)
    requires
        old(edges)@ == cat(pre.map_values(|e: EdgeRow| edge_rec(e))),
    ensures
        final(edges)@ == cat((pre + row@).map_values(|e: EdgeRow| edge_rec(e))),
{
    let ghost f = |e: EdgeRow| edge_rec(e);
    let n: usize = row.len();
    let mut j: usize = 0;
    assert(pre + row@.take(0) =~= pre);
    while j < n
        invariant
            j <= n == row@.len(),
            f == (|e: EdgeRow| edge_rec(e)),
            edges@ == cat((pre + row@.take(j as int)).map_values(f)),
        decreases n - j,
    {
        broadcast use lemma_cat_assoc;

        let e: EdgeRow = row[j];
        put_u32(edges, e.0);
        put_u8(edges, e.1);
        put_u8(edges, e.2);
        put_u16(edges, e.3);
        proof {
            let a = (pre + row@.take(j as int)).map_values(f);
            assert((pre + row@.take(j + 1)).map_values(f) =~= a.push(edge_rec(e)));
            lemma_cat_push(a, edge_rec(e));
        }
        j = j + 1;
    }
    assert(row@.take(n as int) =~= row@);
}

proof fn lemma_max_fetched(rows: Seq<ModelV>, i: int)
    requires
        0 <= i < rows.len(),
    ensures
        max_fetched(rows.take(i + 1)) == (if rows[i].fetched_at_ms > max_fetched(rows.take(i)) {
            rows[i].fetched_at_ms
        } else {
            max_fetched(rows.take(i))
        }),
{
    assert(rows.take(i + 1).drop_last() =~= rows.take(i));
    assert(rows.take(i + 1).last() == rows[i]);
}

fn put_row(
    p: &mut Parts,
    models: &Vec<Model>,
    i: usize,
    row: &Vec<EdgeRow>,
    in_degree: u32,
    Ghost(lex): Ghost<Seq<LexV>>,
    Ghost(ranks): Ghost<Seq<(u16, u32)>>,
)
    requires
        renderable(models_view(models@)),
        within_limits(models_view(models@), lex, ranks),
        i < models@.len(),
        row@ == row_edges(models_view(models@), i as int),
        in_degree == count_to(
            edges_to(models_view(models@), models@.len() as int),
            i as u32,
        ),
        old(p).holds(models_view(models@), i as int),
    ensures
        final(p).holds(models_view(models@), i + 1),
{
    let ghost rows = models_view(models@);
    let ghost n = rows.len() as int;
    let ghost m = rows[i as int];
    let ghost ts = texts(rows, i as int);
    let model: &Model = &models[i];
    assert(m == model@);
    proof {
        assert(model_fits(rows[i as int]));
        lemma_heap_bound(rows, lex, i as int);
        lemma_heap_bound(rows, lex, i + 1);
        lemma_row_heap(ts, m);
        lemma_segs_grow(rows, i as int, n);
        lemma_segs_grow(rows, i + 1, n);
        lemma_edges_grow(rows, i as int, n);
        lemma_edges_grow(rows, i + 1, n);
        lemma_max_fetched(rows, i as int);
    }
    let url_off: u32 = if model.url.as_str().is_empty() {
        NO_LABEL
    } else {
        put_label(&mut p.labels, model.url.as_str(), Ghost(ts))
    };
    let title_off: u32 = put_opt_label(&mut p.labels, &model.title, Ghost(after_url(ts, m)));
    let snippet_off: u32 = put_opt_label(&mut p.labels, &model.snippet, Ghost(after_title(ts, m)));
    let etag_off: u32 = put_opt_label(&mut p.labels, &model.etag, Ghost(after_snippet(ts, m)));
    let seg_start: u32 = p.seg_total;
    put_segs(&mut p.labels, &mut p.segs, models, i, Ghost(lex));
    p.seg_total = p.seg_total + model.segs.len() as u32;
    let ghost index_was = p.index@;
    put_u32(&mut p.index, p.edge_total);
    proof {
        let a = index_parts(rows, i as nat);
        let e = le_bytes(edges_to(rows, i as int).len(), 4);
        assert(index_parts(rows, (i + 1) as nat) =~= a.push(e));
        lemma_cat_push(a, e);
    }
    put_edges(&mut p.edges, row, Ghost(edges_to(rows, i as int)));
    p.edge_total = p.edge_total + row.len() as u32;
    if model.fetched_at_ms > p.newest {
        p.newest = model.fetched_at_ms;
    }
    let fields: NodeFields = NodeFields {
        url_key: model.key,
        content_hash: model.content_hash,
        fetched_at_ms: model.fetched_at_ms,
        last_change_ms: model.last_change_ms,
        url_off,
        title_off,
        snippet_off,
        etag_off,
        seg_start,
        seg_count: model.segs.len() as u16,
        flags: model.flags,
        interval_s: model.interval_s,
        checks: model.checks,
        changes: model.changes,
        in_degree,
    };
    assert(fields == node_record(rows, i as int));
    write_node_rec(&mut p.nodes, fields);
    proof {
        let a = Seq::new(i as nat, |k: int| node_bytes(node_record(rows, k)));
        assert(Seq::new((i + 1) as nat, |k: int| node_bytes(node_record(rows, k))) =~= a.push(
            node_bytes(fields),
        ));
        lemma_cat_push(a, node_bytes(fields));
    }
}

fn small_ids(ids: &Vec<u64>) -> (r: Vec<u32>)
    requires
        ids_up(ids@),
        forall|j: int| 0 <= j < ids@.len() ==> (#[trigger] ids@[j]) <= u32::MAX,
    ensures
        r@ == ids32(ids@),
        ids_ascend(r@),
{
    let n: usize = ids.len();
    let mut out: Vec<u32> = Vec::with_capacity(n);
    let mut i: usize = 0;
    while i < n
        invariant
            i <= n == ids@.len(),
            forall|j: int| 0 <= j < ids@.len() ==> (#[trigger] ids@[j]) <= u32::MAX,
            out@ =~= ids32(ids@).take(i as int),
        decreases n - i,
    {
        out.push(ids[i] as u32);
        i = i + 1;
    }
    assert(out@ =~= ids32(ids@));
    assert forall|x: int, y: int| 0 <= x < y < out@.len() implies out@[x] < out@[y] by {
        assert(ids@[x] < ids@[y]);
    }
    out
}

/// Write the lexicon: records, postings and the labels of tokens.
fn put_lexicon(
    labels: &mut Vec<u8>,
    lex: &Vec<LexEntry>,
    Ghost(rows): Ghost<Seq<ModelV>>,
    Ghost(ranks): Ghost<Seq<(u16, u32)>>,
) -> (r: (Vec<u8>, Vec<u8>))
    requires
        lex_renderable(rows, lex_view(lex@)),
        within_limits(rows, lex_view(lex@), ranks),
        old(labels)@ == heap(texts(rows, rows.len() as int)),
    ensures
        r.0@ == lex_table(rows, lex_view(lex@)),
        r.1@ == postings_to(lex_view(lex@), lex@.len() as int),
        final(labels)@ == heap(all_texts(rows, lex_view(lex@), lex@.len() as int)),
{
    let ghost vs = lex_view(lex@);
    let n: usize = lex.len();
    let ghost recs = Seq::new(vs.len(), |k: int| lex_bytes(lex_record(rows, vs, k)));
    let mut table: Vec<u8> = Vec::new();
    let mut postings: Vec<u8> = Vec::new();
    let mut i: usize = 0;
    assert(recs.take(0) =~= Seq::empty());
    assert(table@ =~= cat(recs.take(0)));
    assert(postings@ =~= postings_to(vs, 0));
    assert(vs.len() == n);
    while i < n
        invariant
            i <= n == lex@.len(),
            vs == lex_view(lex@),
            vs.len() == n,
            lex_renderable(rows, vs),
            within_limits(rows, vs, ranks),
            recs == Seq::new(vs.len(), |k: int| lex_bytes(lex_record(rows, vs, k))),
            table@ == cat(recs.take(i as int)),
            postings@ == postings_to(vs, i as int),
            labels@ == heap(all_texts(rows, vs, i as int)),
        decreases n - i,
    {
        let e: &LexEntry = &lex[i];
        assert(vs[i as int] == e@);
        proof {
            assert(ids_up(vs[i as int].ids));
            assert(fits(vs[i as int].label));
            lemma_postings_grow(vs, i as int, n as int);
            lemma_postings_grow(vs, i + 1, n as int);
            lemma_all_texts_grow(rows, vs, i as int, n as int);
            assert forall|j: int| 0 <= j < e.ids@.len() implies (#[trigger] e.ids@[j])
                <= u32::MAX by {
                assert(vs[i as int].ids[j] < rows.len());
            }
        }
        let off: u32 = postings.len() as u32;
        let ids: Vec<u32> = small_ids(&e.ids);
        encode_postings(ids.as_slice(), &mut postings);
        let len: u32 = (postings.len() - off as usize) as u32;
        let label_off: u32 = put_label(
            labels,
            e.label.as_str(),
            Ghost(all_texts(rows, vs, i as int)),
        );
        let fields: LexFields = LexFields {
            token_hash: e.hash,
            df: e.ids.len() as u32,
            postings_off: off,
            postings_len: len,
            label_off,
        };
        proof {
            assert(e.ids@.len() <= rows.len()) by {
                lemma_ids_count(e.ids@, rows.len() as int);
            }
        }
        assert(fields == lex_record(rows, vs, i as int));
        write_lex_rec(&mut table, fields);
        proof {
            assert(recs.take(i + 1) =~= recs.take(i as int).push(lex_bytes(fields)));
            lemma_cat_push(recs.take(i as int), lex_bytes(fields));
        }
        i = i + 1;
    }
    assert(recs.take(n as int) =~= recs);
    (table, postings)
}

/// Strictly ascending ids below `n` are at most `n`.
proof fn lemma_ids_count(ids: Seq<u64>, n: int)
    requires
        ids_up(ids),
        forall|j: int| 0 <= j < ids.len() ==> (#[trigger] ids[j]) < n,
    ensures
        ids.len() <= n,
{
    lemma_ids_at_least(ids, ids.len() - 1);
    assert(ids[ids.len() - 1] < n);
}

proof fn lemma_ids_at_least(ids: Seq<u64>, i: int)
    requires
        ids_up(ids),
        0 <= i < ids.len(),
    ensures
        ids[i] >= i,
    decreases i,
{
    if i > 0 {
        lemma_ids_at_least(ids, i - 1);
        assert(ids[i - 1] < ids[i]);
    }
}

fn put_ranks(ranks: &Vec<(u16, u32)>) -> (out: Vec<u8>)
    ensures
        out@ == ranks_table(ranks@),
{
    let ghost f = |r: (u16, u32)| rank_rec(r);
    let ghost recs = ranks@.map_values(f);
    let n: usize = ranks.len();
    let mut out: Vec<u8> = Vec::new();
    let mut i: usize = 0;
    assert(recs.take(0) =~= Seq::empty());
    while i < n
        invariant
            i <= n == ranks@.len(),
            f == (|r: (u16, u32)| rank_rec(r)),
            recs == ranks@.map_values(f),
            out@ == cat(recs.take(i as int)),
        decreases n - i,
    {
        broadcast use lemma_cat_assoc;

        let r: (u16, u32) = ranks[i];
        put_u16(&mut out, r.0);
        put_u16(&mut out, 0);
        put_u32(&mut out, r.1);
        proof {
            assert(recs.take(i + 1) =~= recs.take(i as int).push(rank_rec(r)));
            lemma_cat_push(recs.take(i as int), rank_rec(r));
        }
        i = i + 1;
    }
    assert(recs.take(n as int) =~= recs);
    out
}

fn add_section_if(w: &mut BaseWriter, present: bool, kind: SectionKind, bytes: Vec<u8>)
    ensures
        final(w)@ == (old(w)@.0, old(w)@.1 + section_if(present, kind, bytes@)),
{
    let ghost before = w@.1;
    if present {
        w.add_section(kind, bytes);
        assert(before.push((kind.code(), bytes@)) =~= before + section_if(present, kind, bytes@));
    } else {
        assert(before =~= before + section_if(present, kind, bytes@));
    }
}

/// Render the records of a generation into a base file.
pub fn render(
    models: &Vec<Model>,
    lex: &Vec<LexEntry>,
    ranks: &Vec<(u16, u32)>,
    generation: u64,
    wal_applied_seq: u64,
) -> (out: Vec<u8>)
    requires
        renderable(models_view(models@)),
        lex_renderable(models_view(models@), lex_view(lex@)),
        within_limits(models_view(models@), lex_view(lex@), ranks@),
    ensures
        out@ == rendered(
            models_view(models@),
            lex_view(lex@),
            ranks@,
            generation,
            wal_applied_seq,
        ),
{
    let ghost rows = models_view(models@);
    let ghost vs = lex_view(lex@);
    let n: usize = models.len();
    assert(rows.len() == n);
    let rows_e: Vec<Vec<EdgeRow>> = edge_rows(models);
    let degrees: Vec<u32> = in_degrees(models, &rows_e);
    let mut p: Parts = Parts {
        labels: Vec::new(),
        nodes: Vec::new(),
        segs: Vec::new(),
        index: Vec::new(),
        edges: Vec::new(),
        seg_total: 0,
        edge_total: 0,
        newest: 0,
    };
    proof {
        assert(Seq::<Seq<char>>::empty().map_values(|t: Seq<char>| str_bytes(t)) =~= Seq::empty());
        assert(segs_to(rows, 0).map_values(|f: SegFields| seg_rec_bytes(f)) =~= Seq::empty());
        assert(edges_to(rows, 0).map_values(|e: EdgeRow| edge_rec(e)) =~= Seq::empty());
        assert(Seq::new(0, |k: int| node_bytes(node_record(rows, k))) =~= Seq::empty());
        assert(index_parts(rows, 0) =~= Seq::empty());
        assert(rows.take(0) =~= Seq::empty());
    }
    let mut i: usize = 0;
    while i < n
        invariant
            rows == models_view(models@),
            vs == lex_view(lex@),
            renderable(rows),
            within_limits(rows, vs, ranks@),
            i <= n == models@.len(),
            rows.len() == n,
            rows_e@.len() == n,
            degrees@.len() == n,
            forall|k: int| 0 <= k < n ==> (#[trigger] rows_e@[k])@ == row_edges(rows, k),
            forall|k: int|
                0 <= k < n ==> #[trigger] degrees@[k] == count_to(
                    edges_to(rows, n as int),
                    k as u32,
                ),
            p.holds(rows, i as int),
        decreases n - i,
    {
        put_row(&mut p, models, i, &rows_e[i], degrees[i], Ghost(vs), Ghost(ranks@));
        i = i + 1;
    }
    assert(rows.take(n as int) =~= rows);
    let mut labels: Vec<u8> = p.labels;
    let (lex_recs, postings): (Vec<u8>, Vec<u8>) = put_lexicon(
        &mut labels,
        lex,
        Ghost(rows),
        Ghost(ranks@),
    );
    let mut index: Vec<u8> = p.index;
    put_u32(&mut index, p.edge_total);
    proof {
        let a = index_parts(rows, n as nat);
        let e = le_bytes(edges_to(rows, n as int).len(), 4);
        assert(index_parts(rows, (n + 1) as nat) =~= a.push(e));
        lemma_cat_push(a, e);
    }
    let header: Header = Header {
        flags: 0,
        section_count: 0,
        node_count: n as u32,
        seg_count: p.seg_total,
        edge_count: p.edge_total,
        token_count: lex.len() as u32,
        generation,
        wal_applied_seq,
        total_len: 0,
        created_at_ms: p.newest,
    };
    assert(header == base_header(rows, vs, generation, wal_applied_seq));
    let mut w: BaseWriter = BaseWriter::new(header);
    let some: bool = n > 0;
    add_section_if(&mut w, some, SectionKind::Nodes, p.nodes);
    add_section_if(&mut w, some && p.seg_total > 0, SectionKind::Segs, p.segs);
    add_section_if(&mut w, some, SectionKind::EdgeIndex, index);
    add_section_if(&mut w, some && p.edge_total > 0, SectionKind::Edges, p.edges);
    add_section_if(&mut w, some, SectionKind::Labels, labels);
    add_section_if(&mut w, some && lex.len() > 0, SectionKind::Lexicon, lex_recs);
    add_section_if(&mut w, some && lex.len() > 0, SectionKind::Postings, postings);
    add_section_if(&mut w, some, SectionKind::Ranks, put_ranks(ranks));
    proof {
        let secs = sections(rows, vs, ranks@);
        assert(nodes_table(rows) == p.nodes@);
        assert(w@.1 =~= secs);
        lemma_file_len_bound(secs, secs.len() as int);
        assert(secs.take(secs.len() as int) =~= secs);
    }
    w.finish()
}

/// Render an empty base for `generation` (store creation).
pub fn render_empty_base(generation: u64) -> (out: Vec<u8>)
    ensures
        out@ == rendered(Seq::empty(), Seq::empty(), Seq::empty(), generation, 0),
{
    let w: BaseWriter = BaseWriter::new(
        Header {
            flags: 0,
            section_count: 0,
            node_count: 0,
            seg_count: 0,
            edge_count: 0,
            token_count: 0,
            generation,
            wal_applied_seq: 0,
            total_len: 0,
            created_at_ms: 0,
        },
    );
    proof {
        let secs = sections(Seq::empty(), Seq::empty(), Seq::empty());
        assert(secs =~= Seq::empty());
        lemma_file_len_bound(secs, 0);
        assert(secs.take(0) =~= Seq::empty());
    }
    w.finish()
}

// ---- sizes ----------------------------------------------------------------

proof fn lemma_cat_len(parts: Seq<Seq<u8>>, w: int)
    requires
        forall|i: int| 0 <= i < parts.len() ==> (#[trigger] parts[i]).len() == w,
    ensures
        cat(parts).len() == parts.len() * w,
    decreases parts.len(),
{
    if parts.len() > 0 {
        let pre = parts.drop_last();
        assert forall|i: int| 0 <= i < pre.len() implies (#[trigger] pre[i]).len() == w by {
            assert(pre[i] == parts[i]);
        }
        lemma_cat_len(pre, w);
        assert(parts[parts.len() - 1].len() == w);
        assert((parts.len() - 1) * w + w == parts.len() * w) by (nonlinear_arith);
    }
}

/// How long the tables are.
pub proof fn lemma_table_lens(rows: Seq<ModelV>, lex: Seq<LexV>, ranks: Seq<(u16, u32)>)
    ensures
        nodes_table(rows).len() == rows.len() * 72,
        segs_table(rows).len() == segs_to(rows, rows.len() as int).len() * 24,
        index_table(rows).len() == (rows.len() + 1) * 4,
        edges_table(rows).len() == edges_to(rows, rows.len() as int).len() * 8,
        lex_table(rows, lex).len() == lex.len() * 24,
        ranks_table(ranks).len() == ranks.len() * 8,
{
    let nodes = Seq::new(rows.len(), |i: int| node_bytes(node_record(rows, i)));
    assert forall|i: int| 0 <= i < nodes.len() implies (#[trigger] nodes[i]).len() == 72 by {
        crate::format::base::records::law_node_record_round_trip(node_record(rows, i));
    }
    lemma_cat_len(nodes, 72);
    let sf = segs_to(rows, rows.len() as int);
    let segs = sf.map_values(|f: SegFields| seg_rec_bytes(f));
    assert forall|i: int| 0 <= i < segs.len() implies (#[trigger] segs[i]).len() == 24 by {
        crate::format::base::records::law_seg_record_round_trip(sf[i]);
    }
    lemma_cat_len(segs, 24);
    let index = index_parts(rows, rows.len() + 1);
    assert forall|i: int| 0 <= i < index.len() implies (#[trigger] index[i]).len() == 4 by {
        lemma_le_bytes_len(edges_to(rows, i).len(), 4);
    }
    lemma_cat_len(index, 4);
    let ef = edges_to(rows, rows.len() as int);
    let edges = ef.map_values(|e: EdgeRow| edge_rec(e));
    assert forall|i: int| 0 <= i < edges.len() implies (#[trigger] edges[i]).len() == 8 by {
        lemma_le_bytes_len(ef[i].0 as nat, 4);
        lemma_le_bytes_len(ef[i].3 as nat, 2);
    }
    lemma_cat_len(edges, 8);
    let ls = Seq::new(lex.len(), |i: int| lex_bytes(lex_record(rows, lex, i)));
    assert forall|i: int| 0 <= i < ls.len() implies (#[trigger] ls[i]).len() == 24 by {
        crate::format::base::records::law_lex_record_round_trip(lex_record(rows, lex, i));
    }
    lemma_cat_len(ls, 24);
    let rs = ranks.map_values(|r: (u16, u32)| rank_rec(r));
    assert forall|i: int| 0 <= i < rs.len() implies (#[trigger] rs[i]).len() == 8 by {
        lemma_le_bytes_len(ranks[i].0 as nat, 2);
        lemma_le_bytes_len(0, 2);
        lemma_le_bytes_len(ranks[i].1 as nat, 4);
    }
    lemma_cat_len(rs, 8);
}

proof fn lemma_total_join(a: Seq<(u16, Seq<u8>)>, b: Seq<(u16, Seq<u8>)>)
    ensures
        total_len(a + b) == total_len(a) + total_len(b),
    decreases b.len(),
{
    if b.len() == 0 {
        assert(a + b =~= a);
    } else {
        lemma_total_join(a, b.drop_last());
        assert((a + b).drop_last() =~= a + b.drop_last());
    }
}

proof fn lemma_total_if(present: bool, kind: SectionKind, bytes: Seq<u8>)
    ensures
        total_len(section_if(present, kind, bytes)) == (if present {
            bytes.len()
        } else {
            0
        }),
{
    reveal_with_fuel(total_len, 2);
    let s = section_if(present, kind, bytes);
    if present {
        assert(s.drop_last() =~= Seq::empty());
    }
}

proof fn lemma_sections_len(rows: Seq<ModelV>, lex: Seq<LexV>, ranks: Seq<(u16, u32)>)
    ensures
        total_len(sections(rows, lex, ranks)) == (if rows.len() == 0 {
            0
        } else {
            (rows.len() * 72 + segs_to(rows, rows.len() as int).len() * 24 + (rows.len() + 1) * 4
                + edges_to(rows, rows.len() as int).len() * 8 + heap(
                all_texts(rows, lex, lex.len() as int),
            ).len() + lex.len() * 24 + (if lex.len() > 0 {
                postings_to(lex, lex.len() as int).len()
            } else {
                0
            }) + ranks.len() * 8) as nat
        }),
{
    let n = rows.len() as int;
    let some = n > 0;
    let a = section_if(some, SectionKind::Nodes, nodes_table(rows));
    let b = section_if(some && segs_to(rows, n).len() > 0, SectionKind::Segs, segs_table(rows));
    let c = section_if(some, SectionKind::EdgeIndex, index_table(rows));
    let d = section_if(some && edges_to(rows, n).len() > 0, SectionKind::Edges, edges_table(rows));
    let e = section_if(some, SectionKind::Labels, heap(all_texts(rows, lex, lex.len() as int)));
    let f = section_if(some && lex.len() > 0, SectionKind::Lexicon, lex_table(rows, lex));
    let g = section_if(
        some && lex.len() > 0,
        SectionKind::Postings,
        postings_to(lex, lex.len() as int),
    );
    let h = section_if(some, SectionKind::Ranks, ranks_table(ranks));
    lemma_total_if(some, SectionKind::Nodes, nodes_table(rows));
    lemma_total_if(some && segs_to(rows, n).len() > 0, SectionKind::Segs, segs_table(rows));
    lemma_total_if(some, SectionKind::EdgeIndex, index_table(rows));
    lemma_total_if(some && edges_to(rows, n).len() > 0, SectionKind::Edges, edges_table(rows));
    lemma_total_if(some, SectionKind::Labels, heap(all_texts(rows, lex, lex.len() as int)));
    lemma_total_if(some && lex.len() > 0, SectionKind::Lexicon, lex_table(rows, lex));
    lemma_total_if(
        some && lex.len() > 0,
        SectionKind::Postings,
        postings_to(lex, lex.len() as int),
    );
    lemma_total_if(some, SectionKind::Ranks, ranks_table(ranks));
    lemma_total_join(a, b);
    lemma_total_join(a + b, c);
    lemma_total_join(a + b + c, d);
    lemma_total_join(a + b + c + d, e);
    lemma_total_join(a + b + c + d + e, f);
    lemma_total_join(a + b + c + d + e + f, g);
    lemma_total_join(a + b + c + d + e + f + g, h);
    lemma_table_lens(rows, lex, ranks);
}

fn label_len(s: &str) -> (r: u128)
    ensures
        r == str_bytes(s@).len(),
        r <= usize::MAX + 2,
{
    proof {
        lemma_le_bytes_len(encode_utf8(s@).len(), 2);
    }
    s.as_bytes().len() as u128 + 2
}

fn opt_label_len(s: &Option<String>, Ghost(ts): Ghost<Seq<Seq<char>>>) -> (r: u128)
    ensures
        heap(push_opt(ts, opt_view(*s))).len() == heap(ts).len() + r,
        r <= usize::MAX + 2,
{
    match s {
        Some(t) => {
            proof {
                lemma_heap_push(ts, t@);
            }
            label_len(t.as_str())
        },
        None => 0,
    }
}

/// A sum that stops growing once it is past what any limit allows.
fn add_capped(sum: u128, more: u128) -> (r: u128)
    requires
        sum <= 0x1_0000_0000_0000_0000_0000,
        more <= 0x1_0000_0000_0000_0000_0000,
    ensures
        r <= 0x1_0000_0000_0000_0000_0000,
        r == sum + more || (r == 0x1_0000_0000_0000_0000_0000 && sum + more
            > 0x1_0000_0000_0000_0000_0000),
{
    let s: u128 = sum + more;
    if s > 0x1_0000_0000_0000_0000_0000 {
        0x1_0000_0000_0000_0000_0000
    } else {
        s
    }
}

/// `v` counts `exact`, unless both are past what any limit allows.
spec fn counts(v: u128, exact: nat) -> bool {
    &&& v <= 0x1_0000_0000_0000_0000_0000
    &&& v == exact || (v == 0x1_0000_0000_0000_0000_0000 && exact >= 0x1_0000_0000_0000_0000_0000)
}

fn heap_size(models: &Vec<Model>, lex: &Vec<LexEntry>) -> (r: u128)
    ensures
        counts(
            r,
            heap(
                all_texts(models_view(models@), lex_view(lex@), lex@.len() as int),
            ).len(),
        ),
{
    let ghost rows = models_view(models@);
    let ghost vs = lex_view(lex@);
    let n: usize = models.len();
    let mut sum: u128 = 0;
    let mut i: usize = 0;
    assert(texts(rows, 0).map_values(|t: Seq<char>| str_bytes(t)) =~= Seq::empty());
    while i < n
        invariant
            i <= n == models@.len(),
            rows == models_view(models@),
            counts(sum, heap(texts(rows, i as int)).len()),
        decreases n - i,
    {
        let m: &Model = &models[i];
        let ghost mv = rows[i as int];
        assert(mv == m@);
        let ghost ts = texts(rows, i as int);
        if !m.url.as_str().is_empty() {
            proof {
                lemma_heap_push(ts, m.url@);
            }
            sum = add_capped(sum, label_len(m.url.as_str()));
        }
        assert(counts(sum, heap(after_url(ts, mv)).len()));
        sum = add_capped(sum, opt_label_len(&m.title, Ghost(after_url(ts, mv))));
        assert(counts(sum, heap(after_title(ts, mv)).len()));
        sum = add_capped(sum, opt_label_len(&m.snippet, Ghost(after_title(ts, mv))));
        assert(counts(sum, heap(after_snippet(ts, mv)).len()));
        sum = add_capped(sum, opt_label_len(&m.etag, Ghost(after_snippet(ts, mv))));
        assert(counts(sum, heap(after_etag(ts, mv)).len()));
        let k: usize = m.segs.len();
        let mut j: usize = 0;
        while j < k
            invariant
                j <= k == m.segs@.len(),
                mv == m@,
                counts(sum, heap(after_segs(ts, mv, j as int)).len()),
            decreases k - j,
        {
            assert(mv.segs[j as int] == m.segs@[j as int]@);
            proof {
                lemma_heap_push(after_segs(ts, mv, j as int), mv.segs[j as int].label);
            }
            sum = add_capped(sum, label_len(m.segs[j].label.as_str()));
            j = j + 1;
        }
        i = i + 1;
    }
    let t: usize = lex.len();
    let mut i: usize = 0;
    while i < t
        invariant
            i <= t == lex@.len(),
            vs == lex_view(lex@),
            counts(sum, heap(all_texts(rows, vs, i as int)).len()),
        decreases t - i,
    {
        assert(vs[i as int] == lex@[i as int]@);
        proof {
            lemma_heap_push(all_texts(rows, vs, i as int), vs[i as int].label);
        }
        sum = add_capped(sum, label_len(lex[i].label.as_str()));
        i = i + 1;
    }
    sum
}

fn record_counts(models: &Vec<Model>) -> (r: (u128, u128))
    ensures
        counts(r.0, segs_to(models_view(models@), models@.len() as int).len()),
        counts(r.1, edges_to(models_view(models@), models@.len() as int).len()),
{
    let ghost rows = models_view(models@);
    let n: usize = models.len();
    let mut segs: u128 = 0;
    let mut edges: u128 = 0;
    let mut i: usize = 0;
    while i < n
        invariant
            i <= n == models@.len(),
            rows == models_view(models@),
            counts(segs, segs_to(rows, i as int).len()),
            counts(edges, edges_to(rows, i as int).len()),
        decreases n - i,
    {
        assert(rows[i as int] == models@[i as int]@);
        assert(rows[i as int].segs.len() == models@[i as int].segs@.len());
        segs = add_capped(segs, models[i].segs.len() as u128);
        edges = add_capped(edges, models[i].edges.len() as u128);
        i = i + 1;
    }
    (segs, edges)
}

fn postings_size(lex: &Vec<LexEntry>, Ghost(rows): Ghost<Seq<ModelV>>) -> (r: u128)
    requires
        lex_renderable(rows, lex_view(lex@)),
        rows.len() <= u32::MAX,
    ensures
        counts(r, postings_to(lex_view(lex@), lex@.len() as int).len()),
{
    let ghost vs = lex_view(lex@);
    let n: usize = lex.len();
    let mut sum: u128 = 0;
    let mut i: usize = 0;
    while i < n
        invariant
            i <= n == lex@.len(),
            vs == lex_view(lex@),
            lex_renderable(rows, vs),
            rows.len() <= u32::MAX,
            counts(sum, postings_to(vs, i as int).len()),
        decreases n - i,
    {
        let e: &LexEntry = &lex[i];
        proof {
            assert(vs[i as int] == e@);
            assert(ids_up(vs[i as int].ids));
            assert forall|j: int| 0 <= j < e.ids@.len() implies (#[trigger] e.ids@[j])
                <= u32::MAX by {
                assert(vs[i as int].ids[j] < rows.len());
            }
        }
        let ids: Vec<u32> = small_ids(&e.ids);
        let mut one: Vec<u8> = Vec::new();
        encode_postings(ids.as_slice(), &mut one);
        assert(one@ =~= postings_bytes(ids32(e.ids@), 0));
        sum = add_capped(sum, one.len() as u128);
        i = i + 1;
    }
    sum
}

/// Whether every token fits a label.
fn tokens_fit(lex: &Vec<LexEntry>) -> (r: bool)
    ensures
        r == (forall|i: int| 0 <= i < lex@.len() ==> fits((#[trigger] lex_view(lex@)[i]).label)),
{
    let ghost vs = lex_view(lex@);
    let n: usize = lex.len();
    let mut i: usize = 0;
    while i < n
        invariant
            i <= n == lex@.len(),
            vs == lex_view(lex@),
            forall|j: int| 0 <= j < i ==> fits((#[trigger] vs[j]).label),
        decreases n - i,
    {
        assert(vs[i as int] == lex@[i as int]@);
        proof {
            lemma_le_bytes_len(encode_utf8(vs[i as int].label).len(), 2);
        }
        if label_len(lex[i].label.as_str()) > 0xffff + 2 {
            assert(!fits(vs[i as int].label));
            return false;
        }
        i = i + 1;
    }
    true
}

/// Whether the counts and offsets of a generation fit its format.
pub fn check_limits(models: &Vec<Model>, lex: &Vec<LexEntry>, ranks: &Vec<(u16, u32)>) -> (r: bool)
    requires
        lex_renderable(models_view(models@), lex_view(lex@)),
    ensures
        r == within_limits(models_view(models@), lex_view(lex@), ranks@),
{
    let ghost rows = models_view(models@);
    let ghost vs = lex_view(lex@);
    let n: usize = models.len();
    assert(rows.len() == n);
    assert(vs.len() == lex@.len());
    let max: u128 = 0xffff_ffff;
    if n as u128 > max || lex.len() as u128 > max || !tokens_fit(lex) {
        return false;
    }
    let (segs, edges): (u128, u128) = record_counts(models);
    let labels: u128 = heap_size(models, lex);
    let postings: u128 = postings_size(lex, Ghost(rows));
    if segs > max || edges > max || labels > max || postings > max {
        return false;
    }
    proof {
        lemma_sections_len(rows, vs, ranks@);
    }
    let mut total: u128 = 4096;
    if n > 0 {
        total = total + n as u128 * 72 + segs * 24 + (n as u128 + 1) * 4 + edges * 8 + labels
            + lex.len() as u128 * 24 + ranks.len() as u128 * 8;
        if lex.len() > 0 {
            total = total + postings;
        }
    }
    total <= usize::MAX as u128
}

} // verus!
