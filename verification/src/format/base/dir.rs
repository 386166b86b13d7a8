//! The directory of a base file, and the checks that make record access
//! infallible afterwards.
#[allow(unused_imports)]
use super::records::{
    label_fault, lex_fields, node_fields, rec_at, seg_fields, LexFields, NodeFields,
};
use super::records::{
    check_label, LexRec, NodeRec, SegRec, EDGE_LEN, LEX_LEN, NODE_LEN, RANK_LEN, SEG_LEN,
};
#[allow(unused_imports)]
use super::{header_fields, parsed_header, zeros};
use super::{Header, SectionKind, HEADER_LEN};
#[allow(unused_imports)]
use crate::bytesio::number_at;
use crate::bytesio::{get_u16, get_u32, get_u64, slice};
#[allow(unused_imports)]
use crate::error::Fault;
use crate::error::{Error, Result};
use crate::format::{ALIGN, DIR_ENTRY_LEN, TRAILER_LEN};
#[allow(unused_imports)]
use crate::key::xxh3;
use crate::key::xxh3_of;
use vstd::prelude::*;
use vstd::string::*;

verus! {

// ---- first failures -------------------------------------------------------

/// The first of two checks to fail.
pub open spec fn first_of(a: Option<Fault>, b: Option<Fault>) -> Option<Fault> {
    if a is Some {
        a
    } else {
        b
    }
}

/// The first of the checks `0 .. n` to fail.
pub open spec fn first_fault(f: spec_fn(int) -> Option<Fault>, n: nat) -> Option<Fault>
    decreases n,
{
    if n == 0 {
        None
    } else {
        first_of(first_fault(f, (n - 1) as nat), f(n - 1))
    }
}

/// Checks after the first failure do not matter.
pub proof fn lemma_first_fault_stays(f: spec_fn(int) -> Option<Fault>, m: nat, n: nat)
    requires
        m <= n,
        first_fault(f, m) is Some,
    ensures
        first_fault(f, n) == first_fault(f, m),
    decreases n,
{
    if m < n {
        lemma_first_fault_stays(f, m, (n - 1) as nat);
    }
}

/// Nothing fails if and only if every check passes.
pub proof fn lemma_no_fault(f: spec_fn(int) -> Option<Fault>, n: nat)
    ensures
        first_fault(f, n) is None <==> forall|i: int| 0 <= i < n ==> (#[trigger] f(i)) is None,
    decreases n,
{
    if n > 0 {
        lemma_no_fault(f, (n - 1) as nat);
        if first_fault(f, n) is None {
            assert forall|i: int| 0 <= i < n implies (#[trigger] f(i)) is None by {
                if i < n - 1 {
                }
            }
        }
        if forall|i: int| 0 <= i < n ==> (#[trigger] f(i)) is None {
            assert(f(n - 1) is None);
        }
    }
}

// ---- the directory --------------------------------------------------------

/// One directory entry: a section's tag and byte range.
pub struct Span {
    pub kind: u16,
    pub off: int,
    pub len: int,
}

/// A parsed directory.
pub struct DirV {
    pub header: Header,
    pub spans: Seq<Span>,
}

/// Where the directory ends.
pub open spec fn dir_end(h: Header) -> int {
    HEADER_LEN + h.section_count * DIR_ENTRY_LEN
}

/// Where the `i`-th entry begins.
pub open spec fn entry_at(i: int) -> int {
    HEADER_LEN + i * DIR_ENTRY_LEN
}

pub open spec fn entry_span(bytes: Seq<u8>, i: int) -> Span {
    Span {
        kind: number_at(bytes, entry_at(i), 2) as u16,
        off: number_at(bytes, entry_at(i) + 8, 8) as int,
        len: number_at(bytes, entry_at(i) + 16, 8) as int,
    }
}

/// What is wrong with the byte range of the `i`-th entry.
pub open spec fn range_fault(bytes: Seq<u8>, end: int, i: int) -> Option<Fault> {
    let s = entry_span(bytes, i);
    if s.off + s.len > u64::MAX {
        Some(Fault::Format("section overflow"@))
    } else if s.off < end || s.off + s.len > bytes.len() - TRAILER_LEN {
        Some(Fault::Format("section out of bounds"@))
    } else if s.off % ALIGN as int != 0 {
        Some(Fault::Format("section misaligned"@))
    } else {
        None
    }
}

/// What is wrong with the checksum of the `i`-th entry, if its section sums to
/// `sum`.
pub open spec fn sum_fault(bytes: Seq<u8>, i: int, sum: u64) -> Option<Fault> {
    if sum != number_at(bytes, entry_at(i) + 24, 8) {
        Some(Fault::Format("section checksum mismatch"@))
    } else {
        None
    }
}

pub open spec fn span_bytes(bytes: Seq<u8>, s: Span) -> Seq<u8> {
    bytes.subrange(s.off, s.off + s.len)
}

/// What is wrong with the `i`-th entry.
pub open spec fn entry_fault(bytes: Seq<u8>, end: int, i: int) -> Option<Fault> {
    first_of(
        range_fault(bytes, end, i),
        sum_fault(bytes, i, xxh3(span_bytes(bytes, entry_span(bytes, i)))),
    )
}

pub open spec fn entry_faults(bytes: Seq<u8>, end: int) -> spec_fn(int) -> Option<Fault> {
    |i: int| entry_fault(bytes, end, i)
}

pub open spec fn spans_of(bytes: Seq<u8>, n: nat) -> Seq<Span> {
    Seq::new(n, |i: int| entry_span(bytes, i))
}

/// The first entry of `kind` from the `i`-th on.
pub open spec fn find_span(spans: Seq<Span>, kind: u16, i: int) -> Option<int>
    decreases spans.len() - i,
{
    if i >= spans.len() {
        None
    } else if spans[i].kind == kind {
        Some(i)
    } else {
        find_span(spans, kind, i + 1)
    }
}

/// The bytes of a section, if the file has it.
pub open spec fn section_bytes(d: DirV, bytes: Seq<u8>, kind: SectionKind) -> Option<Seq<u8>> {
    match find_span(d.spans, kind.code(), 0) {
        Some(i) => Some(span_bytes(bytes, d.spans[i])),
        None => None,
    }
}

/// The sections of a base file.
pub struct Tables {
    pub nodes: Option<Seq<u8>>,
    pub segs: Option<Seq<u8>>,
    pub edge_index: Option<Seq<u8>>,
    pub edges: Option<Seq<u8>>,
    pub labels: Option<Seq<u8>>,
    pub lexicon: Option<Seq<u8>>,
    pub postings: Option<Seq<u8>>,
    pub ranks: Option<Seq<u8>>,
}

pub open spec fn tables(d: DirV, bytes: Seq<u8>) -> Tables {
    Tables {
        nodes: section_bytes(d, bytes, SectionKind::Nodes),
        segs: section_bytes(d, bytes, SectionKind::Segs),
        edge_index: section_bytes(d, bytes, SectionKind::EdgeIndex),
        edges: section_bytes(d, bytes, SectionKind::Edges),
        labels: section_bytes(d, bytes, SectionKind::Labels),
        lexicon: section_bytes(d, bytes, SectionKind::Lexicon),
        postings: section_bytes(d, bytes, SectionKind::Postings),
        ranks: section_bytes(d, bytes, SectionKind::Ranks),
    }
}

/// The bytes of a section that may be missing.
pub open spec fn raw(s: Option<Seq<u8>>) -> Seq<u8> {
    match s {
        Some(b) => b,
        None => Seq::empty(),
    }
}

// ---- what the sections must hold ------------------------------------------

pub open spec fn expect_fault(s: Option<Seq<u8>>, want: int, name: Seq<char>) -> Option<Fault> {
    match s {
        Some(b) => if b.len() == want {
            None
        } else {
            Some(Fault::Format(name + " section length mismatch"@))
        },
        None => if want == 0 {
            None
        } else {
            Some(Fault::Format("missing "@ + name + " section"@))
        },
    }
}

pub open spec fn lengths_fault(h: Header, t: Tables) -> Option<Fault> {
    first_of(
        expect_fault(t.nodes, h.node_count * NODE_LEN, "nodes"@),
        first_of(
            expect_fault(t.segs, h.seg_count * SEG_LEN, "segs"@),
            first_of(
                expect_fault(t.edges, h.edge_count * EDGE_LEN, "edges"@),
                first_of(
                    expect_fault(t.lexicon, h.token_count * LEX_LEN, "lexicon"@),
                    if h.node_count > 0 {
                        first_of(
                            expect_fault(t.edge_index, (h.node_count + 1) * 4, "edge index"@),
                            expect_fault(t.ranks, h.node_count * RANK_LEN, "ranks"@),
                        )
                    } else {
                        None
                    },
                ),
            ),
        ),
    )
}

pub open spec fn node_row(t: Tables, i: int) -> NodeFields {
    node_fields(rec_at(raw(t.nodes), NODE_LEN as int, i))
}

pub open spec fn lex_row(t: Tables, i: int) -> LexFields {
    lex_fields(rec_at(raw(t.lexicon), LEX_LEN as int, i))
}

pub open spec fn node_fault(h: Header, t: Tables, i: int) -> Option<Fault> {
    let f = node_row(t, i);
    let labels = raw(t.labels);
    first_of(
        label_fault(labels, f.url_off),
        first_of(
            label_fault(labels, f.title_off),
            first_of(
                label_fault(labels, f.snippet_off),
                first_of(
                    label_fault(labels, f.etag_off),
                    if f.seg_start + f.seg_count > h.seg_count {
                        Some(Fault::Format("segment run out of bounds"@))
                    } else {
                        None
                    },
                ),
            ),
        ),
    )
}

pub open spec fn node_faults(h: Header, t: Tables) -> spec_fn(int) -> Option<Fault> {
    |i: int| node_fault(h, t, i)
}

pub open spec fn seg_fault(t: Tables, i: int) -> Option<Fault> {
    label_fault(
        raw(t.labels),
        seg_fields(rec_at(raw(t.segs), SEG_LEN as int, i)).label_off,
    )
}

pub open spec fn seg_faults(t: Tables) -> spec_fn(int) -> Option<Fault> {
    |i: int| seg_fault(t, i)
}

/// Where the edges of the `i`-th node begin.
pub open spec fn edge_start(t: Tables, i: int) -> int {
    number_at(raw(t.edge_index), i * 4, 4) as int
}

pub open spec fn index_fault(h: Header, t: Tables, i: int) -> Option<Fault> {
    let prev = if i == 0 {
        0
    } else {
        edge_start(t, i - 1)
    };
    if edge_start(t, i) < prev || edge_start(t, i) > h.edge_count {
        Some(Fault::Format("edge index not monotone"@))
    } else {
        None
    }
}

pub open spec fn index_faults(h: Header, t: Tables) -> spec_fn(int) -> Option<Fault> {
    |i: int| index_fault(h, t, i)
}

/// The destination of the `i`-th edge.
pub open spec fn edge_dst(t: Tables, i: int) -> int {
    number_at(raw(t.edges), i * EDGE_LEN, 4) as int
}

pub open spec fn edge_fault(h: Header, t: Tables, i: int) -> Option<Fault> {
    if edge_dst(t, i) >= h.node_count {
        Some(Fault::Format("edge destination out of range"@))
    } else {
        None
    }
}

pub open spec fn edge_faults(h: Header, t: Tables) -> spec_fn(int) -> Option<Fault> {
    |i: int| edge_fault(h, t, i)
}

pub open spec fn graph_fault(h: Header, t: Tables) -> Option<Fault> {
    if h.node_count == 0 {
        None
    } else {
        first_of(
            first_fault(index_faults(h, t), (h.node_count + 1) as nat),
            first_of(
                if edge_start(t, h.node_count as int) != h.edge_count {
                    Some(Fault::Format("edge index does not cover edges"@))
                } else {
                    None
                },
                first_fault(edge_faults(h, t), h.edge_count as nat),
            ),
        )
    }
}

pub open spec fn lex_fault(t: Tables, i: int) -> Option<Fault> {
    let f = lex_row(t, i);
    if i > 0 && f.token_hash <= lex_row(t, i - 1).token_hash {
        Some(Fault::Format("lexicon not sorted"@))
    } else if f.postings_off + f.postings_len > raw(t.postings).len() {
        Some(Fault::Format("postings range out of bounds"@))
    } else {
        label_fault(raw(t.labels), f.label_off)
    }
}

pub open spec fn lex_faults(t: Tables) -> spec_fn(int) -> Option<Fault> {
    |i: int| lex_fault(t, i)
}

pub open spec fn order_fault(t: Tables, i: int) -> Option<Fault> {
    if i > 0 && node_row(t, i).url_key <= node_row(t, i - 1).url_key {
        Some(Fault::Format("nodes not sorted by url_key"@))
    } else {
        None
    }
}

pub open spec fn order_faults(t: Tables) -> spec_fn(int) -> Option<Fault> {
    |i: int| order_fault(t, i)
}

/// The first thing wrong with the sections.
pub open spec fn counts_fault(h: Header, t: Tables) -> Option<Fault> {
    first_of(
        lengths_fault(h, t),
        first_of(
            first_fault(node_faults(h, t), h.node_count as nat),
            first_of(
                first_fault(seg_faults(t), h.seg_count as nat),
                first_of(
                    graph_fault(h, t),
                    first_of(
                        first_fault(lex_faults(t), h.token_count as nat),
                        first_fault(order_faults(t), h.node_count as nat),
                    ),
                ),
            ),
        ),
    )
}

/// What parsing a base file gives: its directory, or the first thing wrong
/// with it.
pub open spec fn parsed_dir(bytes: Seq<u8>) -> Result<DirV, Fault> {
    match parsed_header(bytes) {
        Err(e) => Err(e),
        Ok(h) => {
            let end = bytes.len() - TRAILER_LEN;
            if h.total_len != bytes.len() {
                Err(Fault::Format("total_len does not match file size"@))
            } else if bytes.len() < HEADER_LEN + TRAILER_LEN {
                Err(Fault::Format("file too short for trailer"@))
            } else if xxh3(bytes.subrange(0, end)) != number_at(bytes, end, 8) {
                Err(Fault::Format("file trailer checksum mismatch"@))
            } else if dir_end(h) > end {
                Err(Fault::Format("directory exceeds file"@))
            } else {
                match first_fault(entry_faults(bytes, dir_end(h)), h.section_count as nat) {
                    Some(e) => Err(e),
                    None => {
                        let d = DirV { header: h, spans: spans_of(bytes, h.section_count as nat) };
                        match counts_fault(h, tables(d, bytes)) {
                            Some(e) => Err(e),
                            None => Ok(d),
                        }
                    },
                }
            }
        },
    }
}

/// Parsed directory of a validated base file: the header plus each section's
/// byte range. Holds offsets, not borrows, so the owner can keep it alongside
/// the bytes it describes.
#[derive(Debug)]
pub struct BaseDir {
    /// The validated header.
    pub header: Header,
    /// Each section's tag, offset and length.
    pub sections: Vec<(u16, usize, usize)>,
}

impl View for BaseDir {
    type V = DirV;

    open spec fn view(&self) -> DirV {
        DirV { header: self.header, spans: spans_view(self.sections@) }
    }
}

pub open spec fn span_view(s: (u16, usize, usize)) -> Span {
    Span { kind: s.0, off: s.1 as int, len: s.2 as int }
}

pub open spec fn spans_view(s: Seq<(u16, usize, usize)>) -> Seq<Span> {
    s.map_values(|e: (u16, usize, usize)| span_view(e))
}

/// Every section lies within `n` bytes.
pub open spec fn spans_within(spans: Seq<Span>, n: int) -> bool {
    forall|i: int|
        0 <= i < spans.len() ==> 0 <= (#[trigger] spans[i]).off && 0 <= spans[i].len && spans[i].off
            + spans[i].len <= n
}

fn is_len(s: Option<&[u8]>, want: u64, name: &str) -> (r: Result<()>)
    ensures
        match r {
            Ok(_) => expect_fault(opt_bytes(s), want as int, name@) is None,
            Err(e) => expect_fault(opt_bytes(s), want as int, name@) == Some(e@),
        },
{
    match s {
        Some(b) => {
            if b.len() as u64 == want {
                Ok(())
            } else {
                let mut message: String = name.to_owned();
                message.append(" section length mismatch");
                Err(Error::Format { message })
            }
        },
        None => {
            if want == 0 {
                Ok(())
            } else {
                let mut message: String = "missing ".to_owned();
                message.append(name);
                message.append(" section");
                Err(Error::Format { message })
            }
        },
    }
}

pub open spec fn opt_bytes(s: Option<&[u8]>) -> Option<Seq<u8>> {
    match s {
        Some(b) => Some(b@),
        None => None,
    }
}

fn or_empty<'a>(s: Option<&'a [u8]>) -> (b: &'a [u8])
    ensures
        b@ == raw(opt_bytes(s)),
{
    match s {
        Some(b) => b,
        None => {
            let b: &'a [u8] = &[];
            assert(b@ =~= Seq::empty());
            b
        },
    }
}

/// The `i`-th record of width `w`.
pub fn record<'a>(table: &'a [u8], w: usize, i: usize) -> (r: &'a [u8])
    requires
        i * w + w <= table@.len(),
    ensures
        r@ == rec_at(table@, w as int, i as int),
        r@.len() == w,
{
    let end: usize = table.len();
    assert(0 <= i * w) by (nonlinear_arith);
    slice(table, i * w, i * w + w)
}

proof fn lemma_row_fits(i: int, n: int, w: int, len: int)
    requires
        0 <= i < n,
        0 <= w,
        n * w <= len,
    ensures
        0 <= i * w,
        i * w + w <= len,
{
    assert(i * w + w <= n * w) by (nonlinear_arith)
        requires
            0 <= i < n,
            0 <= w,
    ;
    assert(0 <= i * w) by (nonlinear_arith)
        requires
            0 <= i,
            0 <= w,
    ;
}

fn check_nodes(h: &Header, nodes: &[u8], labels: &[u8], Ghost(t): Ghost<Tables>) -> (r: Result<()>)
    requires
        nodes@ == raw(t.nodes),
        labels@ == raw(t.labels),
        nodes@.len() == h.node_count * NODE_LEN,
    ensures
        match r {
            Ok(_) => first_fault(node_faults(*h, t), h.node_count as nat) is None,
            Err(e) => first_fault(node_faults(*h, t), h.node_count as nat) == Some(e@),
        },
{
    let n: u32 = h.node_count;
    let ghost f = node_faults(*h, t);
    let mut i: u32 = 0;
    while i < n
        invariant
            i <= n == h.node_count,
            f == node_faults(*h, t),
            nodes@ == raw(t.nodes),
            labels@ == raw(t.labels),
            nodes@.len() == n * NODE_LEN,
            first_fault(f, i as nat) is None,
        decreases n - i,
    {
        let ghost row = node_fault(*h, t, i as int);
        assert(f(i as int) == row);
        assert(first_fault(f, (i + 1) as nat) == row);
        proof {
            lemma_row_fits(i as int, n as int, NODE_LEN as int, nodes@.len() as int);
        }
        let rec: NodeRec<'_> = NodeRec(record(nodes, NODE_LEN, i as usize));
        match check_node(h, rec, labels) {
            Ok(_) => {},
            Err(e) => {
                proof {
                    lemma_first_fault_stays(f, (i + 1) as nat, n as nat);
                }
                return Err(e);
            },
        }
        i = i + 1;
    }
    Ok(())
}

fn check_node(h: &Header, rec: NodeRec<'_>, labels: &[u8]) -> (r: Result<()>)
    requires
        rec.wf(),
    ensures
        ({
            let f = rec.says();
            let fault = first_of(
                label_fault(labels@, f.url_off),
                first_of(
                    label_fault(labels@, f.title_off),
                    first_of(
                        label_fault(labels@, f.snippet_off),
                        first_of(
                            label_fault(labels@, f.etag_off),
                            if f.seg_start + f.seg_count > h.seg_count {
                                Some(Fault::Format("segment run out of bounds"@))
                            } else {
                                None
                            },
                        ),
                    ),
                ),
            );
            match r {
                Ok(_) => fault is None,
                Err(e) => fault == Some(e@),
            }
        }),
{
    check_label(labels, rec.url_off())?;
    check_label(labels, rec.title_off())?;
    check_label(labels, rec.snippet_off())?;
    check_label(labels, rec.etag_off())?;
    if rec.seg_start() as u64 + rec.seg_count() as u64 > h.seg_count as u64 {
        return Err(Error::format("segment run out of bounds"));
    }
    Ok(())
}

fn check_segs(n: u32, segs: &[u8], labels: &[u8], Ghost(t): Ghost<Tables>) -> (r: Result<()>)
    requires
        segs@ == raw(t.segs),
        labels@ == raw(t.labels),
        segs@.len() == n * SEG_LEN,
    ensures
        match r {
            Ok(_) => first_fault(seg_faults(t), n as nat) is None,
            Err(e) => first_fault(seg_faults(t), n as nat) == Some(e@),
        },
{
    let ghost f = seg_faults(t);
    let mut i: u32 = 0;
    while i < n
        invariant
            i <= n,
            f == seg_faults(t),
            segs@ == raw(t.segs),
            labels@ == raw(t.labels),
            segs@.len() == n * SEG_LEN,
            first_fault(f, i as nat) is None,
        decreases n - i,
    {
        assert(f(i as int) == seg_fault(t, i as int));
        assert(first_fault(f, (i + 1) as nat) == seg_fault(t, i as int));
        proof {
            lemma_row_fits(i as int, n as int, SEG_LEN as int, segs@.len() as int);
        }
        let rec: SegRec<'_> = SegRec(record(segs, SEG_LEN, i as usize));
        match check_label(labels, rec.label_off()) {
            Ok(_) => {},
            Err(e) => {
                proof {
                    lemma_first_fault_stays(f, (i + 1) as nat, n as nat);
                }
                return Err(e);
            },
        }
        i = i + 1;
    }
    Ok(())
}

fn check_index(h: &Header, index: &[u8], Ghost(t): Ghost<Tables>) -> (r: Result<()>)
    requires
        index@ == raw(t.edge_index),
        index@.len() == (h.node_count + 1) * 4,
    ensures
        match r {
            Ok(_) => first_fault(index_faults(*h, t), (h.node_count + 1) as nat) is None,
            Err(e) => first_fault(index_faults(*h, t), (h.node_count + 1) as nat) == Some(e@),
        },
{
    let n: u32 = h.node_count;
    let ghost f = index_faults(*h, t);
    let mut prev: u32 = 0;
    let mut i: u64 = 0;
    while i <= n as u64
        invariant
            i <= n + 1,
            n == h.node_count,
            f == index_faults(*h, t),
            index@ == raw(t.edge_index),
            index@.len() == (n + 1) * 4,
            first_fault(f, i as nat) is None,
            prev == (if i == 0 {
                0
            } else {
                edge_start(t, i - 1)
            }),
        decreases n + 1 - i,
    {
        assert(f(i as int) == index_fault(*h, t, i as int));
        assert(first_fault(f, (i + 1) as nat) == index_fault(*h, t, i as int));
        let len: usize = index.len();
        assert(i * 4 + 4 <= len);
        let v: u32 = get_u32(index, i as usize * 4);
        assert(v == edge_start(t, i as int));
        if v < prev || v > h.edge_count {
            proof {
                lemma_first_fault_stays(f, (i + 1) as nat, (n + 1) as nat);
            }
            return Err(Error::format("edge index not monotone"));
        }
        prev = v;
        i = i + 1;
    }
    Ok(())
}

fn check_edges(h: &Header, edges: &[u8], Ghost(t): Ghost<Tables>) -> (r: Result<()>)
    requires
        edges@ == raw(t.edges),
        edges@.len() == h.edge_count * EDGE_LEN,
    ensures
        match r {
            Ok(_) => first_fault(edge_faults(*h, t), h.edge_count as nat) is None,
            Err(e) => first_fault(edge_faults(*h, t), h.edge_count as nat) == Some(e@),
        },
{
    let n: u32 = h.edge_count;
    let ghost f = edge_faults(*h, t);
    let mut i: u32 = 0;
    while i < n
        invariant
            i <= n == h.edge_count,
            f == edge_faults(*h, t),
            edges@ == raw(t.edges),
            edges@.len() == n * EDGE_LEN,
            first_fault(f, i as nat) is None,
        decreases n - i,
    {
        assert(f(i as int) == edge_fault(*h, t, i as int));
        assert(first_fault(f, (i + 1) as nat) == edge_fault(*h, t, i as int));
        let len: usize = edges.len();
        assert(i * EDGE_LEN + 8 <= len);
        if get_u32(edges, i as usize * EDGE_LEN) >= h.node_count {
            proof {
                lemma_first_fault_stays(f, (i + 1) as nat, n as nat);
            }
            return Err(Error::format("edge destination out of range"));
        }
        i = i + 1;
    }
    Ok(())
}

fn check_lexicon(
    n: u32,
    lex: &[u8],
    postings: &[u8],
    labels: &[u8],
    Ghost(t): Ghost<Tables>,
) -> (r: Result<()>)
    requires
        lex@ == raw(t.lexicon),
        postings@ == raw(t.postings),
        labels@ == raw(t.labels),
        lex@.len() == n * LEX_LEN,
    ensures
        match r {
            Ok(_) => first_fault(lex_faults(t), n as nat) is None,
            Err(e) => first_fault(lex_faults(t), n as nat) == Some(e@),
        },
{
    let ghost f = lex_faults(t);
    let mut prev: u64 = 0;
    let mut i: u32 = 0;
    while i < n
        invariant
            i <= n,
            f == lex_faults(t),
            lex@ == raw(t.lexicon),
            postings@ == raw(t.postings),
            labels@ == raw(t.labels),
            lex@.len() == n * LEX_LEN,
            first_fault(f, i as nat) is None,
            i > 0 ==> prev == lex_row(t, i - 1).token_hash,
        decreases n - i,
    {
        assert(f(i as int) == lex_fault(t, i as int));
        assert(first_fault(f, (i + 1) as nat) == lex_fault(t, i as int));
        proof {
            lemma_row_fits(i as int, n as int, LEX_LEN as int, lex@.len() as int);
            if first_fault(f, (i + 1) as nat) is Some {
                lemma_first_fault_stays(f, (i + 1) as nat, n as nat);
            }
        }
        let rec: LexRec<'_> = LexRec(record(lex, LEX_LEN, i as usize));
        assert(rec.says() == lex_row(t, i as int));
        if i > 0 && rec.token_hash() <= prev {
            return Err(Error::format("lexicon not sorted"));
        }
        prev = rec.token_hash();
        if rec.postings_off() as u64 + rec.postings_len() as u64 > postings.len() as u64 {
            return Err(Error::format("postings range out of bounds"));
        }
        check_label(labels, rec.label_off())?;
        i = i + 1;
    }
    Ok(())
}

fn check_order(n: u32, nodes: &[u8], Ghost(t): Ghost<Tables>) -> (r: Result<()>)
    requires
        nodes@ == raw(t.nodes),
        nodes@.len() == n * NODE_LEN,
    ensures
        match r {
            Ok(_) => first_fault(order_faults(t), n as nat) is None,
            Err(e) => first_fault(order_faults(t), n as nat) == Some(e@),
        },
{
    let ghost f = order_faults(t);
    let mut prev: u64 = 0;
    let mut i: u32 = 0;
    while i < n
        invariant
            i <= n,
            f == order_faults(t),
            nodes@ == raw(t.nodes),
            nodes@.len() == n * NODE_LEN,
            first_fault(f, i as nat) is None,
            i > 0 ==> prev == node_row(t, i - 1).url_key,
        decreases n - i,
    {
        assert(f(i as int) == order_fault(t, i as int));
        assert(first_fault(f, (i + 1) as nat) == order_fault(t, i as int));
        proof {
            lemma_row_fits(i as int, n as int, NODE_LEN as int, nodes@.len() as int);
            if first_fault(f, (i + 1) as nat) is Some {
                lemma_first_fault_stays(f, (i + 1) as nat, n as nat);
            }
        }
        let key: u64 = NodeRec(record(nodes, NODE_LEN, i as usize)).url_key().0;
        if i > 0 && key <= prev {
            return Err(Error::format("nodes not sorted by url_key"));
        }
        prev = key;
        i = i + 1;
    }
    Ok(())
}

fn check_entry(bytes: &[u8], end: u64, i: u32) -> (r: Result<(u16, usize, usize)>)
    requires
        entry_at(i as int) + DIR_ENTRY_LEN <= bytes@.len(),
        bytes@.len() >= TRAILER_LEN,
    ensures
        match r {
            Ok(s) => range_fault(bytes@, end as int, i as int) is None && span_view(s)
                == entry_span(bytes@, i as int),
            Err(e) => range_fault(bytes@, end as int, i as int) == Some(e@),
        },
{
    let len: usize = bytes.len();
    let e: usize = HEADER_LEN + i as usize * DIR_ENTRY_LEN;
    let kind: u16 = get_u16(bytes, e);
    let off: u64 = get_u64(bytes, e + 8);
    let length: u64 = get_u64(bytes, e + 16);
    if u64::MAX - off < length {
        return Err(Error::format("section overflow"));
    }
    if off < end || off + length > (len - TRAILER_LEN) as u64 {
        return Err(Error::format("section out of bounds"));
    }
    if off % ALIGN as u64 != 0 {
        return Err(Error::format("section misaligned"));
    }
    Ok((kind, off as usize, length as usize))
}

impl BaseDir {
    /// `self` is the directory of `bytes`.
    pub open spec fn describes(&self, bytes: Seq<u8>) -> bool {
        parsed_dir(bytes) == Ok::<DirV, Fault>(self@)
    }

    /// Validate `bytes` end to end (magic, version, checksums, directory
    /// bounds and alignment, per-section checksums, trailer) and return the
    /// directory.
    pub fn parse(bytes: &[u8]) -> (r: Result<BaseDir>)
        ensures
            match r {
                Ok(d) => d.describes(bytes@),
                Err(e) => parsed_dir(bytes@) == Err::<DirV, Fault>(e@),
            },
    {
        let len: usize = bytes.len();
        let header: Header = Header::parse(bytes)?;
        if header.total_len != len as u64 {
            return Err(Error::format("total_len does not match file size"));
        }
        if len < HEADER_LEN + TRAILER_LEN {
            return Err(Error::format("file too short for trailer"));
        }
        let trailer: usize = len - TRAILER_LEN;
        if xxh3_of(slice(bytes, 0, trailer)) != get_u64(bytes, trailer) {
            return Err(Error::format("file trailer checksum mismatch"));
        }
        let end: u64 = HEADER_LEN as u64 + header.section_count as u64 * DIR_ENTRY_LEN as u64;
        if end > trailer as u64 {
            return Err(Error::format("directory exceeds file"));
        }
        let n: u32 = header.section_count;
        let ghost f = entry_faults(bytes@, end as int);
        let mut sections: Vec<(u16, usize, usize)> = Vec::with_capacity(n as usize);
        let mut i: u32 = 0;
        while i < n
            invariant
                i <= n == header.section_count,
                len == bytes@.len(),
                trailer == len - TRAILER_LEN,
                len >= HEADER_LEN + TRAILER_LEN,
                end == dir_end(header),
                end <= trailer,
                f == entry_faults(bytes@, end as int),
                first_fault(f, i as nat) is None,
                sections@.len() == i,
                forall|k: int|
                    0 <= k < i ==> span_view(#[trigger] sections@[k]) == entry_span(bytes@, k),
                spans_within(spans_view(sections@), trailer as int),
                parsed_header(bytes@) == Ok::<Header, Fault>(header),
                header.total_len == len,
                xxh3(bytes@.subrange(0, trailer as int)) == number_at(bytes@, trailer as int, 8),
            decreases n - i,
        {
            assert(f(i as int) == entry_fault(bytes@, end as int, i as int));
            assert(first_fault(f, (i + 1) as nat) == entry_fault(bytes@, end as int, i as int));
            proof {
                if first_fault(f, (i + 1) as nat) is Some {
                    lemma_first_fault_stays(f, (i + 1) as nat, n as nat);
                }
            }
            let s: (u16, usize, usize) = check_entry(bytes, end, i)?;
            let sum: u64 = xxh3_of(slice(bytes, s.1, s.1 + s.2));
            let e: usize = HEADER_LEN + i as usize * DIR_ENTRY_LEN;
            if sum != get_u64(bytes, e + 24) {
                return Err(Error::format("section checksum mismatch"));
            }
            let ghost was = sections@;
            sections.push(s);
            assert(spans_view(sections@) =~= spans_view(was).push(span_view(s)));
            i = i + 1;
        }
        assert(spans_view(sections@) =~= spans_of(bytes@, n as nat));
        let dir: BaseDir = BaseDir { header, sections };
        match dir.check_counts(bytes) {
            Ok(_) => Ok(dir),
            Err(e) => Err(e),
        }
    }

    /// Cross-check declared counts against actual section byte lengths, and
    /// every reference between records, so that record accessors can index
    /// without per-access bounds errors.
    pub fn check_counts(&self, bytes: &[u8]) -> (r: Result<()>)
        requires
            spans_within(self@.spans, bytes@.len() as int),
        ensures
            match r {
                Ok(_) => counts_fault(self@.header, tables(self@, bytes@)) is None,
                Err(e) => counts_fault(self@.header, tables(self@, bytes@)) == Some(e@),
            },
    {
        let ghost t = tables(self@, bytes@);
        let h: &Header = &self.header;
        let nodes: Option<&[u8]> = self.section(bytes, SectionKind::Nodes);
        let segs: Option<&[u8]> = self.section(bytes, SectionKind::Segs);
        let edges: Option<&[u8]> = self.section(bytes, SectionKind::Edges);
        let lexicon: Option<&[u8]> = self.section(bytes, SectionKind::Lexicon);
        let index: Option<&[u8]> = self.section(bytes, SectionKind::EdgeIndex);
        let ranks: Option<&[u8]> = self.section(bytes, SectionKind::Ranks);
        is_len(nodes, h.node_count as u64 * NODE_LEN as u64, "nodes")?;
        is_len(segs, h.seg_count as u64 * SEG_LEN as u64, "segs")?;
        is_len(edges, h.edge_count as u64 * EDGE_LEN as u64, "edges")?;
        is_len(lexicon, h.token_count as u64 * LEX_LEN as u64, "lexicon")?;
        if h.node_count > 0 {
            is_len(index, (h.node_count as u64 + 1) * 4, "edge index")?;
            is_len(ranks, h.node_count as u64 * RANK_LEN as u64, "ranks")?;
        }
        assert(lengths_fault(*h, t) is None);
        let labels: &[u8] = or_empty(self.section(bytes, SectionKind::Labels));
        check_nodes(h, or_empty(nodes), labels, Ghost(t))?;
        check_segs(h.seg_count, or_empty(segs), labels, Ghost(t))?;
        if h.node_count > 0 {
            let index: &[u8] = or_empty(index);
            check_index(h, index, Ghost(t))?;
            let last: usize = h.node_count as usize;
            let len: usize = index.len();
            if get_u32(index, last * 4) != h.edge_count {
                return Err(Error::format("edge index does not cover edges"));
            }
            check_edges(h, or_empty(edges), Ghost(t))?;
        }
        assert(graph_fault(*h, t) is None);
        let postings: &[u8] = or_empty(self.section(bytes, SectionKind::Postings));
        check_lexicon(h.token_count, or_empty(lexicon), postings, labels, Ghost(t))?;
        check_order(h.node_count, or_empty(nodes), Ghost(t))
    }

    /// The byte range of `kind`, if present.
    #[must_use]
    pub fn section<'a>(&self, bytes: &'a [u8], kind: SectionKind) -> (r: Option<&'a [u8]>)
        requires
            spans_within(self@.spans, bytes@.len() as int),
        ensures
            opt_bytes(r) == section_bytes(self@, bytes@, kind),
    {
        let tag: u16 = kind.tag();
        let len: usize = bytes.len();
        let n: usize = self.sections.len();
        let mut i: usize = 0;
        while i < n
            invariant
                i <= n == self.sections@.len(),
                len == bytes@.len(),
                tag == kind.code(),
                spans_within(self@.spans, bytes@.len() as int),
                find_span(self@.spans, tag, 0) == find_span(self@.spans, tag, i as int),
            decreases n - i,
        {
            let s: (u16, usize, usize) = self.sections[i];
            assert(self@.spans[i as int] == span_view(s));
            if s.0 == tag {
                return Some(slice(bytes, s.1, s.1 + s.2));
            }
            i = i + 1;
        }
        None
    }
}

/// What holds of the sections of an accepted base file: every table is as long
/// as its count says, every reference between records resolves, node keys and
/// token hashes strictly ascend.
pub open spec fn sound(h: Header, t: Tables) -> bool {
    &&& raw(t.nodes).len() == h.node_count * NODE_LEN
    &&& raw(t.segs).len() == h.seg_count * SEG_LEN
    &&& raw(t.edges).len() == h.edge_count * EDGE_LEN
    &&& raw(t.lexicon).len() == h.token_count * LEX_LEN
    &&& h.node_count > 0 ==> raw(t.edge_index).len() == (h.node_count + 1) * 4
    &&& h.node_count > 0 ==> raw(t.ranks).len() == h.node_count * RANK_LEN
    &&& forall|i: int| 0 <= i < h.node_count ==> #[trigger] node_resolves(h, t, i)
    &&& forall|i: int| 0 <= i < h.seg_count ==> (#[trigger] seg_fault(t, i)) is None
    &&& h.node_count > 0 ==> index_covers(h, t)
    &&& h.node_count > 0 ==> forall|i: int|
        0 <= i < h.edge_count ==> (#[trigger] edge_dst(t, i)) < h.node_count
    &&& forall|i: int| 0 <= i < h.token_count ==> #[trigger] lex_resolves(t, i)
    &&& forall|i: int, j: int|
        0 <= i < j < h.token_count ==> (#[trigger] lex_row(t, i)).token_hash < (#[trigger] lex_row(
            t,
            j,
        )).token_hash
    &&& forall|i: int, j: int|
        0 <= i < j < h.node_count ==> (#[trigger] node_row(t, i)).url_key < (#[trigger] node_row(
            t,
            j,
        )).url_key
}

/// The labels and the segments of the `i`-th node are there.
pub open spec fn node_resolves(h: Header, t: Tables, i: int) -> bool {
    let f = node_row(t, i);
    &&& label_fault(raw(t.labels), f.url_off) is None
    &&& label_fault(raw(t.labels), f.title_off) is None
    &&& label_fault(raw(t.labels), f.snippet_off) is None
    &&& label_fault(raw(t.labels), f.etag_off) is None
    &&& f.seg_start + f.seg_count <= h.seg_count
}

/// The postings and the label of the `i`-th token are there.
pub open spec fn lex_resolves(t: Tables, i: int) -> bool {
    let f = lex_row(t, i);
    &&& label_fault(raw(t.labels), f.label_off) is None
    &&& f.postings_off + f.postings_len <= raw(t.postings).len()
}

/// The edge runs of the nodes are in order and use up all edges.
pub open spec fn index_covers(h: Header, t: Tables) -> bool {
    &&& forall|i: int, j: int|
        0 <= i <= j <= h.node_count ==> (#[trigger] edge_start(t, i)) <= (#[trigger] edge_start(
            t,
            j,
        ))
    &&& edge_start(t, h.node_count as int) == h.edge_count
}

/// Sections of these sizes are there unless they would be empty.
pub open spec fn present(h: Header, t: Tables) -> bool {
    &&& t.nodes is None ==> h.node_count == 0
    &&& t.segs is None ==> h.seg_count == 0
    &&& t.edges is None ==> h.edge_count == 0
    &&& t.lexicon is None ==> h.token_count == 0
}

proof fn lemma_pairwise_index(h: Header, t: Tables, i: int, j: int)
    requires
        forall|k: int| 0 <= k <= h.node_count ==> (#[trigger] index_fault(h, t, k)) is None,
        0 <= i <= j <= h.node_count,
    ensures
        edge_start(t, i) <= edge_start(t, j),
    decreases j - i,
{
    if i < j {
        assert(index_fault(h, t, j) is None);
        lemma_pairwise_index(h, t, i, j - 1);
    }
}

proof fn lemma_pairwise_tokens(t: Tables, n: int, i: int, j: int)
    requires
        forall|k: int| 0 <= k < n ==> (#[trigger] lex_fault(t, k)) is None,
        0 <= i < j < n,
    ensures
        lex_row(t, i).token_hash < lex_row(t, j).token_hash,
    decreases j - i,
{
    assert(lex_fault(t, j) is None);
    if i < j - 1 {
        lemma_pairwise_tokens(t, n, i, j - 1);
    }
}

proof fn lemma_pairwise_keys(t: Tables, n: int, i: int, j: int)
    requires
        forall|k: int| 0 <= k < n ==> (#[trigger] order_fault(t, k)) is None,
        0 <= i < j < n,
    ensures
        node_row(t, i).url_key < node_row(t, j).url_key,
    decreases j - i,
{
    assert(order_fault(t, j) is None);
    if i < j - 1 {
        lemma_pairwise_keys(t, n, i, j - 1);
    }
}

/// The sections of a base file are accepted if and only if they are sound.
pub proof fn law_accepted_means_sound(h: Header, t: Tables)
    ensures
        counts_fault(h, t) is None <==> sound(h, t) && lengths_fault(h, t) is None,
        sound(h, t) && present(h, t) && (h.node_count > 0 ==> t.edge_index is Some && t.ranks is Some)
            ==> lengths_fault(h, t) is None,
{
    let n = h.node_count as nat;
    lemma_no_fault(node_faults(h, t), n);
    lemma_no_fault(seg_faults(t), h.seg_count as nat);
    lemma_no_fault(index_faults(h, t), n + 1);
    lemma_no_fault(edge_faults(h, t), h.edge_count as nat);
    lemma_no_fault(lex_faults(t), h.token_count as nat);
    lemma_no_fault(order_faults(t), n);
    if counts_fault(h, t) is None {
        lemma_accepted_is_sound(h, t);
    }
    if sound(h, t) && lengths_fault(h, t) is None {
        lemma_sound_is_accepted(h, t);
    }
}

proof fn lemma_accepted_is_sound(h: Header, t: Tables)
    requires
        counts_fault(h, t) is None,
    ensures
        sound(h, t),
{
    let n = h.node_count as nat;
    lemma_no_fault(node_faults(h, t), n);
    lemma_no_fault(seg_faults(t), h.seg_count as nat);
    lemma_no_fault(index_faults(h, t), n + 1);
    lemma_no_fault(edge_faults(h, t), h.edge_count as nat);
    lemma_no_fault(lex_faults(t), h.token_count as nat);
    lemma_no_fault(order_faults(t), n);
    assert forall|i: int| 0 <= i < n implies #[trigger] node_resolves(h, t, i) by {
        assert(node_faults(h, t)(i) is None);
    }
    assert forall|i: int| 0 <= i < h.seg_count implies (#[trigger] seg_fault(t, i)) is None by {
        assert(seg_faults(t)(i) is None);
    }
    assert forall|k: int| 0 <= k < h.token_count implies (#[trigger] lex_fault(t, k)) is None by {
        assert(lex_faults(t)(k) is None);
    }
    assert forall|i: int| 0 <= i < h.token_count implies #[trigger] lex_resolves(t, i) by {
        assert(lex_fault(t, i) is None);
    }
    assert forall|i: int, j: int| 0 <= i < j < h.token_count implies (#[trigger] lex_row(
        t,
        i,
    )).token_hash < (#[trigger] lex_row(t, j)).token_hash by {
        lemma_pairwise_tokens(t, h.token_count as int, i, j);
    }
    assert forall|k: int| 0 <= k < n implies (#[trigger] order_fault(t, k)) is None by {
        assert(order_faults(t)(k) is None);
    }
    assert forall|i: int, j: int| 0 <= i < j < n implies (#[trigger] node_row(t, i)).url_key < (
    #[trigger] node_row(t, j)).url_key by {
        lemma_pairwise_keys(t, n as int, i, j);
    }
    if n > 0 {
        assert forall|k: int| 0 <= k <= n implies (#[trigger] index_fault(h, t, k)) is None by {
            assert(index_faults(h, t)(k) is None);
        }
        assert forall|i: int, j: int| 0 <= i <= j <= n implies (#[trigger] edge_start(t, i)) <= (
        #[trigger] edge_start(t, j)) by {
            lemma_pairwise_index(h, t, i, j);
        }
        assert forall|i: int| 0 <= i < h.edge_count implies (#[trigger] edge_dst(t, i)) < n by {
            assert(edge_faults(h, t)(i) is None);
        }
    }
}

proof fn lemma_sound_is_accepted(h: Header, t: Tables)
    requires
        sound(h, t),
        lengths_fault(h, t) is None,
    ensures
        counts_fault(h, t) is None,
{
    let n = h.node_count as nat;
    lemma_no_fault(node_faults(h, t), n);
    lemma_no_fault(seg_faults(t), h.seg_count as nat);
    lemma_no_fault(index_faults(h, t), n + 1);
    lemma_no_fault(edge_faults(h, t), h.edge_count as nat);
    lemma_no_fault(lex_faults(t), h.token_count as nat);
    lemma_no_fault(order_faults(t), n);
    assert forall|i: int| 0 <= i < n implies (#[trigger] node_faults(h, t)(i)) is None by {
        assert(node_resolves(h, t, i));
    }
    assert forall|i: int| 0 <= i < h.seg_count implies (#[trigger] seg_faults(t)(i)) is None by {
        assert(seg_fault(t, i) is None);
    }
    assert forall|i: int| 0 <= i < h.token_count implies (#[trigger] lex_faults(t)(i)) is None by {
        assert(lex_resolves(t, i));
        if i > 0 {
            assert(lex_row(t, i - 1).token_hash < lex_row(t, i).token_hash);
        }
    }
    assert forall|i: int| 0 <= i < n implies (#[trigger] order_faults(t)(i)) is None by {
        if i > 0 {
            assert(node_row(t, i - 1).url_key < node_row(t, i).url_key);
        }
    }
    if n > 0 {
        assert forall|i: int| 0 <= i < n + 1 implies (#[trigger] index_faults(h, t)(i)) is None by {
            assert(edge_start(t, i) <= edge_start(t, n as int));
            if i > 0 {
                assert(edge_start(t, i - 1) <= edge_start(t, i));
            }
        }
        assert forall|i: int| 0 <= i < h.edge_count implies (#[trigger] edge_faults(h, t)(
            i,
        )) is None by {
            assert(edge_dst(t, i) < n);
        }
    }
}

/// What holds of a parsed directory.
pub proof fn lemma_described(d: DirV, bytes: Seq<u8>)
    requires
        parsed_dir(bytes) == Ok::<DirV, Fault>(d),
    ensures
        spans_within(d.spans, bytes.len() as int),
        sound(d.header, tables(d, bytes)),
        parsed_header(bytes) == Ok::<Header, Fault>(d.header),
{
    let f = entry_faults(bytes, dir_end(d.header));
    lemma_no_fault(f, d.header.section_count as nat);
    assert forall|i: int| 0 <= i < d.spans.len() implies 0 <= (#[trigger] d.spans[i]).off && 0
        <= d.spans[i].len && d.spans[i].off + d.spans[i].len <= bytes.len() by {
        assert(f(i) is None);
    }
    law_accepted_means_sound(d.header, tables(d, bytes));
}

/// A base file that was cut short is refused, wherever it was cut.
pub proof fn law_truncated_base_is_refused(bytes: Seq<u8>, cut: int)
    requires
        parsed_dir(bytes) is Ok,
        0 <= cut < bytes.len(),
    ensures
        parsed_dir(bytes.take(cut)) is Err,
{
    if cut >= HEADER_LEN {
        assert(bytes.take(cut).subrange(48, 56) =~= bytes.subrange(48, 56));
    }
}

/// A base file that was altered is refused: if only its trailer was touched, in
/// any case; if only what comes before it, unless the checksum is the same.
pub proof fn law_altered_base_is_refused(bytes: Seq<u8>, other: Seq<u8>)
    requires
        parsed_dir(bytes) is Ok,
        other.len() == bytes.len(),
        other != bytes,
        ({
            let end = bytes.len() - TRAILER_LEN;
            ||| other.subrange(0, end) == bytes.subrange(0, end)
            ||| other.skip(end) == bytes.skip(end) && xxh3(other.subrange(0, end)) != xxh3(
                bytes.subrange(0, end),
            )
        }),
    ensures
        parsed_dir(other) is Err,
{
    let end = bytes.len() - TRAILER_LEN;
    let a = bytes.subrange(end, end + 8);
    let b = other.subrange(end, end + 8);
    assert(bytes.skip(end) =~= a);
    assert(other.skip(end) =~= b);
    crate::bytesio::lemma_le_unique(a);
    crate::bytesio::lemma_le_unique(b);
    if a == b {
        assert(bytes =~= bytes.subrange(0, end) + a);
        assert(other =~= other.subrange(0, end) + b);
    }
}

/// Where the rest of a file of `len` bytes fixes a byte: magic, version, header
/// length, the section count if there is no room for sections, the four record
/// counts, total length, the reserved words, the header's checksum and the
/// trailer.
pub open spec fn is_fixed(i: int, len: int) -> bool {
    ||| 0 <= i < 6
    ||| 8 <= i < 12
    ||| 12 <= i < 16 && len == HEADER_LEN + TRAILER_LEN
    ||| 16 <= i < 32
    ||| 48 <= i < 56
    ||| 64 <= i < HEADER_LEN
    ||| len - TRAILER_LEN <= i < len
}

/// A base file with one byte changed is refused: where the rest of the file
/// fixes the byte, in any case; elsewhere, unless the checksum is the same.
pub proof fn law_flipped_byte_is_refused(bytes: Seq<u8>, i: int, b: u8)
    requires
        parsed_dir(bytes) is Ok,
        0 <= i < bytes.len(),
        b != bytes[i],
        ({
            let end = bytes.len() - TRAILER_LEN;
            ||| is_fixed(i, bytes.len() as int)
            ||| xxh3(bytes.update(i, b).subrange(0, end)) != xxh3(bytes.subrange(0, end))
        }),
    ensures
        parsed_dir(bytes.update(i, b)) is Err,
{
    let other = bytes.update(i, b);
    let end = bytes.len() - TRAILER_LEN;
    assert(other != bytes) by {
        assert(other[i] != bytes[i]);
    }
    if i >= end {
        assert(other.subrange(0, end) =~= bytes.subrange(0, end));
        law_altered_base_is_refused(bytes, other);
    } else if 12 <= i < 16 && is_fixed(i, bytes.len() as int) {
        lemma_number_differs(bytes, other, 12, 4, i);
        crate::bytesio::lemma_pow256_values();
        crate::bytesio::lemma_le_unique(bytes.subrange(12, 16));
        crate::bytesio::lemma_le_unique(other.subrange(12, 16));
    } else if 16 <= i < 32 {
        lemma_count_refused(bytes, i, b);
    } else if is_fixed(i, bytes.len() as int) {
        lemma_header_refused(bytes, i, b);
    } else {
        assert(other.skip(end) =~= bytes.skip(end));
        law_altered_base_is_refused(bytes, other);
    }
}

/// The files agree behind their headers.
spec fn alike(a: Seq<u8>, b: Seq<u8>) -> bool {
    &&& a.len() == b.len()
    &&& forall|i: int| HEADER_LEN <= i < a.len() ==> a[i] == b[i]
}

proof fn lemma_number_alike(a: Seq<u8>, b: Seq<u8>, off: int, width: int)
    requires
        alike(a, b),
        HEADER_LEN <= off,
        0 <= width,
        off + width <= a.len(),
    ensures
        number_at(a, off, width) == number_at(b, off, width),
{
    assert(a.subrange(off, off + width) =~= b.subrange(off, off + width));
}

proof fn lemma_span_alike(a: Seq<u8>, b: Seq<u8>, j: int)
    requires
        alike(a, b),
        0 <= j,
        entry_at(j) + DIR_ENTRY_LEN <= a.len(),
    ensures
        entry_span(a, j) == entry_span(b, j),
{
    lemma_number_alike(a, b, entry_at(j), 2);
    lemma_number_alike(a, b, entry_at(j) + 8, 8);
    lemma_number_alike(a, b, entry_at(j) + 16, 8);
}

proof fn lemma_find_span_in(spans: Seq<Span>, kind: u16, i: int)
    requires
        0 <= i,
    ensures
        find_span(spans, kind, i) matches Some(j) ==> i <= j < spans.len(),
    decreases spans.len() - i,
{
    if i < spans.len() && spans[i].kind != kind {
        lemma_find_span_in(spans, kind, i + 1);
    }
}

/// The spans lie behind the header.
spec fn spans_behind(spans: Seq<Span>, n: int) -> bool {
    forall|i: int|
        0 <= i < spans.len() ==> HEADER_LEN <= (#[trigger] spans[i]).off && 0 <= spans[i].len
            && spans[i].off + spans[i].len <= n
}

proof fn lemma_section_alike(a: Seq<u8>, b: Seq<u8>, d: DirV, e: DirV, kind: SectionKind)
    requires
        alike(a, b),
        d.spans == e.spans,
        spans_behind(d.spans, a.len() as int),
    ensures
        section_bytes(d, a, kind) == section_bytes(e, b, kind),
{
    lemma_find_span_in(d.spans, kind.code(), 0);
    if let Some(j) = find_span(d.spans, kind.code(), 0) {
        assert(span_bytes(a, d.spans[j]) =~= span_bytes(b, d.spans[j]));
    }
}

/// Files that agree behind their headers, of as many sections, have the same
/// spans, and the sections of those are the same.
proof fn lemma_tables_alike(a: Seq<u8>, b: Seq<u8>)
    requires
        parsed_dir(a) is Ok,
        parsed_dir(b) is Ok,
        alike(a, b),
        parsed_dir(a)->Ok_0.header.section_count == parsed_dir(b)->Ok_0.header.section_count,
    ensures
        tables(parsed_dir(a)->Ok_0, a) == tables(parsed_dir(b)->Ok_0, b),
{
    let d = parsed_dir(a)->Ok_0;
    let e = parsed_dir(b)->Ok_0;
    let n = d.header.section_count as nat;
    let f = entry_faults(a, dir_end(d.header));
    lemma_no_fault(f, n);
    assert forall|j: int| 0 <= j < n implies entry_span(a, j) == #[trigger] entry_span(b, j) by {
        lemma_span_alike(a, b, j);
    }
    assert(d.spans =~= e.spans);
    assert(spans_behind(d.spans, a.len() as int)) by {
        assert forall|i: int| 0 <= i < d.spans.len() implies HEADER_LEN <= (
        #[trigger] d.spans[i]).off && 0 <= d.spans[i].len && d.spans[i].off + d.spans[i].len
            <= a.len() by {
            assert(f(i) is None);
        }
    }
    lemma_section_alike(a, b, d, e, SectionKind::Nodes);
    lemma_section_alike(a, b, d, e, SectionKind::Segs);
    lemma_section_alike(a, b, d, e, SectionKind::EdgeIndex);
    lemma_section_alike(a, b, d, e, SectionKind::Edges);
    lemma_section_alike(a, b, d, e, SectionKind::Labels);
    lemma_section_alike(a, b, d, e, SectionKind::Lexicon);
    lemma_section_alike(a, b, d, e, SectionKind::Postings);
    lemma_section_alike(a, b, d, e, SectionKind::Ranks);
}

/// The sections fix the record counts.
proof fn lemma_counts_of(h: Header, k: Header, t: Tables)
    requires
        counts_fault(h, t) is None,
        counts_fault(k, t) is None,
    ensures
        h.node_count == k.node_count,
        h.seg_count == k.seg_count,
        h.edge_count == k.edge_count,
        h.token_count == k.token_count,
{
    assert(lengths_fault(h, t) is None);
    assert(lengths_fault(k, t) is None);
    assert(raw(t.nodes).len() == h.node_count * NODE_LEN == k.node_count * NODE_LEN);
    assert(raw(t.segs).len() == h.seg_count * SEG_LEN == k.seg_count * SEG_LEN);
    assert(raw(t.edges).len() == h.edge_count * EDGE_LEN == k.edge_count * EDGE_LEN);
    assert(raw(t.lexicon).len() == h.token_count * LEX_LEN == k.token_count * LEX_LEN);
}

/// No sections are right for no records.
pub proof fn lemma_no_sections(d: DirV, bytes: Seq<u8>)
    requires
        d.spans.len() == 0,
        d.header.node_count == 0,
        d.header.seg_count == 0,
        d.header.edge_count == 0,
        d.header.token_count == 0,
    ensures
        counts_fault(d.header, tables(d, bytes)) is None,
{
    let t = tables(d, bytes);
    assert(t.nodes is None && t.segs is None && t.edges is None && t.lexicon is None);
    assert(lengths_fault(d.header, t) is None);
}

/// A file whose record counts are changed contradicts its sections.
proof fn lemma_count_refused(bytes: Seq<u8>, i: int, b: u8)
    requires
        parsed_dir(bytes) is Ok,
        16 <= i < 32,
        b != bytes[i],
    ensures
        parsed_dir(bytes.update(i, b)) is Err,
{
    let other = bytes.update(i, b);
    if parsed_dir(other) is Ok {
        let d = parsed_dir(bytes)->Ok_0;
        let e = parsed_dir(other)->Ok_0;
        assert(other.subrange(12, 16) =~= bytes.subrange(12, 16));
        assert(alike(bytes, other));
        lemma_tables_alike(bytes, other);
        lemma_counts_of(d.header, e.header, tables(d, bytes));
        lemma_count_differs(bytes, i, b);
    }
}

proof fn lemma_count_differs(bytes: Seq<u8>, i: int, b: u8)
    requires
        HEADER_LEN <= bytes.len(),
        16 <= i < 32,
        b != bytes[i],
    ensures
        ({
            let h = header_fields(bytes);
            let k = header_fields(bytes.update(i, b));
            ||| h.node_count != k.node_count
            ||| h.seg_count != k.seg_count
            ||| h.edge_count != k.edge_count
            ||| h.token_count != k.token_count
        }),
{
    let other = bytes.update(i, b);
    let off = if i < 20 {
        16int
    } else if i < 24 {
        20
    } else if i < 28 {
        24
    } else {
        28
    };
    lemma_number_differs(bytes, other, off, 4, i);
    crate::bytesio::lemma_pow256_values();
    crate::bytesio::lemma_le_unique(bytes.subrange(off, off + 4));
    crate::bytesio::lemma_le_unique(other.subrange(off, off + 4));
}

/// A header with one fixed byte changed is refused, or promises another length.
proof fn lemma_header_refused(bytes: Seq<u8>, i: int, b: u8)
    requires
        parsed_header(bytes) is Ok,
        parsed_header(bytes)->Ok_0.total_len == bytes.len(),
        0 <= i < HEADER_LEN <= bytes.len(),
        is_fixed(i, bytes.len() as int),
        !(12 <= i < 32),
        i < bytes.len() - TRAILER_LEN,
        b != bytes[i],
    ensures
        parsed_header(bytes.update(i, b)) matches Ok(h) ==> h.total_len != bytes.len(),
{
    let other = bytes.update(i, b);
    if i < 4 {
        lemma_number_differs(bytes, other, 0, 4, i);
    } else if i < 6 {
        lemma_number_differs(bytes, other, 4, 2, i);
    } else if 8 <= i < 12 {
        lemma_number_differs(bytes, other, 8, 4, i);
    } else if 48 <= i < 56 {
        lemma_number_differs(bytes, other, 48, 8, i);
        crate::bytesio::lemma_le_unique(bytes.subrange(48, 56));
        crate::bytesio::lemma_le_unique(other.subrange(48, 56));
        crate::bytesio::lemma_pow256_values();
    } else if 64 <= i < 120 {
        assert(bytes.subrange(64, 120)[i - 64] == bytes[i]);
        assert(other.subrange(64, 120)[i - 64] == b);
        assert(zeros(56)[i - 64] == 0);
    } else {
        lemma_number_differs(bytes, other, 120, 8, i);
        assert(other.subrange(0, 120) =~= bytes.subrange(0, 120));
    }
}

/// Numbers whose bytes differ are different.
proof fn lemma_number_differs(a: Seq<u8>, b: Seq<u8>, off: int, width: int, i: int)
    requires
        0 <= off <= i < off + width <= a.len(),
        a.len() == b.len(),
        a[i] != b[i],
    ensures
        number_at(a, off, width) != number_at(b, off, width),
{
    let x = a.subrange(off, off + width);
    let y = b.subrange(off, off + width);
    crate::bytesio::lemma_le_unique(x);
    crate::bytesio::lemma_le_unique(y);
    assert(x[i - off] != y[i - off]);
}

/// It complains of the format.
pub open spec fn of_format(f: Option<Fault>) -> bool {
    f is Some ==> f->0 is Format
}

proof fn lemma_first_of_format(f: spec_fn(int) -> Option<Fault>, n: nat)
    requires
        forall|i: int| 0 <= i < n ==> of_format(#[trigger] f(i)),
    ensures
        of_format(first_fault(f, n)),
    decreases n,
{
    if n > 0 {
        lemma_first_of_format(f, (n - 1) as nat);
        assert(of_format(f(n - 1)));
    }
}

/// Whatever is wrong with a base file, the complaint is one of the format.
pub proof fn law_refusals_are_format_faults(bytes: Seq<u8>)
    ensures
        parsed_dir(bytes) matches Err(f) ==> f is Format,
{
    if let Ok(h) = parsed_header(bytes) {
        let n = h.section_count as nat;
        lemma_first_of_format(entry_faults(bytes, dir_end(h)), n);
        let d = DirV { header: h, spans: spans_of(bytes, n) };
        let t = tables(d, bytes);
        lemma_first_of_format(node_faults(h, t), h.node_count as nat);
        lemma_first_of_format(seg_faults(t), h.seg_count as nat);
        lemma_first_of_format(index_faults(h, t), (h.node_count + 1) as nat);
        lemma_first_of_format(edge_faults(h, t), h.edge_count as nat);
        lemma_first_of_format(lex_faults(t), h.token_count as nat);
        lemma_first_of_format(order_faults(t), h.node_count as nat);
    }
}

/// Validate arbitrary bytes as a base file.
pub fn validate(bytes: &[u8]) -> (r: Result<()>)
    ensures
        match r {
            Ok(_) => parsed_dir(bytes@) is Ok,
            Err(e) => parsed_dir(bytes@) == Err::<DirV, Fault>(e@) && e@ is Format,
        },
{
    proof {
        law_refusals_are_format_faults(bytes@);
    }
    match BaseDir::parse(bytes) {
        Ok(_) => Ok(()),
        Err(e) => Err(e),
    }
}

} // verus!
