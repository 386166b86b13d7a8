//! Writing a base file.
#[allow(unused_imports)]
use super::dir::{
    counts_fault, dir_end, entry_at, entry_faults, entry_span, lemma_no_fault, lemma_no_sections,
    parsed_dir, span_bytes, spans_of, tables, DirV, Span,
};
#[allow(unused_imports)]
use super::{
    header_bytes, law_header_round_trip, lemma_header_len, put_zeros, zeros, Header, SectionKind,
    HEADER_LEN,
};
#[allow(unused_imports)]
use crate::bytesio::{
    align_up, aligned, is_pow2, le_bytes, lemma_aligned, lemma_cat_assoc, lemma_field_at,
    lemma_le_bytes_len, lemma_le_round_trip, lemma_pow256_values, number_at, put_bytes, put_u16,
    put_u32, put_u64, Cur,
};
#[allow(unused_imports)]
use crate::error::Fault;
use crate::format::{ALIGN, DIR_ENTRY_LEN, TRAILER_LEN};
#[allow(unused_imports)]
use crate::key::xxh3;
use crate::key::xxh3_of;
use vstd::prelude::*;

verus! {

// ---- layout ---------------------------------------------------------------

/// Where the `i`-th section begins (where the trailer begins, for `i` past
/// the last).
pub open spec fn off_of(secs: Seq<(u16, Seq<u8>)>, i: int) -> nat
    decreases i,
{
    if i <= 0 {
        aligned((HEADER_LEN + secs.len() * DIR_ENTRY_LEN) as nat, ALIGN as nat)
    } else {
        aligned(off_of(secs, i - 1) + secs[i - 1].1.len(), ALIGN as nat)
    }
}

/// The length of the file.
pub open spec fn file_len(secs: Seq<(u16, Seq<u8>)>) -> nat {
    off_of(secs, secs.len() as int) + TRAILER_LEN as nat
}

pub open spec fn entry_bytes(secs: Seq<(u16, Seq<u8>)>, i: int) -> Seq<u8> {
    le_bytes(secs[i].0 as nat, 2) + (le_bytes(0, 2) + (le_bytes(0, 4) + (le_bytes(
        off_of(secs, i),
        8,
    ) + (le_bytes(secs[i].1.len(), 8) + le_bytes(xxh3(secs[i].1) as nat, 8)))))
}

/// The first `i` directory entries.
pub open spec fn dir_bytes(secs: Seq<(u16, Seq<u8>)>, i: int) -> Seq<u8>
    decreases i,
{
    if i <= 0 {
        Seq::empty()
    } else {
        dir_bytes(secs, i - 1) + entry_bytes(secs, i - 1)
    }
}

/// The header with the counts that only the layout knows.
pub open spec fn header_for(h: Header, secs: Seq<(u16, Seq<u8>)>) -> Header {
    Header { section_count: secs.len() as u32, total_len: file_len(secs) as u64, ..h }
}

/// `s` filled up with zeros to the section alignment.
pub open spec fn padded(s: Seq<u8>) -> Seq<u8> {
    s + zeros((aligned(s.len(), ALIGN as nat) - s.len()) as nat)
}

/// The file up to the end of the first `i` sections.
pub open spec fn laid(h: Header, secs: Seq<(u16, Seq<u8>)>, i: int) -> Seq<u8>
    decreases i,
{
    if i <= 0 {
        header_bytes(header_for(h, secs)) + dir_bytes(secs, secs.len() as int)
    } else {
        padded(laid(h, secs, i - 1)) + secs[i - 1].1
    }
}

/// The file up to its trailer.
pub open spec fn file_body(h: Header, secs: Seq<(u16, Seq<u8>)>) -> Seq<u8> {
    padded(laid(h, secs, secs.len() as int))
}

/// The whole file.
pub open spec fn file_bytes(h: Header, secs: Seq<(u16, Seq<u8>)>) -> Seq<u8> {
    file_body(h, secs) + le_bytes(xxh3(file_body(h, secs)) as nat, 8)
}

proof fn lemma_padded_len(s: Seq<u8>)
    ensures
        padded(s).len() == aligned(s.len(), ALIGN as nat),
        s.len() <= padded(s).len() < s.len() + ALIGN,
        padded(s).len() % ALIGN as nat == 0,
        s.is_prefix_of(padded(s)),
{
    lemma_aligned(s.len(), ALIGN as nat);
    assert(s =~= padded(s).take(s.len() as int));
}

proof fn lemma_entry_len(secs: Seq<(u16, Seq<u8>)>, i: int)
    ensures
        entry_bytes(secs, i).len() == DIR_ENTRY_LEN,
{
    lemma_le_bytes_len(secs[i].0 as nat, 2);
    lemma_le_bytes_len(0, 2);
    lemma_le_bytes_len(0, 4);
    lemma_le_bytes_len(off_of(secs, i), 8);
    lemma_le_bytes_len(secs[i].1.len(), 8);
    lemma_le_bytes_len(xxh3(secs[i].1) as nat, 8);
}

proof fn lemma_dir_len(secs: Seq<(u16, Seq<u8>)>, i: int)
    requires
        0 <= i,
    ensures
        dir_bytes(secs, i).len() == i * DIR_ENTRY_LEN,
    decreases i,
{
    if i > 0 {
        lemma_dir_len(secs, i - 1);
        lemma_entry_len(secs, i - 1);
    }
}

proof fn lemma_laid_len(h: Header, secs: Seq<(u16, Seq<u8>)>, i: int)
    requires
        0 <= i <= secs.len(),
    ensures
        padded(laid(h, secs, i)).len() == off_of(secs, i),
        i > 0 ==> laid(h, secs, i).len() == off_of(secs, i - 1) + secs[i - 1].1.len(),
        i == 0 ==> laid(h, secs, i).len() == HEADER_LEN + secs.len() * DIR_ENTRY_LEN,
        off_of(secs, i) % ALIGN as nat == 0,
        off_of(secs, i) >= HEADER_LEN + secs.len() * DIR_ENTRY_LEN,
        i > 0 ==> off_of(secs, i - 1) + secs[i - 1].1.len() <= off_of(secs, i),
    decreases i,
{
    lemma_padded_len(laid(h, secs, i));
    if i == 0 {
        lemma_header_len(header_for(h, secs));
        lemma_dir_len(secs, secs.len() as int);
    } else {
        lemma_laid_len(h, secs, i - 1);
    }
}

/// Sections lie one after the other.
pub proof fn lemma_off_monotone(h: Header, secs: Seq<(u16, Seq<u8>)>, i: int, j: int)
    requires
        0 <= i <= j <= secs.len(),
    ensures
        off_of(secs, i) <= off_of(secs, j),
        i < j ==> off_of(secs, i) + secs[i].1.len() <= off_of(secs, j),
    decreases j - i,
{
    if i < j {
        lemma_off_monotone(h, secs, i, j - 1);
        lemma_laid_len(h, secs, j);
    }
}

proof fn lemma_prefix_trans(a: Seq<u8>, b: Seq<u8>, c: Seq<u8>)
    requires
        a.is_prefix_of(b),
        b.is_prefix_of(c),
    ensures
        a.is_prefix_of(c),
{
    assert(a =~= c.take(a.len() as int)) by {
        assert(forall|i: int| 0 <= i < a.len() ==> a[i] == b[i]);
        assert(forall|i: int| 0 <= i < b.len() ==> b[i] == c[i]);
    }
}

proof fn lemma_laid_prefix(h: Header, secs: Seq<(u16, Seq<u8>)>, i: int, j: int)
    requires
        0 <= i <= j <= secs.len(),
    ensures
        laid(h, secs, i).is_prefix_of(laid(h, secs, j)),
    decreases j - i,
{
    let a = laid(h, secs, i);
    if i == j {
        assert(a =~= a.take(a.len() as int));
    } else {
        lemma_laid_prefix(h, secs, i, j - 1);
        let b = laid(h, secs, j - 1);
        let c = laid(h, secs, j);
        lemma_padded_len(b);
        assert(padded(b) =~= c.take(padded(b).len() as int));
        lemma_prefix_trans(b, padded(b), c);
        lemma_prefix_trans(a, b, c);
    }
}

proof fn lemma_laid_in_file(h: Header, secs: Seq<(u16, Seq<u8>)>, i: int)
    requires
        0 <= i <= secs.len(),
    ensures
        laid(h, secs, i).is_prefix_of(file_bytes(h, secs)),
{
    let n = secs.len() as int;
    lemma_laid_prefix(h, secs, i, n);
    lemma_padded_len(laid(h, secs, n));
    let body = file_body(h, secs);
    assert(body =~= file_bytes(h, secs).take(body.len() as int));
    lemma_prefix_trans(laid(h, secs, i), laid(h, secs, n), body);
    lemma_prefix_trans(laid(h, secs, i), body, file_bytes(h, secs));
}

/// Every section is found where the layout puts it.
proof fn lemma_section_in_file(h: Header, secs: Seq<(u16, Seq<u8>)>, i: int)
    requires
        0 <= i < secs.len(),
    ensures
        file_bytes(h, secs).subrange(
            off_of(secs, i) as int,
            (off_of(secs, i) + secs[i].1.len()) as int,
        ) == secs[i].1,
        off_of(secs, i) + secs[i].1.len() <= file_bytes(h, secs).len() - TRAILER_LEN,
{
    lemma_laid_in_file(h, secs, i + 1);
    lemma_laid_len(h, secs, i);
    lemma_laid_len(h, secs, i + 1);
    lemma_file_len(h, secs);
    lemma_off_monotone(h, secs, i, secs.len() as int);
    let file = file_bytes(h, secs);
    let part = laid(h, secs, i + 1);
    assert(part == padded(laid(h, secs, i)) + secs[i].1);
    let from = off_of(secs, i) as int;
    let to = from + secs[i].1.len();
    assert(file.subrange(from, to) =~= secs[i].1) by {
        assert(forall|k: int| 0 <= k < part.len() ==> file[k] == part[k]);
        assert forall|k: int| 0 <= k < secs[i].1.len() implies file[from + k] == secs[i].1[k] by {
            assert(part[from + k] == secs[i].1[k]);
        }
    }
}

proof fn lemma_file_len(h: Header, secs: Seq<(u16, Seq<u8>)>)
    ensures
        file_bytes(h, secs).len() == file_len(secs),
        file_body(h, secs).len() == off_of(secs, secs.len() as int),
{
    lemma_laid_len(h, secs, secs.len() as int);
    lemma_le_bytes_len(xxh3(file_body(h, secs)) as nat, 8);
}

proof fn lemma_entry_in_dir(secs: Seq<(u16, Seq<u8>)>, i: int, n: int)
    requires
        0 <= i < n,
    ensures
        dir_bytes(secs, n).subrange(i * DIR_ENTRY_LEN, i * DIR_ENTRY_LEN + DIR_ENTRY_LEN)
            == entry_bytes(secs, i),
        (i + 1) * DIR_ENTRY_LEN <= dir_bytes(secs, n).len(),
    decreases n,
{
    lemma_dir_len(secs, n);
    lemma_dir_len(secs, n - 1);
    lemma_entry_len(secs, i);
    let d = dir_bytes(secs, n);
    let from = i * DIR_ENTRY_LEN;
    if i < n - 1 {
        lemma_entry_in_dir(secs, i, n - 1);
        let pre = dir_bytes(secs, n - 1);
        assert(d.subrange(from, from + DIR_ENTRY_LEN) =~= pre.subrange(
            from,
            from + DIR_ENTRY_LEN,
        ));
    } else {
        assert(d.subrange(from, from + DIR_ENTRY_LEN) =~= entry_bytes(secs, i));
    }
}

/// The `i`-th entry of the file says where the `i`-th section is.
proof fn lemma_entry_in_file(h: Header, secs: Seq<(u16, Seq<u8>)>, i: int)
    requires
        0 <= i < secs.len(),
        file_len(secs) <= u64::MAX,
    ensures
        entry_span(file_bytes(h, secs), i) == (Span {
            kind: secs[i].0,
            off: off_of(secs, i) as int,
            len: secs[i].1.len() as int,
        }),
        number_at(file_bytes(h, secs), entry_at(i) + 24, 8) == xxh3(secs[i].1),
{
    let n = secs.len() as int;
    let file = file_bytes(h, secs);
    let head = header_bytes(header_for(h, secs));
    let dir = dir_bytes(secs, n);
    lemma_laid_in_file(h, secs, 0);
    lemma_header_len(header_for(h, secs));
    lemma_entry_in_dir(secs, i, n);
    lemma_entry_len(secs, i);
    lemma_off_monotone(h, secs, i, n);
    let e = entry_bytes(secs, i);
    let at = entry_at(i);
    let part = laid(h, secs, 0);
    assert(file.subrange(at, at + 32) =~= e) by {
        assert(forall|k: int| 0 <= k < part.len() ==> file[k] == part[k]);
        assert forall|k: int| 0 <= k < 32 implies file[at + k] == e[k] by {
            assert(part[at + k] == dir[i * DIR_ENTRY_LEN + k]);
            assert(dir.subrange(i * DIR_ENTRY_LEN, i * DIR_ENTRY_LEN + 32)[k] == e[k]);
        }
    }
    lemma_pow256_values();
    lemma_le_bytes_len(secs[i].0 as nat, 2);
    let sum = xxh3(secs[i].1) as nat;
    let r5 = le_bytes(sum, 8);
    let r4 = le_bytes(secs[i].1.len(), 8) + r5;
    let r3 = le_bytes(off_of(secs, i), 8) + r4;
    let r2 = le_bytes(0, 4) + r3;
    let r1 = le_bytes(0, 2) + r2;
    let c = Cur { bytes: file, pos: at, fault: None };
    assert(file.len() >= at + 32) by {
        assert(part.len() >= at + 32);
    }
    lemma_field_at(c, secs[i].0 as nat, 2, r1);
    lemma_field_at(c.skip(2), 0, 2, r2);
    lemma_field_at(c.skip(2).skip(2), 0, 4, r3);
    let c = Cur { bytes: file, pos: at + 8, fault: None };
    lemma_field_at(c, off_of(secs, i), 8, r4);
    lemma_field_at(c.skip(8), secs[i].1.len(), 8, r5);
    assert(r5 =~= r5 + Seq::empty());
    lemma_field_at(c.skip(8).skip(8), sum, 8, Seq::empty());
}

/// Where the layout puts the sections.
pub open spec fn layout(secs: Seq<(u16, Seq<u8>)>) -> Seq<Span> {
    Seq::new(
        secs.len(),
        |i: int|
            Span { kind: secs[i].0, off: off_of(secs, i) as int, len: secs[i].1.len() as int },
    )
}

/// A file without records and sections is accepted.
pub proof fn law_empty_base_is_accepted(h: Header)
    requires
        h.node_count == 0,
        h.seg_count == 0,
        h.edge_count == 0,
        h.token_count == 0,
    ensures
        parsed_dir(file_bytes(h, Seq::empty())) is Ok,
        file_bytes(h, Seq::empty()).len() == HEADER_LEN + TRAILER_LEN,
{
    let none = Seq::<(u16, Seq<u8>)>::empty();
    let d = DirV { header: header_for(h, none), spans: layout(none) };
    let file = file_bytes(h, none);
    lemma_empty_len(h);
    lemma_no_sections(d, file);
    law_written_base_parses(h, none);
}

proof fn lemma_empty_len(h: Header)
    ensures
        file_bytes(h, Seq::empty()).len() == HEADER_LEN + TRAILER_LEN,
        file_len(Seq::empty()) == HEADER_LEN + TRAILER_LEN,
{
    let none = Seq::<(u16, Seq<u8>)>::empty();
    lemma_file_len(h, none);
    lemma_laid_len(h, none, 0);
}

/// Two files of the same sections differ in their headers and trailers alone.
pub proof fn law_sections_fix_the_file(h1: Header, h2: Header, secs: Seq<(u16, Seq<u8>)>)
    ensures
        ({
            let a = file_bytes(h1, secs);
            let b = file_bytes(h2, secs);
            let end = a.len() - TRAILER_LEN;
            &&& a.len() == b.len()
            &&& end >= HEADER_LEN
            &&& a.subrange(HEADER_LEN as int, end) == b.subrange(HEADER_LEN as int, end)
        }),
{
    let n = secs.len() as int;
    lemma_laid_alike(h1, h2, secs, n);
    let a = laid(h1, secs, n);
    let b = laid(h2, secs, n);
    lemma_padded_len(a);
    lemma_padded_len(b);
    lemma_le_bytes_len(xxh3(file_body(h1, secs)) as nat, 8);
    lemma_le_bytes_len(xxh3(file_body(h2, secs)) as nat, 8);
    let x = file_bytes(h1, secs);
    let y = file_bytes(h2, secs);
    let end = x.len() - TRAILER_LEN;
    assert forall|i: int| HEADER_LEN <= i < end implies x[i] == y[i] by {
        if i < a.len() {
            assert(a[i] == b[i]);
        }
    }
    assert(x.subrange(HEADER_LEN as int, end) =~= y.subrange(HEADER_LEN as int, end));
}

proof fn lemma_laid_alike(h1: Header, h2: Header, secs: Seq<(u16, Seq<u8>)>, i: int)
    ensures
        laid(h1, secs, i).len() == laid(h2, secs, i).len(),
        laid(h1, secs, i).len() >= HEADER_LEN,
        forall|j: int|
            HEADER_LEN <= j < laid(h1, secs, i).len() ==> #[trigger] laid(h1, secs, i)[j] == laid(
                h2,
                secs,
                i,
            )[j],
    decreases i,
{
    if i <= 0 {
        lemma_header_len(header_for(h1, secs));
        lemma_header_len(header_for(h2, secs));
    } else {
        lemma_laid_alike(h1, h2, secs, i - 1);
        let a = laid(h1, secs, i - 1);
        let b = laid(h2, secs, i - 1);
        lemma_padded_len(a);
        lemma_padded_len(b);
        let x = laid(h1, secs, i);
        let y = laid(h2, secs, i);
        assert forall|j: int| HEADER_LEN <= j < x.len() implies #[trigger] x[j] == y[j] by {
            if j < a.len() {
                assert(a[j] == b[j]);
            }
        }
    }
}

/// A written file parses to its directory, unless its sections contradict its
/// counts, and every section is read back as it was written.
pub proof fn law_written_base_parses(h: Header, secs: Seq<(u16, Seq<u8>)>)
    requires
        secs.len() <= u32::MAX,
        file_len(secs) <= u64::MAX,
    ensures
        ({
            let d = DirV { header: header_for(h, secs), spans: layout(secs) };
            parsed_dir(file_bytes(h, secs)) == match counts_fault(
                d.header,
                tables(d, file_bytes(h, secs)),
            ) {
                Some(e) => Err::<DirV, Fault>(e),
                None => Ok(d),
            }
        }),
        forall|i: int|
            0 <= i < secs.len() ==> span_bytes(file_bytes(h, secs), #[trigger] layout(secs)[i])
                == secs[i].1,
{
    let file = file_bytes(h, secs);
    let n = secs.len();
    let head = header_for(h, secs);
    lemma_file_len(h, secs);
    lemma_laid_in_file(h, secs, 0);
    lemma_header_len(head);
    let part = laid(h, secs, 0);
    assert(header_bytes(head) =~= part.take(128));
    lemma_prefix_trans(header_bytes(head), part, file);
    law_header_round_trip(file, head);
    let body = file_body(h, secs);
    let end = file.len() - TRAILER_LEN;
    lemma_laid_len(h, secs, n as int);
    assert(file.subrange(0, end) =~= body);
    lemma_pow256_values();
    lemma_le_round_trip(xxh3(body) as nat, 8);
    assert(file.subrange(end, end + 8) =~= le_bytes(xxh3(body) as nat, 8));
    let f = entry_faults(file, dir_end(head));
    assert forall|i: int| 0 <= i < n implies (#[trigger] f(i)) is None by {
        lemma_entry_in_file(h, secs, i);
        lemma_section_in_file(h, secs, i);
        lemma_laid_len(h, secs, i);
    }
    lemma_no_fault(f, n);
    assert(spans_of(file, n) =~= layout(secs)) by {
        assert forall|i: int| 0 <= i < n implies entry_span(file, i) == layout(secs)[i] by {
            lemma_entry_in_file(h, secs, i);
        }
    }
    assert forall|i: int| 0 <= i < n implies span_bytes(file, #[trigger] layout(secs)[i])
        == secs[i].1 by {
        lemma_section_in_file(h, secs, i);
    }
}

// ---- the writer -----------------------------------------------------------

/// Serializes a base file: sections are appended, then `finish` lays out the
/// directory, aligns, and appends the whole-file trailer.
#[derive(Debug)]
pub struct BaseWriter {
    header: Header,
    sections: Vec<(SectionKind, Vec<u8>)>,
}

spec fn secs_view(s: Seq<(SectionKind, Vec<u8>)>) -> Seq<(u16, Seq<u8>)> {
    s.map_values(|p: (SectionKind, Vec<u8>)| (p.0.code(), p.1@))
}

impl View for BaseWriter {
    type V = (Header, Seq<(u16, Seq<u8>)>);

    closed spec fn view(&self) -> (Header, Seq<(u16, Seq<u8>)>) {
        (self.header, secs_view(self.sections@))
    }
}

proof fn lemma_align_pow2()
    ensures
        is_pow2(ALIGN as nat),
{
    reveal_with_fuel(is_pow2, 8);
}

impl BaseWriter {
    /// Start a writer for the given header (counts must be filled by the
    /// caller; `section_count` and `total_len` are computed at `finish`).
    #[must_use]
    pub fn new(header: Header) -> (w: Self)
        ensures
            w@ == (header, Seq::<(u16, Seq<u8>)>::empty()),
    {
        let w: BaseWriter = BaseWriter { header, sections: Vec::new() };
        assert(w@.1 =~= Seq::empty());
        w
    }

    /// Append one section.
    pub fn add_section(&mut self, kind: SectionKind, bytes: Vec<u8>)
        ensures
            final(self)@ == (old(self)@.0, old(self)@.1.push((kind.code(), bytes@))),
    {
        self.sections.push((kind, bytes));
        assert(self@.1 =~= old(self)@.1.push((kind.code(), bytes@)));
    }

    /// Produce the final file bytes.
    #[must_use]
    pub fn finish(self) -> (out: Vec<u8>)
        requires
            self@.1.len() <= u32::MAX,
            file_len(self@.1) + ALIGN <= usize::MAX,
        ensures
            out@ == file_bytes(self@.0, self@.1),
    {
        let ghost secs = self@.1;
        let ghost h = self.header;
        let n: usize = self.sections.len();
        proof {
            lemma_align_pow2();
            lemma_laid_len(h, secs, 0);
            lemma_off_monotone(h, secs, 0, n as int);
            lemma_file_len(h, secs);
        }
        let end: usize = HEADER_LEN + n * DIR_ENTRY_LEN;
        let mut offset: usize = align_up(end, ALIGN);
        let mut dir: Vec<u8> = Vec::new();
        let mut i: usize = 0;
        while i < n
            invariant
                i <= n == self.sections@.len(),
                secs == secs_view(self.sections@),
                h == self.header,
                is_pow2(ALIGN as nat),
                offset == off_of(secs, i as int),
                dir@ == dir_bytes(secs, i as int),
                file_len(secs) + ALIGN <= usize::MAX,
            decreases n - i,
        {
            broadcast use lemma_cat_assoc;

            let kind: SectionKind = self.sections[i].0;
            let body: &Vec<u8> = &self.sections[i].1;
            assert(secs[i as int] == (kind.code(), body@));
            put_u16(&mut dir, kind.tag());
            put_u16(&mut dir, 0);
            put_u32(&mut dir, 0);
            put_u64(&mut dir, offset as u64);
            put_u64(&mut dir, body.len() as u64);
            put_u64(&mut dir, xxh3_of(body.as_slice()));
            proof {
                lemma_off_monotone(h, secs, i as int, n as int);
            }
            offset = align_up(offset + body.len(), ALIGN);
            i = i + 1;
        }
        let total: usize = offset + TRAILER_LEN;
        let mut header: Header = self.header;
        header.section_count = n as u32;
        header.total_len = total as u64;
        assert(header == header_for(h, secs));
        let mut out: Vec<u8> = Vec::with_capacity(total);
        header.write_into(&mut out);
        put_bytes(&mut out, dir.as_slice());
        let mut i: usize = 0;
        while i < n
            invariant
                i <= n == self.sections@.len(),
                secs == secs_view(self.sections@),
                is_pow2(ALIGN as nat),
                out@ == laid(h, secs, i as int),
                file_len(secs) + ALIGN <= usize::MAX,
            decreases n - i,
        {
            proof {
                lemma_laid_len(h, secs, i as int);
                lemma_off_monotone(h, secs, i as int, n as int);
            }
            pad(&mut out);
            assert(secs[i as int].1 == self.sections@[i as int].1@);
            put_bytes(&mut out, self.sections[i].1.as_slice());
            i = i + 1;
        }
        proof {
            lemma_laid_len(h, secs, n as int);
        }
        pad(&mut out);
        let trailer: u64 = xxh3_of(out.as_slice());
        put_u64(&mut out, trailer);
        out
    }
}

/// Fill `out` up to the section alignment.
fn pad(out: &mut Vec<u8>)
    requires
        aligned(old(out)@.len(), ALIGN as nat) + ALIGN <= usize::MAX,
    ensures
        final(out)@ == padded(old(out)@),
{
    proof {
        lemma_align_pow2();
        lemma_aligned(out@.len(), ALIGN as nat);
    }
    let len: usize = out.len();
    let want: usize = align_up(len, ALIGN);
    put_zeros(out, want - len);
}

} // verus!
