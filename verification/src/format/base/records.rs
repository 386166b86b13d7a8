//! Fixed-width records and the variable-width runs they point to.
use crate::bytesio::{
    get_u16, get_u32, get_u64, put_str, put_u16, put_u32, put_u64, put_u8, put_varint, slice, text,
    Reader,
};
#[allow(unused_imports)]
use crate::bytesio::{
    le_bytes, lemma_at_split, lemma_cat_assoc, lemma_field_at, lemma_le_bytes_len,
    lemma_pow256_values, lemma_varint_at, lemma_varint_moves, number_at, str_bytes, varint_bytes,
    Cur,
};
#[allow(unused_imports)]
use crate::error::Fault;
use crate::error::{Error, Result};
use crate::key::UrlKey;
use vstd::prelude::*;
use vstd::string::*;
#[allow(unused_imports)]
use vstd::utf8::*;

verus! {

/// Node record width.
pub const NODE_LEN: usize = 72;

/// Segment record width.
pub const SEG_LEN: usize = 24;

/// Edge record width.
pub const EDGE_LEN: usize = 8;

/// Lexicon record width.
pub const LEX_LEN: usize = 24;

/// Rank record width.
pub const RANK_LEN: usize = 8;

/// Sentinel for "no label" in a label-offset field.
pub const NO_LABEL: u32 = 0xffff_ffff;

/// The `i`-th record of a table of records of width `w`.
pub open spec fn rec_at(table: Seq<u8>, w: int, i: int) -> Seq<u8> {
    table.subrange(i * w, i * w + w)
}

// ---- nodes ----------------------------------------------------------------

/// The fields of a node record.
#[derive(Clone, Copy, Debug, PartialEq, Eq, Structural)]
pub struct NodeFields {
    pub url_key: u64,
    pub content_hash: u64,
    pub fetched_at_ms: u64,
    pub last_change_ms: u64,
    pub url_off: u32,
    pub title_off: u32,
    pub snippet_off: u32,
    pub etag_off: u32,
    pub seg_start: u32,
    pub seg_count: u16,
    pub flags: u16,
    pub interval_s: u32,
    pub checks: u16,
    pub changes: u16,
    pub in_degree: u32,
}

/// What a node record says.
pub open spec fn node_fields(raw: Seq<u8>) -> NodeFields {
    NodeFields {
        url_key: number_at(raw, 0, 8) as u64,
        content_hash: number_at(raw, 8, 8) as u64,
        fetched_at_ms: number_at(raw, 16, 8) as u64,
        last_change_ms: number_at(raw, 24, 8) as u64,
        url_off: number_at(raw, 32, 4) as u32,
        title_off: number_at(raw, 36, 4) as u32,
        snippet_off: number_at(raw, 40, 4) as u32,
        etag_off: number_at(raw, 44, 4) as u32,
        seg_start: number_at(raw, 48, 4) as u32,
        seg_count: number_at(raw, 52, 2) as u16,
        flags: number_at(raw, 54, 2) as u16,
        interval_s: number_at(raw, 56, 4) as u32,
        checks: number_at(raw, 60, 2) as u16,
        changes: number_at(raw, 62, 2) as u16,
        in_degree: number_at(raw, 64, 4) as u32,
    }
}

/// The record that says `f`; its last four bytes are reserved and zero.
pub open spec fn node_bytes(f: NodeFields) -> Seq<u8> {
    le_bytes(f.url_key as nat, 8) + (le_bytes(f.content_hash as nat, 8) + (le_bytes(
        f.fetched_at_ms as nat,
        8,
    ) + (le_bytes(f.last_change_ms as nat, 8) + (le_bytes(f.url_off as nat, 4) + (le_bytes(
        f.title_off as nat,
        4,
    ) + (le_bytes(f.snippet_off as nat, 4) + (le_bytes(f.etag_off as nat, 4) + (le_bytes(
        f.seg_start as nat,
        4,
    ) + (le_bytes(f.seg_count as nat, 2) + (le_bytes(f.flags as nat, 2) + (le_bytes(
        f.interval_s as nat,
        4,
    ) + (le_bytes(f.checks as nat, 2) + (le_bytes(f.changes as nat, 2) + (le_bytes(
        f.in_degree as nat,
        4,
    ) + le_bytes(0, 4)))))))))))))))
}

/// A node record says what was written into it.
pub proof fn law_node_record_round_trip(f: NodeFields)
    ensures
        node_bytes(f).len() == NODE_LEN,
        node_fields(node_bytes(f)) == f,
{
    lemma_pow256_values();
    let r15 = le_bytes(0, 4);
    let r14 = le_bytes(f.in_degree as nat, 4) + r15;
    let r13 = le_bytes(f.changes as nat, 2) + r14;
    let r12 = le_bytes(f.checks as nat, 2) + r13;
    let r11 = le_bytes(f.interval_s as nat, 4) + r12;
    let r10 = le_bytes(f.flags as nat, 2) + r11;
    let r9 = le_bytes(f.seg_count as nat, 2) + r10;
    let r8 = le_bytes(f.seg_start as nat, 4) + r9;
    let r7 = le_bytes(f.etag_off as nat, 4) + r8;
    let r6 = le_bytes(f.snippet_off as nat, 4) + r7;
    let r5 = le_bytes(f.title_off as nat, 4) + r6;
    let r4 = le_bytes(f.url_off as nat, 4) + r5;
    let r3 = le_bytes(f.last_change_ms as nat, 8) + r4;
    let r2 = le_bytes(f.fetched_at_ms as nat, 8) + r3;
    let r1 = le_bytes(f.content_hash as nat, 8) + r2;
    let raw = node_bytes(f);
    lemma_le_bytes_len(0, 4);
    lemma_le_bytes_len(f.in_degree as nat, 4);
    lemma_le_bytes_len(f.changes as nat, 2);
    lemma_le_bytes_len(f.checks as nat, 2);
    lemma_le_bytes_len(f.interval_s as nat, 4);
    lemma_le_bytes_len(f.flags as nat, 2);
    lemma_le_bytes_len(f.seg_count as nat, 2);
    lemma_le_bytes_len(f.seg_start as nat, 4);
    lemma_le_bytes_len(f.etag_off as nat, 4);
    lemma_le_bytes_len(f.snippet_off as nat, 4);
    lemma_le_bytes_len(f.title_off as nat, 4);
    lemma_le_bytes_len(f.url_off as nat, 4);
    lemma_le_bytes_len(f.last_change_ms as nat, 8);
    lemma_le_bytes_len(f.fetched_at_ms as nat, 8);
    lemma_le_bytes_len(f.content_hash as nat, 8);
    lemma_le_bytes_len(f.url_key as nat, 8);
    let c = Cur { bytes: raw, pos: 0, fault: None };
    assert(raw.subrange(0, raw.len() as int) =~= raw);
    lemma_field_at(c, f.url_key as nat, 8, r1);
    lemma_field_at(c.skip(8), f.content_hash as nat, 8, r2);
    lemma_field_at(c.skip(8).skip(8), f.fetched_at_ms as nat, 8, r3);
    let c = Cur { bytes: raw, pos: 24, fault: None };
    lemma_field_at(c, f.last_change_ms as nat, 8, r4);
    lemma_field_at(c.skip(8), f.url_off as nat, 4, r5);
    let c = Cur { bytes: raw, pos: 36, fault: None };
    lemma_field_at(c, f.title_off as nat, 4, r6);
    lemma_field_at(c.skip(4), f.snippet_off as nat, 4, r7);
    let c = Cur { bytes: raw, pos: 44, fault: None };
    lemma_field_at(c, f.etag_off as nat, 4, r8);
    lemma_field_at(c.skip(4), f.seg_start as nat, 4, r9);
    let c = Cur { bytes: raw, pos: 52, fault: None };
    lemma_field_at(c, f.seg_count as nat, 2, r10);
    lemma_field_at(c.skip(2), f.flags as nat, 2, r11);
    let c = Cur { bytes: raw, pos: 56, fault: None };
    lemma_field_at(c, f.interval_s as nat, 4, r12);
    lemma_field_at(c.skip(4), f.checks as nat, 2, r13);
    let c = Cur { bytes: raw, pos: 62, fault: None };
    lemma_field_at(c, f.changes as nat, 2, r14);
    lemma_field_at(c.skip(2), f.in_degree as nat, 4, r15);
}

/// Zero-copy accessor over one 72-byte node record.
#[derive(Clone, Copy, Debug)]
pub struct NodeRec<'a>(pub &'a [u8]);

impl<'a> NodeRec<'a> {
    /// The record is whole.
    pub open spec fn wf(&self) -> bool {
        self.0@.len() >= NODE_LEN
    }

    /// What it says.
    pub open spec fn says(&self) -> NodeFields {
        node_fields(self.0@)
    }

    #[must_use]
    pub fn url_key(self) -> (v: UrlKey)
        requires
            self.wf(),
        ensures
            v == UrlKey(self.says().url_key),
    {
        UrlKey(get_u64(self.0, 0))
    }

    #[must_use]
    pub fn content_hash(self) -> (v: u64)
        requires
            self.wf(),
        ensures
            v == self.says().content_hash,
    {
        get_u64(self.0, 8)
    }

    #[must_use]
    pub fn fetched_at_ms(self) -> (v: u64)
        requires
            self.wf(),
        ensures
            v == self.says().fetched_at_ms,
    {
        get_u64(self.0, 16)
    }

    #[must_use]
    pub fn last_change_ms(self) -> (v: u64)
        requires
            self.wf(),
        ensures
            v == self.says().last_change_ms,
    {
        get_u64(self.0, 24)
    }

    #[must_use]
    pub fn url_off(self) -> (v: u32)
        requires
            self.wf(),
        ensures
            v == self.says().url_off,
    {
        get_u32(self.0, 32)
    }

    #[must_use]
    pub fn title_off(self) -> (v: u32)
        requires
            self.wf(),
        ensures
            v == self.says().title_off,
    {
        get_u32(self.0, 36)
    }

    #[must_use]
    pub fn snippet_off(self) -> (v: u32)
        requires
            self.wf(),
        ensures
            v == self.says().snippet_off,
    {
        get_u32(self.0, 40)
    }

    #[must_use]
    pub fn etag_off(self) -> (v: u32)
        requires
            self.wf(),
        ensures
            v == self.says().etag_off,
    {
        get_u32(self.0, 44)
    }

    #[must_use]
    pub fn seg_start(self) -> (v: u32)
        requires
            self.wf(),
        ensures
            v == self.says().seg_start,
    {
        get_u32(self.0, 48)
    }

    #[must_use]
    pub fn seg_count(self) -> (v: u16)
        requires
            self.wf(),
        ensures
            v == self.says().seg_count,
    {
        get_u16(self.0, 52)
    }

    #[must_use]
    pub fn flags(self) -> (v: u16)
        requires
            self.wf(),
        ensures
            v == self.says().flags,
    {
        get_u16(self.0, 54)
    }

    #[must_use]
    pub fn interval_s(self) -> (v: u32)
        requires
            self.wf(),
        ensures
            v == self.says().interval_s,
    {
        get_u32(self.0, 56)
    }

    #[must_use]
    pub fn checks(self) -> (v: u16)
        requires
            self.wf(),
        ensures
            v == self.says().checks,
    {
        get_u16(self.0, 60)
    }

    #[must_use]
    pub fn changes(self) -> (v: u16)
        requires
            self.wf(),
        ensures
            v == self.says().changes,
    {
        get_u16(self.0, 62)
    }

    #[must_use]
    pub fn in_degree(self) -> (v: u32)
        requires
            self.wf(),
        ensures
            v == self.says().in_degree,
    {
        get_u32(self.0, 64)
    }
}

/// Serialize one node record.
pub fn write_node_rec(out: &mut Vec<u8>, f: NodeFields)
    ensures
        final(out)@ == old(out)@ + node_bytes(f),
{
    broadcast use lemma_cat_assoc;

    put_u64(out, f.url_key);
    put_u64(out, f.content_hash);
    put_u64(out, f.fetched_at_ms);
    put_u64(out, f.last_change_ms);
    put_u32(out, f.url_off);
    put_u32(out, f.title_off);
    put_u32(out, f.snippet_off);
    put_u32(out, f.etag_off);
    put_u32(out, f.seg_start);
    put_u16(out, f.seg_count);
    put_u16(out, f.flags);
    put_u32(out, f.interval_s);
    put_u16(out, f.checks);
    put_u16(out, f.changes);
    put_u32(out, f.in_degree);
    put_u32(out, 0);
}

// ---- segments -------------------------------------------------------------

/// The fields of a segment record.
#[derive(Clone, Copy, Debug, PartialEq, Eq, Structural)]
pub struct SegFields {
    pub seg_key: u64,
    pub byte_start: u32,
    pub byte_len: u32,
    pub label_off: u32,
    pub importance: u16,
    pub depth: u8,
    pub flags: u8,
}

/// What a segment record says.
pub open spec fn seg_fields(raw: Seq<u8>) -> SegFields {
    SegFields {
        seg_key: number_at(raw, 0, 8) as u64,
        byte_start: number_at(raw, 8, 4) as u32,
        byte_len: number_at(raw, 12, 4) as u32,
        label_off: number_at(raw, 16, 4) as u32,
        importance: number_at(raw, 20, 2) as u16,
        depth: raw[22],
        flags: raw[23],
    }
}

/// The record that says `f`.
pub open spec fn seg_rec_bytes(f: SegFields) -> Seq<u8> {
    le_bytes(f.seg_key as nat, 8) + (le_bytes(f.byte_start as nat, 4) + (le_bytes(
        f.byte_len as nat,
        4,
    ) + (le_bytes(f.label_off as nat, 4) + (le_bytes(f.importance as nat, 2) + (seq![f.depth]
        + seq![f.flags])))))
}

/// A segment record says what was written into it.
pub proof fn law_seg_record_round_trip(f: SegFields)
    ensures
        seg_rec_bytes(f).len() == SEG_LEN,
        seg_fields(seg_rec_bytes(f)) == f,
{
    lemma_pow256_values();
    let r5 = seq![f.depth] + seq![f.flags];
    let r4 = le_bytes(f.importance as nat, 2) + r5;
    let r3 = le_bytes(f.label_off as nat, 4) + r4;
    let r2 = le_bytes(f.byte_len as nat, 4) + r3;
    let r1 = le_bytes(f.byte_start as nat, 4) + r2;
    let raw = seg_rec_bytes(f);
    lemma_le_bytes_len(f.importance as nat, 2);
    lemma_le_bytes_len(f.label_off as nat, 4);
    lemma_le_bytes_len(f.byte_len as nat, 4);
    lemma_le_bytes_len(f.byte_start as nat, 4);
    lemma_le_bytes_len(f.seg_key as nat, 8);
    let c = Cur { bytes: raw, pos: 0, fault: None };
    assert(raw.subrange(0, raw.len() as int) =~= raw);
    lemma_field_at(c, f.seg_key as nat, 8, r1);
    lemma_field_at(c.skip(8), f.byte_start as nat, 4, r2);
    let c = Cur { bytes: raw, pos: 12, fault: None };
    lemma_field_at(c, f.byte_len as nat, 4, r3);
    lemma_field_at(c.skip(4), f.label_off as nat, 4, r4);
    let c = Cur { bytes: raw, pos: 20, fault: None };
    lemma_field_at(c, f.importance as nat, 2, r5);
    assert(raw.subrange(22, 24)[0] == r5[0]);
    assert(raw.subrange(22, 24)[1] == r5[1]);
}

/// Zero-copy accessor over one 24-byte segment record.
#[derive(Clone, Copy, Debug)]
pub struct SegRec<'a>(pub &'a [u8]);

impl<'a> SegRec<'a> {
    /// The record is whole.
    pub open spec fn wf(&self) -> bool {
        self.0@.len() >= SEG_LEN
    }

    /// What it says.
    pub open spec fn says(&self) -> SegFields {
        seg_fields(self.0@)
    }

    #[must_use]
    pub fn seg_key(self) -> (v: u64)
        requires
            self.wf(),
        ensures
            v == self.says().seg_key,
    {
        get_u64(self.0, 0)
    }

    #[must_use]
    pub fn byte_start(self) -> (v: u32)
        requires
            self.wf(),
        ensures
            v == self.says().byte_start,
    {
        get_u32(self.0, 8)
    }

    #[must_use]
    pub fn byte_len(self) -> (v: u32)
        requires
            self.wf(),
        ensures
            v == self.says().byte_len,
    {
        get_u32(self.0, 12)
    }

    #[must_use]
    pub fn label_off(self) -> (v: u32)
        requires
            self.wf(),
        ensures
            v == self.says().label_off,
    {
        get_u32(self.0, 16)
    }

    #[must_use]
    pub fn importance(self) -> (v: u16)
        requires
            self.wf(),
        ensures
            v == self.says().importance,
    {
        get_u16(self.0, 20)
    }

    #[must_use]
    pub fn depth(self) -> (v: u8)
        requires
            self.wf(),
        ensures
            v == self.says().depth,
    {
        self.0[22]
    }

    #[must_use]
    pub fn flags(self) -> (v: u8)
        requires
            self.wf(),
        ensures
            v == self.says().flags,
    {
        self.0[23]
    }
}

/// Serialize one segment record.
pub fn write_seg_rec(out: &mut Vec<u8>, f: SegFields)
    ensures
        final(out)@ == old(out)@ + seg_rec_bytes(f),
{
    broadcast use lemma_cat_assoc;

    put_u64(out, f.seg_key);
    put_u32(out, f.byte_start);
    put_u32(out, f.byte_len);
    put_u32(out, f.label_off);
    put_u16(out, f.importance);
    put_u8(out, f.depth);
    put_u8(out, f.flags);
}

// ---- lexicon --------------------------------------------------------------

/// The fields of a lexicon record.
#[derive(Clone, Copy, Debug, PartialEq, Eq, Structural)]
pub struct LexFields {
    pub token_hash: u64,
    pub df: u32,
    pub postings_off: u32,
    pub postings_len: u32,
    pub label_off: u32,
}

/// What a lexicon record says.
pub open spec fn lex_fields(raw: Seq<u8>) -> LexFields {
    LexFields {
        token_hash: number_at(raw, 0, 8) as u64,
        df: number_at(raw, 8, 4) as u32,
        postings_off: number_at(raw, 12, 4) as u32,
        postings_len: number_at(raw, 16, 4) as u32,
        label_off: number_at(raw, 20, 4) as u32,
    }
}

/// The record that says `f`.
pub open spec fn lex_bytes(f: LexFields) -> Seq<u8> {
    le_bytes(f.token_hash as nat, 8) + (le_bytes(f.df as nat, 4) + (le_bytes(
        f.postings_off as nat,
        4,
    ) + (le_bytes(f.postings_len as nat, 4) + le_bytes(f.label_off as nat, 4))))
}

/// A lexicon record says what was written into it.
pub proof fn law_lex_record_round_trip(f: LexFields)
    ensures
        lex_bytes(f).len() == LEX_LEN,
        lex_fields(lex_bytes(f)) == f,
{
    lemma_pow256_values();
    let r4 = le_bytes(f.label_off as nat, 4);
    let r3 = le_bytes(f.postings_len as nat, 4) + r4;
    let r2 = le_bytes(f.postings_off as nat, 4) + r3;
    let r1 = le_bytes(f.df as nat, 4) + r2;
    let raw = lex_bytes(f);
    lemma_le_bytes_len(f.token_hash as nat, 8);
    lemma_le_bytes_len(f.df as nat, 4);
    lemma_le_bytes_len(f.postings_off as nat, 4);
    lemma_le_bytes_len(f.postings_len as nat, 4);
    lemma_le_bytes_len(f.label_off as nat, 4);
    let c = Cur { bytes: raw, pos: 0, fault: None };
    assert(raw.subrange(0, raw.len() as int) =~= raw);
    lemma_field_at(c, f.token_hash as nat, 8, r1);
    lemma_field_at(c.skip(8), f.df as nat, 4, r2);
    let c = Cur { bytes: raw, pos: 12, fault: None };
    lemma_field_at(c, f.postings_off as nat, 4, r3);
    lemma_field_at(c.skip(4), f.postings_len as nat, 4, r4);
    let c = Cur { bytes: raw, pos: 20, fault: None };
    assert(r4 =~= r4 + Seq::empty());
    lemma_field_at(c, f.label_off as nat, 4, Seq::empty());
}

/// Zero-copy accessor over one 24-byte lexicon record.
#[derive(Clone, Copy, Debug)]
pub struct LexRec<'a>(pub &'a [u8]);

impl<'a> LexRec<'a> {
    /// The record is whole.
    pub open spec fn wf(&self) -> bool {
        self.0@.len() >= LEX_LEN
    }

    /// What it says.
    pub open spec fn says(&self) -> LexFields {
        lex_fields(self.0@)
    }

    #[must_use]
    pub fn token_hash(self) -> (v: u64)
        requires
            self.wf(),
        ensures
            v == self.says().token_hash,
    {
        get_u64(self.0, 0)
    }

    #[must_use]
    pub fn df(self) -> (v: u32)
        requires
            self.wf(),
        ensures
            v == self.says().df,
    {
        get_u32(self.0, 8)
    }

    #[must_use]
    pub fn postings_off(self) -> (v: u32)
        requires
            self.wf(),
        ensures
            v == self.says().postings_off,
    {
        get_u32(self.0, 12)
    }

    #[must_use]
    pub fn postings_len(self) -> (v: u32)
        requires
            self.wf(),
        ensures
            v == self.says().postings_len,
    {
        get_u32(self.0, 16)
    }

    #[must_use]
    pub fn label_off(self) -> (v: u32)
        requires
            self.wf(),
        ensures
            v == self.says().label_off,
    {
        get_u32(self.0, 20)
    }
}

/// Serialize one lexicon record.
pub fn write_lex_rec(out: &mut Vec<u8>, f: LexFields)
    ensures
        final(out)@ == old(out)@ + lex_bytes(f),
{
    broadcast use lemma_cat_assoc;

    put_u64(out, f.token_hash);
    put_u32(out, f.df);
    put_u32(out, f.postings_off);
    put_u32(out, f.postings_len);
    put_u32(out, f.label_off);
}

// ---- labels ---------------------------------------------------------------

/// The heap bytes of the label at `off`.
pub open spec fn label_raw(labels: Seq<u8>, off: u32) -> Seq<u8> {
    labels.subrange(off + 2, off + 2 + number_at(labels, off as int, 2))
}

/// What is wrong with the label offset `off`, if anything.
pub open spec fn label_fault(labels: Seq<u8>, off: u32) -> Option<Fault> {
    if off == NO_LABEL {
        None
    } else if off + 2 > labels.len() {
        Some(Fault::Format("label offset out of bounds"@))
    } else if off + 2 + number_at(labels, off as int, 2) > labels.len() {
        Some(Fault::Format("label extends past heap"@))
    } else if !valid_utf8(label_raw(labels, off)) {
        Some(Fault::Format("label not utf-8"@))
    } else {
        None
    }
}

/// The label at `off`.
pub open spec fn label(labels: Seq<u8>, off: u32) -> Option<Seq<char>> {
    if off == NO_LABEL || !valid_utf8(label_raw(labels, off)) {
        None
    } else {
        Some(decode_utf8(label_raw(labels, off)))
    }
}

/// Check that `off` names a label of the heap.
pub fn check_label(labels: &[u8], off: u32) -> (r: Result<()>)
    ensures
        match r {
            Ok(_) => label_fault(labels@, off) is None,
            Err(e) => label_fault(labels@, off) == Some(e@),
        },
{
    if off == NO_LABEL {
        return Ok(());
    }
    let end: usize = labels.len();
    let at: usize = off as usize;
    if end < 2 || end - 2 < at {
        return Err(Error::format("label offset out of bounds"));
    }
    let len: usize = get_u16(labels, at) as usize;
    if end - 2 - at < len {
        return Err(Error::format("label extends past heap"));
    }
    match text(slice(labels, at + 2, at + 2 + len)) {
        Some(_) => Ok(()),
        None => Err(Error::format("label not utf-8")),
    }
}

/// Read a length-prefixed label at `off` from the labels heap.
#[must_use]
pub fn label_at(labels: &[u8], off: u32) -> (r: Option<&str>)
    requires
        off != NO_LABEL ==> off + 2 + number_at(labels@, off as int, 2) <= labels@.len(),
    ensures
        match r {
            Some(s) => label(labels@, off) == Some(s@) && encode_utf8(s@).len() <= 0xffff,
            None => label(labels@, off) is None,
        },
{
    if off == NO_LABEL {
        return None;
    }
    let end: usize = labels.len();
    let at: usize = off as usize;
    let len: usize = get_u16(labels, at) as usize;
    text(slice(labels, at + 2, at + 2 + len))
}

/// Append a label to the heap and return its offset.
pub fn push_label(labels: &mut Vec<u8>, s: &str) -> (off: u32)
    requires
        encode_utf8(s@).len() <= 0xffff,
        old(labels)@.len() <= u32::MAX,
    ensures
        off == old(labels)@.len(),
        final(labels)@ == old(labels)@ + str_bytes(s@),
{
    let off: u32 = labels.len() as u32;
    put_str(labels, s);
    off
}

/// A label that was pushed is read back, whatever is pushed after it.
pub proof fn law_label_round_trip(before: Seq<u8>, s: Seq<char>, after: Seq<u8>)
    requires
        encode_utf8(s).len() <= 0xffff,
        before.len() < NO_LABEL,
    ensures
        label_fault(before + str_bytes(s) + after, before.len() as u32) is None,
        label(before + str_bytes(s) + after, before.len() as u32) == Some(s),
{
    let heap = before + str_bytes(s) + after;
    let raw = encode_utf8(s);
    let c = Cur { bytes: heap, pos: before.len() as int, fault: None };
    assert(heap.subrange(before.len() as int, (before.len() + str_bytes(s).len()) as int) =~= str_bytes(s));
    lemma_pow256_values();
    lemma_le_bytes_len(raw.len(), 2);
    lemma_field_at(c, raw.len(), 2, raw);
    encode_utf8_valid_utf8(s);
    encode_utf8_decode_utf8(s);
}

// ---- the node table -------------------------------------------------------

/// The key of the `i`-th node.
pub open spec fn node_key(nodes: Seq<u8>, i: int) -> u64 {
    number_at(nodes, i * NODE_LEN, 8) as u64
}

/// Keys strictly ascend over the first `n` nodes.
pub open spec fn keys_ascend(nodes: Seq<u8>, n: int) -> bool {
    forall|i: int, j: int| 0 <= i < j < n ==> node_key(nodes, i) < node_key(nodes, j)
}

/// Binary-search the sorted node table for `key`; returns the record index.
#[must_use]
pub fn find_node(nodes: &[u8], key: UrlKey) -> (r: Option<u32>)
    requires
        nodes@.len() / NODE_LEN as nat <= u32::MAX,
    ensures
        r matches Some(i) ==> i < nodes@.len() / NODE_LEN as nat && node_key(nodes@, i as int)
            == key.0,
        keys_ascend(nodes@, (nodes@.len() / NODE_LEN as nat) as int) && r is None ==> forall|i: int|
            0 <= i < nodes@.len() / NODE_LEN as nat ==> node_key(nodes@, i) != key.0,
{
    let end: usize = nodes.len();
    let n: usize = end / NODE_LEN;
    let mut lo: usize = 0;
    let mut hi: usize = n;
    while lo < hi
        invariant
            lo <= hi <= n,
            n == end / NODE_LEN,
            n == nodes@.len() / NODE_LEN as nat,
            end == nodes@.len(),
            n <= u32::MAX,
            keys_ascend(nodes@, n as int) ==> (forall|i: int|
                0 <= i < lo ==> node_key(nodes@, i) < key.0) && (forall|i: int|
                hi <= i < n ==> key.0 < node_key(nodes@, i)),
        decreases hi - lo,
    {
        let mid: usize = lo + (hi - lo) / 2;
        let k: u64 = get_u64(nodes, mid * NODE_LEN);
        assert(k == node_key(nodes@, mid as int));
        if k < key.0 {
            lo = mid + 1;
        } else if k > key.0 {
            hi = mid;
        } else {
            return Some(mid as u32);
        }
    }
    None
}

// ---- postings -------------------------------------------------------------

/// Node ids strictly ascend.
pub open spec fn ids_ascend(ids: Seq<u32>) -> bool {
    forall|i: int, j: int| 0 <= i < j < ids.len() ==> ids[i] < ids[j]
}

/// How far the `i`-th id lies past the one before it.
pub open spec fn posting_delta(ids: Seq<u32>, i: int) -> nat {
    if i == 0 {
        ids[0] as nat
    } else {
        (ids[i] - ids[i - 1] - 1) as nat
    }
}

/// The encoding of the ids from the `i`-th on.
pub open spec fn postings_bytes(ids: Seq<u32>, i: int) -> Seq<u8>
    decreases ids.len() - i,
{
    if i >= ids.len() {
        Seq::empty()
    } else {
        varint_bytes(posting_delta(ids, i)) + postings_bytes(ids, i + 1)
    }
}

/// Decoding the rest of a run after `ids`.
pub open spec fn postings_from(c: Cur, ids: Seq<u32>) -> Result<Seq<u32>, Fault>
    decreases c.bytes.len() - c.pos,
    when c.fault is None && 0 <= c.pos
{
    if c.remaining() <= 0 {
        Ok(ids)
    } else {
        let (delta, d) = c.varint();
        let id = if ids.len() == 0 {
            delta as int
        } else {
            ids.last() + 1 + delta
        };
        if d.fault is Some {
            Err(d.fault->0)
        } else if id > u64::MAX {
            Err(Fault::Format("posting delta overflow"@))
        } else if id > u32::MAX {
            Err(Fault::Format("posting id overflow"@))
        } else {
            proof {
                lemma_varint_moves(c, 0);
            }
            postings_from(d, ids.push(id as u32))
        }
    }
}

/// The ids of a run.
pub open spec fn postings(bytes: Seq<u8>) -> Result<Seq<u32>, Fault> {
    postings_from(Cur { bytes, pos: 0, fault: None }, Seq::empty())
}

/// Decode a postings run (LEB128 deltas, ascending node ids).
pub fn decode_postings(bytes: &[u8]) -> (r: Result<Vec<u32>>)
    ensures
        match r {
            Ok(ids) => postings(bytes@) == Ok::<Seq<u32>, Fault>(ids@) && ids_ascend(ids@),
            Err(e) => postings(bytes@) == Err::<Seq<u32>, Fault>(e@),
        },
{
    let mut r: Reader<'_> = Reader::new(bytes);
    let mut out: Vec<u32> = Vec::with_capacity(bytes.len());
    while r.remaining() > 0
        invariant
            r.wf(),
            0 <= r.cur().pos,
            postings(bytes@) == postings_from(r.cur(), out@),
            ids_ascend(out@),
        decreases r.cur().remaining(),
    {
        let ghost c = r.cur();
        proof {
            lemma_varint_moves(c, 0);
        }
        let delta: u64 = r.varint()?;
        let mut id: u64 = delta;
        if out.len() > 0 {
            let last: u64 = out[out.len() - 1] as u64;
            if u64::MAX - last - 1 < delta {
                return Err(Error::format("posting delta overflow"));
            }
            id = last + 1 + delta;
        }
        if id > 0xffff_ffff {
            return Err(Error::format("posting id overflow"));
        }
        out.push(id as u32);
    }
    Ok(out)
}

/// Encode a postings run of strictly ascending ids.
pub fn encode_postings(ids: &[u32], out: &mut Vec<u8>)
    requires
        ids_ascend(ids@),
    ensures
        final(out)@ == old(out)@ + postings_bytes(ids@, 0),
{
    let ghost whole = old(out)@ + postings_bytes(ids@, 0);
    let n: usize = ids.len();
    let mut i: usize = 0;
    while i < n
        invariant
            i <= n == ids@.len(),
            ids_ascend(ids@),
            out@ + postings_bytes(ids@, i as int) == whole,
        decreases n - i,
    {
        let delta: u64 = if i == 0 {
            ids[0] as u64
        } else {
            assert(ids@[i - 1] < ids@[i as int]);
            (ids[i] - ids[i - 1] - 1) as u64
        };
        let ghost was = out@;
        put_varint(out, delta);
        proof {
            lemma_cat_assoc(was, varint_bytes(delta as nat), postings_bytes(ids@, i + 1));
        }
        i = i + 1;
    }
    assert(out@ + postings_bytes(ids@, n as int) =~= out@);
}

proof fn lemma_postings_at(c: Cur, ids: Seq<u32>, i: int)
    requires
        ids_ascend(ids),
        0 <= i <= ids.len(),
        c.at(postings_bytes(ids, i)),
        c.pos + postings_bytes(ids, i).len() == c.bytes.len(),
    ensures
        postings_from(c, ids.take(i)) == Ok::<Seq<u32>, Fault>(ids),
    decreases ids.len() - i,
{
    if i == ids.len() {
        assert(ids.take(i) =~= ids);
    } else {
        let delta = posting_delta(ids, i);
        if i > 0 {
            assert(ids[i - 1] < ids[i]);
            assert(ids.take(i).last() == ids[i - 1]);
        }
        let v = varint_bytes(delta);
        lemma_at_split(c, v, postings_bytes(ids, i + 1));
        lemma_varint_at(c, delta as u64);
        lemma_postings_at(c.skip(v.len()), ids, i + 1);
        assert(ids.take(i).push(ids[i]) =~= ids.take(i + 1));
    }
}

/// Decoding an encoded run gives the ids back.
pub proof fn law_postings_round_trip(ids: Seq<u32>)
    requires
        ids_ascend(ids),
    ensures
        postings(postings_bytes(ids, 0)) == Ok::<Seq<u32>, Fault>(ids),
{
    let b = postings_bytes(ids, 0);
    assert(b.subrange(0, b.len() as int) =~= b);
    assert(ids.take(0) =~= Seq::empty());
    lemma_postings_at(Cur { bytes: b, pos: 0, fault: None }, ids, 0);
}

} // verus!
