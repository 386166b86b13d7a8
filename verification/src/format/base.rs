//! `graph.base`: the immutable snapshot. Layout:
//!
//! ```text
//! [Header 128 B][DirEntry x N, 32 B each][section bytes, 64-aligned]...[trailer 8 B]
//! ```
//!
//! Fixed-width, sorted record tables make every lookup a binary search
//! directly against the file's bytes; the label heap holds all variable-width
//! strings. Section tags are burned: additive evolution happens via new
//! section kinds (unknown kinds are skipped on read) and header flags, never
//! by reinterpreting existing bytes.
#[allow(unused_imports)]
use crate::bytesio::{
    le_bytes, lemma_at_split, lemma_cat_assoc, lemma_field_at, lemma_le_bytes_len,
    lemma_le_round_trip, lemma_pow256_values, number_at, Cur,
};
use crate::bytesio::{get_u16, get_u32, get_u64, put_u16, put_u32, put_u64, put_u8, slice};
#[allow(unused_imports)]
use crate::error::{decimal, Fault};
use crate::error::{push_decimal, Error, Result};
#[allow(unused_imports)]
use crate::key::xxh3;
use crate::key::xxh3_of;
use vstd::prelude::*;
use vstd::string::*;

pub mod dir;
pub mod eflags;
pub mod nflags;
pub mod records;
pub mod sflags;
pub mod writer;

pub use self::dir::{validate, BaseDir};
pub use self::records::{
    decode_postings, encode_postings, find_node, label_at, push_label, LexRec, NodeRec, SegRec,
    EDGE_LEN, LEX_LEN, NODE_LEN, NO_LABEL, RANK_LEN, SEG_LEN,
};
pub use self::writer::BaseWriter;

verus! {

/// Magic: `"GRPR"` little-endian.
pub const MAGIC: u32 = 0x5250_5247;

/// Format version; strict-equal on read.
pub const VERSION: u16 = 1;

/// Header width.
pub const HEADER_LEN: usize = 128;

/// Section kinds; their tags are burned.
#[derive(Clone, Copy, Debug, PartialEq, Eq, Structural)]
pub enum SectionKind {
    /// Fixed 72-B node records sorted by `url_key`.
    Nodes,
    /// Fixed 24-B segment records grouped per node in document order.
    Segs,
    /// CSR offsets: `(node_count + 1)` x `u32` into `Edges`.
    EdgeIndex,
    /// Fixed 8-B edge records, per-node runs sorted by destination id.
    Edges,
    /// Length-prefixed UTF-8 label heap.
    Labels,
    /// Fixed 24-B token records sorted by `token_hash`.
    Lexicon,
    /// LEB128 delta-encoded ascending node-id postings.
    Postings,
    /// Fixed 8-B per-node rank/community records (parallel to `Nodes`).
    Ranks,
}

impl SectionKind {
    /// The tag in the file.
    pub open spec fn code(self) -> u16 {
        match self {
            SectionKind::Nodes => 1,
            SectionKind::Segs => 2,
            SectionKind::EdgeIndex => 3,
            SectionKind::Edges => 4,
            SectionKind::Labels => 5,
            SectionKind::Lexicon => 6,
            SectionKind::Postings => 7,
            SectionKind::Ranks => 8,
        }
    }

    /// The tag in the file.
    pub fn tag(self) -> (t: u16)
        ensures
            t == self.code(),
    {
        match self {
            SectionKind::Nodes => 1,
            SectionKind::Segs => 2,
            SectionKind::EdgeIndex => 3,
            SectionKind::Edges => 4,
            SectionKind::Labels => 5,
            SectionKind::Lexicon => 6,
            SectionKind::Postings => 7,
            SectionKind::Ranks => 8,
        }
    }
}

// ---- header ---------------------------------------------------------------

/// Parsed header of a base file.
#[derive(Clone, Copy, Debug, PartialEq, Eq, Structural)]
pub struct Header {
    /// Feature flags (none defined; must round-trip).
    pub flags: u16,
    /// Number of directory entries.
    pub section_count: u32,
    /// Node record count.
    pub node_count: u32,
    /// Segment record count.
    pub seg_count: u32,
    /// Edge record count.
    pub edge_count: u32,
    /// Lexicon record count.
    pub token_count: u32,
    /// Monotonic snapshot generation (bumped each compaction).
    pub generation: u64,
    /// Highest log op sequence folded into this base.
    pub wal_applied_seq: u64,
    /// Total file length including trailer.
    pub total_len: u64,
    /// Wall-clock creation stamp (informational).
    pub created_at_ms: u64,
}

/// The header before its checksum; the last seven words are reserved, zero.
pub open spec fn header_body(h: Header) -> Seq<u8> {
    le_bytes(MAGIC as nat, 4) + (le_bytes(VERSION as nat, 2) + (le_bytes(h.flags as nat, 2) + (
    le_bytes(HEADER_LEN as nat, 4) + (le_bytes(h.section_count as nat, 4) + (le_bytes(
        h.node_count as nat,
        4,
    ) + (le_bytes(h.seg_count as nat, 4) + (le_bytes(h.edge_count as nat, 4) + (le_bytes(
        h.token_count as nat,
        4,
    ) + (le_bytes(h.generation as nat, 8) + (le_bytes(h.wal_applied_seq as nat, 8) + (le_bytes(
        h.total_len as nat,
        8,
    ) + (le_bytes(h.created_at_ms as nat, 8) + zeros(56)))))))))))))
}

/// The header with its checksum.
pub open spec fn header_bytes(h: Header) -> Seq<u8> {
    header_body(h) + le_bytes(xxh3(header_body(h)) as nat, 8)
}

/// `n` zero bytes.
pub open spec fn zeros(n: nat) -> Seq<u8> {
    Seq::new(n, |i: int| 0u8)
}

/// The fields of a header.
pub open spec fn header_fields(bytes: Seq<u8>) -> Header {
    Header {
        flags: number_at(bytes, 6, 2) as u16,
        section_count: number_at(bytes, 12, 4) as u32,
        node_count: number_at(bytes, 16, 4) as u32,
        seg_count: number_at(bytes, 20, 4) as u32,
        edge_count: number_at(bytes, 24, 4) as u32,
        token_count: number_at(bytes, 28, 4) as u32,
        generation: number_at(bytes, 32, 8) as u64,
        wal_applied_seq: number_at(bytes, 40, 8) as u64,
        total_len: number_at(bytes, 48, 8) as u64,
        created_at_ms: number_at(bytes, 56, 8) as u64,
    }
}

/// What parsing a header gives when the checksum of its first 120 bytes is
/// `sum`.
pub open spec fn header_summed(bytes: Seq<u8>, sum: u64) -> Result<Header, Fault> {
    if bytes.len() < HEADER_LEN {
        Err(Fault::Format("file shorter than header"@))
    } else if number_at(bytes, 0, 4) != MAGIC {
        Err(Fault::Format("bad magic"@))
    } else if number_at(bytes, 4, 2) != VERSION {
        Err(Fault::Format("unsupported version "@ + decimal(number_at(bytes, 4, 2))))
    } else if sum != number_at(bytes, 120, 8) {
        Err(Fault::Format("header checksum mismatch"@))
    } else if number_at(bytes, 8, 4) != HEADER_LEN {
        Err(Fault::Format("unexpected header length"@))
    } else if bytes.subrange(64, 120) != zeros(56) {
        Err(Fault::Format("reserved header bytes not zero"@))
    } else {
        Ok(header_fields(bytes))
    }
}

/// What parsing a header gives: its fields, or the first thing wrong with it.
pub open spec fn parsed_header(bytes: Seq<u8>) -> Result<Header, Fault> {
    header_summed(bytes, xxh3(bytes.subrange(0, 120)))
}

pub(crate) fn put_zeros(out: &mut Vec<u8>, n: usize)
    ensures
        final(out)@ == old(out)@ + zeros(n as nat),
{
    let mut i: usize = 0;
    while i < n
        invariant
            i <= n,
            out@ =~= old(out)@ + zeros(i as nat),
        decreases n - i,
    {
        put_u8(out, 0);
        i = i + 1;
    }
}

/// All of `bytes` are zero.
fn all_zero(bytes: &[u8]) -> (r: bool)
    ensures
        r == (bytes@ == zeros(bytes@.len())),
{
    let n: usize = bytes.len();
    let mut i: usize = 0;
    while i < n
        invariant
            i <= n == bytes@.len(),
            forall|k: int| 0 <= k < i ==> bytes@[k] == 0,
        decreases n - i,
    {
        if bytes[i] != 0 {
            assert(bytes@[i as int] != zeros(bytes@.len())[i as int]);
            return false;
        }
        i = i + 1;
    }
    assert(bytes@ =~= zeros(bytes@.len()));
    true
}

fn bad_version(version: u16) -> (e: Error)
    ensures
        e@ == Fault::Format("unsupported version "@ + decimal(version as nat)),
{
    let mut message: String = "unsupported version ".to_owned();
    push_decimal(&mut message, version as u64);
    Error::Format { message }
}

impl Header {
    /// Write the header at the start of a file.
    pub fn write_into(&self, out: &mut Vec<u8>)
        requires
            old(out)@.len() == 0,
        ensures
            final(out)@ == header_bytes(*self),
    {
        broadcast use lemma_cat_assoc;

        put_u32(out, MAGIC);
        assert(out@ =~= le_bytes(MAGIC as nat, 4));
        put_u16(out, VERSION);
        put_u16(out, self.flags);
        put_u32(out, 128);
        put_u32(out, self.section_count);
        put_u32(out, self.node_count);
        put_u32(out, self.seg_count);
        put_u32(out, self.edge_count);
        put_u32(out, self.token_count);
        put_u64(out, self.generation);
        put_u64(out, self.wal_applied_seq);
        put_u64(out, self.total_len);
        put_u64(out, self.created_at_ms);
        put_zeros(out, 56);
        let sum: u64 = xxh3_of(out.as_slice());
        put_u64(out, sum);
    }

    /// Parse a header whose first 120 bytes have the checksum `sum`.
    pub fn parse_summed(bytes: &[u8], sum: u64) -> (r: Result<Header>)
        ensures
            match r {
                Ok(h) => header_summed(bytes@, sum) == Ok::<Header, Fault>(h),
                Err(e) => header_summed(bytes@, sum) == Err::<Header, Fault>(e@),
            },
    {
        if bytes.len() < HEADER_LEN {
            return Err(Error::format("file shorter than header"));
        }
        if get_u32(bytes, 0) != MAGIC {
            return Err(Error::format("bad magic"));
        }
        let version: u16 = get_u16(bytes, 4);
        if version != VERSION {
            return Err(bad_version(version));
        }
        if sum != get_u64(bytes, 120) {
            return Err(Error::format("header checksum mismatch"));
        }
        if get_u32(bytes, 8) != 128 {
            return Err(Error::format("unexpected header length"));
        }
        if !all_zero(slice(bytes, 64, 120)) {
            return Err(Error::format("reserved header bytes not zero"));
        }
        Ok(
            Header {
                flags: get_u16(bytes, 6),
                section_count: get_u32(bytes, 12),
                node_count: get_u32(bytes, 16),
                seg_count: get_u32(bytes, 20),
                edge_count: get_u32(bytes, 24),
                token_count: get_u32(bytes, 28),
                generation: get_u64(bytes, 32),
                wal_applied_seq: get_u64(bytes, 40),
                total_len: get_u64(bytes, 48),
                created_at_ms: get_u64(bytes, 56),
            },
        )
    }

    /// Parse the header of a file.
    pub fn parse(bytes: &[u8]) -> (r: Result<Header>)
        ensures
            match r {
                Ok(h) => parsed_header(bytes@) == Ok::<Header, Fault>(h),
                Err(e) => parsed_header(bytes@) == Err::<Header, Fault>(e@),
            },
    {
        if bytes.len() < HEADER_LEN {
            return Err(Error::format("file shorter than header"));
        }
        let sum: u64 = xxh3_of(slice(bytes, 0, 120));
        Header::parse_summed(bytes, sum)
    }
}

pub proof fn lemma_header_len(h: Header)
    ensures
        header_body(h).len() == 120,
        header_bytes(h).len() == 128,
{
    lemma_le_bytes_len(MAGIC as nat, 4);
    lemma_le_bytes_len(VERSION as nat, 2);
    lemma_le_bytes_len(h.flags as nat, 2);
    lemma_le_bytes_len(HEADER_LEN as nat, 4);
    lemma_le_bytes_len(h.section_count as nat, 4);
    lemma_le_bytes_len(h.node_count as nat, 4);
    lemma_le_bytes_len(h.seg_count as nat, 4);
    lemma_le_bytes_len(h.edge_count as nat, 4);
    lemma_le_bytes_len(h.token_count as nat, 4);
    lemma_le_bytes_len(h.generation as nat, 8);
    lemma_le_bytes_len(h.wal_applied_seq as nat, 8);
    lemma_le_bytes_len(h.total_len as nat, 8);
    lemma_le_bytes_len(h.created_at_ms as nat, 8);
    lemma_le_bytes_len(xxh3(header_body(h)) as nat, 8);
}

/// A file that begins with a written header parses to it, whatever follows.
pub proof fn law_header_round_trip(bytes: Seq<u8>, h: Header)
    requires
        header_bytes(h).is_prefix_of(bytes),
    ensures
        parsed_header(bytes) == Ok::<Header, Fault>(h),
{
    lemma_header_len(h);
    lemma_pow256_values();
    let body = header_body(h);
    let sum = xxh3(body);
    lemma_le_round_trip(sum as nat, 8);
    let c = Cur { bytes, pos: 0, fault: None };
    assert(c.at(header_bytes(h)));
    lemma_at_split(c, body, le_bytes(sum as nat, 8));
    assert(bytes.subrange(0, 120) == body);
    let r12 = le_bytes(h.created_at_ms as nat, 8) + zeros(56);
    let r11 = le_bytes(h.total_len as nat, 8) + r12;
    let r10 = le_bytes(h.wal_applied_seq as nat, 8) + r11;
    let r9 = le_bytes(h.generation as nat, 8) + r10;
    let r8 = le_bytes(h.token_count as nat, 4) + r9;
    let r7 = le_bytes(h.edge_count as nat, 4) + r8;
    let r6 = le_bytes(h.seg_count as nat, 4) + r7;
    let r5 = le_bytes(h.node_count as nat, 4) + r6;
    let r4 = le_bytes(h.section_count as nat, 4) + r5;
    let r3 = le_bytes(HEADER_LEN as nat, 4) + r4;
    let r2 = le_bytes(h.flags as nat, 2) + r3;
    let r1 = le_bytes(VERSION as nat, 2) + r2;
    lemma_field_at(c, MAGIC as nat, 4, r1);
    lemma_field_at(c.skip(4), VERSION as nat, 2, r2);
    let c = Cur { bytes, pos: 6, fault: None };
    lemma_field_at(c, h.flags as nat, 2, r3);
    lemma_field_at(c.skip(2), HEADER_LEN as nat, 4, r4);
    let c = Cur { bytes, pos: 12, fault: None };
    lemma_field_at(c, h.section_count as nat, 4, r5);
    lemma_field_at(c.skip(4), h.node_count as nat, 4, r6);
    let c = Cur { bytes, pos: 20, fault: None };
    lemma_field_at(c, h.seg_count as nat, 4, r7);
    lemma_field_at(c.skip(4), h.edge_count as nat, 4, r8);
    let c = Cur { bytes, pos: 28, fault: None };
    lemma_field_at(c, h.token_count as nat, 4, r9);
    lemma_field_at(c.skip(4), h.generation as nat, 8, r10);
    let c = Cur { bytes, pos: 40, fault: None };
    lemma_field_at(c, h.wal_applied_seq as nat, 8, r11);
    lemma_field_at(c.skip(8), h.total_len as nat, 8, r12);
    let c = Cur { bytes, pos: 56, fault: None };
    lemma_field_at(c, h.created_at_ms as nat, 8, zeros(56));
}

} // verus!
