//! What a store finds when it is opened again, and how it names things.
#[allow(unused_imports)]
use crate::bytesio::{aligned, le_bytes, lemma_le_bytes_len, number_at};
#[allow(unused_imports)]
use crate::error::decimal;
#[allow(unused_imports)]
use crate::format::base::{eflags, header_fields, nflags, sflags, Header, SectionKind};
#[allow(unused_imports)]
use crate::format::base::records::{
    lex_fields, node_fields, seg_fields, EDGE_LEN, LEX_LEN, NODE_LEN, NO_LABEL, RANK_LEN, SEG_LEN,
};
#[allow(unused_imports)]
use crate::format::base::writer::off_of;
#[allow(unused_imports)]
use crate::format::wal::{frame_bytes, op_bytes, OpV};
#[allow(unused_imports)]
use crate::guarantees::counting::{count, lemma_count_same};
#[allow(unused_imports)]
use crate::key::{seg_key, seg_key_bytes, xxh3, EdgeType, UrlKey};
#[allow(unused_imports)]
use crate::lexicon::token_hash;
#[allow(unused_imports)]
use crate::store::{catching_up, past, settled, Repair};
use vstd::prelude::*;
#[allow(unused_imports)]
use vstd::utf8::encode_utf8;

verus! {

// ---- opening --------------------------------------------------------------

/// Of a log those ops are still to be applied that come after the last one the
/// base holds, in order, and no others.
pub proof fn law_ops_past_the_base(ops: Seq<(u64, OpV)>, applied: u64)
    ensures
        ({
            let rest = past(ops, applied);
            &&& rest.len() == count(ops.len() as int, |i: int| ops[i].0 > applied)
            &&& forall|i: int|
                0 <= i < ops.len() && (#[trigger] ops[i]).0 > applied ==> {
                    let at = count(i, |j: int| ops[j].0 > applied) as int;
                    at < rest.len() && rest[at] == ops[i]
                }
        }),
    decreases ops.len(),
{
    if ops.len() > 0 {
        let less = ops.drop_last();
        let last = ops.len() - 1;
        law_ops_past_the_base(less, applied);
        let rest = past(ops, applied);
        assert(forall|i: int| 0 <= i < last ==> #[trigger] less[i] == ops[i]);
        lemma_count_same(last, |j: int| less[j].0 > applied, |j: int| ops[j].0 > applied);
        assert forall|i: int| 0 <= i < ops.len() && (#[trigger] ops[i]).0 > applied implies ({
            let at = count(i, |j: int| ops[j].0 > applied) as int;
            at < rest.len() && rest[at] == ops[i]
        }) by {
            lemma_count_same(i, |j: int| less[j].0 > applied, |j: int| ops[j].0 > applied);
            if i < last {
                assert(less[i].0 > applied);
            }
        }
    }
}

/// A log that is newer than the base is refused. One that is older was folded
/// into the base: nothing of it applies, and it starts over. One of the same
/// generation applies past what the base holds, and is cut where it was torn.
/// Numbering goes on behind all that was seen.
pub proof fn law_how_a_log_settles(
    h: Header,
    base_generation: u64,
    ops: Seq<(u64, OpV)>,
    good_len: nat,
    raw_len: nat,
)
    requires
        h.wal_applied_seq < u64::MAX,
        ops.len() > 0 ==> ops.last().0 < u64::MAX,
        raw_len <= usize::MAX,
        good_len <= raw_len,
    ensures
        ({
            let r = settled(h, base_generation, ops, good_len, raw_len);
            &&& base_generation > h.generation <==> r is Err
            &&& base_generation > h.generation ==> r->Err_0 is Corrupt
            &&& base_generation < h.generation ==> {
                &&& r->Ok_0.ops.len() == 0
                &&& r->Ok_0.next_seq == h.wal_applied_seq + 1
                &&& r->Ok_0.wal_bytes == 64
                &&& r->Ok_0.repair is Reset
            }
            &&& base_generation == h.generation ==> {
                &&& r->Ok_0.ops == past(ops, h.wal_applied_seq)
                &&& r->Ok_0.next_seq > h.wal_applied_seq
                &&& ops.len() > 0 ==> r->Ok_0.next_seq > ops.last().0
                &&& r->Ok_0.next_seq == h.wal_applied_seq + 1 || (ops.len() > 0
                    && r->Ok_0.next_seq == ops.last().0 + 1)
                &&& r->Ok_0.wal_bytes == good_len
                &&& good_len < raw_len ==> r->Ok_0.repair == Repair::Truncate(good_len as usize)
                &&& good_len == raw_len ==> r->Ok_0.repair is Keep
            }
        }),
{
}

/// A reader installs another generation, follows its own as far as there is
/// more, and otherwise has nothing to do.
pub proof fn law_how_a_reader_catches_up(shown: u64, have: usize, on_disk: u64, found: usize)
    ensures
        ({
            let r = catching_up(shown, have, on_disk, found);
            &&& r is Install <==> on_disk != shown
            &&& r is Extend <==> on_disk == shown && found > have
            &&& r is Current <==> on_disk == shown && found <= have
            &&& r is Extend ==> r->Extend_0 == have
        }),
{
}

// ---- names ----------------------------------------------------------------

/// The tags of edge types, as they stand in files.
pub proof fn law_edge_type_tags(t: u8)
    ensures
        EdgeType::Link.tag() == 0,
        EdgeType::Related.tag() == 2,
        EdgeType::Redirect.tag() == 3,
        EdgeType::Unknown(t).tag() == t,
        EdgeType::of_tag(0) is Link,
        EdgeType::of_tag(2) is Related,
        EdgeType::of_tag(3) is Redirect,
        t != 0 && t != 2 && t != 3 ==> EdgeType::of_tag(t) == EdgeType::Unknown(t),
{
}

/// A token goes by the hash of its text.
pub proof fn law_token_hashes(t: Seq<char>)
    ensures
        token_hash(t) == xxh3(encode_utf8(t)),
{
}

/// A segment goes by the hash of its document's key, of a zero byte, and of its
/// heading path.
pub proof fn law_segment_keys(owner: UrlKey, path: Seq<char>)
    ensures
        ({
            let bytes = seg_key_bytes(owner, path);
            &&& seg_key(owner, path) == xxh3(bytes)
            &&& bytes.len() == 9 + encode_utf8(path).len()
            &&& bytes.take(8) == le_bytes(owner.0 as nat, 8)
            &&& bytes[8] == 0
            &&& bytes.skip(9) == encode_utf8(path)
        }),
{
    lemma_le_bytes_len(owner.0 as nat, 8);
    let bytes = seg_key_bytes(owner, path);
    assert(bytes.take(8) =~= le_bytes(owner.0 as nat, 8));
    assert(bytes.skip(9) =~= encode_utf8(path));
}

// ---- layout ---------------------------------------------------------------

/// Numbers stand with their lowest byte first.
pub proof fn law_numbers_are_little_endian(bytes: Seq<u8>, off: int, w: int)
    requires
        0 <= off,
        0 <= w,
        off + w < bytes.len(),
    ensures
        number_at(bytes, off, 0) == 0,
        number_at(bytes, off, w + 1) == bytes[off] + 256 * number_at(bytes, off + 1, w),
{
    let b = bytes.subrange(off, off + w + 1);
    assert(b.drop_first() =~= bytes.subrange(off + 1, off + 1 + w));
    assert(b[0] == bytes[off]);
    assert(bytes.subrange(off, off).len() == 0);
}

/// Where the fields of a header stand.
pub proof fn law_header_layout(bytes: Seq<u8>)
    ensures
        ({
            let h = header_fields(bytes);
            &&& h.flags == number_at(bytes, 6, 2) as u16
            &&& h.section_count == number_at(bytes, 12, 4) as u32
            &&& h.node_count == number_at(bytes, 16, 4) as u32
            &&& h.seg_count == number_at(bytes, 20, 4) as u32
            &&& h.edge_count == number_at(bytes, 24, 4) as u32
            &&& h.token_count == number_at(bytes, 28, 4) as u32
            &&& h.generation == number_at(bytes, 32, 8) as u64
            &&& h.wal_applied_seq == number_at(bytes, 40, 8) as u64
            &&& h.total_len == number_at(bytes, 48, 8) as u64
            &&& h.created_at_ms == number_at(bytes, 56, 8) as u64
        }),
{
}

/// Where the fields of a node record stand.
pub proof fn law_node_layout(raw: Seq<u8>)
    ensures
        NODE_LEN == 72,
        ({
            let f = node_fields(raw);
            &&& f.url_key == number_at(raw, 0, 8) as u64
            &&& f.content_hash == number_at(raw, 8, 8) as u64
            &&& f.fetched_at_ms == number_at(raw, 16, 8) as u64
            &&& f.last_change_ms == number_at(raw, 24, 8) as u64
            &&& f.url_off == number_at(raw, 32, 4) as u32
            &&& f.title_off == number_at(raw, 36, 4) as u32
            &&& f.snippet_off == number_at(raw, 40, 4) as u32
            &&& f.etag_off == number_at(raw, 44, 4) as u32
            &&& f.seg_start == number_at(raw, 48, 4) as u32
            &&& f.seg_count == number_at(raw, 52, 2) as u16
            &&& f.flags == number_at(raw, 54, 2) as u16
            &&& f.interval_s == number_at(raw, 56, 4) as u32
            &&& f.checks == number_at(raw, 60, 2) as u16
            &&& f.changes == number_at(raw, 62, 2) as u16
            &&& f.in_degree == number_at(raw, 64, 4) as u32
        }),
{
}

/// Where the fields of a segment record stand.
pub proof fn law_segment_layout(raw: Seq<u8>)
    ensures
        SEG_LEN == 24,
        ({
            let f = seg_fields(raw);
            &&& f.seg_key == number_at(raw, 0, 8) as u64
            &&& f.byte_start == number_at(raw, 8, 4) as u32
            &&& f.byte_len == number_at(raw, 12, 4) as u32
            &&& f.label_off == number_at(raw, 16, 4) as u32
            &&& f.importance == number_at(raw, 20, 2) as u16
            &&& f.depth == raw[22]
            &&& f.flags == raw[23]
        }),
{
}

/// Where the fields of a lexicon record stand.
pub proof fn law_lexicon_layout(raw: Seq<u8>)
    ensures
        LEX_LEN == 24,
        ({
            let f = lex_fields(raw);
            &&& f.token_hash == number_at(raw, 0, 8) as u64
            &&& f.df == number_at(raw, 8, 4) as u32
            &&& f.postings_off == number_at(raw, 12, 4) as u32
            &&& f.postings_len == number_at(raw, 16, 4) as u32
            &&& f.label_off == number_at(raw, 20, 4) as u32
        }),
{
}

/// How long the other records are, and what they are told from.
pub proof fn law_section_tags()
    ensures
        EDGE_LEN == 8,
        RANK_LEN == 8,
        NO_LABEL == u32::MAX,
        SectionKind::Nodes.code() == 1,
        SectionKind::Segs.code() == 2,
        SectionKind::EdgeIndex.code() == 3,
        SectionKind::Edges.code() == 4,
        SectionKind::Labels.code() == 5,
        SectionKind::Lexicon.code() == 6,
        SectionKind::Postings.code() == 7,
        SectionKind::Ranks.code() == 8,
{
}

/// The marks of nodes, of edges and of segments, as they stand in files.
pub proof fn law_mark_values()
    ensures
        nflags::PINNED == 1,
        nflags::STUB == 2,
        nflags::TOMBSTONE == 4,
        eflags::TIER_ENRICH == 1,
        eflags::INFERRED == 2,
        sflags::NO_RANGE == 1,
        sflags::LLM_SCORED == 2,
{
}

/// What an op is told from in a log: a number for what it does, and then the key
/// that it is about.
pub proof fn law_op_layout(op: OpV)
    ensures
        ({
            let bytes = op_bytes(op);
            &&& bytes.len() >= 9
            &&& bytes.subrange(1, 9) == le_bytes(op.target().0 as nat, 8)
            &&& op is UpsertNode ==> bytes[0] == 1
            &&& op is SetSegments ==> bytes[0] == 2
            &&& op is SetEdges ==> bytes[0] == 3
            &&& op is Touch ==> bytes[0] == 4
            &&& op is Remove ==> bytes[0] == 5 && bytes.len() == 9
            &&& op is SetPinned ==> bytes[0] == 6 && bytes.len() == 10
            &&& op is SetImportance ==> bytes[0] == 7
        }),
{
    lemma_le_bytes_len(op.target().0 as nat, 8);
    let bytes = op_bytes(op);
    assert(bytes.subrange(1, 9) =~= le_bytes(op.target().0 as nat, 8));
}

/// A frame holds the length of its op, a checksum of number and op, the number,
/// and the op.
pub proof fn law_frame_layout(seq: u64, op: OpV)
    ensures
        ({
            let f = frame_bytes(seq, op);
            let n = op_bytes(op).len();
            &&& f.len() == 20 + n
            &&& f.subrange(0, 4) == le_bytes(n, 4)
            &&& f.subrange(4, 12) == le_bytes(
                xxh3(le_bytes(seq as nat, 8) + op_bytes(op)) as nat,
                8,
            )
            &&& f.subrange(12, 20) == le_bytes(seq as nat, 8)
            &&& f.skip(20) == op_bytes(op)
        }),
{
    let p = op_bytes(op);
    let f = frame_bytes(seq, op);
    let sum = xxh3(le_bytes(seq as nat, 8) + p);
    lemma_le_bytes_len(p.len(), 4);
    lemma_le_bytes_len(sum as nat, 8);
    lemma_le_bytes_len(seq as nat, 8);
    assert(f.subrange(0, 4) =~= le_bytes(p.len(), 4));
    assert(f.subrange(4, 12) =~= le_bytes(sum as nat, 8));
    assert(f.subrange(12, 20) =~= le_bytes(seq as nat, 8));
    assert(f.skip(20) =~= p);
}

/// Sections stand one behind the other, each from a multiple of 64 bytes on,
/// behind a header of 128 bytes and 32 bytes for each of them.
pub proof fn law_sections_are_aligned(secs: Seq<(u16, Seq<u8>)>, i: int)
    requires
        0 <= i < secs.len(),
    ensures
        off_of(secs, i) % 64 == 0,
        off_of(secs, 0) >= 128 + 32 * secs.len(),
        off_of(secs, 0) < 128 + 32 * secs.len() + 64,
        off_of(secs, i + 1) >= off_of(secs, i) + secs[i].1.len(),
        off_of(secs, i + 1) < off_of(secs, i) + secs[i].1.len() + 64,
        off_of(secs, i + 1) % 64 == 0,
{
    lemma_aligned_64((128 + 32 * secs.len()) as nat);
    lemma_aligned_64((off_of(secs, i) + secs[i].1.len()) as nat);
    if i > 0 {
        lemma_aligned_64((off_of(secs, i - 1) + secs[i - 1].1.len()) as nat);
    }
}

proof fn lemma_aligned_64(n: nat)
    ensures
        aligned(n, 64) % 64 == 0,
        n <= aligned(n, 64) < n + 64,
{
}

/// Numbers in messages are written in decimal digits.
pub proof fn law_decimal(n: nat, d: nat)
    requires
        d < 10,
    ensures
        decimal(d) == seq![(48 + d) as char],
        n > 0 ==> decimal(10 * n + d) == decimal(n).push((48 + d) as char),
{
    if n > 0 {
        assert((10 * n + d) / 10 == n && (10 * n + d) % 10 == d);
    }
}

} // verus!
