//! Which files are accepted, and what holds of one that is.
#[allow(unused_imports)]
use crate::bytesio::number_at;
#[allow(unused_imports)]
use crate::format::base::dir::{
    dir_end, edge_dst, edge_start, entry_fault, entry_faults, law_accepted_means_sound,
    lemma_no_fault, lex_row, node_row, parsed_dir, tables,
};
#[allow(unused_imports)]
use crate::format::base::{header_fields, parsed_header, zeros};
#[allow(unused_imports)]
use crate::format::wal::frame_at;
#[allow(unused_imports)]
use crate::key::xxh3;
use vstd::prelude::*;

verus! {

/// A base header is accepted exactly if it is all there, carries the mark of
/// the format and its version, its own length, its checksum, and nothing in the
/// reserved bytes.
pub proof fn law_which_base_headers_are_accepted(bytes: Seq<u8>)
    ensures
        parsed_header(bytes) is Ok <==> {
            &&& bytes.len() >= 128
            &&& number_at(bytes, 0, 4) == 0x5250_5247
            &&& number_at(bytes, 4, 2) == 1
            &&& number_at(bytes, 8, 4) == 128
            &&& number_at(bytes, 120, 8) == xxh3(bytes.subrange(0, 120))
            &&& forall|i: int| 64 <= i < 120 ==> #[trigger] bytes[i] == 0
        },
        parsed_header(bytes) matches Ok(h) ==> h == header_fields(bytes),
{
    if bytes.len() >= 128 {
        let mid = bytes.subrange(64, 120);
        if forall|i: int| 64 <= i < 120 ==> #[trigger] bytes[i] == 0 {
            assert(mid =~= zeros(56));
        }
        if mid == zeros(56) {
            assert forall|i: int| 64 <= i < 120 implies #[trigger] bytes[i] == 0 by {
                assert(mid[i - 64] == bytes[i]);
                assert(zeros(56)[i - 64] == 0);
            }
        }
    }
}

/// A log header is accepted exactly if it is all there, carries the mark of the
/// format and its version, and its checksum. It names the generation that the
/// log belongs to.
pub proof fn law_which_log_headers_are_accepted(bytes: Seq<u8>)
    ensures
        crate::format::wal::parsed_header(bytes) is Ok <==> {
            &&& bytes.len() >= 64
            &&& number_at(bytes, 0, 4) == 0x5750_5247
            &&& number_at(bytes, 4, 2) == 1
            &&& number_at(bytes, 56, 8) == xxh3(bytes.subrange(0, 56))
        },
        crate::format::wal::parsed_header(bytes) matches Ok(g) ==> g == number_at(
            bytes,
            16,
            8,
        ) as u64,
{
}

/// A frame is taken only if it is all there, no longer than a mebibyte, and
/// carries its checksum.
pub proof fn law_which_frames_are_taken(bytes: Seq<u8>, pos: int)
    requires
        0 <= pos <= bytes.len(),
        frame_at(bytes, pos) is Some,
    ensures
        ({
            let len = number_at(bytes, pos, 4);
            let (seq, op, next) = frame_at(bytes, pos)->0;
            &&& len <= 1_048_576
            &&& next == pos + 20 + len
            &&& next <= bytes.len()
            &&& seq == number_at(bytes, pos + 12, 8) as u64
            &&& number_at(bytes, pos + 4, 8) == xxh3(
                crate::format::wal::sealed(seq, bytes.subrange(pos + 20, pos + 20 + len)),
            )
        }),
{
}

/// An accepted base file is as long as it says, ends in its checksum, and has
/// its sections behind the directory, within the file, on multiples of 64 bytes,
/// each with its checksum.
pub proof fn law_accepted_files_are_whole(bytes: Seq<u8>, i: int)
    requires
        parsed_dir(bytes) is Ok,
        0 <= i < header_fields(bytes).section_count,
    ensures
        ({
            let d = parsed_dir(bytes)->Ok_0;
            let h = header_fields(bytes);
            let entry = 128 + 32 * i;
            let s = d.spans[i];
            &&& d.header == h
            &&& d.spans.len() == h.section_count
            &&& h.total_len == bytes.len()
            &&& number_at(bytes, bytes.len() - 8, 8) == xxh3(bytes.subrange(0, bytes.len() - 8))
            &&& s.kind == number_at(bytes, entry, 2) as u16
            &&& s.off == number_at(bytes, entry + 8, 8)
            &&& s.len == number_at(bytes, entry + 16, 8)
            &&& s.off >= 128 + 32 * h.section_count
            &&& s.off % 64 == 0
            &&& s.off + s.len <= bytes.len() - 8
            &&& number_at(bytes, entry + 24, 8) == xxh3(bytes.subrange(s.off, s.off + s.len))
        }),
{
    let h = header_fields(bytes);
    let f = entry_faults(bytes, dir_end(h));
    lemma_no_fault(f, h.section_count as nat);
    assert(f(i) is None);
    assert(entry_fault(bytes, dir_end(h), i) is None);
}

/// In an accepted base keys ascend, edges lead to nodes, the runs of edges and
/// segments of the nodes lie within what there is, and tokens ascend by hash.
pub proof fn law_accepted_bases_are_consistent(bytes: Seq<u8>, i: int, j: int)
    requires
        parsed_dir(bytes) is Ok,
    ensures
        ({
            let d = parsed_dir(bytes)->Ok_0;
            let t = tables(d, bytes);
            let h = d.header;
            &&& 0 <= i < j < h.node_count ==> node_row(t, i).url_key < node_row(t, j).url_key
            &&& 0 <= i < h.node_count ==> node_row(t, i).seg_start + node_row(t, i).seg_count
                <= h.seg_count
            &&& 0 <= i < h.node_count ==> edge_start(t, i) <= edge_start(t, i + 1)
            &&& h.node_count > 0 ==> edge_start(t, h.node_count as int) == h.edge_count
            &&& h.node_count > 0 && 0 <= i < h.edge_count ==> edge_dst(t, i) < h.node_count
            &&& 0 <= i < j < h.token_count ==> lex_row(t, i).token_hash < lex_row(t, j).token_hash
        }),
{
    let d = parsed_dir(bytes)->Ok_0;
    let t = tables(d, bytes);
    law_accepted_means_sound(d.header, t);
    if 0 <= i < d.header.node_count {
        assert(crate::format::base::dir::node_resolves(d.header, t, i));
    }
}

} // verus!
