//! `graph.wal`: the append-only op log that extends a base generation.
//!
//! ```text
//! [header 64 B] [frame]* where frame = len u32 | xxh3(seq, payload) u64 | seq u64 | payload
//! ```
//!
//! Ops speak [`UrlKey`], never dense node ids, because ids are reassigned at
//! every compaction. Replay stops at the first torn or corrupt frame.
use crate::bytesio::{
    get_u16, get_u32, get_u64, put_bytes, put_str, put_u16, put_u32, put_u64, put_u8, put_varint,
    slice, Reader,
};
#[allow(unused_imports)]
use crate::bytesio::{
    le_bytes, lemma_at_split, lemma_cat_assoc, lemma_le_bytes_len, lemma_le_round_trip,
    lemma_pow256_values, lemma_str_at, lemma_u16_at, lemma_u32_at, lemma_u64_at, lemma_u8_at,
    lemma_varint_at, number_at, str_bytes, varint_bytes, Cur,
};
#[allow(unused_imports)]
use crate::error::{decimal, Fault};
use crate::error::{push_decimal, Error, Result};
#[allow(unused_imports)]
use crate::key::xxh3;
use crate::key::{xxh3_of, UrlKey};
use vstd::prelude::*;
use vstd::string::*;
#[allow(unused_imports)]
use vstd::utf8::*;

verus! {

/// Magic: `"GRPW"` little-endian.
pub const MAGIC: u32 = 0x5750_5247;

/// Log format version; strict-equal on read.
pub const VERSION: u16 = 1;

/// Header width.
pub const HEADER_LEN: usize = 64;

/// Maximum frame payload; bounds replay against hostile files.
pub const MAX_FRAME: usize = 1_048_576;

/// Fixed per-frame overhead before the payload.
pub const FRAME_OVERHEAD: usize = 20;

// ---- operations -----------------------------------------------------------

/// One segment inside a [`Op::SetSegments`].
#[derive(Debug, PartialEq, Eq)]
pub struct OwnedSeg {
    /// Heading path label (e.g. `"Install > Linux"`).
    pub label: String,
    /// Byte offset of the segment in the source document (0 and the
    /// `NO_RANGE` flag when unknown).
    pub byte_start: u32,
    /// Byte length of the segment.
    pub byte_len: u32,
    /// Heading depth (1 = H1 ...).
    pub depth: u8,
    /// Importance in 1/65535 units.
    pub importance: u16,
    /// Segment flags (`sflags`).
    pub flags: u8,
}

/// The value of an [`OwnedSeg`].
pub struct SegV {
    pub label: Seq<char>,
    pub byte_start: u32,
    pub byte_len: u32,
    pub depth: u8,
    pub importance: u16,
    pub flags: u8,
}

impl View for OwnedSeg {
    type V = SegV;

    open spec fn view(&self) -> SegV {
        SegV {
            label: self.label@,
            byte_start: self.byte_start,
            byte_len: self.byte_len,
            depth: self.depth,
            importance: self.importance,
            flags: self.flags,
        }
    }
}

impl Clone for OwnedSeg {
    fn clone(&self) -> (r: Self)
        ensures
            r@ == self@,
    {
        OwnedSeg {
            label: self.label.clone(),
            byte_start: self.byte_start,
            byte_len: self.byte_len,
            depth: self.depth,
            importance: self.importance,
            flags: self.flags,
        }
    }
}

/// The values of a run of segments.
pub open spec fn segs_view(segs: Seq<OwnedSeg>) -> Seq<SegV> {
    segs.map_values(|s: OwnedSeg| s@)
}

/// A copy of a run of segments.
pub fn clone_segs(segs: &Vec<OwnedSeg>) -> (r: Vec<OwnedSeg>)
    ensures
        segs_view(r@) == segs_view(segs@),
{
    let mut out: Vec<OwnedSeg> = Vec::new();
    let n: usize = segs.len();
    let mut i: usize = 0;
    while i < n
        invariant
            i <= n == segs@.len(),
            out@.len() == i,
            forall|j: int| 0 <= j < i ==> (#[trigger] out@[j])@ == segs@[j]@,
        decreases n - i,
    {
        out.push(segs[i].clone());
        i = i + 1;
    }
    assert(segs_view(out@) =~= segs_view(segs@));
    out
}

/// One edge inside a [`Op::SetEdges`]: destination key, type tag, edge flags,
/// weight.
pub type OwnedEdge = (UrlKey, u8, u8, u16);

/// A copy of a run of edges.
pub fn clone_edges(edges: &Vec<OwnedEdge>) -> (r: Vec<OwnedEdge>)
    ensures
        r@ == edges@,
{
    let mut out: Vec<OwnedEdge> = Vec::new();
    let n: usize = edges.len();
    let mut i: usize = 0;
    while i < n
        invariant
            i <= n == edges@.len(),
            out@ =~= edges@.take(i as int),
        decreases n - i,
    {
        out.push(edges[i]);
        i = i + 1;
    }
    out
}

/// The text of an optional string.
pub open spec fn opt_view(s: Option<String>) -> Option<Seq<char>> {
    match s {
        Some(t) => Some(t@),
        None => None,
    }
}

/// A copy of an optional string.
pub fn clone_opt(s: &Option<String>) -> (r: Option<String>)
    ensures
        opt_view(r) == opt_view(*s),
{
    match s {
        Some(t) => Some(t.clone()),
        None => None,
    }
}

/// An optional string, borrowed.
pub fn opt_str(s: &Option<String>) -> (r: Option<&str>)
    ensures
        r is Some <==> s is Some,
        r matches Some(t) ==> opt_view(*s) == Some(t@),
{
    match s {
        Some(t) => Some(t.as_str()),
        None => None,
    }
}

/// A log operation. All mutations to the graph flow through exactly these.
#[derive(Debug, PartialEq, Eq)]
#[allow(inconsistent_fields)]
pub enum Op {
    /// Create or replace a document node's core record.
    UpsertNode {
        key: UrlKey,
        content_hash: u64,
        fetched_at_ms: u64,
        flags: u16,
        url: String,
        title: Option<String>,
        snippet: Option<String>,
        etag: Option<String>,
    },
    /// Replace the node's entire segment set.
    SetSegments { key: UrlKey, segs: Vec<OwnedSeg> },
    /// Replace the node's entire outbound edge set, destinations strictly
    /// ascending by key.
    SetEdges { key: UrlKey, edges: Vec<OwnedEdge> },
    /// Record a revalidation outcome together with the freshness state that
    /// the writer computed.
    Touch {
        key: UrlKey,
        checked_at_ms: u64,
        outcome: u8,
        content_hash: Option<u64>,
        etag: Option<String>,
        interval_s: u32,
        checks: u16,
        changes: u16,
        last_change_ms: u64,
        tombstone: bool,
    },
    /// Hard-delete the node (and its segments and edges).
    Remove { key: UrlKey },
    /// Pin or unpin the node.
    SetPinned { key: UrlKey, pinned: bool },
    /// Per-segment-ordinal importance overrides.
    SetImportance { key: UrlKey, scores: Vec<(u8, u16)> },
}

/// The value of an [`Op`].
#[allow(inconsistent_fields)]
pub enum OpV {
    UpsertNode {
        key: UrlKey,
        content_hash: u64,
        fetched_at_ms: u64,
        flags: u16,
        url: Seq<char>,
        title: Option<Seq<char>>,
        snippet: Option<Seq<char>>,
        etag: Option<Seq<char>>,
    },
    SetSegments { key: UrlKey, segs: Seq<SegV> },
    SetEdges { key: UrlKey, edges: Seq<OwnedEdge> },
    Touch {
        key: UrlKey,
        checked_at_ms: u64,
        outcome: u8,
        content_hash: Option<u64>,
        etag: Option<Seq<char>>,
        interval_s: u32,
        checks: u16,
        changes: u16,
        last_change_ms: u64,
        tombstone: bool,
    },
    Remove { key: UrlKey },
    SetPinned { key: UrlKey, pinned: bool },
    SetImportance { key: UrlKey, scores: Seq<(u8, u16)> },
}

impl View for Op {
    type V = OpV;

    open spec fn view(&self) -> OpV {
        match *self {
            Op::UpsertNode {
                key,
                content_hash,
                fetched_at_ms,
                flags,
                url,
                title,
                snippet,
                etag,
            } => OpV::UpsertNode {
                key,
                content_hash,
                fetched_at_ms,
                flags,
                url: url@,
                title: opt_view(title),
                snippet: opt_view(snippet),
                etag: opt_view(etag),
            },
            Op::SetSegments { key, segs } => OpV::SetSegments { key, segs: segs_view(segs@) },
            Op::SetEdges { key, edges } => OpV::SetEdges { key, edges: edges@ },
            Op::Touch {
                key,
                checked_at_ms,
                outcome,
                content_hash,
                etag,
                interval_s,
                checks,
                changes,
                last_change_ms,
                tombstone,
            } => OpV::Touch {
                key,
                checked_at_ms,
                outcome,
                content_hash,
                etag: opt_view(etag),
                interval_s,
                checks,
                changes,
                last_change_ms,
                tombstone,
            },
            Op::Remove { key } => OpV::Remove { key },
            Op::SetPinned { key, pinned } => OpV::SetPinned { key, pinned },
            Op::SetImportance { key, scores } => OpV::SetImportance { key, scores: scores@ },
        }
    }
}

impl OpV {
    /// The key this op targets.
    pub open spec fn target(self) -> UrlKey {
        match self {
            OpV::UpsertNode { key, .. } => key,
            OpV::SetSegments { key, .. } => key,
            OpV::SetEdges { key, .. } => key,
            OpV::Touch { key, .. } => key,
            OpV::Remove { key } => key,
            OpV::SetPinned { key, .. } => key,
            OpV::SetImportance { key, .. } => key,
        }
    }
}

impl Clone for Op {
    fn clone(&self) -> (r: Self)
        ensures
            r@ == self@,
    {
        match self {
            Op::UpsertNode {
                key,
                content_hash,
                fetched_at_ms,
                flags,
                url,
                title,
                snippet,
                etag,
            } => Op::UpsertNode {
                key: *key,
                content_hash: *content_hash,
                fetched_at_ms: *fetched_at_ms,
                flags: *flags,
                url: url.clone(),
                title: clone_opt(title),
                snippet: clone_opt(snippet),
                etag: clone_opt(etag),
            },
            Op::SetSegments { key, segs } => Op::SetSegments { key: *key, segs: clone_segs(segs) },
            Op::SetEdges { key, edges } => Op::SetEdges { key: *key, edges: clone_edges(edges) },
            Op::Touch {
                key,
                checked_at_ms,
                outcome,
                content_hash,
                etag,
                interval_s,
                checks,
                changes,
                last_change_ms,
                tombstone,
            } => Op::Touch {
                key: *key,
                checked_at_ms: *checked_at_ms,
                outcome: *outcome,
                content_hash: *content_hash,
                etag: clone_opt(etag),
                interval_s: *interval_s,
                checks: *checks,
                changes: *changes,
                last_change_ms: *last_change_ms,
                tombstone: *tombstone,
            },
            Op::Remove { key } => Op::Remove { key: *key },
            Op::SetPinned { key, pinned } => Op::SetPinned { key: *key, pinned: *pinned },
            Op::SetImportance { key, scores } => {
                let copy: Vec<(u8, u16)> = clone_scores(scores.as_slice());
                Op::SetImportance { key: *key, scores: copy }
            },
        }
    }
}

/// A copy of a run of importance overrides.
pub fn clone_scores(scores: &[(u8, u16)]) -> (r: Vec<(u8, u16)>)
    ensures
        r@ == scores@,
{
    let mut out: Vec<(u8, u16)> = Vec::new();
    let n: usize = scores.len();
    let mut i: usize = 0;
    while i < n
        invariant
            i <= n == scores@.len(),
            out@ =~= scores@.take(i as int),
        decreases n - i,
    {
        out.push(scores[i]);
        i = i + 1;
    }
    out
}

// ---- encoding -------------------------------------------------------------

/// The encoded length fits a `u16`.
pub open spec fn fits(s: Seq<char>) -> bool {
    encode_utf8(s).len() <= 0xffff
}

pub open spec fn opt_fits(s: Option<Seq<char>>) -> bool {
    s matches Some(t) ==> fits(t)
}

/// Destinations strictly ascending by key.
pub open spec fn ascending(edges: Seq<OwnedEdge>) -> bool {
    forall|i: int, j: int| 0 <= i < j < edges.len() ==> edges[i].0.0 < edges[j].0.0
}

impl OpV {
    /// Every string and every count fits its length field, and edges ascend.
    pub open spec fn encodable(self) -> bool {
        match self {
            OpV::UpsertNode { url, title, snippet, etag, .. } => fits(url) && opt_fits(title)
                && opt_fits(snippet) && opt_fits(etag),
            OpV::SetSegments { segs, .. } => segs.len() <= 255 && forall|i: int|
                0 <= i < segs.len() ==> fits((#[trigger] segs[i]).label),
            OpV::SetEdges { edges, .. } => edges.len() <= 255 && ascending(edges),
            OpV::Touch { etag, .. } => opt_fits(etag),
            OpV::SetImportance { scores, .. } => scores.len() <= 255,
            _ => true,
        }
    }

    /// Encodable, within the limits that decoding enforces.
    pub open spec fn storable(self) -> bool {
        &&& self.encodable()
        &&& self matches OpV::SetSegments { segs, .. } ==> segs.len() <= 128
        &&& self matches OpV::SetEdges { edges, .. } ==> edges.len() <= 64
    }
}

/// Every numbered op is one that a log can hold.
pub open spec fn storable_entries(ops: Seq<(u64, Op)>) -> bool {
    forall|i: int| 0 <= i < ops.len() ==> (#[trigger] ops[i]).1@.storable()
}

pub open spec fn opt_str_bytes(s: Option<Seq<char>>) -> Seq<u8> {
    match s {
        Some(t) => seq![1u8] + str_bytes(t),
        None => seq![0u8],
    }
}

pub open spec fn opt_u64_bytes(v: Option<u64>) -> Seq<u8> {
    match v {
        Some(h) => seq![1u8] + le_bytes(h as nat, 8),
        None => seq![0u8],
    }
}

pub open spec fn seg_bytes(s: SegV) -> Seq<u8> {
    str_bytes(s.label) + (le_bytes(s.byte_start as nat, 4) + (le_bytes(s.byte_len as nat, 4) + (
    seq![s.depth] + (le_bytes(s.importance as nat, 2) + seq![s.flags]))))
}

pub open spec fn segs_bytes(s: Seq<SegV>) -> Seq<u8>
    decreases s.len(),
{
    if s.len() == 0 {
        Seq::empty()
    } else {
        segs_bytes(s.drop_last()) + seg_bytes(s.last())
    }
}

/// How far the last destination lies past the one before it.
pub open spec fn edge_delta(e: Seq<OwnedEdge>) -> nat
    recommends
        e.len() > 0,
{
    if e.len() == 1 {
        e.last().0.0 as nat
    } else {
        (e.last().0.0 - e[e.len() - 2].0.0 - 1) as nat
    }
}

pub open spec fn edge_bytes(e: Seq<OwnedEdge>) -> Seq<u8>
    recommends
        e.len() > 0,
{
    varint_bytes(edge_delta(e)) + (seq![e.last().1] + (seq![e.last().2] + le_bytes(
        e.last().3 as nat,
        2,
    )))
}

pub open spec fn edges_bytes(e: Seq<OwnedEdge>) -> Seq<u8>
    decreases e.len(),
{
    if e.len() == 0 {
        Seq::empty()
    } else {
        edges_bytes(e.drop_last()) + edge_bytes(e)
    }
}

pub open spec fn score_bytes(s: (u8, u16)) -> Seq<u8> {
    seq![s.0] + le_bytes(s.1 as nat, 2)
}

pub open spec fn scores_bytes(s: Seq<(u8, u16)>) -> Seq<u8>
    decreases s.len(),
{
    if s.len() == 0 {
        Seq::empty()
    } else {
        scores_bytes(s.drop_last()) + score_bytes(s.last())
    }
}

pub open spec fn bool_byte(b: bool) -> u8 {
    if b {
        1
    } else {
        0
    }
}

pub open spec fn opcode(op: OpV) -> u8 {
    match op {
        OpV::UpsertNode { .. } => 1,
        OpV::SetSegments { .. } => 2,
        OpV::SetEdges { .. } => 3,
        OpV::Touch { .. } => 4,
        OpV::Remove { .. } => 5,
        OpV::SetPinned { .. } => 6,
        OpV::SetImportance { .. } => 7,
    }
}

/// What follows the opcode and the key.
pub open spec fn op_body(op: OpV) -> Seq<u8> {
    match op {
        OpV::UpsertNode { content_hash, fetched_at_ms, flags, url, title, snippet, etag, .. } =>
            le_bytes(content_hash as nat, 8) + (le_bytes(fetched_at_ms as nat, 8) + (le_bytes(
                flags as nat,
                2,
            ) + (str_bytes(url) + (opt_str_bytes(title) + (opt_str_bytes(snippet) + opt_str_bytes(
                etag,
            )))))),
        OpV::SetSegments { segs, .. } => seq![segs.len() as u8] + segs_bytes(segs),
        OpV::SetEdges { edges, .. } => seq![edges.len() as u8] + edges_bytes(edges),
        OpV::Touch {
            checked_at_ms,
            outcome,
            content_hash,
            etag,
            interval_s,
            checks,
            changes,
            last_change_ms,
            tombstone,
            ..
        } => le_bytes(checked_at_ms as nat, 8) + (seq![outcome] + (opt_u64_bytes(content_hash) + (
        opt_str_bytes(etag) + (le_bytes(interval_s as nat, 4) + (le_bytes(checks as nat, 2) + (
        le_bytes(changes as nat, 2) + (le_bytes(last_change_ms as nat, 8) + seq![
            bool_byte(tombstone),
        ]))))))),
        OpV::Remove { .. } => Seq::empty(),
        OpV::SetPinned { pinned, .. } => seq![bool_byte(pinned)],
        OpV::SetImportance { scores, .. } => seq![scores.len() as u8] + scores_bytes(scores),
    }
}

/// The encoding of an op.
pub open spec fn op_bytes(op: OpV) -> Seq<u8> {
    seq![opcode(op)] + (le_bytes(op.target().0 as nat, 8) + op_body(op))
}

fn put_opt_str(out: &mut Vec<u8>, s: &Option<String>)
    requires
        opt_fits(opt_view(*s)),
    ensures
        final(out)@ == old(out)@ + opt_str_bytes(opt_view(*s)),
{
    match s {
        Some(t) => {
            put_u8(out, 1);
            put_str(out, t.as_str());
            assert(out@ =~= old(out)@ + opt_str_bytes(opt_view(*s)));
        },
        None => put_u8(out, 0),
    }
}

fn put_segs(out: &mut Vec<u8>, segs: &Vec<OwnedSeg>)
    requires
        forall|i: int| 0 <= i < segs@.len() ==> fits((#[trigger] segs_view(segs@)[i]).label),
    ensures
        final(out)@ == old(out)@ + segs_bytes(segs_view(segs@)),
{
    let ghost v = segs_view(segs@);
    let n: usize = segs.len();
    let mut i: usize = 0;
    assert(v.take(0) =~= Seq::empty());
    assert(out@ =~= old(out)@ + segs_bytes(v.take(0)));
    while i < n
        invariant
            i <= n == segs@.len(),
            v == segs_view(segs@),
            forall|i: int| 0 <= i < segs@.len() ==> fits((#[trigger] v[i]).label),
            out@ == old(out)@ + segs_bytes(v.take(i as int)),
        decreases n - i,
    {
        let s: &OwnedSeg = &segs[i];
        assert(s@ == v[i as int]);
        put_str(out, s.label.as_str());
        put_u32(out, s.byte_start);
        put_u32(out, s.byte_len);
        put_u8(out, s.depth);
        put_u16(out, s.importance);
        put_u8(out, s.flags);
        assert(v.take(i + 1).drop_last() =~= v.take(i as int));
        assert(v.take(i + 1).last() == v[i as int]);
        assert(out@ =~= old(out)@ + segs_bytes(v.take(i + 1)));
        i = i + 1;
    }
    assert(v.take(n as int) =~= v);
}

fn put_edges(out: &mut Vec<u8>, edges: &Vec<OwnedEdge>)
    requires
        ascending(edges@),
    ensures
        final(out)@ == old(out)@ + edges_bytes(edges@),
{
    let n: usize = edges.len();
    let mut i: usize = 0;
    assert(edges@.take(0) =~= Seq::empty());
    assert(out@ =~= old(out)@ + edges_bytes(edges@.take(0)));
    while i < n
        invariant
            i <= n == edges@.len(),
            ascending(edges@),
            out@ == old(out)@ + edges_bytes(edges@.take(i as int)),
        decreases n - i,
    {
        let e: OwnedEdge = edges[i];
        let ghost pre = edges@.take(i + 1);
        let delta: u64 = if i == 0 {
            e.0.0
        } else {
            assert(edges@[i - 1].0.0 < edges@[i as int].0.0);
            e.0.0 - edges[i - 1].0.0 - 1
        };
        assert(delta as nat == edge_delta(pre));
        put_varint(out, delta);
        put_u8(out, e.1);
        put_u8(out, e.2);
        put_u16(out, e.3);
        assert(pre.drop_last() =~= edges@.take(i as int));
        assert(out@ =~= old(out)@ + edges_bytes(pre));
        i = i + 1;
    }
    assert(edges@.take(n as int) =~= edges@);
}

fn put_scores(out: &mut Vec<u8>, scores: &Vec<(u8, u16)>)
    ensures
        final(out)@ == old(out)@ + scores_bytes(scores@),
{
    let n: usize = scores.len();
    let mut i: usize = 0;
    assert(scores@.take(0) =~= Seq::empty());
    assert(out@ =~= old(out)@ + scores_bytes(scores@.take(0)));
    while i < n
        invariant
            i <= n == scores@.len(),
            out@ == old(out)@ + scores_bytes(scores@.take(i as int)),
        decreases n - i,
    {
        let s: (u8, u16) = scores[i];
        put_u8(out, s.0);
        put_u16(out, s.1);
        assert(scores@.take(i + 1).drop_last() =~= scores@.take(i as int));
        assert(out@ =~= old(out)@ + scores_bytes(scores@.take(i + 1)));
        i = i + 1;
    }
    assert(scores@.take(n as int) =~= scores@);
}

fn put_bool(out: &mut Vec<u8>, b: bool)
    ensures
        final(out)@ == old(out)@ + seq![bool_byte(b)],
{
    put_u8(
        out,
        if b {
            1
        } else {
            0
        },
    );
}

impl Op {
    /// The key this op targets.
    pub fn key(&self) -> (k: UrlKey)
        ensures
            k == self@.target(),
    {
        match self {
            Op::UpsertNode { key, .. } => *key,
            Op::SetSegments { key, .. } => *key,
            Op::SetEdges { key, .. } => *key,
            Op::Touch { key, .. } => *key,
            Op::Remove { key } => *key,
            Op::SetPinned { key, .. } => *key,
            Op::SetImportance { key, .. } => *key,
        }
    }

    /// Serialize into `out`.
    pub fn encode(&self, out: &mut Vec<u8>)
        requires
            self@.encodable(),
        ensures
            final(out)@ == old(out)@ + op_bytes(self@),
    {
        broadcast use lemma_cat_assoc;

        put_u8(out, self.tag());
        put_u64(out, self.key().0);
        self.encode_body(out);
    }

    fn tag(&self) -> (t: u8)
        ensures
            t == opcode(self@),
    {
        match self {
            Op::UpsertNode { .. } => 1,
            Op::SetSegments { .. } => 2,
            Op::SetEdges { .. } => 3,
            Op::Touch { .. } => 4,
            Op::Remove { .. } => 5,
            Op::SetPinned { .. } => 6,
            Op::SetImportance { .. } => 7,
        }
    }

    fn encode_body(&self, out: &mut Vec<u8>)
        requires
            self@.encodable(),
        ensures
            final(out)@ == old(out)@ + op_body(self@),
    {
        broadcast use lemma_cat_assoc;

        match self {
            Op::UpsertNode {
                key,
                content_hash,
                fetched_at_ms,
                flags,
                url,
                title,
                snippet,
                etag,
            } => {
                put_u64(out, *content_hash);
                put_u64(out, *fetched_at_ms);
                put_u16(out, *flags);
                put_str(out, url.as_str());
                put_opt_str(out, title);
                put_opt_str(out, snippet);
                put_opt_str(out, etag);
            },
            Op::SetSegments { key, segs } => {
                put_u8(out, segs.len() as u8);
                put_segs(out, segs);
            },
            Op::SetEdges { key, edges } => {
                put_u8(out, edges.len() as u8);
                put_edges(out, edges);
                assert(out@ =~= old(out)@ + op_body(self@));
            },
            Op::Touch {
                key,
                checked_at_ms,
                outcome,
                content_hash,
                etag,
                interval_s,
                checks,
                changes,
                last_change_ms,
                tombstone,
            } => {
                put_u64(out, *checked_at_ms);
                put_u8(out, *outcome);
                match content_hash {
                    Some(h) => {
                        put_u8(out, 1);
                        put_u64(out, *h);
                    },
                    None => put_u8(out, 0),
                }
                put_opt_str(out, etag);
                put_u32(out, *interval_s);
                put_u16(out, *checks);
                put_u16(out, *changes);
                put_u64(out, *last_change_ms);
                put_bool(out, *tombstone);
                assert(out@ =~= old(out)@ + op_body(self@));
            },
            Op::Remove { key } => {
                assert(out@ =~= old(out)@ + op_body(self@));
            },
            Op::SetPinned { key, pinned } => {
                put_bool(out, *pinned);
            },
            Op::SetImportance { key, scores } => {
                put_u8(out, scores.len() as u8);
                put_scores(out, scores);
                assert(out@ =~= old(out)@ + op_body(self@));
            },
        }
    }
}

// ---- decoding -------------------------------------------------------------

/// An option tag, then the string if there is one.
pub open spec fn read_opt_str(c: Cur) -> (Option<Seq<char>>, Cur) {
    let (t, c) = c.u8();
    let c = c.demand(t <= 1, Fault::Format("bad option tag"@));
    if t == 1 {
        let (s, c) = c.str();
        (Some(s), c)
    } else {
        (None, c)
    }
}

/// An option tag, then the number if there is one.
pub open spec fn read_opt_u64(c: Cur) -> (Option<u64>, Cur) {
    let (t, c) = c.u8();
    let c = c.demand(t <= 1, Fault::Format("bad option tag"@));
    if t == 1 {
        let (v, c) = c.u64();
        (Some(v), c)
    } else {
        (None, c)
    }
}

pub open spec fn read_seg(c: Cur) -> (SegV, Cur) {
    let (label, c) = c.str();
    let (byte_start, c) = c.u32();
    let (byte_len, c) = c.u32();
    let (depth, c) = c.u8();
    let (importance, c) = c.u16();
    let (flags, c) = c.u8();
    (SegV { label, byte_start, byte_len, depth, importance, flags }, c)
}

pub open spec fn read_segs(c: Cur, n: nat) -> (Seq<SegV>, Cur)
    decreases n,
{
    if n == 0 {
        (Seq::empty(), c)
    } else {
        let (pre, c) = read_segs(c, (n - 1) as nat);
        let (s, c) = read_seg(c);
        (pre.push(s), c)
    }
}

/// One edge after those in `pre`: its key lies `delta + 1` past the last one.
pub open spec fn read_edge(pre: Seq<OwnedEdge>, c: Cur) -> (OwnedEdge, Cur) {
    let (delta, c) = c.varint();
    let dst = if pre.len() == 0 {
        delta as int
    } else {
        pre.last().0.0 + 1 + delta
    };
    let c = c.demand(dst <= u64::MAX, Fault::Format("edge key overflow"@));
    let (etype, c) = c.u8();
    let (eflags, c) = c.u8();
    let (weight, c) = c.u16();
    ((UrlKey(dst as u64), etype, eflags, weight), c)
}

pub open spec fn read_edges(c: Cur, n: nat) -> (Seq<OwnedEdge>, Cur)
    decreases n,
{
    if n == 0 {
        (Seq::empty(), c)
    } else {
        let (pre, c) = read_edges(c, (n - 1) as nat);
        let (e, c) = read_edge(pre, c);
        (pre.push(e), c)
    }
}

pub open spec fn read_score(c: Cur) -> ((u8, u16), Cur) {
    let (ordinal, c) = c.u8();
    let (importance, c) = c.u16();
    ((ordinal, importance), c)
}

pub open spec fn read_scores(c: Cur, n: nat) -> (Seq<(u8, u16)>, Cur)
    decreases n,
{
    if n == 0 {
        (Seq::empty(), c)
    } else {
        let (pre, c) = read_scores(c, (n - 1) as nat);
        let (s, c) = read_score(c);
        (pre.push(s), c)
    }
}

pub open spec fn read_upsert(key: UrlKey, c: Cur) -> (OpV, Cur) {
    let (content_hash, c) = c.u64();
    let (fetched_at_ms, c) = c.u64();
    let (flags, c) = c.u16();
    let (url, c) = c.str();
    let (title, c) = read_opt_str(c);
    let (snippet, c) = read_opt_str(c);
    let (etag, c) = read_opt_str(c);
    (OpV::UpsertNode { key, content_hash, fetched_at_ms, flags, url, title, snippet, etag }, c)
}

pub open spec fn read_touch(key: UrlKey, c: Cur) -> (OpV, Cur) {
    let (checked_at_ms, c) = c.u64();
    let (outcome, c) = c.u8();
    let (content_hash, c) = read_opt_u64(c);
    let (etag, c) = read_opt_str(c);
    let (interval_s, c) = c.u32();
    let (checks, c) = c.u16();
    let (changes, c) = c.u16();
    let (last_change_ms, c) = c.u64();
    let (t, c) = c.u8();
    (
        OpV::Touch {
            key,
            checked_at_ms,
            outcome,
            content_hash,
            etag,
            interval_s,
            checks,
            changes,
            last_change_ms,
            tombstone: t != 0,
        },
        c,
    )
}

/// What follows opcode `op` and `key`.
#[verifier::opaque]
pub open spec fn read_body(op: u8, key: UrlKey, c: Cur) -> (OpV, Cur) {
    if op == 1 {
        read_upsert(key, c)
    } else if op == 2 {
        let (n, c) = c.u8();
        let c = c.demand(n <= 128, Fault::Format("too many segments"@));
        let (segs, c) = read_segs(c, n as nat);
        (OpV::SetSegments { key, segs }, c)
    } else if op == 3 {
        let (n, c) = c.u8();
        let c = c.demand(n <= 64, Fault::Format("too many edges"@));
        let (edges, c) = read_edges(c, n as nat);
        (OpV::SetEdges { key, edges }, c)
    } else if op == 4 {
        read_touch(key, c)
    } else if op == 5 {
        (OpV::Remove { key }, c)
    } else if op == 6 {
        let (pinned, c) = c.u8();
        (OpV::SetPinned { key, pinned: pinned != 0 }, c)
    } else if op == 7 {
        let (n, c) = c.u8();
        let (scores, c) = read_scores(c, n as nat);
        (OpV::SetImportance { key, scores }, c)
    } else {
        (
            OpV::Remove { key },
            c.demand(false, Fault::Format("unknown opcode "@ + decimal(op as nat))),
        )
    }
}

/// One op.
pub open spec fn read_op(c: Cur) -> (OpV, Cur) {
    let (op, c) = c.u8();
    let (key, c) = c.u64();
    read_body(op, UrlKey(key), c)
}

proof fn lemma_failed_segs(c: Cur, n: nat, m: nat)
    requires
        n <= m,
        read_segs(c, n).1.fault is Some,
    ensures
        read_segs(c, m).1 == read_segs(c, n).1,
    decreases m,
{
    if n < m {
        lemma_failed_segs(c, n, (m - 1) as nat);
    }
}

proof fn lemma_failed_edges(c: Cur, n: nat, m: nat)
    requires
        n <= m,
        read_edges(c, n).1.fault is Some,
    ensures
        read_edges(c, m).1 == read_edges(c, n).1,
    decreases m,
{
    if n < m {
        lemma_failed_edges(c, n, (m - 1) as nat);
    }
}

proof fn lemma_failed_scores(c: Cur, n: nat, m: nat)
    requires
        n <= m,
        read_scores(c, n).1.fault is Some,
    ensures
        read_scores(c, m).1 == read_scores(c, n).1,
    decreases m,
{
    if n < m {
        lemma_failed_scores(c, n, (m - 1) as nat);
    }
}

fn get_opt_str(r: &mut Reader<'_>) -> (v: Result<Option<String>>)
    requires
        old(r).wf(),
    ensures
        final(r).stands_at(read_opt_str(old(r).cur()).1),
        match v {
            Ok(s) => read_opt_str(old(r).cur()) == (opt_view(s), final(r).cur()) && opt_fits(
                opt_view(s),
            ),
            Err(e) => read_opt_str(old(r).cur()).1.fault == Some(e@),
        },
{
    let t: u8 = r.u8()?;
    if t == 0 {
        Ok(None)
    } else if t == 1 {
        let s: &str = r.str()?;
        Ok(Some(s.to_owned()))
    } else {
        Err(Error::format("bad option tag"))
    }
}

fn get_opt_u64(r: &mut Reader<'_>) -> (v: Result<Option<u64>>)
    requires
        old(r).wf(),
    ensures
        final(r).stands_at(read_opt_u64(old(r).cur()).1),
        match v {
            Ok(h) => read_opt_u64(old(r).cur()) == (h, final(r).cur()),
            Err(e) => read_opt_u64(old(r).cur()).1.fault == Some(e@),
        },
{
    let t: u8 = r.u8()?;
    if t == 0 {
        Ok(None)
    } else if t == 1 {
        let v: u64 = r.u64()?;
        Ok(Some(v))
    } else {
        Err(Error::format("bad option tag"))
    }
}

fn get_seg(r: &mut Reader<'_>) -> (v: Result<OwnedSeg>)
    requires
        old(r).wf(),
    ensures
        final(r).stands_at(read_seg(old(r).cur()).1),
        match v {
            Ok(s) => read_seg(old(r).cur()) == (s@, final(r).cur()) && fits(s@.label),
            Err(e) => read_seg(old(r).cur()).1.fault == Some(e@),
        },
{
    let label: &str = r.str()?;
    let byte_start: u32 = r.u32()?;
    let byte_len: u32 = r.u32()?;
    let depth: u8 = r.u8()?;
    let importance: u16 = r.u16()?;
    let flags: u8 = r.u8()?;
    Ok(OwnedSeg { label: label.to_owned(), byte_start, byte_len, depth, importance, flags })
}

fn get_segs(r: &mut Reader<'_>, n: usize) -> (v: Result<Vec<OwnedSeg>>)
    requires
        old(r).wf(),
    ensures
        final(r).stands_at(read_segs(old(r).cur(), n as nat).1),
        match v {
            Ok(s) => read_segs(old(r).cur(), n as nat) == (segs_view(s@), final(r).cur())
                && s@.len() == n && forall|i: int|
                0 <= i < n ==> fits((#[trigger] segs_view(s@)[i]).label),
            Err(e) => read_segs(old(r).cur(), n as nat).1.fault == Some(e@),
        },
{
    let ghost c = r.cur();
    let cap: usize = r.remaining();
    let mut segs: Vec<OwnedSeg> = Vec::with_capacity(
        if n < cap {
            n
        } else {
            cap
        },
    );
    let mut i: usize = 0;
    assert(segs_view(segs@) =~= Seq::empty());
    while i < n
        invariant
            i <= n,
            r.wf(),
            segs@.len() == i,
            read_segs(c, i as nat) == (segs_view(segs@), r.cur()),
            forall|j: int| 0 <= j < i ==> fits((#[trigger] segs_view(segs@)[j]).label),
            r.cur().fault is None,
            c == old(r).cur(),
        decreases n - i,
    {
        let ghost before = segs@;
        match get_seg(r) {
            Ok(s) => {
                segs.push(s);
                assert(segs_view(segs@) =~= segs_view(before).push(s@));
            },
            Err(e) => {
                proof {
                    lemma_failed_segs(c, (i + 1) as nat, n as nat);
                }
                return Err(e);
            },
        }
        i = i + 1;
    }
    Ok(segs)
}

fn get_edge(r: &mut Reader<'_>, pre: &Vec<OwnedEdge>) -> (v: Result<OwnedEdge>)
    requires
        old(r).wf(),
    ensures
        final(r).stands_at(read_edge(pre@, old(r).cur()).1),
        match v {
            Ok(e) => read_edge(pre@, old(r).cur()) == (e, final(r).cur()) && (pre@.len() > 0
                ==> pre@.last().0.0 < e.0.0),
            Err(e) => read_edge(pre@, old(r).cur()).1.fault == Some(e@),
        },
{
    let delta: u64 = r.varint()?;
    let mut dst: u64 = delta;
    if pre.len() > 0 {
        let last: u64 = pre[pre.len() - 1].0.0;
        if last == u64::MAX || u64::MAX - last - 1 < delta {
            return Err(Error::format("edge key overflow"));
        }
        dst = last + 1 + delta;
    }
    let etype: u8 = r.u8()?;
    let eflags: u8 = r.u8()?;
    let weight: u16 = r.u16()?;
    Ok((UrlKey(dst), etype, eflags, weight))
}

fn get_edges(r: &mut Reader<'_>, n: usize) -> (v: Result<Vec<OwnedEdge>>)
    requires
        old(r).wf(),
    ensures
        final(r).stands_at(read_edges(old(r).cur(), n as nat).1),
        match v {
            Ok(s) => read_edges(old(r).cur(), n as nat) == (s@, final(r).cur()) && s@.len() == n
                && ascending(s@),
            Err(e) => read_edges(old(r).cur(), n as nat).1.fault == Some(e@),
        },
{
    let ghost c = r.cur();
    let cap: usize = r.remaining();
    let mut edges: Vec<OwnedEdge> = Vec::with_capacity(
        if n < cap {
            n
        } else {
            cap
        },
    );
    let mut i: usize = 0;
    while i < n
        invariant
            i <= n,
            r.wf(),
            edges@.len() == i,
            ascending(edges@),
            read_edges(c, i as nat) == (edges@, r.cur()),
            r.cur().fault is None,
            c == old(r).cur(),
        decreases n - i,
    {
        match get_edge(r, &edges) {
            Ok(e) => {
                edges.push(e);
            },
            Err(e) => {
                proof {
                    lemma_failed_edges(c, (i + 1) as nat, n as nat);
                }
                return Err(e);
            },
        }
        i = i + 1;
    }
    Ok(edges)
}

fn get_score(r: &mut Reader<'_>) -> (v: Result<(u8, u16)>)
    requires
        old(r).wf(),
    ensures
        final(r).stands_at(read_score(old(r).cur()).1),
        match v {
            Ok(s) => read_score(old(r).cur()) == (s, final(r).cur()),
            Err(e) => read_score(old(r).cur()).1.fault == Some(e@),
        },
{
    let ordinal: u8 = r.u8()?;
    let importance: u16 = r.u16()?;
    Ok((ordinal, importance))
}

fn get_scores(r: &mut Reader<'_>, n: usize) -> (v: Result<Vec<(u8, u16)>>)
    requires
        old(r).wf(),
    ensures
        final(r).stands_at(read_scores(old(r).cur(), n as nat).1),
        match v {
            Ok(s) => read_scores(old(r).cur(), n as nat) == (s@, final(r).cur()) && s@.len() == n,
            Err(e) => read_scores(old(r).cur(), n as nat).1.fault == Some(e@),
        },
{
    let ghost c = r.cur();
    let cap: usize = r.remaining();
    let mut scores: Vec<(u8, u16)> = Vec::with_capacity(
        if n < cap {
            n
        } else {
            cap
        },
    );
    let mut i: usize = 0;
    while i < n
        invariant
            i <= n,
            r.wf(),
            scores@.len() == i,
            read_scores(c, i as nat) == (scores@, r.cur()),
            r.cur().fault is None,
            c == old(r).cur(),
        decreases n - i,
    {
        match get_score(r) {
            Ok(s) => {
                scores.push(s);
            },
            Err(e) => {
                proof {
                    lemma_failed_scores(c, (i + 1) as nat, n as nat);
                }
                return Err(e);
            },
        }
        i = i + 1;
    }
    Ok(scores)
}

fn get_upsert(r: &mut Reader<'_>, key: UrlKey) -> (v: Result<Op>)
    requires
        old(r).wf(),
    ensures
        final(r).stands_at(read_upsert(key, old(r).cur()).1),
        match v {
            Ok(op) => read_upsert(key, old(r).cur()) == (op@, final(r).cur()) && op@.storable(),
            Err(e) => read_upsert(key, old(r).cur()).1.fault == Some(e@),
        },
{
    let content_hash: u64 = r.u64()?;
    let fetched_at_ms: u64 = r.u64()?;
    let flags: u16 = r.u16()?;
    let url: &str = r.str()?;
    let title: Option<String> = get_opt_str(r)?;
    let snippet: Option<String> = get_opt_str(r)?;
    let etag: Option<String> = get_opt_str(r)?;
    Ok(
        Op::UpsertNode {
            key,
            content_hash,
            fetched_at_ms,
            flags,
            url: url.to_owned(),
            title,
            snippet,
            etag,
        },
    )
}

fn get_touch(r: &mut Reader<'_>, key: UrlKey) -> (v: Result<Op>)
    requires
        old(r).wf(),
    ensures
        final(r).stands_at(read_touch(key, old(r).cur()).1),
        match v {
            Ok(op) => read_touch(key, old(r).cur()) == (op@, final(r).cur()) && op@.storable(),
            Err(e) => read_touch(key, old(r).cur()).1.fault == Some(e@),
        },
{
    let checked_at_ms: u64 = r.u64()?;
    let outcome: u8 = r.u8()?;
    let content_hash: Option<u64> = get_opt_u64(r)?;
    let etag: Option<String> = get_opt_str(r)?;
    let interval_s: u32 = r.u32()?;
    let checks: u16 = r.u16()?;
    let changes: u16 = r.u16()?;
    let last_change_ms: u64 = r.u64()?;
    let t: u8 = r.u8()?;
    Ok(
        Op::Touch {
            key,
            checked_at_ms,
            outcome,
            content_hash,
            etag,
            interval_s,
            checks,
            changes,
            last_change_ms,
            tombstone: t != 0,
        },
    )
}

fn unknown_opcode(op: u8) -> (e: Error)
    ensures
        e@ == Fault::Format("unknown opcode "@ + decimal(op as nat)),
{
    let mut message: String = "unknown opcode ".to_owned();
    push_decimal(&mut message, op as u64);
    Error::Format { message }
}

proof fn lemma_failed_op(op: u8, key: UrlKey, c: Cur)
    requires
        c.fault is Some,
    ensures
        read_body(op, key, c).1 == c,
{
    reveal(read_body);
    let n = c.u8().0;
    lemma_failed_segs(c, 0, n as nat);
    lemma_failed_edges(c, 0, n as nat);
    lemma_failed_scores(c, 0, n as nat);
}

fn get_body(r: &mut Reader<'_>, opcode: u8, key: UrlKey) -> (v: Result<Op>)
    requires
        old(r).wf(),
    ensures
        final(r).stands_at(read_body(opcode, key, old(r).cur()).1),
        match v {
            Ok(op) => read_body(opcode, key, old(r).cur()) == (op@, final(r).cur())
                && op@.storable(),
            Err(e) => read_body(opcode, key, old(r).cur()).1.fault == Some(e@),
        },
{
    proof {
        reveal(read_body);
    }
    if opcode == 1 {
        get_upsert(r, key)
    } else if opcode == 2 {
        match r.u8() {
            Err(e) => {
                proof {
                    let (n, c) = old(r).cur().u8();
                    lemma_failed_segs(c, 0, n as nat);
                }
                Err(e)
            },
            Ok(n) => {
                if n > 128 {
                    proof {
                        let c = r.cur().demand(false, Fault::Format("too many segments"@));
                        lemma_failed_segs(c, 0, n as nat);
                    }
                    Err(Error::format("too many segments"))
                } else {
                    let segs: Vec<OwnedSeg> = get_segs(r, n as usize)?;
                    Ok(Op::SetSegments { key, segs })
                }
            },
        }
    } else if opcode == 3 {
        match r.u8() {
            Err(e) => {
                proof {
                    let (n, c) = old(r).cur().u8();
                    lemma_failed_edges(c, 0, n as nat);
                }
                Err(e)
            },
            Ok(n) => {
                if n > 64 {
                    proof {
                        let c = r.cur().demand(false, Fault::Format("too many edges"@));
                        lemma_failed_edges(c, 0, n as nat);
                    }
                    Err(Error::format("too many edges"))
                } else {
                    let edges: Vec<OwnedEdge> = get_edges(r, n as usize)?;
                    Ok(Op::SetEdges { key, edges })
                }
            },
        }
    } else if opcode == 4 {
        get_touch(r, key)
    } else if opcode == 5 {
        Ok(Op::Remove { key })
    } else if opcode == 6 {
        let pinned: u8 = r.u8()?;
        Ok(Op::SetPinned { key, pinned: pinned != 0 })
    } else if opcode == 7 {
        match r.u8() {
            Err(e) => {
                proof {
                    let (n, c) = old(r).cur().u8();
                    lemma_failed_scores(c, 0, n as nat);
                }
                Err(e)
            },
            Ok(n) => {
                let scores: Vec<(u8, u16)> = get_scores(r, n as usize)?;
                Ok(Op::SetImportance { key, scores })
            },
        }
    } else {
        Err(unknown_opcode(opcode))
    }
}

impl Op {
    /// Decode one op from `r`. Any byte string yields `Ok` or
    /// [`Error::Format`]. Unknown opcodes are an error: mutations cannot be
    /// safely skipped, so new ops require a log version bump.
    pub fn decode(r: &mut Reader<'_>) -> (v: Result<Op>)
        requires
            old(r).wf(),
        ensures
            final(r).stands_at(read_op(old(r).cur()).1),
            match v {
                Ok(op) => read_op(old(r).cur()) == (op@, final(r).cur()) && op@.storable(),
                Err(e) => read_op(old(r).cur()).1.fault == Some(e@),
            },
    {
        let ghost c = r.cur();
        let opcode: u8 = match r.u8() {
            Ok(t) => t,
            Err(e) => {
                proof {
                    let (t, c1) = c.u8();
                    lemma_failed_op(t, UrlKey(c1.u64().0), c1);
                }
                return Err(e);
            },
        };
        let key: u64 = match r.u64() {
            Ok(k) => k,
            Err(e) => {
                proof {
                    let (t, c1) = c.u8();
                    let (k, c2) = c1.u64();
                    lemma_failed_op(t, UrlKey(k), c2);
                }
                return Err(e);
            },
        };
        get_body(r, opcode, UrlKey(key))
    }
}

// ---- decoding undoes encoding ---------------------------------------------

proof fn lemma_opt_str_at(c: Cur, s: Option<Seq<char>>)
    requires
        c.at(opt_str_bytes(s)),
        opt_fits(s),
    ensures
        read_opt_str(c) == (s, c.skip(opt_str_bytes(s).len())),
{
    match s {
        Some(t) => {
            lemma_at_split(c, seq![1u8], str_bytes(t));
            lemma_u8_at(c, 1);
            lemma_str_at(c.skip(1), t);
        },
        None => lemma_u8_at(c, 0),
    }
}

proof fn lemma_opt_u64_at(c: Cur, v: Option<u64>)
    requires
        c.at(opt_u64_bytes(v)),
    ensures
        read_opt_u64(c) == (v, c.skip(opt_u64_bytes(v).len())),
{
    match v {
        Some(h) => {
            lemma_le_bytes_len(h as nat, 8);
            lemma_at_split(c, seq![1u8], le_bytes(h as nat, 8));
            lemma_u8_at(c, 1);
            lemma_u64_at(c.skip(1), h);
        },
        None => lemma_u8_at(c, 0),
    }
}

proof fn lemma_seg_at(c: Cur, s: SegV)
    requires
        c.at(seg_bytes(s)),
        fits(s.label),
    ensures
        read_seg(c) == (s, c.skip(seg_bytes(s).len())),
{
    lemma_le_bytes_len(s.byte_start as nat, 4);
    lemma_le_bytes_len(s.byte_len as nat, 4);
    lemma_le_bytes_len(s.importance as nat, 2);
    let r5 = le_bytes(s.importance as nat, 2) + seq![s.flags];
    let r4 = seq![s.depth] + r5;
    let r3 = le_bytes(s.byte_len as nat, 4) + r4;
    let r2 = le_bytes(s.byte_start as nat, 4) + r3;
    lemma_at_split(c, str_bytes(s.label), r2);
    lemma_str_at(c, s.label);
    let c1 = c.skip(str_bytes(s.label).len());
    lemma_at_split(c1, le_bytes(s.byte_start as nat, 4), r3);
    lemma_u32_at(c1, s.byte_start);
    let c2 = c1.skip(4);
    lemma_at_split(c2, le_bytes(s.byte_len as nat, 4), r4);
    lemma_u32_at(c2, s.byte_len);
    let c3 = c2.skip(4);
    lemma_at_split(c3, seq![s.depth], r5);
    lemma_u8_at(c3, s.depth);
    let c4 = c3.skip(1);
    lemma_at_split(c4, le_bytes(s.importance as nat, 2), seq![s.flags]);
    lemma_u16_at(c4, s.importance);
    lemma_u8_at(c4.skip(2), s.flags);
}

proof fn lemma_segs_at(c: Cur, segs: Seq<SegV>)
    requires
        c.at(segs_bytes(segs)),
        forall|i: int| 0 <= i < segs.len() ==> fits((#[trigger] segs[i]).label),
    ensures
        read_segs(c, segs.len()) == (segs, c.skip(segs_bytes(segs).len())),
    decreases segs.len(),
{
    if segs.len() == 0 {
        assert(segs =~= Seq::empty());
    } else {
        let pre = segs.drop_last();
        lemma_at_split(c, segs_bytes(pre), seg_bytes(segs.last()));
        lemma_segs_at(c, pre);
        lemma_seg_at(c.skip(segs_bytes(pre).len()), segs.last());
        assert(pre.push(segs.last()) =~= segs);
    }
}

proof fn lemma_edge_at(c: Cur, edges: Seq<OwnedEdge>)
    requires
        edges.len() > 0,
        ascending(edges),
        c.at(edge_bytes(edges)),
    ensures
        read_edge(edges.drop_last(), c) == (edges.last(), c.skip(edge_bytes(edges).len())),
{
    let e = edges.last();
    let pre = edges.drop_last();
    if pre.len() > 0 {
        assert(pre.last() == edges[edges.len() - 2]);
        assert(edges[edges.len() - 2].0.0 < edges[edges.len() - 1].0.0);
    }
    let delta = edge_delta(edges) as u64;
    assert(delta as nat == edge_delta(edges));
    let v = varint_bytes(delta as nat);
    lemma_le_bytes_len(e.3 as nat, 2);
    let r3 = seq![e.2] + le_bytes(e.3 as nat, 2);
    let r2 = seq![e.1] + r3;
    lemma_at_split(c, v, r2);
    lemma_varint_at(c, delta);
    let c1 = c.skip(v.len());
    lemma_at_split(c1, seq![e.1], r3);
    lemma_u8_at(c1, e.1);
    let c2 = c1.skip(1);
    lemma_at_split(c2, seq![e.2], le_bytes(e.3 as nat, 2));
    lemma_u8_at(c2, e.2);
    lemma_u16_at(c2.skip(1), e.3);
}

proof fn lemma_edges_at(c: Cur, edges: Seq<OwnedEdge>)
    requires
        c.at(edges_bytes(edges)),
        ascending(edges),
    ensures
        read_edges(c, edges.len()) == (edges, c.skip(edges_bytes(edges).len())),
    decreases edges.len(),
{
    if edges.len() == 0 {
        assert(edges =~= Seq::empty());
    } else {
        let pre = edges.drop_last();
        lemma_at_split(c, edges_bytes(pre), edge_bytes(edges));
        lemma_edges_at(c, pre);
        lemma_edge_at(c.skip(edges_bytes(pre).len()), edges);
        assert(pre.push(edges.last()) =~= edges);
    }
}

proof fn lemma_scores_at(c: Cur, scores: Seq<(u8, u16)>)
    requires
        c.at(scores_bytes(scores)),
    ensures
        read_scores(c, scores.len()) == (scores, c.skip(scores_bytes(scores).len())),
    decreases scores.len(),
{
    if scores.len() == 0 {
        assert(scores =~= Seq::empty());
    } else {
        let pre = scores.drop_last();
        let s = scores.last();
        lemma_at_split(c, scores_bytes(pre), score_bytes(s));
        lemma_scores_at(c, pre);
        let c1 = c.skip(scores_bytes(pre).len());
        lemma_le_bytes_len(s.1 as nat, 2);
        lemma_at_split(c1, seq![s.0], le_bytes(s.1 as nat, 2));
        lemma_u8_at(c1, s.0);
        lemma_u16_at(c1.skip(1), s.1);
        assert(pre.push(s) =~= scores);
    }
}

proof fn lemma_upsert_at(c: Cur, op: OpV)
    requires
        op is UpsertNode,
        op.encodable(),
        c.at(op_body(op)),
    ensures
        read_upsert(op.target(), c) == (op, c.skip(op_body(op).len())),
{
    if let OpV::UpsertNode { content_hash, fetched_at_ms, flags, url, title, snippet, etag, .. } =
        op {
        lemma_le_bytes_len(content_hash as nat, 8);
        lemma_le_bytes_len(fetched_at_ms as nat, 8);
        lemma_le_bytes_len(flags as nat, 2);
        let r6 = opt_str_bytes(snippet) + opt_str_bytes(etag);
        let r5 = opt_str_bytes(title) + r6;
        let r4 = str_bytes(url) + r5;
        let r3 = le_bytes(flags as nat, 2) + r4;
        let r2 = le_bytes(fetched_at_ms as nat, 8) + r3;
        lemma_at_split(c, le_bytes(content_hash as nat, 8), r2);
        lemma_u64_at(c, content_hash);
        let c1 = c.skip(8);
        lemma_at_split(c1, le_bytes(fetched_at_ms as nat, 8), r3);
        lemma_u64_at(c1, fetched_at_ms);
        let c2 = c1.skip(8);
        lemma_at_split(c2, le_bytes(flags as nat, 2), r4);
        lemma_u16_at(c2, flags);
        let c3 = c2.skip(2);
        lemma_at_split(c3, str_bytes(url), r5);
        lemma_str_at(c3, url);
        let c4 = c3.skip(str_bytes(url).len());
        lemma_at_split(c4, opt_str_bytes(title), r6);
        lemma_opt_str_at(c4, title);
        let c5 = c4.skip(opt_str_bytes(title).len());
        lemma_at_split(c5, opt_str_bytes(snippet), opt_str_bytes(etag));
        lemma_opt_str_at(c5, snippet);
        lemma_opt_str_at(c5.skip(opt_str_bytes(snippet).len()), etag);
    }
}

proof fn lemma_touch_at(c: Cur, op: OpV)
    requires
        op is Touch,
        op.encodable(),
        c.at(op_body(op)),
    ensures
        read_touch(op.target(), c) == (op, c.skip(op_body(op).len())),
{
    if let OpV::Touch {
        checked_at_ms,
        outcome,
        content_hash,
        etag,
        interval_s,
        checks,
        changes,
        last_change_ms,
        tombstone,
        ..
    } = op {
        lemma_le_bytes_len(checked_at_ms as nat, 8);
        lemma_le_bytes_len(interval_s as nat, 4);
        lemma_le_bytes_len(checks as nat, 2);
        lemma_le_bytes_len(changes as nat, 2);
        lemma_le_bytes_len(last_change_ms as nat, 8);
        let r8 = le_bytes(last_change_ms as nat, 8) + seq![bool_byte(tombstone)];
        let r7 = le_bytes(changes as nat, 2) + r8;
        let r6 = le_bytes(checks as nat, 2) + r7;
        let r5 = le_bytes(interval_s as nat, 4) + r6;
        let r4 = opt_str_bytes(etag) + r5;
        let r3 = opt_u64_bytes(content_hash) + r4;
        let r2 = seq![outcome] + r3;
        lemma_at_split(c, le_bytes(checked_at_ms as nat, 8), r2);
        lemma_u64_at(c, checked_at_ms);
        let c1 = c.skip(8);
        lemma_at_split(c1, seq![outcome], r3);
        lemma_u8_at(c1, outcome);
        let c2 = c1.skip(1);
        lemma_at_split(c2, opt_u64_bytes(content_hash), r4);
        lemma_opt_u64_at(c2, content_hash);
        let c3 = c2.skip(opt_u64_bytes(content_hash).len());
        lemma_at_split(c3, opt_str_bytes(etag), r5);
        lemma_opt_str_at(c3, etag);
        let c4 = c3.skip(opt_str_bytes(etag).len());
        lemma_at_split(c4, le_bytes(interval_s as nat, 4), r6);
        lemma_u32_at(c4, interval_s);
        let c5 = c4.skip(4);
        lemma_at_split(c5, le_bytes(checks as nat, 2), r7);
        lemma_u16_at(c5, checks);
        let c6 = c5.skip(2);
        lemma_at_split(c6, le_bytes(changes as nat, 2), r8);
        lemma_u16_at(c6, changes);
        let c7 = c6.skip(2);
        lemma_at_split(c7, le_bytes(last_change_ms as nat, 8), seq![bool_byte(tombstone)]);
        lemma_u64_at(c7, last_change_ms);
        lemma_u8_at(c7.skip(8), bool_byte(tombstone));
    }
}

/// Decoding an encoded op gives that op back and consumes exactly its bytes.
pub proof fn law_op_round_trip(c: Cur, op: OpV)
    requires
        op.storable(),
        c.at(op_bytes(op)),
    ensures
        read_op(c) == (op, c.skip(op_bytes(op).len())),
{
    reveal(read_body);
    let key = op.target();
    lemma_le_bytes_len(key.0 as nat, 8);
    lemma_at_split(c, seq![opcode(op)], le_bytes(key.0 as nat, 8) + op_body(op));
    lemma_u8_at(c, opcode(op));
    let c1 = c.skip(1);
    lemma_at_split(c1, le_bytes(key.0 as nat, 8), op_body(op));
    lemma_u64_at(c1, key.0);
    let c2 = c1.skip(8);
    match op {
        OpV::UpsertNode { .. } => lemma_upsert_at(c2, op),
        OpV::SetSegments { segs, .. } => {
            lemma_at_split(c2, seq![segs.len() as u8], segs_bytes(segs));
            lemma_u8_at(c2, segs.len() as u8);
            lemma_segs_at(c2.skip(1), segs);
        },
        OpV::SetEdges { edges, .. } => {
            lemma_at_split(c2, seq![edges.len() as u8], edges_bytes(edges));
            lemma_u8_at(c2, edges.len() as u8);
            lemma_edges_at(c2.skip(1), edges);
        },
        OpV::Touch { .. } => lemma_touch_at(c2, op),
        OpV::Remove { .. } => {},
        OpV::SetPinned { pinned, .. } => lemma_u8_at(c2, bool_byte(pinned)),
        OpV::SetImportance { scores, .. } => {
            lemma_at_split(c2, seq![scores.len() as u8], scores_bytes(scores));
            lemma_u8_at(c2, scores.len() as u8);
            lemma_scores_at(c2.skip(1), scores);
        },
    }
}

// ---- header ---------------------------------------------------------------

/// The header before its checksum.
pub open spec fn header_body(base_generation: u64, created_at_ms: u64) -> Seq<u8> {
    le_bytes(MAGIC as nat, 4) + (le_bytes(VERSION as nat, 2) + (le_bytes(0, 2) + (le_bytes(
        HEADER_LEN as nat,
        4,
    ) + (le_bytes(0, 4) + (le_bytes(base_generation as nat, 8) + (le_bytes(created_at_ms as nat, 8)
        + (le_bytes(0, 8) + (le_bytes(0, 8) + le_bytes(0, 8)))))))))
}

/// The header for `base_generation`.
pub open spec fn header_bytes(base_generation: u64, created_at_ms: u64) -> Seq<u8> {
    header_body(base_generation, created_at_ms) + le_bytes(
        xxh3(header_body(base_generation, created_at_ms)) as nat,
        8,
    )
}

/// What parsing a header gives when the checksum of its first 56 bytes is
/// `sum`.
pub open spec fn header_summed(bytes: Seq<u8>, sum: u64) -> Result<u64, Fault> {
    if bytes.len() < HEADER_LEN {
        Err(Fault::Format("wal shorter than header"@))
    } else if number_at(bytes, 0, 4) != MAGIC {
        Err(Fault::Format("bad wal magic"@))
    } else if number_at(bytes, 4, 2) != VERSION {
        Err(Fault::Format("unsupported wal version "@ + decimal(number_at(bytes, 4, 2))))
    } else if sum != number_at(bytes, 56, 8) {
        Err(Fault::Format("wal header checksum mismatch"@))
    } else {
        Ok(number_at(bytes, 16, 8) as u64)
    }
}

/// What parsing a header gives: its base generation, or the first thing wrong
/// with it.
pub open spec fn parsed_header(bytes: Seq<u8>) -> Result<u64, Fault> {
    header_summed(bytes, xxh3(bytes.subrange(0, 56)))
}

/// The value of a result.
pub open spec fn outcome_of(r: Result<u64>) -> Result<u64, Fault> {
    match r {
        Ok(v) => Ok(v),
        Err(e) => Err(e@),
    }
}

/// Serialize a log header for `base_generation`.
#[must_use]
pub fn encode_header(base_generation: u64, created_at_ms: u64) -> (out: Vec<u8>)
    ensures
        out@ == header_bytes(base_generation, created_at_ms),
        out@.len() == HEADER_LEN,
{
    broadcast use lemma_cat_assoc;

    proof {
        lemma_header_len(base_generation, created_at_ms);
    }
    let mut out: Vec<u8> = Vec::with_capacity(HEADER_LEN);
    put_u32(&mut out, MAGIC);
    assert(out@ =~= le_bytes(MAGIC as nat, 4));
    put_u16(&mut out, VERSION);
    put_u16(&mut out, 0);
    put_u32(&mut out, 64);
    put_u32(&mut out, 0);
    put_u64(&mut out, base_generation);
    put_u64(&mut out, created_at_ms);
    put_u64(&mut out, 0);
    put_u64(&mut out, 0);
    put_u64(&mut out, 0);
    let sum: u64 = xxh3_of(out.as_slice());
    put_u64(&mut out, sum);
    out
}

fn bad_version(version: u16) -> (e: Error)
    ensures
        e@ == Fault::Format("unsupported wal version "@ + decimal(version as nat)),
{
    let mut message: String = "unsupported wal version ".to_owned();
    push_decimal(&mut message, version as u64);
    Error::Format { message }
}

/// Parse a log header whose first 56 bytes have the checksum `sum`.
pub fn parse_header_summed(bytes: &[u8], sum: u64) -> (r: Result<u64>)
    ensures
        outcome_of(r) == header_summed(bytes@, sum),
{
    if bytes.len() < HEADER_LEN {
        return Err(Error::format("wal shorter than header"));
    }
    if get_u32(bytes, 0) != MAGIC {
        return Err(Error::format("bad wal magic"));
    }
    let version: u16 = get_u16(bytes, 4);
    if version != VERSION {
        return Err(bad_version(version));
    }
    if sum != get_u64(bytes, 56) {
        return Err(Error::format("wal header checksum mismatch"));
    }
    Ok(get_u64(bytes, 16))
}

/// Parse a log header, returning its base generation.
pub fn parse_header(bytes: &[u8]) -> (r: Result<u64>)
    ensures
        outcome_of(r) == parsed_header(bytes@),
{
    if bytes.len() < HEADER_LEN {
        return Err(Error::format("wal shorter than header"));
    }
    let sum: u64 = xxh3_of(slice(bytes, 0, 56));
    parse_header_summed(bytes, sum)
}

// ---- frames ---------------------------------------------------------------

/// What a frame's checksum covers.
pub open spec fn sealed(seq: u64, payload: Seq<u8>) -> Seq<u8> {
    le_bytes(seq as nat, 8) + payload
}

/// One frame.
pub open spec fn frame_bytes(seq: u64, op: OpV) -> Seq<u8> {
    le_bytes(op_bytes(op).len(), 4) + (le_bytes(xxh3(sealed(seq, op_bytes(op))) as nat, 8) + (
    le_bytes(seq as nat, 8) + op_bytes(op)))
}

/// The length of the payload of the frame at `pos`, if the whole frame is
/// there and the length is within the limit.
pub open spec fn frame_extent(bytes: Seq<u8>, pos: int) -> Option<nat> {
    if bytes.len() - pos < FRAME_OVERHEAD {
        None
    } else {
        let len = number_at(bytes, pos, 4);
        if len > MAX_FRAME || bytes.len() - pos - FRAME_OVERHEAD < len {
            None
        } else {
            Some(len)
        }
    }
}

pub open spec fn frame_payload(bytes: Seq<u8>, pos: int, len: nat) -> Seq<u8> {
    bytes.subrange(pos + FRAME_OVERHEAD, pos + FRAME_OVERHEAD + len)
}

/// The sequence number and the op of the frame at `pos`, whose payload is
/// `len` bytes long and whose checksum comes to `sum`. Nothing, if that is not
/// the checksum it carries or if the payload is not one op exactly.
pub open spec fn frame_summed(bytes: Seq<u8>, pos: int, len: nat, sum: u64) -> Option<(u64, OpV)> {
    let payload = frame_payload(bytes, pos, len);
    let (op, end) = read_op(Cur { bytes: payload, pos: 0, fault: None });
    if sum != number_at(bytes, pos + 4, 8) || end.fault is Some || end.remaining() != 0 {
        None
    } else {
        Some((number_at(bytes, pos + 12, 8) as u64, op))
    }
}

/// The frame at `pos`: its sequence number, its op and where it ends.
pub open spec fn frame_at(bytes: Seq<u8>, pos: int) -> Option<(u64, OpV, int)> {
    match frame_extent(bytes, pos) {
        None => None,
        Some(len) => {
            let seq = number_at(bytes, pos + 12, 8) as u64;
            let sum = xxh3(sealed(seq, frame_payload(bytes, pos, len)));
            match frame_summed(bytes, pos, len, sum) {
                None => None,
                Some((seq, op)) => Some((seq, op, pos + FRAME_OVERHEAD + len)),
            }
        },
    }
}

fn seal(seq: u64, payload: &[u8]) -> (out: Vec<u8>)
    ensures
        out@ == sealed(seq, payload@),
{
    let mut out: Vec<u8> = Vec::new();
    put_u64(&mut out, seq);
    assert(out@ =~= le_bytes(seq as nat, 8));
    put_bytes(&mut out, payload);
    out
}

/// Serialize one frame.
#[must_use]
pub fn encode_frame(seq: u64, op: &Op) -> (out: Vec<u8>)
    requires
        op@.encodable(),
        op_bytes(op@).len() <= MAX_FRAME,
    ensures
        out@ == frame_bytes(seq, op@),
{
    broadcast use lemma_cat_assoc;

    let mut payload: Vec<u8> = Vec::new();
    op.encode(&mut payload);
    assert(payload@ =~= op_bytes(op@));
    let sum: u64 = xxh3_of(seal(seq, payload.as_slice()).as_slice());
    let mut out: Vec<u8> = Vec::new();
    put_u32(&mut out, payload.len() as u32);
    assert(out@ =~= le_bytes(op_bytes(op@).len(), 4));
    put_u64(&mut out, sum);
    put_u64(&mut out, seq);
    put_bytes(&mut out, payload.as_slice());
    out
}

/// The payload length of the frame at `pos`, if the whole frame is there.
pub fn frame_len(bytes: &[u8], pos: usize) -> (r: Option<usize>)
    requires
        pos <= bytes@.len(),
    ensures
        match r {
            Some(len) => frame_extent(bytes@, pos as int) == Some(len as nat),
            None => frame_extent(bytes@, pos as int) is None,
        },
{
    if bytes.len() - pos < FRAME_OVERHEAD {
        return None;
    }
    let len: usize = get_u32(bytes, pos) as usize;
    if len > MAX_FRAME || bytes.len() - pos - FRAME_OVERHEAD < len {
        None
    } else {
        Some(len)
    }
}

/// The frame at `pos` with a payload of `len` bytes, given that its checksum
/// comes to `sum`.
pub fn open_frame(bytes: &[u8], pos: usize, len: usize, sum: u64) -> (r: Option<(u64, Op)>)
    requires
        frame_extent(bytes@, pos as int) == Some(len as nat),
    ensures
        match r {
            Some((seq, op)) => frame_summed(bytes@, pos as int, len as nat, sum) == Some((seq, op@))
                && op@.storable(),
            None => frame_summed(bytes@, pos as int, len as nat, sum) is None,
        },
{
    let end: usize = bytes.len();
    if sum != get_u64(bytes, pos + 4) {
        return None;
    }
    let payload: &[u8] = slice(bytes, pos + FRAME_OVERHEAD, pos + FRAME_OVERHEAD + len);
    let mut r: Reader<'_> = Reader::new(payload);
    match Op::decode(&mut r) {
        Ok(op) => {
            if r.remaining() != 0 {
                None
            } else {
                Some((get_u64(bytes, pos + 12), op))
            }
        },
        Err(_) => None,
    }
}

// ---- replay ---------------------------------------------------------------

/// The result of replaying a log image.
#[derive(Debug)]
pub struct Replay {
    /// Ops in order, with their sequence numbers, up to the first tear.
    pub ops: Vec<(u64, Op)>,
    /// Byte length of the intact prefix (header + whole good frames); a
    /// writable opener truncates the file to this length.
    pub good_len: usize,
    /// Base generation this log extends.
    pub base_generation: u64,
}

/// The values of numbered ops.
pub open spec fn ops_view(ops: Seq<(u64, Op)>) -> Seq<(u64, OpV)> {
    ops.map_values(|p: (u64, Op)| (p.0, p.1@))
}

/// Reading frames from `pos` on, after `ops`: every op up to the first torn
/// frame, and where that frame begins. A sequence number that does not exceed
/// the one before it is corruption, not a tear.
pub open spec fn replay_from(bytes: Seq<u8>, pos: int, ops: Seq<(u64, OpV)>) -> Result<
    (Seq<(u64, OpV)>, int),
    Fault,
>
    decreases bytes.len() - pos,
{
    match frame_at(bytes, pos) {
        None => Ok((ops, pos)),
        Some((seq, op, next)) => if ops.len() > 0 && seq <= ops.last().0 {
            Err(Fault::Corrupt("wal sequence regression"@))
        } else {
            replay_from(bytes, next, ops.push((seq, op)))
        },
    }
}

/// Sequence numbers strictly increase.
pub open spec fn increasing(ops: Seq<(u64, OpV)>) -> bool {
    forall|i: int, j: int| 0 <= i < j < ops.len() ==> ops[i].0 < ops[j].0
}

/// Replay a log image. Corrupt or torn tails end the replay silently (that is
/// the crash model, not an error); a corrupt *header* is an error.
pub fn replay(bytes: &[u8]) -> (r: Result<Replay>)
    ensures
        match r {
            Ok(p) => {
                &&& parsed_header(bytes@) == Ok::<u64, Fault>(p.base_generation)
                &&& replay_from(bytes@, HEADER_LEN as int, Seq::empty()) == Ok::<
                    (Seq<(u64, OpV)>, int),
                    Fault,
                >((ops_view(p.ops@), p.good_len as int))
                &&& HEADER_LEN <= p.good_len <= bytes@.len()
                &&& increasing(ops_view(p.ops@))
                &&& storable_entries(p.ops@)
            },
            Err(e) => parsed_header(bytes@) == Err::<u64, Fault>(e@) || (parsed_header(bytes@) is Ok
                && replay_from(bytes@, HEADER_LEN as int, Seq::empty()) == Err::<
                (Seq<(u64, OpV)>, int),
                Fault,
            >(e@)),
        },
{
    let base_generation: u64 = parse_header(bytes)?;
    let end: usize = bytes.len();
    let mut ops: Vec<(u64, Op)> = Vec::new();
    let mut pos: usize = HEADER_LEN;
    assert(ops_view(ops@) =~= Seq::empty());
    loop
        invariant
            HEADER_LEN <= pos <= end == bytes@.len(),
            replay_from(bytes@, HEADER_LEN as int, Seq::empty()) == replay_from(
                bytes@,
                pos as int,
                ops_view(ops@),
            ),
            increasing(ops_view(ops@)),
            storable_entries(ops@),
            parsed_header(bytes@) == Ok::<u64, Fault>(base_generation),
        decreases end - pos,
    {
        let len: usize = match frame_len(bytes, pos) {
            Some(len) => len,
            None => {
                return Ok(Replay { ops, good_len: pos, base_generation });
            },
        };
        let seq: u64 = get_u64(bytes, pos + 12);
        let payload: &[u8] = slice(bytes, pos + FRAME_OVERHEAD, pos + FRAME_OVERHEAD + len);
        let sum: u64 = xxh3_of(seal(seq, payload).as_slice());
        match open_frame(bytes, pos, len, sum) {
            Some((seq, op)) => {
                if ops.len() > 0 && seq <= ops[ops.len() - 1].0 {
                    return Err(Error::corrupt("wal sequence regression"));
                }
                let ghost was = ops@;
                ops.push((seq, op));
                assert(ops_view(ops@) =~= ops_view(was).push((seq, op@)));
                pos = pos + FRAME_OVERHEAD + len;
            },
            None => {
                return Ok(Replay { ops, good_len: pos, base_generation });
            },
        }
    }
}

// ---- laws of the log ------------------------------------------------------

proof fn lemma_header_len(base_generation: u64, created_at_ms: u64)
    ensures
        header_body(base_generation, created_at_ms).len() == 56,
        header_bytes(base_generation, created_at_ms).len() == 64,
{
    lemma_le_bytes_len(MAGIC as nat, 4);
    lemma_le_bytes_len(VERSION as nat, 2);
    lemma_le_bytes_len(0, 2);
    lemma_le_bytes_len(HEADER_LEN as nat, 4);
    lemma_le_bytes_len(0, 4);
    lemma_le_bytes_len(0, 8);
    lemma_le_bytes_len(base_generation as nat, 8);
    lemma_le_bytes_len(created_at_ms as nat, 8);
    lemma_le_bytes_len(xxh3(header_body(base_generation, created_at_ms)) as nat, 8);
}

/// An image that begins with a written header parses to its generation,
/// whatever follows.
pub proof fn law_header_round_trip(bytes: Seq<u8>, base_generation: u64, created_at_ms: u64)
    requires
        header_bytes(base_generation, created_at_ms).is_prefix_of(bytes),
    ensures
        parsed_header(bytes) == Ok::<u64, Fault>(base_generation),
{
    let body = header_body(base_generation, created_at_ms);
    let sum = xxh3(body);
    lemma_header_len(base_generation, created_at_ms);
    lemma_pow256_values();
    lemma_le_bytes_len(MAGIC as nat, 4);
    lemma_le_bytes_len(VERSION as nat, 2);
    lemma_le_bytes_len(0, 2);
    lemma_le_bytes_len(HEADER_LEN as nat, 4);
    lemma_le_bytes_len(0, 4);
    lemma_le_bytes_len(base_generation as nat, 8);
    lemma_le_bytes_len(created_at_ms as nat, 8);
    lemma_le_bytes_len(sum as nat, 8);
    let c = Cur { bytes, pos: 0, fault: None };
    assert(c.at(header_bytes(base_generation, created_at_ms)));
    lemma_at_split(c, body, le_bytes(sum as nat, 8));
    assert(bytes.subrange(0, 56) == body);
    lemma_le_round_trip(sum as nat, 8);
    let r6 = le_bytes(base_generation as nat, 8) + (le_bytes(created_at_ms as nat, 8) + (le_bytes(
        0,
        8,
    ) + (le_bytes(0, 8) + le_bytes(0, 8))));
    let r5 = le_bytes(0, 4) + r6;
    let r4 = le_bytes(HEADER_LEN as nat, 4) + r5;
    let r3 = le_bytes(0, 2) + r4;
    let r2 = le_bytes(VERSION as nat, 2) + r3;
    lemma_at_split(c, le_bytes(MAGIC as nat, 4), r2);
    lemma_le_round_trip(MAGIC as nat, 4);
    lemma_at_split(c.skip(4), le_bytes(VERSION as nat, 2), r3);
    lemma_le_round_trip(VERSION as nat, 2);
    lemma_at_split(c.skip(4).skip(2), le_bytes(0, 2), r4);
    lemma_at_split(c.skip(4).skip(2).skip(2), le_bytes(HEADER_LEN as nat, 4), r5);
    lemma_at_split(c.skip(4).skip(2).skip(2).skip(4), le_bytes(0, 4), r6);
    lemma_at_split(
        c.skip(4).skip(2).skip(2).skip(4).skip(4),
        le_bytes(base_generation as nat, 8),
        le_bytes(created_at_ms as nat, 8) + (le_bytes(0, 8) + (le_bytes(0, 8) + le_bytes(0, 8))),
    );
    lemma_le_round_trip(base_generation as nat, 8);
}

/// An op that fits a frame.
pub open spec fn loggable(op: OpV) -> bool {
    op.storable() && op_bytes(op).len() <= MAX_FRAME
}

/// Ops that fit their frames, numbered in increasing order.
pub open spec fn loggable_ops(ops: Seq<(u64, OpV)>) -> bool {
    &&& increasing(ops)
    &&& forall|i: int| 0 <= i < ops.len() ==> loggable((#[trigger] ops[i]).1)
}

/// The frames of `ops`, one after the other.
pub open spec fn frames(ops: Seq<(u64, OpV)>) -> Seq<u8>
    decreases ops.len(),
{
    if ops.len() == 0 {
        Seq::empty()
    } else {
        frames(ops.drop_last()) + frame_bytes(ops.last().0, ops.last().1)
    }
}

/// The log that holds `ops`.
pub open spec fn log_bytes(base_generation: u64, created_at_ms: u64, ops: Seq<(u64, OpV)>) -> Seq<
    u8,
> {
    header_bytes(base_generation, created_at_ms) + frames(ops)
}

pub proof fn lemma_frame_len(seq: u64, op: OpV)
    ensures
        frame_bytes(seq, op).len() == FRAME_OVERHEAD + op_bytes(op).len(),
{
    let p = op_bytes(op);
    lemma_le_bytes_len(p.len(), 4);
    lemma_le_bytes_len(xxh3(sealed(seq, p)) as nat, 8);
    lemma_le_bytes_len(seq as nat, 8);
}

pub proof fn lemma_log_len(base_generation: u64, created_at_ms: u64, ops: Seq<(u64, OpV)>)
    ensures
        log_bytes(base_generation, created_at_ms, ops).len() >= HEADER_LEN,
{
    lemma_header_len(base_generation, created_at_ms);
}

proof fn lemma_frame_parts(bytes: Seq<u8>, pos: int, seq: u64, op: OpV)
    requires
        (Cur { bytes, pos, fault: None }).at(frame_bytes(seq, op)),
        loggable(op),
    ensures
        number_at(bytes, pos, 4) == op_bytes(op).len(),
        number_at(bytes, pos + 4, 8) == xxh3(sealed(seq, op_bytes(op))),
        number_at(bytes, pos + 12, 8) == seq,
        bytes.subrange(pos + 20, pos + 20 + op_bytes(op).len()) == op_bytes(op),
{
    let p = op_bytes(op);
    let sum = xxh3(sealed(seq, p));
    let c = Cur { bytes, pos, fault: None };
    lemma_pow256_values();
    lemma_le_round_trip(p.len(), 4);
    lemma_le_round_trip(sum as nat, 8);
    lemma_le_round_trip(seq as nat, 8);
    let r3 = le_bytes(seq as nat, 8) + p;
    let r2 = le_bytes(sum as nat, 8) + r3;
    lemma_at_split(c, le_bytes(p.len(), 4), r2);
    lemma_at_split(c.skip(4), le_bytes(sum as nat, 8), r3);
    lemma_at_split(c.skip(4).skip(8), le_bytes(seq as nat, 8), p);
}

/// A frame that was written is read back.
pub proof fn law_frame_round_trip(bytes: Seq<u8>, pos: int, seq: u64, op: OpV)
    requires
        (Cur { bytes, pos, fault: None }).at(frame_bytes(seq, op)),
        loggable(op),
    ensures
        frame_at(bytes, pos) == Some((seq, op, pos + frame_bytes(seq, op).len())),
{
    let p = op_bytes(op);
    lemma_frame_len(seq, op);
    lemma_frame_parts(bytes, pos, seq, op);
    let c = Cur { bytes: p, pos: 0, fault: None };
    assert(p.subrange(0, p.len() as int) =~= p);
    law_op_round_trip(c, op);
}

/// A frame cut short anywhere is not a frame.
pub proof fn law_torn_frame_is_refused(bytes: Seq<u8>, pos: int, seq: u64, op: OpV)
    requires
        0 <= pos <= bytes.len(),
        loggable(op),
        bytes.len() - pos < frame_bytes(seq, op).len(),
        bytes.subrange(pos, bytes.len() as int) == frame_bytes(seq, op).take(bytes.len() - pos),
    ensures
        frame_at(bytes, pos) is None,
{
    lemma_frame_len(seq, op);
    let p = op_bytes(op);
    if bytes.len() - pos >= FRAME_OVERHEAD {
        lemma_pow256_values();
        lemma_le_round_trip(p.len(), 4);
        let tail = bytes.subrange(pos, bytes.len() as int);
        assert(bytes.subrange(pos, pos + 4) =~= tail.subrange(0, 4));
        assert(tail.subrange(0, 4) =~= frame_bytes(seq, op).subrange(0, 4));
        assert(frame_bytes(seq, op).subrange(0, 4) =~= le_bytes(p.len(), 4));
    }
}

/// An image that begins with a log replays all of its ops, and goes on to
/// whatever follows them.
pub proof fn law_log_replays_first(
    bytes: Seq<u8>,
    base_generation: u64,
    created_at_ms: u64,
    ops: Seq<(u64, OpV)>,
)
    requires
        loggable_ops(ops),
        log_bytes(base_generation, created_at_ms, ops).is_prefix_of(bytes),
    ensures
        parsed_header(bytes) == Ok::<u64, Fault>(base_generation),
        replay_from(bytes, HEADER_LEN as int, Seq::empty()) == replay_from(
            bytes,
            log_bytes(base_generation, created_at_ms, ops).len() as int,
            ops,
        ),
    decreases ops.len(),
{
    let head = header_bytes(base_generation, created_at_ms);
    let all = log_bytes(base_generation, created_at_ms, ops);
    lemma_header_len(base_generation, created_at_ms);
    if ops.len() == 0 {
        assert(ops =~= Seq::empty());
        assert(all =~= head);
        law_header_round_trip(bytes, base_generation, created_at_ms);
    } else {
        let pre = ops.drop_last();
        let (seq, op) = ops.last();
        let before = log_bytes(base_generation, created_at_ms, pre);
        let f = frame_bytes(seq, op);
        assert(all =~= before + f);
        assert(before =~= bytes.take(before.len() as int));
        law_log_replays_first(bytes, base_generation, created_at_ms, pre);
        let c = Cur { bytes, pos: 0, fault: None };
        assert(c.at(all));
        lemma_at_split(c, before, f);
        assert(c.skip(before.len()) == (Cur { bytes, pos: before.len() as int, fault: None }));
        assert(loggable(ops[ops.len() - 1].1));
        law_frame_round_trip(bytes, before.len() as int, seq, op);
        if pre.len() > 0 {
            assert(pre.last() == ops[ops.len() - 2]);
        }
        assert(pre.push((seq, op)) =~= ops);
    }
}

/// A whole log replays to exactly the ops that were written to it.
pub proof fn law_log_round_trip(base_generation: u64, created_at_ms: u64, ops: Seq<(u64, OpV)>)
    requires
        loggable_ops(ops),
    ensures
        ({
            let log = log_bytes(base_generation, created_at_ms, ops);
            &&& parsed_header(log) == Ok::<u64, Fault>(base_generation)
            &&& replay_from(log, HEADER_LEN as int, Seq::empty()) == Ok::<
                (Seq<(u64, OpV)>, int),
                Fault,
            >((ops, log.len() as int))
        }),
{
    let log = log_bytes(base_generation, created_at_ms, ops);
    law_log_replays_first(log, base_generation, created_at_ms, ops);
}

proof fn lemma_frames_take(ops: Seq<(u64, OpV)>, k: int)
    requires
        0 <= k < ops.len(),
    ensures
        (frames(ops.take(k)) + frame_bytes(ops[k].0, ops[k].1)).is_prefix_of(frames(ops)),
        frames(ops.take(k + 1)) == frames(ops.take(k)) + frame_bytes(ops[k].0, ops[k].1),
    decreases ops.len(),
{
    assert(ops.take(k + 1).drop_last() =~= ops.take(k));
    assert(ops.take(k + 1).last() == ops[k]);
    if k + 1 == ops.len() {
        assert(ops.take(k + 1) =~= ops);
    } else {
        let pre = ops.drop_last();
        lemma_frames_take(pre, k);
        assert(pre.take(k) =~= ops.take(k));
        assert(pre.take(k + 1) =~= ops.take(k + 1));
    }
}

/// A log cut anywhere at or after its header replays exactly the ops whose
/// frames are whole, and reports where the last whole frame ends.
pub proof fn law_torn_log_keeps_whole_frames(
    base_generation: u64,
    created_at_ms: u64,
    ops: Seq<(u64, OpV)>,
    cut: int,
    k: int,
)
    requires
        loggable_ops(ops),
        0 <= k <= ops.len(),
        log_bytes(base_generation, created_at_ms, ops.take(k)).len() <= cut,
        cut <= log_bytes(base_generation, created_at_ms, ops).len(),
        k < ops.len() ==> cut < log_bytes(base_generation, created_at_ms, ops.take(k + 1)).len(),
    ensures
        ({
            let torn = log_bytes(base_generation, created_at_ms, ops).take(cut);
            &&& parsed_header(torn) == Ok::<u64, Fault>(base_generation)
            &&& replay_from(torn, HEADER_LEN as int, Seq::empty()) == Ok::<
                (Seq<(u64, OpV)>, int),
                Fault,
            >(
                (
                    ops.take(k),
                    log_bytes(base_generation, created_at_ms, ops.take(k)).len() as int,
                ),
            )
        }),
{
    let log = log_bytes(base_generation, created_at_ms, ops);
    let torn = log.take(cut);
    let whole = log_bytes(base_generation, created_at_ms, ops.take(k));
    lemma_header_len(base_generation, created_at_ms);
    if k == ops.len() {
        assert(ops.take(k) =~= ops);
        assert(torn =~= log);
        law_log_round_trip(base_generation, created_at_ms, ops);
    } else {
        let (seq, op) = ops[k];
        let f = frame_bytes(seq, op);
        lemma_frames_take(ops, k);
        let next = log_bytes(base_generation, created_at_ms, ops.take(k + 1));
        assert(next =~= whole + f);
        assert forall|i: int| 0 <= i < next.len() implies log[i] == next[i] by {
            if i >= 64 {
                assert(frames(ops)[i - 64] == (frames(ops.take(k)) + f)[i - 64]);
            }
        }
        assert(whole =~= torn.take(whole.len() as int)) by {
            assert(forall|i: int| 0 <= i < whole.len() ==> whole[i] == next[i]);
        }
        law_log_replays_first(torn, base_generation, created_at_ms, ops.take(k));
        let pos = whole.len() as int;
        assert(torn.subrange(pos, torn.len() as int) =~= f.take(torn.len() - pos)) by {
            assert forall|i: int| 0 <= i < cut - pos implies torn[pos + i] == f[i] by {
                assert(next[pos + i] == f[i]);
            }
        }
        assert(loggable(ops[k].1));
        law_torn_frame_is_refused(torn, pos, seq, op);
    }
}

/// Bytes after a whole log can only add ops: when the replay succeeds, what
/// was written comes first.
pub proof fn law_tail_only_extends(
    base_generation: u64,
    created_at_ms: u64,
    ops: Seq<(u64, OpV)>,
    tail: Seq<u8>,
)
    requires
        loggable_ops(ops),
    ensures
        ({
            let image = log_bytes(base_generation, created_at_ms, ops) + tail;
            replay_from(image, HEADER_LEN as int, Seq::empty()) matches Ok((all, good))
                ==> ops.is_prefix_of(all) && good >= log_bytes(
                base_generation,
                created_at_ms,
                ops,
            ).len()
        }),
{
    let log = log_bytes(base_generation, created_at_ms, ops);
    let image = log + tail;
    assert(log =~= image.take(log.len() as int));
    law_log_replays_first(image, base_generation, created_at_ms, ops);
    lemma_replay_extends(image, log.len() as int, ops);
}

proof fn lemma_replay_extends(bytes: Seq<u8>, pos: int, ops: Seq<(u64, OpV)>)
    ensures
        replay_from(bytes, pos, ops) matches Ok((all, good)) ==> ops.is_prefix_of(all) && good
            >= pos,
    decreases bytes.len() - pos,
{
    match frame_at(bytes, pos) {
        None => {
            assert(ops =~= ops.take(ops.len() as int));
        },
        Some((seq, op, next)) => {
            let more = ops.push((seq, op));
            lemma_replay_extends(bytes, next, more);
            assert(ops =~= more.take(ops.len() as int));
            if let Ok((all, _)) = replay_from(bytes, next, more) {
                if !(ops.len() > 0 && seq <= ops.last().0) {
                    assert(more =~= all.take(more.len() as int));
                    assert(ops =~= all.take(ops.len() as int)) by {
                        assert(forall|i: int| 0 <= i < ops.len() ==> ops[i] == more[i]);
                    }
                }
            }
        },
    }
}

} // verus!
