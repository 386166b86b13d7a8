//! Identity types. The durable foreign key everywhere is [`UrlKey`], the
//! 64-bit xxh3 of a canonical URL. [`NodeId`]s are dense indices assigned at
//! compaction: stable within one base generation, never persisted across it.
#[allow(unused_imports)]
use crate::bytesio::le_bytes;
use crate::bytesio::{put_bytes, put_u64, put_u8};
use vstd::prelude::*;
use vstd::string::*;
#[allow(unused_imports)]
use vstd::utf8::*;

verus! {

/// The xxh3 hash of a byte string, as `xxhash_rust::xxh3::xxh3_64` gives it.
pub uninterp spec fn xxh3(bytes: Seq<u8>) -> u64;

/// `xxhash_rust::xxh3::xxh3_64`: the seedless 64-bit xxh3 of `bytes`, a
/// function of the bytes alone. Which number it is is not stated.
#[verifier::external_body]
pub(crate) fn xxh3_of(bytes: &[u8]) -> (sum: u64)
    ensures
        sum == xxh3(bytes@),
{
    xxhash_rust::xxh3::xxh3_64(bytes)
}

/// Durable identity of a document node: xxh3 of its canonical URL.
#[derive(Clone, Copy, Debug, PartialEq, Eq, Structural, Hash, PartialOrd, Ord)]
pub struct UrlKey(pub u64);

impl UrlKey {
    /// Key a canonical URL string.
    pub fn of(canonical_url: &str) -> (k: Self)
        ensures
            k == UrlKey(xxh3(encode_utf8(canonical_url@))),
    {
        UrlKey(xxh3_of(canonical_url.as_bytes()))
    }

    /// The raw 64-bit key.
    pub fn raw(self) -> (v: u64)
        ensures
            v == self.0,
    {
        self.0
    }
}

/// Durable identity of a sub-document segment: xxh3 of the owning key plus
/// the segment's heading path, so a re-crawl that keeps a heading keeps the
/// segment's identity and any enrichment attached to it.
#[derive(Clone, Copy, Debug, PartialEq, Eq, Structural, Hash, PartialOrd, Ord)]
pub struct SegKey(pub u64);

/// The bytes whose hash identifies `heading_path` under `owner`.
pub open spec fn seg_key_bytes(owner: UrlKey, heading_path: Seq<char>) -> Seq<u8> {
    le_bytes(owner.0 as nat, 8) + seq![0u8] + encode_utf8(heading_path)
}

/// The key of `heading_path` under `owner`.
pub open spec fn seg_key(owner: UrlKey, heading_path: Seq<char>) -> u64 {
    xxh3(seg_key_bytes(owner, heading_path))
}

/// The bytes whose hash identifies `heading_path` under `owner`.
pub fn seg_key_input(owner: UrlKey, heading_path: &str) -> (buf: Vec<u8>)
    ensures
        buf@ == seg_key_bytes(owner, heading_path@),
{
    let mut buf: Vec<u8> = Vec::new();
    put_u64(&mut buf, owner.0);
    put_u8(&mut buf, 0);
    put_bytes(&mut buf, heading_path.as_bytes());
    assert(buf@ =~= seg_key_bytes(owner, heading_path@));
    buf
}

impl SegKey {
    /// Derive the segment key for `heading_path` under `owner`.
    pub fn derive(owner: UrlKey, heading_path: &str) -> (k: Self)
        ensures
            k == SegKey(seg_key(owner, heading_path@)),
    {
        let buf: Vec<u8> = seg_key_input(owner, heading_path);
        SegKey(xxh3_of(buf.as_slice()))
    }
}

/// Dense per-snapshot node index (position in the base `Nodes` section).
#[derive(Clone, Copy, Debug, PartialEq, Eq, Structural, Hash, PartialOrd, Ord)]
pub struct NodeId(pub u32);

/// Typed edges. The tags are burned into the on-disk format; unknown values
/// decode to [`EdgeType::Unknown`] rather than failing the file.
#[derive(Clone, Copy, Debug, PartialEq, Eq, Structural, Hash)]
#[non_exhaustive]
pub enum EdgeType {
    /// An outbound hyperlink observed in the crawled document (crawl tier).
    Link,
    /// A semantic-similarity edge proposed from dense vectors or enrichment.
    Related,
    /// A redirect observed at fetch time.
    Redirect,
    /// Forward-compatibility catch-all for tags this build does not know.
    Unknown(u8),
}

impl EdgeType {
    /// The tag of an edge type.
    pub open spec fn tag(self) -> u8 {
        match self {
            EdgeType::Link => 0,
            EdgeType::Related => 2,
            EdgeType::Redirect => 3,
            EdgeType::Unknown(t) => t,
        }
    }

    /// The edge type of a tag.
    pub open spec fn of_tag(tag: u8) -> EdgeType {
        if tag == 0 {
            EdgeType::Link
        } else if tag == 2 {
            EdgeType::Related
        } else if tag == 3 {
            EdgeType::Redirect
        } else {
            EdgeType::Unknown(tag)
        }
    }

    /// On-disk tag.
    pub fn as_tag(self) -> (t: u8)
        ensures
            t == self.tag(),
    {
        match self {
            EdgeType::Link => 0,
            EdgeType::Related => 2,
            EdgeType::Redirect => 3,
            EdgeType::Unknown(t) => t,
        }
    }

    /// Decode an on-disk tag (never fails; unknown tags are preserved).
    pub fn from_tag(tag: u8) -> (t: Self)
        ensures
            t == EdgeType::of_tag(tag),
    {
        match tag {
            0 => EdgeType::Link,
            2 => EdgeType::Related,
            3 => EdgeType::Redirect,
            t => EdgeType::Unknown(t),
        }
    }
}

/// Every tag survives decoding, and every type that decoding can give
/// survives encoding.
pub proof fn law_edge_tags_round_trip(tag: u8)
    ensures
        EdgeType::of_tag(tag).tag() == tag,
        EdgeType::of_tag(EdgeType::of_tag(tag).tag()) == EdgeType::of_tag(tag),
{
}

/// A type comes back from its tag unless it is `Unknown` with a known tag.
pub proof fn law_edge_types_round_trip(t: EdgeType)
    requires
        t matches EdgeType::Unknown(u) ==> u != 0 && u != 2 && u != 3,
    ensures
        EdgeType::of_tag(t.tag()) == t,
{
}

} // verus!
