//! Traversal. [`LendingIterator`] is the seam: each step lends a view of what
//! the iterator walks, so implementations resolve items one at a time without
//! allocating.
use crate::bytesio::{get_u16, get_u32};
use crate::format::base::dir::record;
#[allow(unused_imports)]
use crate::format::base::dir::{edge_dst, raw};
use crate::format::base::{eflags, EDGE_LEN};
use crate::format::wal::OwnedEdge;
use crate::key::{EdgeType, NodeId, UrlKey};
#[allow(unused_imports)]
use crate::model::EdgeV;
use crate::snapshot::Snapshot;
use vstd::prelude::*;

verus! {

/// An iterator whose items are borrowed views.
pub trait LendingIterator {
    /// The lent item type.
    type Item;

    /// The iterator may be advanced.
    spec fn ready(&self) -> bool;

    /// Advance and lend the next item.
    fn next(&mut self) -> (r: Option<Self::Item>)
        requires
            old(self).ready(),
    ;
}

/// One outbound edge as seen from a snapshot.
#[derive(Clone, Copy, Debug)]
pub struct EdgeRef<'a> {
    /// Destination node id in the current base generation, when resolved.
    pub dst: Option<NodeId>,
    /// Destination durable key (always present).
    pub dst_key: UrlKey,
    /// Destination canonical URL, when the destination is a known node with a
    /// URL label (stubs have none).
    pub dst_url: Option<&'a str>,
    /// Edge type.
    pub etype: EdgeType,
    /// Raw edge flags (`eflags`).
    pub flags: u8,
    /// Weight in 1/65535 units.
    pub weight: u16,
}

/// The text of an optional borrowed string.
pub open spec fn opt_text(s: Option<&str>) -> Option<Seq<char>> {
    match s {
        Some(t) => Some(t@),
        None => None,
    }
}

/// The number of an optional id.
pub open spec fn opt_id(id: Option<NodeId>) -> Option<u32> {
    match id {
        Some(i) => Some(i.0),
        None => None,
    }
}

impl<'a> View for EdgeRef<'a> {
    type V = EdgeV;

    open spec fn view(&self) -> EdgeV {
        EdgeV {
            dst: opt_id(self.dst),
            dst_key: self.dst_key.0,
            dst_url: opt_text(self.dst_url),
            etype: self.etype,
            flags: self.flags,
            weight: self.weight,
        }
    }
}

/// The flags mark an edge of the enrichment tier.
pub open spec fn of_enrichment(flags: u8) -> bool {
    flags & eflags::TIER_ENRICH != 0
}

impl<'a> EdgeRef<'a> {
    /// True when the edge came from the enrichment tier.
    #[must_use]
    pub fn is_enrichment(&self) -> (r: bool)
        ensures
            r == of_enrichment(self.flags),
    {
        self.flags & eflags::TIER_ENRICH != 0
    }

    /// True when the edge was inferred rather than extracted from source.
    #[must_use]
    pub fn is_inferred(&self) -> (r: bool)
        ensures
            r == (self.flags & eflags::INFERRED != 0),
    {
        self.flags & eflags::INFERRED != 0
    }
}

/// Iterator over a node's outbound edges. Constructed by
/// [`Snapshot::neighbors`]; each step resolves the destination lazily against
/// the snapshot, allocating nothing.
pub struct Neighbors<'s> {
    inner: NeighborsInner<'s>,
}

#[allow(inconsistent_fields)]
enum NeighborsInner<'s> {
    /// CSR run in the base file.
    Base { snap: &'s Snapshot<'s>, edges: &'s [u8], idx: usize, end: usize },
    /// Whole-set replacement living in the overlay.
    Overlay { snap: &'s Snapshot<'s>, edges: &'s Vec<OwnedEdge>, idx: usize },
    /// The node has no edges.
    Empty,
}

impl<'s> Neighbors<'s> {
    /// What is still to come.
    pub closed spec fn rest(&self) -> Seq<EdgeV> {
        match self.inner {
            NeighborsInner::Base { snap, edges, idx, end } => Seq::new(
                (end - idx) as nat,
                |j: int| snap.graph().base_edge(idx + j),
            ),
            NeighborsInner::Overlay { snap, edges, idx } => snap.graph().overlay_edges(
                edges@.skip(idx as int),
            ),
            NeighborsInner::Empty => Seq::empty(),
        }
    }

    pub closed spec fn wf(&self) -> bool {
        match self.inner {
            NeighborsInner::Base { snap, edges, idx, end } => {
                &&& snap.wf()
                &&& edges@ == raw(snap.graph().t.edges)
                &&& idx <= end
                &&& end <= snap.graph().h.edge_count
                &&& snap.graph().n() > 0
            },
            NeighborsInner::Overlay { snap, edges, idx } => snap.wf() && idx <= edges@.len(),
            NeighborsInner::Empty => true,
        }
    }

    /// No edges.
    pub(crate) fn none() -> (r: Self)
        ensures
            r.wf(),
            r.rest() == Seq::<EdgeV>::empty(),
    {
        Neighbors { inner: NeighborsInner::Empty }
    }

    /// The edges `from .. to` of the base.
    pub(crate) fn base(snap: &'s Snapshot<'s>, edges: &'s [u8], from: usize, to: usize) -> (r: Self)
        requires
            snap.wf(),
            edges@ == raw(snap.graph().t.edges),
            from <= to <= snap.graph().h.edge_count,
            snap.graph().n() > 0,
        ensures
            r.wf(),
            r.rest() == Seq::new((to - from) as nat, |j: int| snap.graph().base_edge(from + j)),
    {
        Neighbors { inner: NeighborsInner::Base { snap, edges, idx: from, end: to } }
    }

    /// A run of the overlay.
    pub(crate) fn overlay(snap: &'s Snapshot<'s>, edges: &'s Vec<OwnedEdge>) -> (r: Self)
        requires
            snap.wf(),
        ensures
            r.wf(),
            r.rest() == snap.graph().overlay_edges(edges@),
    {
        assert(edges@.skip(0) =~= edges@);
        Neighbors { inner: NeighborsInner::Overlay { snap, edges, idx: 0 } }
    }

    /// The next edge, if any is left.
    pub fn step(&mut self) -> (r: Option<EdgeRef<'s>>)
        requires
            old(self).wf(),
        ensures
            final(self).wf(),
            match r {
                Some(e) => old(self).rest().len() > 0 && e@ == old(self).rest()[0]
                    && final(self).rest() == old(self).rest().drop_first(),
                None => old(self).rest().len() == 0 && final(self).rest() == old(self).rest(),
            },
    {
        let ghost before = self.rest();
        match &self.inner {
            NeighborsInner::Base { snap, edges, idx, end } => {
                let (snap, edges, idx, end): (&'s Snapshot<'s>, &'s [u8], usize, usize) = (
                    *snap,
                    *edges,
                    *idx,
                    *end,
                );
                if idx >= end {
                    return None;
                }
                let ghost g = snap.graph();
                proof {
                    snap.lemma_wf();
                    assert(edge_dst(g.t, idx as int) < g.n());
                }
                let rec: &'s [u8] = record(edges, EDGE_LEN, idx);
                assert(rec@.subrange(0, 4) =~= edges@.subrange(idx * EDGE_LEN, idx * EDGE_LEN + 4));
                assert(rec@.subrange(6, 8) =~= edges@.subrange(
                    idx * EDGE_LEN + 6,
                    idx * EDGE_LEN + 8,
                ));
                let dst: NodeId = NodeId(get_u32(rec, 0));
                let (dst_key, dst_url): (UrlKey, Option<&'s str>) = snap.node_identity(dst);
                let e: EdgeRef<'s> = EdgeRef {
                    dst: Some(dst),
                    dst_key,
                    dst_url,
                    etype: EdgeType::from_tag(rec[4]),
                    flags: rec[5],
                    weight: get_u16(rec, 6),
                };
                assert(e@ == before[0]);
                self.inner = NeighborsInner::Base { snap, edges, idx: idx + 1, end };
                assert(self.rest() =~= before.drop_first());
                Some(e)
            },
            NeighborsInner::Overlay { snap, edges, idx } => {
                let (snap, edges, idx): (&'s Snapshot<'s>, &'s Vec<OwnedEdge>, usize) = (
                    *snap,
                    *edges,
                    *idx,
                );
                if idx >= edges.len() {
                    return None;
                }
                let (dst_key, etype, flags, weight): OwnedEdge = edges[idx];
                let dst: Option<NodeId> = snap.base_node_id(dst_key);
                let dst_url: Option<&'s str> = match dst {
                    Some(id) => snap.node_identity(id).1,
                    None => None,
                };
                let e: EdgeRef<'s> = EdgeRef {
                    dst,
                    dst_key,
                    dst_url,
                    etype: EdgeType::from_tag(etype),
                    flags,
                    weight,
                };
                assert(e@ == before[0]);
                self.inner = NeighborsInner::Overlay { snap, edges, idx: idx + 1 };
                assert(self.rest() =~= before.drop_first());
                Some(e)
            },
            NeighborsInner::Empty => None,
        }
    }

    /// All that is left, in order.
    pub fn collect(self) -> (r: Vec<EdgeRef<'s>>)
        requires
            self.wf(),
        ensures
            edges_view(r@) == self.rest(),
    {
        let ghost all = self.rest();
        let mut it: Neighbors<'s> = self;
        let mut out: Vec<EdgeRef<'s>> = Vec::new();
        assert(edges_view(out@) + it.rest() =~= all);
        loop
            invariant
                it.wf(),
                edges_view(out@) + it.rest() == all,
                all == self.rest(),
            decreases it.rest().len(),
        {
            let ghost left = it.rest();
            match it.step() {
                Some(e) => {
                    let ghost was = out@;
                    out.push(e);
                    assert(edges_view(out@) =~= edges_view(was).push(e@));
                    assert(edges_view(out@) + it.rest() =~= edges_view(was) + left);
                },
                None => {
                    assert(edges_view(out@) =~= all);
                    return out;
                },
            }
        }
    }
}

/// The values of a run of edges.
pub open spec fn edges_view<'a>(edges: Seq<EdgeRef<'a>>) -> Seq<EdgeV> {
    edges.map_values(|e: EdgeRef<'a>| e@)
}

impl<'s> LendingIterator for Neighbors<'s> {
    type Item = EdgeRef<'s>;

    open spec fn ready(&self) -> bool {
        self.wf()
    }

    fn next(&mut self) -> (r: Option<EdgeRef<'s>>)
        ensures
            final(self).wf(),
            match r {
                Some(e) => old(self).rest().len() > 0 && e@ == old(self).rest()[0]
                    && final(self).rest() == old(self).rest().drop_first(),
                None => old(self).rest().len() == 0 && final(self).rest() == old(self).rest(),
            },
    {
        self.step()
    }
}

} // verus!
