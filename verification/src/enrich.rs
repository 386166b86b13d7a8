//! The enrichment seam: what an enricher sees of a node, and how its proposals
//! are applied. Everything it proposes is stamped enrichment-tier and inferred,
//! so it can be told from what was extracted, and a re-crawl keeps it.
use crate::error::Result;
#[allow(unused_imports)]
use crate::error::Fault;
use crate::format::base::eflags;
#[allow(unused_imports)]
use crate::format::wal::{OpV, OwnedEdge};
use crate::key::{EdgeType, UrlKey};
use crate::snapshot::{NodeRef, SegRef};
#[allow(unused_imports)]
use crate::traverse::of_enrichment;
use crate::writer::Writer;
#[allow(unused_imports)]
use crate::writer::{new_edge, new_edges, replaced_edges, MAX_SEGS};
use vstd::prelude::*;

verus! {

/// Borrowed context handed to an enricher: everything it may ground on,
/// nothing it could leak bodies from.
#[derive(Clone, Copy, Debug)]
pub struct EnrichContext<'a> {
    /// The node being enriched.
    pub node: NodeRef<'a>,
    /// Its segment anchors.
    pub segments: &'a [SegRef<'a>],
    /// Titles of its one-hop neighbors, for grounding.
    pub neighbor_titles: &'a [&'a str],
}

/// A related document that an enricher proposes: the target, the weight with
/// the confidence folded in, and the confidence as the bits of a
/// single-precision number.
pub type Proposal = (UrlKey, u16, u32);

/// The bits are those of a number that is at least one half: from one half
/// itself up to infinity, which leaves out negative numbers and NaN.
pub open spec fn is_confident(bits: u32) -> bool {
    0x3f00_0000 <= bits <= 0x7f80_0000
}

/// The related edges of proposals: a weak guess is worse than no edge.
pub open spec fn related_edges(proposals: Seq<Proposal>) -> Seq<(UrlKey, EdgeType, u16)>
    decreases proposals.len(),
{
    if proposals.len() == 0 {
        Seq::empty()
    } else {
        let pre = related_edges(proposals.drop_last());
        let p = proposals.last();
        if is_confident(p.2) {
            pre.push(
                (
                    p.0,
                    EdgeType::Related,
                    if p.1 == 0 {
                        1u16
                    } else {
                        p.1
                    },
                ),
            )
        } else {
            pre
        }
    }
}

/// Whether a confidence, given as the bits of a single-precision number, is at
/// least one half.
pub fn confident(bits: u32) -> (r: bool)
    ensures
        r == is_confident(bits),
{
    0x3f00_0000 <= bits && bits <= 0x7f80_0000
}

/// The related edges of the proposals that are confident enough.
pub fn confident_edges(related: &[Proposal]) -> (r: Vec<(UrlKey, EdgeType, u16)>)
    ensures
        r@ == related_edges(related@),
{
    let n: usize = related.len();
    let mut kept: Vec<(UrlKey, EdgeType, u16)> = Vec::new();
    let mut i: usize = 0;
    assert(related@.take(0) =~= Seq::empty());
    while i < n
        invariant
            i <= n == related@.len(),
            kept@ == related_edges(related@.take(i as int)),
        decreases n - i,
    {
        let (dst, weight, confidence): Proposal = related[i];
        assert(related@.take(i + 1).drop_last() =~= related@.take(i as int));
        if confident(confidence) {
            let weight: u16 = if weight == 0 {
                1
            } else {
                weight
            };
            kept.push((dst, EdgeType::Related, weight));
        }
        i = i + 1;
    }
    assert(related@.take(n as int) =~= related@);
    kept
}

impl Writer<'_> {
    /// Apply an enrichment proposal to `key`: importance overrides land as
    /// segment scores, related edges land enrichment-tier and inferred.
    /// Proposals with a confidence under one half are dropped.
    pub fn apply_enrichment(
        &mut self,
        key: UrlKey,
        importance: &[(u8, u16)],
        related: &[Proposal],
    ) -> (r: Result<()>)
        requires
            old(self).wf(),
        ensures
            final(self).follows(old(self)),
            match r {
                Ok(_) => {
                    let kept = related_edges(related@);
                    let scored = if importance@.len() == 0 {
                        old(self).state()
                    } else {
                        old(self).state().stage(
                            OpV::SetImportance { key, scores: importance@ },
                        )
                    };
                    &&& importance@.len() <= MAX_SEGS
                    &&& final(self).state() == (if kept.len() == 0 {
                        scored
                    } else {
                        scored.stage(
                            OpV::SetEdges {
                                key,
                                edges: replaced_edges(
                                    old(self).graph().edges_after(scored.staged, key.0),
                                    key.0,
                                    kept,
                                    eflags::TIER_ENRICH | eflags::INFERRED,
                                ),
                            },
                        )
                    })
                },
                Err(e) => importance@.len() > MAX_SEGS && e@ == Fault::Format(
                    "too many importance overrides"@,
                ) && final(self).state() == old(self).state(),
            },
    {
        if importance.len() > 0 {
            self.set_importance(key, importance)?;
        }
        let kept: Vec<(UrlKey, EdgeType, u16)> = confident_edges(related);
        if kept.len() > 0 {
            self.set_edges_flagged(
                key,
                kept.as_slice(),
                eflags::TIER_ENRICH | eflags::INFERRED,
            );
        }
        Ok(())
    }
}

/// What an enricher proposes is stamped: every edge that its proposals add is
/// a related edge of the enrichment tier, marked as inferred, and comes from a
/// proposal of at least one half.
pub proof fn law_enrichment_is_stamped(
    key: u64,
    others: Seq<OwnedEdge>,
    proposals: Seq<Proposal>,
    i: int,
)
    requires
        0 <= i < new_edges(
            key,
            others,
            related_edges(proposals),
            eflags::TIER_ENRICH | eflags::INFERRED,
        ).len(),
    ensures
        ({
            let e = new_edges(
                key,
                others,
                related_edges(proposals),
                eflags::TIER_ENRICH | eflags::INFERRED,
            )[i];
            &&& e.1 == EdgeType::Related.tag()
            &&& of_enrichment(e.2)
            &&& e.2 & eflags::INFERRED != 0
            &&& e.3 > 0
            &&& exists|j: int|
                0 <= j < proposals.len() && is_confident((#[trigger] proposals[j]).2)
                    && proposals[j].0 == e.0
        }),
    decreases proposals.len(),
{
    let flags = eflags::TIER_ENRICH | eflags::INFERRED;
    let pre = proposals.drop_last();
    let edges = related_edges(proposals);
    let all = new_edges(key, others, edges, flags);
    assert((1u8 | 2u8) & 1 != 0 && (1u8 | 2u8) & 2 != 0 && ((1u8 | 2u8) | 2u8) == (1u8 | 2u8))
        by (bit_vector);
    if is_confident(proposals.last().2) {
        let before = new_edges(key, others, related_edges(pre), flags);
        assert(edges.drop_last() =~= related_edges(pre));
        if i < before.len() {
            law_enrichment_is_stamped(key, others, pre, i);
            assert(all[i] == before[i]);
            let j = choose|j: int|
                0 <= j < pre.len() && is_confident((#[trigger] pre[j]).2) && pre[j].0 == all[i].0;
            assert(proposals[j] == pre[j]);
        } else {
            assert(all[i] == new_edge(edges.last(), flags));
            assert(is_confident(proposals[proposals.len() - 1].2));
        }
    } else {
        law_enrichment_is_stamped(key, others, pre, i);
        let j = choose|j: int|
            0 <= j < pre.len() && is_confident((#[trigger] pre[j]).2) && pre[j].0 == all[i].0;
        assert(proposals[j] == pre[j]);
    }
}

} // verus!
