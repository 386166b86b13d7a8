//! What a compaction keeps, what it drops, and how it orders what it keeps.
#[allow(unused_imports)]
use crate::compact::{
    edge_model_row, edge_model_rows, edge_models, first_of_each, stats_of, EdgeModel, ModelV,
};
#[allow(unused_imports)]
use crate::compaction::{
    compactable, compacted, law_compaction_preserves_the_graph, law_rendered_generation_reads_back,
    lemma_compacted, lemma_first_covers, lemma_model_at, lemma_read_node, lemma_survivors_listed,
};
#[allow(unused_imports)]
use crate::format::base::dir::node_row;
#[allow(unused_imports)]
use crate::guarantees::counting::{count, lemma_count_bound, lemma_count_same};
#[allow(unused_imports)]
use crate::guarantees::ranking::lemma_count_to;
#[allow(unused_imports)]
use crate::lexicon::lexicon;
#[allow(unused_imports)]
use crate::model::{lemma_found, EdgeV, GraphV};
#[allow(unused_imports)]
use crate::order::{arranged, law_arranged_rows_ascend, listing, Row};
#[allow(unused_imports)]
use crate::path::links;
#[allow(unused_imports)]
use crate::render::{edges_to, segs_to};
#[allow(unused_imports)]
use crate::snapshot::all_storable;
use vstd::prelude::*;

verus! {

// ---- what is kept ---------------------------------------------------------

/// A document is kept, and so is what an edge of any node leads to. What is
/// neither is dropped: a stub that nothing leads to, and a key that never was
/// a node.
pub proof fn law_what_a_compaction_keeps(g: GraphV, key: u64)
    ensures
        g.node(key) is Some && g.node(key)->0.flags & 2 == 0 ==> g.survives(key),
        forall|u: u64, j: int|
            g.node(u) is Some && 0 <= j < g.edges(u).len() && (#[trigger] g.edges(u)[j]).dst_key
                == key ==> g.survives(key),
        (g.node(key) is None || g.node(key)->0.flags & 2 != 0) && (forall|u: u64, j: int|
            g.node(u) is Some && 0 <= j < g.edges(u).len() ==> (#[trigger] g.edges(u)[j]).dst_key
                != key) ==> !g.survives(key),
{
    assert forall|u: u64, j: int|
        g.node(u) is Some && 0 <= j < g.edges(u).len() && (#[trigger] g.edges(u)[j]).dst_key
            == key implies g.survives(key) by {
        assert(links(g, u, key));
    }
}

/// A node comes out of a compaction with every field it had but its id and its
/// rank, and with its segments.
#[verifier::spinoff_prover]
pub proof fn law_documents_survive_a_compaction(
    g: GraphV,
    ranks: Seq<(u16, u32)>,
    generation: u64,
    applied: u64,
    key: u64,
)
    requires
        g.wf(),
        all_storable(g.ops),
        compactable(g, ranks),
        g.node(key) is Some,
        g.survives(key),
    ensures
        ({
            let g2 = compacted(g, ranks, generation, applied);
            let a = g2.node(key)->0;
            let b = g.node(key)->0;
            &&& g2.node(key) is Some
            &&& a.key == b.key
            &&& a.url == b.url
            &&& a.title == b.title
            &&& a.snippet == b.snippet
            &&& a.etag == b.etag
            &&& a.content_hash == b.content_hash
            &&& a.fetched_at_ms == b.fetched_at_ms
            &&& a.last_change_ms == b.last_change_ms
            &&& a.interval_s == b.interval_s
            &&& a.checks == b.checks
            &&& a.changes == b.changes
            &&& a.flags == b.flags
            &&& g2.segs(key) == g.segs(key)
        }),
{
    law_compaction_preserves_the_graph(g, ranks, generation, applied, key);
}

// ---- ids, ranks and communities -------------------------------------------

/// Ids are given by ascending key, and rank and community stand with the id
/// that they were given for.
pub proof fn law_ids_ascend_by_key(
    g: GraphV,
    ranks: Seq<(u16, u32)>,
    generation: u64,
    applied: u64,
    i: int,
)
    requires
        g.wf(),
        all_storable(g.ops),
        compactable(g, ranks),
        0 <= i < ranks.len(),
    ensures
        ({
            let g2 = compacted(g, ranks, generation, applied);
            let key = g.models()[i].key;
            &&& g.survives(key)
            &&& forall|j: int| i < j < ranks.len() ==> key < (#[trigger] g.models()[j]).key
            &&& g2.find(key) == Some(i as u32)
            &&& node_row(g2.t, i).url_key == key
            &&& g2.community(i as u32) == Some(ranks[i].1)
            &&& g2.node(key) is Some
            &&& g2.node(key)->0.id == Some(i as u32)
            &&& g2.node(key)->0.rank_permille == ranks[i].0
        }),
{
    let rows = g.models();
    let keys = listing(g.survivors());
    let g2 = compacted(g, ranks, generation, applied);
    lemma_compacted(g, ranks);
    lemma_survivors_listed(g);
    law_rendered_generation_reads_back(g, rows, lexicon(rows), ranks, generation, applied, i);
    lemma_model_at(g, keys[i]);
    assert(rows[i].key == keys[i]);
    assert(keys.contains(keys[i]));
    assert(g.survivors()(keys[i]));
    assert forall|j: int| i < j < ranks.len() implies rows[i].key < (#[trigger] rows[j]).key by {
        lemma_model_at(g, keys[j]);
        assert(rows[j].key == keys[j]);
    }
    lemma_found(g2, rows[i].key);
}

// ---- edges ----------------------------------------------------------------

/// `m` is the edge `e` as it is written.
pub open spec fn writes_edge(m: EdgeModel, e: EdgeV) -> bool {
    &&& m.0 == e.dst_key
    &&& m.1 == e.etype.tag()
    &&& m.2 == e.flags
    &&& m.3 == e.weight
}

/// `m` comes before `e` as it would be written, or is it: by type, then by
/// flags, then by weight.
pub open spec fn no_later(m: EdgeModel, e: EdgeV) -> bool {
    ||| m.1 < e.etype.tag()
    ||| m.1 == e.etype.tag() && m.2 < e.flags
    ||| m.1 == e.etype.tag() && m.2 == e.flags && m.3 <= e.weight
}

/// `m` is written for some of `es`.
pub open spec fn is_written(m: EdgeModel, es: Seq<EdgeV>) -> bool {
    exists|x: int| 0 <= x < es.len() && writes_edge(m, #[trigger] es[x])
}

spec fn leads_first(m: EdgeModel, r: Row) -> bool {
    ||| m.1 < r.1
    ||| m.1 == r.1 && m.2 < r.2
    ||| m.1 == r.1 && m.2 == r.2 && m.3 <= r.3
}

proof fn lemma_first(rows: Seq<Row>)
    requires
        forall|i: int| 0 <= i < rows.len() ==> (#[trigger] rows[i]).1 <= 255 && rows[i].2 <= 255
            && rows[i].3 <= 65_535,
        forall|i: int, j: int|
            0 <= i < j < rows.len() ==> {
                let a = #[trigger] rows[i];
                let b = #[trigger] rows[j];
                ||| a.0 < b.0
                ||| a.0 == b.0 && (a.1 < b.1 || (a.1 == b.1 && (a.2 < b.2 || (a.2 == b.2 && a.3
                    <= b.3))))
            },
    ensures
        ({
            let ms = first_of_each(rows);
            &&& forall|i: int, j: int| 0 <= i < j < ms.len() ==> (#[trigger] ms[i]).0 < (
            #[trigger] ms[j]).0
            &&& forall|i: int|
                0 <= i < ms.len() ==> rows.contains(
                    (
                        (#[trigger] ms[i]).0,
                        ms[i].1 as u64,
                        ms[i].2 as u64,
                        ms[i].3 as u64,
                    ),
                )
            &&& forall|i: int, x: int|
                0 <= i < ms.len() && 0 <= x < rows.len() && (#[trigger] ms[i]).0 == (
                #[trigger] rows[x]).0 ==> leads_first(ms[i], rows[x])
        }),
    decreases rows.len(),
{
    if rows.len() > 0 {
        let less = rows.drop_last();
        let last = rows.len() - 1;
        let r = rows[last];
        assert(forall|i: int| 0 <= i < last ==> #[trigger] less[i] == rows[i]);
        lemma_first(less);
        let pre = first_of_each(less);
        let ms = first_of_each(rows);
        assert forall|i: int| 0 <= i < pre.len() implies (#[trigger] pre[i]).0 <= r.0 by {
            let row = (pre[i].0, pre[i].1 as u64, pre[i].2 as u64, pre[i].3 as u64);
            assert(less.contains(row));
            let x = choose|x: int| 0 <= x < less.len() && less[x] == row;
            assert(rows[x] == row);
        }
        assert forall|i: int| 0 <= i < ms.len() implies rows.contains(
            ((#[trigger] ms[i]).0, ms[i].1 as u64, ms[i].2 as u64, ms[i].3 as u64),
        ) by {
            let row = (ms[i].0, ms[i].1 as u64, ms[i].2 as u64, ms[i].3 as u64);
            if i < pre.len() {
                assert(ms[i] == pre[i]);
                assert(less.contains(row));
                let x = choose|x: int| 0 <= x < less.len() && less[x] == row;
                assert(rows[x] == row);
            } else {
                assert(rows[last] == row);
            }
        }
        assert forall|i: int, j: int| 0 <= i < j < ms.len() implies (#[trigger] ms[i]).0 < (
        #[trigger] ms[j]).0 by {
            if j == pre.len() {
                assert(pre[i].0 <= pre.last().0);
            }
        }
        assert forall|i: int, x: int|
            0 <= i < ms.len() && 0 <= x < rows.len() && (#[trigger] ms[i]).0 == (
            #[trigger] rows[x]).0 implies leads_first(ms[i], rows[x]) by {
            if i < pre.len() {
                if x < last {
                    assert(less[x] == rows[x]);
                } else {
                    let row = (pre[i].0, pre[i].1 as u64, pre[i].2 as u64, pre[i].3 as u64);
                    assert(less.contains(row));
                    let y = choose|y: int| 0 <= y < less.len() && less[y] == row;
                    assert(rows[y] == row);
                }
            } else if x < last {
                lemma_first_covers(less, x);
                let y = choose|y: int| 0 <= y < pre.len() && (#[trigger] pre[y]).0 == less[x].0;
                assert(pre[y].0 <= pre.last().0);
            }
        }
    }
}

/// Edges are written one per destination, by ascending destination: of several
/// to one destination the first by type, flags and weight. Every destination is
/// kept, and nothing is written that was no edge.
pub proof fn law_edges_are_written_once(es: Seq<EdgeV>)
    ensures
        ({
            let ms = edge_models(es);
            &&& forall|i: int, j: int| 0 <= i < j < ms.len() ==> (#[trigger] ms[i]).0 < (
            #[trigger] ms[j]).0
            &&& forall|i: int| 0 <= i < ms.len() ==> is_written(#[trigger] ms[i], es)
            &&& forall|x: int|
                0 <= x < es.len() ==> exists|i: int|
                    0 <= i < ms.len() && (#[trigger] ms[i]).0 == (#[trigger] es[x]).dst_key
            &&& forall|i: int, x: int|
                0 <= i < ms.len() && 0 <= x < es.len() && (#[trigger] ms[i]).0 == (
                #[trigger] es[x]).dst_key ==> no_later(ms[i], es[x])
        }),
{
    let rows = edge_model_rows(es);
    let sorted = arranged(rows);
    let ms = edge_models(es);
    law_arranged_rows_ascend(rows);
    assert(forall|x: int| 0 <= x < rows.len() ==> #[trigger] rows[x] == edge_model_row(es[x]));
    assert forall|i: int| 0 <= i < sorted.len() implies rows.contains(#[trigger] sorted[i]) by {
        assert(sorted.contains(sorted[i]));
    }
    lemma_first(sorted);
    assert forall|i: int| 0 <= i < ms.len() implies is_written(#[trigger] ms[i], es) by {
        let row = (ms[i].0, ms[i].1 as u64, ms[i].2 as u64, ms[i].3 as u64);
        assert(sorted.contains(row));
        let y = choose|y: int| 0 <= y < sorted.len() && sorted[y] == row;
        assert(rows.contains(sorted[y]));
        let x = choose|x: int| 0 <= x < rows.len() && rows[x] == row;
        assert(writes_edge(ms[i], es[x]));
    }
    assert forall|x: int| 0 <= x < es.len() implies exists|i: int|
        0 <= i < ms.len() && (#[trigger] ms[i]).0 == (#[trigger] es[x]).dst_key by {
        assert(rows.contains(rows[x]));
        assert(sorted.contains(rows[x]));
        let y = choose|y: int| 0 <= y < sorted.len() && sorted[y] == rows[x];
        lemma_first_covers(sorted, y);
        let i = choose|i: int| 0 <= i < ms.len() && (#[trigger] ms[i]).0 == sorted[y].0;
        assert(ms[i].0 == es[x].dst_key);
    }
    assert forall|i: int, x: int|
        0 <= i < ms.len() && 0 <= x < es.len() && (#[trigger] ms[i]).0 == (
        #[trigger] es[x]).dst_key implies no_later(ms[i], es[x]) by {
        assert(rows.contains(rows[x]));
        assert(sorted.contains(rows[x]));
        let y = choose|y: int| 0 <= y < sorted.len() && sorted[y] == rows[x];
        assert(leads_first(ms[i], sorted[y]));
    }
}

/// Every record tells how many written edges lead to it.
pub proof fn law_records_count_what_leads_to_them(
    g: GraphV,
    ranks: Seq<(u16, u32)>,
    generation: u64,
    applied: u64,
    i: int,
)
    requires
        g.wf(),
        all_storable(g.ops),
        compactable(g, ranks),
        0 <= i < ranks.len(),
    ensures
        ({
            let g2 = compacted(g, ranks, generation, applied);
            let all = edges_to(g.models(), g.models().len() as int);
            node_row(g2.t, i).in_degree == count(all.len() as int, |k: int| all[k].0 == i)
        }),
{
    let rows = g.models();
    let all = edges_to(rows, rows.len() as int);
    lemma_compacted(g, ranks);
    lemma_read_node(rows, i);
    lemma_count_to(all, i as u32);
    lemma_count_bound(all.len() as int, |k: int| all[k].0 == i as u32);
    lemma_count_same(all.len() as int, |k: int| all[k].0 == i as u32, |k: int| all[k].0 == i);
}

// ---- figures --------------------------------------------------------------

/// The figures of a compaction count the records, their segments and their
/// edges: one record more counts for one, with as many segments and edges as
/// it has.
pub proof fn law_compaction_figures(rows: Seq<ModelV>, m: ModelV, generation: u64, bytes: nat)
    requires
        rows.len() < usize::MAX,
        bytes <= usize::MAX,
        segs_to(rows, rows.len() as int).len() + m.segs.len() <= usize::MAX,
        edges_to(rows, rows.len() as int).len() + m.edges.len() <= usize::MAX,
    ensures
        ({
            let a = stats_of(rows, generation, bytes);
            let b = stats_of(rows.push(m), generation, bytes);
            &&& a.generation == generation
            &&& a.bytes == bytes
            &&& a.nodes == rows.len()
            &&& b.segs == a.segs + m.segs.len()
            &&& b.edges == a.edges + m.edges.len()
            &&& rows.len() == 0 ==> a.segs == 0 && a.edges == 0
        }),
{
    let more = rows.push(m);
    lemma_counts_alike(rows, more, rows.len() as int);
    assert(more[rows.len() as int] == m);
}

proof fn lemma_counts_alike(rows: Seq<ModelV>, more: Seq<ModelV>, i: int)
    requires
        0 <= i <= rows.len() <= more.len(),
        forall|k: int| 0 <= k < rows.len() ==> rows[k] == more[k],
    ensures
        segs_to(rows, i).len() == segs_to(more, i).len(),
        edges_to(rows, i).len() == edges_to(more, i).len(),
    decreases i,
{
    if i > 0 {
        lemma_counts_alike(rows, more, i - 1);
        assert(rows[i - 1] == more[i - 1]);
    }
}

} // verus!
