//! What leads from one community to another, and which of it surprises most.
#[allow(unused_imports)]
use crate::format::base::dir::node_row;
#[allow(unused_imports)]
use crate::model::{lemma_node_key, GraphV};
#[allow(unused_imports)]
use crate::order::{arranged, law_arranged_rows_ascend, Row};
#[allow(unused_imports)]
use crate::query::{has_pair, link_rows, CrossLink, HitV};
use vstd::prelude::*;

verus! {

/// The `j`-th edge of the base node `id` leads between the communities `low`
/// and `high`, whichever way.
pub open spec fn crosses(g: GraphV, id: int, j: int, low: u32, high: u32) -> bool {
    let es = g.edges(node_row(g.t, id).url_key);
    &&& 0 <= id < g.n()
    &&& 0 <= j < es.len()
    &&& es[j].dst is Some
    &&& low < high
    &&& {
        let a = g.community(id as u32);
        let b = g.community(es[j].dst->0);
        ||| a == Some(low) && b == Some(high)
        ||| a == Some(high) && b == Some(low)
    }
}

/// `l` shows the `j`-th edge of the base node `id`, the first that leads
/// between its two communities, in the order of ids and of edges.
pub open spec fn represents(g: GraphV, l: CrossLink, id: int, j: int) -> bool {
    let src = node_row(g.t, id).url_key;
    let e = g.edges(src)[j];
    &&& crosses(g, id, j, l.low, l.high)
    &&& l.src == src
    &&& l.dst == e.dst_key
    &&& l.weight == e.weight
    &&& l.inferred == (e.flags & 2 != 0)
    &&& forall|x: int, y: int| #[trigger]
        crosses(g, x, y, l.low, l.high) ==> id < x || (id == x && j <= y)
}

/// `l` shows some edge.
pub open spec fn is_shown(g: GraphV, l: CrossLink) -> bool {
    exists|id: int, j: int| #[trigger] represents(g, l, id, j)
}

spec fn crosses_before(g: GraphV, l: CrossLink, n: int, m: int) -> bool {
    exists|id: int, j: int|
        (id < n || (id == n && j < m)) && #[trigger] crosses(g, id, j, l.low, l.high)
}

spec fn covers(g: GraphV, links: Seq<CrossLink>, n: int, m: int) -> bool {
    &&& forall|i: int| 0 <= i < links.len() ==> is_shown(g, #[trigger] links[i])
    &&& forall|id: int, j: int, low: u32, high: u32|
        (id < n || (id == n && j < m)) && #[trigger] crosses(g, id, j, low, high) ==> has_pair(
            links,
            low,
            high,
        )
    &&& forall|i: int| 0 <= i < links.len() ==> crosses_before(g, #[trigger] links[i], n, m)
}

proof fn lemma_across(g: GraphV, n: int, m: int)
    requires
        0 <= n < g.n() <= u32::MAX,
        g.community(n as u32) is Some,
        0 <= m <= g.edges(node_row(g.t, n).url_key).len(),
        covers(g, g.cross_links(n), n, 0),
    ensures
        ({
            let src = node_row(g.t, n).url_key;
            covers(
                g,
                g.links_across(
                    g.cross_links(n),
                    src,
                    g.community(n as u32)->0,
                    g.edges(src).take(m),
                ),
                n,
                m,
            )
        }),
    decreases m,
{
    let src = node_row(g.t, n).url_key;
    let ca = g.community(n as u32)->0;
    let es = g.edges(src);
    let now = g.links_across(g.cross_links(n), src, ca, es.take(m));
    if m == 0 {
        assert(es.take(0).len() == 0);
        assert(now == g.cross_links(n));
    } else {
        lemma_across(g, n, m - 1);
        assert(es.take(m).drop_last() =~= es.take(m - 1));
        let pre = g.links_across(g.cross_links(n), src, ca, es.take(m - 1));
        let e = es[m - 1];
        assert(es.take(m).last() == e);
        assert(now == g.link_across(pre, src, ca, e));
        assert forall|id: int, j: int, low: u32, high: u32|
            (id < n || (id == n && j < m)) && #[trigger] crosses(
                g,
                id,
                j,
                low,
                high,
            ) implies has_pair(now, low, high) by {
            if id < n || j < m - 1 {
                assert(has_pair(pre, low, high));
                let i = choose|i: int|
                    0 <= i < pre.len() && (#[trigger] pre[i]).low == low && pre[i].high == high;
                assert(now[i] == pre[i]);
            } else {
                if !has_pair(pre, low, high) {
                    assert(now[now.len() - 1].low == low && now[now.len() - 1].high == high);
                } else {
                    assert(now == pre);
                }
            }
        }
        assert forall|i: int| 0 <= i < now.len() implies crosses_before(
            g,
            #[trigger] now[i],
            n,
            m,
        ) by {
            if i < pre.len() {
                assert(now[i] == pre[i]);
                assert(is_shown(g, pre[i]) && crosses_before(g, pre[i], n, m - 1));
                let (id, j) = choose|id: int, j: int|
                    (id < n || (id == n && j < m - 1)) && #[trigger] crosses(
                        g,
                        id,
                        j,
                        pre[i].low,
                        pre[i].high,
                    );
                assert(crosses(g, id, j, now[i].low, now[i].high));
            } else {
                assert(crosses(g, n, m - 1, now[i].low, now[i].high));
            }
        }
        assert forall|i: int| 0 <= i < now.len() implies is_shown(g, #[trigger] now[i]) by {
            if i < pre.len() {
                assert(now[i] == pre[i]);
                assert(is_shown(g, pre[i]) && crosses_before(g, pre[i], n, m - 1));
                let (id, j) = choose|id: int, j: int| #[trigger] represents(g, pre[i], id, j);
                assert(represents(g, now[i], id, j));
            } else {
                let l = now[i];
                assert(crosses(g, n, m - 1, l.low, l.high));
                assert(!has_pair(pre, l.low, l.high));
                assert(represents(g, l, n, m - 1));
            }
        }
    }
}

proof fn lemma_covers(g: GraphV, n: int)
    requires
        0 <= n <= g.n() <= u32::MAX,
    ensures
        covers(g, g.cross_links(n), n, 0),
    decreases n,
{
    if n > 0 {
        lemma_covers(g, n - 1);
        let src = node_row(g.t, n - 1).url_key;
        let es = g.edges(src);
        if g.community((n - 1) as u32) is Some {
            lemma_across(g, n - 1, es.len() as int);
            assert(es.take(es.len() as int) =~= es);
        }
        let now = g.cross_links(n);
        assert forall|id: int, j: int, low: u32, high: u32|
            (id < n || (id == n && j < 0)) && #[trigger] crosses(
                g,
                id,
                j,
                low,
                high,
            ) implies has_pair(now, low, high) by {
            assert(id < n - 1 || (id == n - 1 && j < es.len()));
        }
        assert forall|i: int| 0 <= i < now.len() implies crosses_before(
            g,
            #[trigger] now[i],
            n,
            0,
        ) by {
            assert(crosses_before(g, now[i], n - 1, 0) || crosses_before(
                g,
                now[i],
                n - 1,
                es.len() as int,
            ));
            let (id, j) = choose|id: int, j: int|
                id < n && #[trigger] crosses(g, id, j, now[i].low, now[i].high);
            assert(crosses(g, id, j, now[i].low, now[i].high));
        }
    }
}

/// Every pair of communities with an edge between them is shown by the first
/// such edge: its two ends, its weight, and whether it was inferred. Nothing
/// else is shown.
pub proof fn law_crossing_edges_are_shown(g: GraphV)
    requires
        g.n() <= u32::MAX,
    ensures
        ({
            let links = g.cross_links(g.n());
            &&& forall|i: int| 0 <= i < links.len() ==> is_shown(g, #[trigger] links[i])
            &&& forall|id: int, j: int, low: u32, high: u32| #[trigger]
                crosses(g, id, j, low, high) ==> exists|i: int|
                    0 <= i < links.len() && (#[trigger] links[i]).low == low && links[i].high
                        == high
        }),
{
    lemma_covers(g, g.n());
    let links = g.cross_links(g.n());
    assert forall|id: int, j: int, low: u32, high: u32| #[trigger]
        crosses(g, id, j, low, high) implies exists|i: int|
        0 <= i < links.len() && (#[trigger] links[i]).low == low && links[i].high == high by {
        assert(has_pair(links, low, high));
    }
}

// ---- surprises ------------------------------------------------------------

/// Both ends of a link are nodes.
#[verifier::opaque]
pub open spec fn has_ends(g: GraphV, l: CrossLink) -> bool {
    g.node(l.src) is Some && g.node(l.dst) is Some
}

/// The pair shows the two ends of a link, with its score.
#[verifier::opaque]
pub open spec fn shows_link(g: GraphV, l: CrossLink, score: u32, pair: (HitV, HitV)) -> bool {
    has_ends(g, l) && shows_end(g, l.src, score, pair.0) && shows_end(g, l.dst, score, pair.1)
}

/// The hit shows the node `key`, as no seed and without an anchor.
pub open spec fn shows_end(g: GraphV, key: u64, score: u32, h: HitV) -> bool {
    let n = g.node(key)->0;
    &&& h.key == key
    &&& h.url == n.url
    &&& h.title == n.title
    &&& h.snippet == n.snippet
    &&& h.anchor is None
    &&& h.score == score
    &&& !h.seed
}

/// The link at `a` surprises more than the one at `b`: its score is higher, or
/// its source smaller, or it came earlier.
pub open spec fn ahead(links: Seq<CrossLink>, scores: Seq<u32>, a: int, b: int) -> bool {
    ||| scores[a] > scores[b]
    ||| scores[a] == scores[b] && links[a].src < links[b].src
    ||| scores[a] == scores[b] && links[a].src == links[b].src && a < b
}

/// The links that surprise most, by their place in `links`, in order.
pub open spec fn most_surprising(links: Seq<CrossLink>, scores: Seq<u32>, at: Seq<int>) -> bool {
    &&& forall|i: int| 0 <= i < at.len() ==> 0 <= #[trigger] at[i] < links.len()
    &&& forall|i: int, j: int|
        0 <= i < j < at.len() ==> #[trigger] ahead(links, scores, at[i], at[j])
    &&& forall|i: int, b: int|
        0 <= i < at.len() && 0 <= b < links.len() && !at.contains(b) ==> #[trigger] ahead(
            links,
            scores,
            at[i],
            b,
        )
}

proof fn lemma_link_order(links: Seq<CrossLink>, scores: Seq<u32>, k: int)
    requires
        links.len() == scores.len(),
        links.len() <= u64::MAX,
        0 <= k <= links.len(),
    ensures
        ({
            let rows = arranged(link_rows(links, scores));
            let at = Seq::new(k as nat, |i: int| rows[i].2 as int);
            &&& rows.len() == links.len()
            &&& most_surprising(links, scores, at)
            &&& forall|i: int|
                0 <= i < rows.len() ==> (#[trigger] rows[i]).2 < links.len() && u32::MAX
                    - rows[i].0 == scores[rows[i].2 as int]
        }),
{
    let raw_rows = link_rows(links, scores);
    let rows = arranged(raw_rows);
    let at = Seq::new(k as nat, |i: int| rows[i].2 as int);
    law_arranged_rows_ascend(raw_rows);
    assert(forall|i: int|
        0 <= i < raw_rows.len() ==> (#[trigger] raw_rows[i]).2 == i && u32::MAX - raw_rows[i].0
            == scores[i] && raw_rows[i].1 == links[i].src);
    assert(raw_rows.no_duplicates());
    raw_rows.lemma_multiset_has_no_duplicates();
    rows.lemma_multiset_has_no_duplicates_conv();
    assert forall|i: int| 0 <= i < rows.len() implies (#[trigger] rows[i]).2 < links.len()
        && raw_rows[rows[i].2 as int] == rows[i] by {
        assert(rows.contains(rows[i]));
        let x = choose|x: int| 0 <= x < raw_rows.len() && raw_rows[x] == rows[i];
        assert(raw_rows[x].2 == x);
    }
    assert forall|i: int, j: int| 0 <= i < j < rows.len() implies #[trigger] ahead(
        links,
        scores,
        rows[i].2 as int,
        rows[j].2 as int,
    ) by {
        assert(rows[i] != rows[j]);
        let a = rows[i].2 as int;
        let b = rows[j].2 as int;
        assert(raw_rows[a] == rows[i]);
        assert(raw_rows[b] == rows[j]);
    }
    assert forall|i: int, j: int| 0 <= i < j < at.len() implies #[trigger] ahead(
        links,
        scores,
        at[i],
        at[j],
    ) by {
        assert(ahead(links, scores, rows[i].2 as int, rows[j].2 as int));
    }
    assert forall|i: int, b: int|
        0 <= i < at.len() && 0 <= b < links.len() && !at.contains(b) implies #[trigger] ahead(
        links,
        scores,
        at[i],
        b,
    ) by {
        assert(raw_rows.contains(raw_rows[b]));
        assert(rows.contains(raw_rows[b]));
        let x = choose|x: int| 0 <= x < rows.len() && rows[x] == raw_rows[b];
        assert(rows[x].2 == b);
        if x < k {
            assert(at[x] == b);
        }
        assert(ahead(links, scores, rows[i].2 as int, rows[x].2 as int));
    }
}

/// The pairs show the links of `order` at `place`, in order: all whose ends are
/// both nodes.
pub open spec fn are_shown(
    g: GraphV,
    links: Seq<CrossLink>,
    scores: Seq<u32>,
    order: Seq<int>,
    hits: Seq<(HitV, HitV)>,
    place: Seq<int>,
) -> bool {
    &&& place.len() == hits.len()
    &&& forall|i: int|
        0 <= i < place.len() ==> 0 <= #[trigger] place[i] < order.len() && shows_link(
            g,
            links[order[place[i]]],
            scores[order[place[i]]],
            hits[i],
        )
    &&& forall|i: int, j: int| 0 <= i < j < place.len() ==> #[trigger] place[i] < #[trigger] place[j]
    &&& forall|x: int|
        0 <= x < order.len() && has_ends(g, links[#[trigger] order[x]]) ==> place.contains(x)
}

proof fn lemma_last_link(g: GraphV, links: Seq<CrossLink>, scores: Seq<u32>, rows: Seq<Row>)
    requires
        rows.len() > 0,
        rows.last().2 < links.len() == scores.len(),
        u32::MAX - rows.last().0 == scores[rows.last().2 as int],
    ensures
        ({
            let pre = g.link_hits(links, rows.drop_last());
            let now = g.link_hits(links, rows);
            let l = links[rows.last().2 as int];
            if has_ends(g, l) {
                &&& now.len() == pre.len() + 1
                &&& now.drop_last() == pre
                &&& shows_link(g, l, scores[rows.last().2 as int], now.last())
            } else {
                now == pre
            }
        }),
{
    reveal(has_ends);
    reveal(shows_link);
    let pre = g.link_hits(links, rows.drop_last());
    let now = g.link_hits(links, rows);
    let l = links[rows.last().2 as int];
    if has_ends(g, l) {
        lemma_node_key(g, l.src);
        lemma_node_key(g, l.dst);
        assert(now.drop_last() =~= pre);
    }
}

proof fn lemma_grown(
    g: GraphV,
    links: Seq<CrossLink>,
    scores: Seq<u32>,
    order: Seq<int>,
    hits: Seq<(HitV, HitV)>,
    less: Seq<int>,
) -> (place: Seq<int>)
    requires
        order.len() > 0,
        has_ends(g, links[order.last()]) ==> hits.len() > 0 && shows_link(
            g,
            links[order.last()],
            scores[order.last()],
            hits.last(),
        ),
        are_shown(
            g,
            links,
            scores,
            order.drop_last(),
            if has_ends(g, links[order.last()]) {
                hits.drop_last()
            } else {
                hits
            },
            less,
        ),
    ensures
        are_shown(g, links, scores, order, hits, place),
{
    let last = order.len() - 1;
    let place = if has_ends(g, links[order.last()]) {
        less.push(last)
    } else {
        less
    };
    assert(forall|x: int| 0 <= x < last ==> #[trigger] order[x] == order.drop_last()[x]);
    assert forall|x: int|
        0 <= x < order.len() && has_ends(g, links[#[trigger] order[x]]) implies place.contains(
        x,
    ) by {
        if x < last {
            assert(has_ends(g, links[order.drop_last()[x]]));
            let i = choose|i: int| 0 <= i < less.len() && less[i] == x;
            assert(place[i] == x);
        } else {
            assert(place[place.len() - 1] == x);
        }
    }
    place
}

proof fn lemma_link_hits(
    g: GraphV,
    links: Seq<CrossLink>,
    scores: Seq<u32>,
    rows: Seq<Row>,
    order: Seq<int>,
) -> (place: Seq<int>)
    requires
        links.len() == scores.len(),
        order.len() == rows.len(),
        forall|i: int|
            0 <= i < rows.len() ==> (#[trigger] rows[i]).2 < links.len() && order[i] == rows[i].2
                && u32::MAX - rows[i].0 == scores[order[i]],
    ensures
        are_shown(g, links, scores, order, g.link_hits(links, rows), place),
    decreases rows.len(),
{
    if rows.len() == 0 {
        Seq::empty()
    } else {
        let pre = rows.drop_last();
        assert(forall|i: int| 0 <= i < pre.len() ==> #[trigger] pre[i] == rows[i]);
        let less = lemma_link_hits(g, links, scores, pre, order.drop_last());
        assert(rows[rows.len() - 1] == rows.last());
        lemma_last_link(g, links, scores, rows);
        lemma_grown(g, links, scores, order, g.link_hits(links, rows), less)
    }
}

/// The `k` links that surprise most are shown, the most surprising first, as
/// far as both their ends are nodes. Nothing else is shown.
pub proof fn law_surprises(g: GraphV, links: Seq<CrossLink>, scores: Seq<u32>, k: int)
    requires
        links.len() == scores.len(),
        links.len() <= u64::MAX,
        0 <= k <= links.len(),
    ensures
        ({
            let rows = arranged(link_rows(links, scores)).take(k);
            let order = Seq::new(k as nat, |i: int| rows[i].2 as int);
            let hits = g.link_hits(links, rows);
            &&& most_surprising(links, scores, order)
            &&& exists|place: Seq<int>| #[trigger]
                are_shown(g, links, scores, order, hits, place)
        }),
{
    let all = arranged(link_rows(links, scores));
    let rows = all.take(k);
    let order = Seq::new(k as nat, |i: int| rows[i].2 as int);
    lemma_link_order(links, scores, k);
    assert(order =~= Seq::new(k as nat, |i: int| all[i].2 as int));
    assert(forall|i: int| 0 <= i < rows.len() ==> #[trigger] rows[i] == all[i]);
    let place = lemma_link_hits(g, links, scores, rows, order);
}

} // verus!
