//! Communities: who belongs to one, what it is called, and what leads from one
//! to another.
#[allow(unused_imports)]
use crate::format::base::dir::node_row;
#[allow(unused_imports)]
use crate::guarantees::counting::count;
#[allow(unused_imports)]
use crate::model::{lemma_find, GraphV};
#[allow(unused_imports)]
use crate::order::{law_arranged_rows_ascend, Row};
use vstd::prelude::*;

verus! {

// ---- members --------------------------------------------------------------

/// `id` is a base node of `community`.
pub open spec fn belongs(g: GraphV, community: u32, id: int) -> bool {
    0 <= id < g.n() && g.community(id as u32) == Some(community)
}

proof fn lemma_member_rows(g: GraphV, community: u32, n: int)
    requires
        0 <= n <= g.n() <= u32::MAX,
    ensures
        ({
            let rows = g.member_rows(community, n);
            &&& rows.no_duplicates()
            &&& rows.len() == count(n, |id: int| g.community(id as u32) == Some(community))
            &&& forall|i: int|
                0 <= i < rows.len() ==> {
                    let r = #[trigger] rows[i];
                    &&& r.1 < n
                    &&& g.community(r.1 as u32) == Some(community)
                    &&& r.0 + g.rank_of(r.1 as u32) == 65_535
                    &&& r.2 == 0 && r.3 == 0
                }
            &&& forall|id: int|
                0 <= id < n && #[trigger] g.community(id as u32) == Some(community) ==> exists|i: int|
                    0 <= i < rows.len() && (#[trigger] rows[i]).1 == id
        }),
    decreases n,
{
    if n > 0 {
        lemma_member_rows(g, community, n - 1);
        let pre = g.member_rows(community, n - 1);
        let rows = g.member_rows(community, n);
        assert forall|id: int|
            0 <= id < n && #[trigger] g.community(id as u32) == Some(community) implies exists|i: int|
            0 <= i < rows.len() && (#[trigger] rows[i]).1 == id by {
            if id < n - 1 {
                let i = choose|i: int| 0 <= i < pre.len() && (#[trigger] pre[i]).1 == id;
                assert(rows[i].1 == id);
            } else {
                assert(rows[rows.len() - 1].1 == id);
            }
        }
        assert(rows.no_duplicates());
    }
}

/// The members of a community are the base nodes that carry its id, each
/// once: the higher rank first, and of equal ranks the smaller id.
pub proof fn law_members_come_by_rank(g: GraphV, community: u32)
    requires
        g.n() <= u32::MAX,
    ensures
        ({
            let rows = g.members(community);
            &&& forall|i: int| 0 <= i < rows.len() ==> belongs(g, community, (#[trigger] rows[i]).1 as int)
            &&& forall|id: int| #[trigger]
                belongs(g, community, id) ==> exists|i: int|
                    0 <= i < rows.len() && (#[trigger] rows[i]).1 == id
            &&& forall|i: int, j: int|
                0 <= i < j < rows.len() ==> {
                    let x = (#[trigger] rows[i]).1;
                    let y = (#[trigger] rows[j]).1;
                    ||| g.rank_of(x as u32) > g.rank_of(y as u32)
                    ||| g.rank_of(x as u32) == g.rank_of(y as u32) && x < y
                }
            &&& rows.len() == count(g.n(), |id: int| g.community(id as u32) == Some(community))
        }),
{
    let raw_rows = g.member_rows(community, g.n());
    let rows = g.members(community);
    lemma_member_rows(g, community, g.n());
    law_arranged_rows_ascend(raw_rows);
    raw_rows.lemma_multiset_has_no_duplicates();
    rows.lemma_multiset_has_no_duplicates_conv();
    assert forall|i: int| 0 <= i < rows.len() implies raw_rows.contains(#[trigger] rows[i]) by {
        assert(rows.contains(rows[i]));
    }
    assert forall|id: int| #[trigger] belongs(g, community, id) implies exists|i: int|
        0 <= i < rows.len() && (#[trigger] rows[i]).1 == id by {
        assert(g.community(id as u32) == Some(community));
        let x = choose|x: int| 0 <= x < raw_rows.len() && (#[trigger] raw_rows[x]).1 == id;
        assert(raw_rows.contains(raw_rows[x]));
        assert(rows.contains(raw_rows[x]));
        let i = choose|i: int| 0 <= i < rows.len() && rows[i] == raw_rows[x];
        assert(rows[i].1 == id);
    }
    assert forall|i: int, j: int| 0 <= i < j < rows.len() implies ({
        let x = (#[trigger] rows[i]).1;
        let y = (#[trigger] rows[j]).1;
        ||| g.rank_of(x as u32) > g.rank_of(y as u32)
        ||| g.rank_of(x as u32) == g.rank_of(y as u32) && x < y
    }) by {
        assert(raw_rows.contains(rows[i]));
        assert(raw_rows.contains(rows[j]));
        assert(rows[i] != rows[j]);
    }
}

/// The base node `id` is a node to readers.
#[verifier::opaque]
pub open spec fn is_seen(g: GraphV, id: int) -> bool {
    g.node(node_row(g.t, id).url_key) is Some
}

/// `url` is what readers see the member `id` under.
#[verifier::opaque]
pub open spec fn goes_by(g: GraphV, id: int, url: Seq<char>) -> bool {
    g.node(node_row(g.t, id).url_key) matches Some(n) && n.url == url
}

/// The URLs are those of the members of `rows` at `place`, in order: of all
/// that are nodes.
pub open spec fn are_urls(
    g: GraphV,
    rows: Seq<Row>,
    urls: Seq<Seq<char>>,
    place: Seq<int>,
) -> bool {
    &&& place.len() == urls.len()
    &&& forall|i: int|
        0 <= i < place.len() ==> 0 <= #[trigger] place[i] < rows.len() && goes_by(
            g,
            rows[place[i]].1 as int,
            urls[i],
        )
    &&& forall|i: int, j: int|
        0 <= i < j < place.len() ==> #[trigger] place[i] < #[trigger] place[j]
    &&& forall|x: int|
        0 <= x < rows.len() && is_seen(g, (#[trigger] rows[x]).1 as int) ==> place.contains(x)
}

proof fn lemma_last_url(g: GraphV, rows: Seq<Row>)
    requires
        rows.len() > 0,
    ensures
        ({
            let pre = g.member_urls(rows.drop_last());
            let now = g.member_urls(rows);
            let id = rows.last().1 as int;
            if is_seen(g, id) {
                &&& now.len() == pre.len() + 1
                &&& now.drop_last() == pre
                &&& goes_by(g, id, now.last())
            } else {
                now == pre
            }
        }),
{
    reveal(is_seen);
    reveal(goes_by);
    let pre = g.member_urls(rows.drop_last());
    let now = g.member_urls(rows);
    if is_seen(g, rows.last().1 as int) {
        assert(now.drop_last() =~= pre);
    }
}

proof fn lemma_more_urls(
    g: GraphV,
    rows: Seq<Row>,
    urls: Seq<Seq<char>>,
    less: Seq<int>,
) -> (place: Seq<int>)
    requires
        rows.len() > 0,
        is_seen(g, rows.last().1 as int) ==> urls.len() > 0 && goes_by(
            g,
            rows.last().1 as int,
            urls.last(),
        ),
        are_urls(
            g,
            rows.drop_last(),
            if is_seen(g, rows.last().1 as int) {
                urls.drop_last()
            } else {
                urls
            },
            less,
        ),
    ensures
        are_urls(g, rows, urls, place),
{
    let last = rows.len() - 1;
    let place = if is_seen(g, rows.last().1 as int) {
        less.push(last)
    } else {
        less
    };
    assert(forall|x: int| 0 <= x < last ==> #[trigger] rows[x] == rows.drop_last()[x]);
    assert forall|x: int|
        0 <= x < rows.len() && is_seen(g, (#[trigger] rows[x]).1 as int) implies place.contains(
        x,
    ) by {
        if x < last {
            assert(is_seen(g, rows.drop_last()[x].1 as int));
            let i = choose|i: int| 0 <= i < less.len() && less[i] == x;
            assert(place[i] == x);
        } else {
            assert(place[place.len() - 1] == x);
        }
    }
    place
}

proof fn lemma_member_urls(g: GraphV, rows: Seq<Row>) -> (place: Seq<int>)
    ensures
        are_urls(g, rows, g.member_urls(rows), place),
    decreases rows.len(),
{
    if rows.len() == 0 {
        Seq::empty()
    } else {
        let less = lemma_member_urls(g, rows.drop_last());
        lemma_last_url(g, rows);
        lemma_more_urls(g, rows, g.member_urls(rows), less)
    }
}

/// A community is named after a member whose rank no other member exceeds: by
/// the title, or by the URL where there is none. Its size is the number of
/// base nodes that carry its id.
pub proof fn law_the_highest_rank_names_the_community(g: GraphV, community: u32, top: nat)
    requires
        g.n() <= u32::MAX,
    ensures
        ({
            let s = g.summary(community, top);
            &&& s.id == community
            &&& s.size == count(g.n(), |id: int| g.community(id as u32) == Some(community))
            &&& (forall|id: int| !(#[trigger] belongs(g, community, id))) ==> s.name.len() == 0
                && s.size == 0 && s.top_urls.len() == 0
            &&& forall|best: int|
                (#[trigger] belongs(g, community, best) && forall|id: int| #[trigger]
                    belongs(g, community, id) ==> g.rank_of(id as u32) < g.rank_of(best as u32) || (
                    g.rank_of(id as u32) == g.rank_of(best as u32) && best <= id)) ==> (match g.node(
                    node_row(g.t, best).url_key,
                ) {
                    Some(n) => match n.title {
                        Some(title) => s.name == title,
                        None => s.name == n.url,
                    },
                    None => s.name.len() == 0,
                })
        }),
{
    law_members_come_by_rank(g, community);
    let rows = g.members(community);
    let s = g.summary(community, top);
    if rows.len() == 0 {
        assert(rows.take(0) =~= Seq::empty());
    } else {
        assert(belongs(g, community, rows[0].1 as int));
        assert forall|best: int|
            (#[trigger] belongs(g, community, best) && forall|id: int| #[trigger]
                belongs(g, community, id) ==> g.rank_of(id as u32) < g.rank_of(best as u32) || (
                g.rank_of(id as u32) == g.rank_of(best as u32) && best <= id)) implies rows[0].1
            == best by {
            let x = choose|x: int| 0 <= x < rows.len() && (#[trigger] rows[x]).1 == best;
            assert(belongs(g, community, rows[0].1 as int));
            if x > 0 {
                assert(rows[0].1 != rows[x].1 || g.rank_of(rows[0].1 as u32) > g.rank_of(
                    rows[x].1 as u32,
                ));
            }
        }
    }
}

/// The first `top` members of a community, or all.
pub open spec fn top_members(g: GraphV, community: u32, top: nat) -> Seq<Row> {
    let rows = g.members(community);
    if top <= rows.len() {
        rows.take(top as int)
    } else {
        rows
    }
}

/// The top URLs of a community are those of its first members by rank, in that
/// order, as far as these are nodes.
pub proof fn law_top_urls(g: GraphV, community: u32, top: nat)
    requires
        g.n() <= u32::MAX,
    ensures
        exists|place: Seq<int>| #[trigger]
            are_urls(
                g,
                top_members(g, community, top),
                g.summary(community, top).top_urls,
                place,
            ),
{
    let rows = g.members(community);
    let first = top_members(g, community, top);
    assert(rows.take(rows.len() as int) =~= rows);
    assert(g.summary(community, top).top_urls == g.member_urls(first));
    let place = lemma_member_urls(g, first);
    assert(are_urls(g, first, g.summary(community, top).top_urls, place));
}

/// The overview of a document is that of the community of its base node; one
/// that is in no base has none.
pub proof fn law_documents_show_their_own_community(g: GraphV, key: u64, id: int, top: nat)
    requires
        g.wf(),
    ensures
        0 <= id < g.n() && node_row(g.t, id).url_key == key ==> (match g.community(id as u32) {
            Some(c) => g.summary_of(key, top) == Some(g.summary(c, top)),
            None => g.summary_of(key, top) is None,
        }),
        (forall|i: int| 0 <= i < g.n() ==> (#[trigger] node_row(g.t, i)).url_key != key)
            ==> g.summary_of(key, top) is None,
{
    if 0 <= id < g.n() && node_row(g.t, id).url_key == key {
        lemma_find(g, key, id);
    }
}

} // verus!
