//! How often a document is looked at again, and what is looked at first.
#[allow(unused_imports)]
use crate::format::base::dir::node_row;
#[allow(unused_imports)]
use crate::format::base::nflags;
#[allow(unused_imports)]
use crate::format::wal::OpV;
#[allow(unused_imports)]
use crate::model::{lemma_found, lemma_node_key, GraphV, NodeV};
#[allow(unused_imports)]
use crate::order::{
    arranged, law_arranged_rows_ascend, lemma_listed, listing, lists, strictly_up, Row,
};
#[allow(unused_imports)]
use crate::overlay::patch_of;
#[allow(unused_imports)]
use crate::schedule::DueV;
#[allow(unused_imports)]
use crate::ttl::{default_ttl, Outcome, TtlConfig};
use vstd::prelude::*;

verus! {

// ---- intervals ------------------------------------------------------------

/// A change cuts the interval in the configured ratio, rounded down; an
/// unchanged check grows it so. What would fall below the floor is the floor,
/// what would rise above the ceiling is the ceiling.
pub proof fn law_intervals_scale(c: TtlConfig, interval: nat)
    requires
        c.wf(),
        c.cut_den > 0,
        c.grow_den > 0,
    ensures
        ({
            let cut = (interval * c.cut_num) as int / c.cut_den as int;
            let next = c.after(interval, Outcome::Changed);
            &&& c.min_s <= cut <= c.max_s ==> next == cut
            &&& cut < c.min_s ==> next == c.min_s
            &&& cut > c.max_s ==> next == c.max_s
        }),
        ({
            let grown = (interval * c.grow_num) as int / c.grow_den as int;
            let next = c.after(interval, Outcome::Unchanged);
            &&& c.min_s <= grown <= c.max_s ==> next == grown
            &&& grown < c.min_s ==> next == c.min_s
            &&& grown > c.max_s ==> next == c.max_s
        }),
{
}

/// A ratio without a denominator is one over one.
pub proof fn law_missing_denominators_count_as_one(c: TtlConfig, interval: nat)
    requires
        c.wf(),
    ensures
        c.cut_den == 0 && c.min_s <= interval * c.cut_num <= c.max_s ==> c.after(
            interval,
            Outcome::Changed,
        ) == interval * c.cut_num,
        c.grow_den == 0 && c.min_s <= interval * c.grow_num <= c.max_s ==> c.after(
            interval,
            Outcome::Unchanged,
        ) == interval * c.grow_num,
{
    assert((interval * c.cut_num) as int / 1 == interval * c.cut_num);
    assert((interval * c.grow_num) as int / 1 == interval * c.grow_num);
}

/// A failure is retried after the shortest interval, and a gone source keeps
/// the interval it had.
pub proof fn law_failures_retry_soon(c: TtlConfig, interval: nat)
    ensures
        c.after(interval, Outcome::Error) == c.min_s,
        c.after(interval, Outcome::Gone) == interval,
{
}

/// By default a change quarters the interval and an unchanged check adds half
/// of it, between fifteen minutes and thirty days; a new document waits six
/// hours.
pub proof fn law_default_policy(interval: nat)
    ensures
        default_ttl().base_s == 6 * 60 * 60,
        default_ttl().min_s == 15 * 60,
        default_ttl().max_s == 30 * 24 * 60 * 60,
        3600 <= interval <= 4 * default_ttl().max_s ==> default_ttl().after(
            interval,
            Outcome::Changed,
        ) == interval as int / 4,
        interval < 3600 ==> default_ttl().after(interval, Outcome::Changed) == 15 * 60,
        600 <= interval && 3 * interval <= 2 * default_ttl().max_s ==> default_ttl().after(
            interval,
            Outcome::Unchanged,
        ) == (interval + interval as int / 2),
        3 * interval > 2 * default_ttl().max_s + 1 ==> default_ttl().after(
            interval,
            Outcome::Unchanged,
        ) == default_ttl().max_s,
{
    let num = default_ttl().grow_num as nat;
    assert(interval * num == 3 * interval) by (nonlinear_arith)
        requires
            num == 3,
    ;
    assert(3 * interval / 2 == interval + interval as int / 2);
}

/// Tags on disk: one per outcome, and what is unknown counts as a failure.
pub proof fn law_outcome_tags(t: u8)
    ensures
        Outcome::Unchanged.tag() == 0,
        Outcome::Changed.tag() == 1,
        Outcome::Error.tag() == 2,
        Outcome::Gone.tag() == 3,
        t > 3 ==> Outcome::of_tag(t) == Outcome::Error,
{
}

/// A node without rank is due after its interval. One of the highest rank is
/// due after the share of it that the bias leaves, and one in between after
/// what a proportional part of the bias leaves.
pub proof fn law_rank_shortens_the_wait(
    c: TtlConfig,
    fetched_at_ms: nat,
    interval: nat,
    rank: nat,
)
    requires
        c.importance_bias_permille <= 1000,
        rank <= 1000,
    ensures
        ({
            let left = 1000 - (c.importance_bias_permille * rank) as int / 1000;
            let due = fetched_at_ms + interval * left;
            c.due_at(fetched_at_ms, interval, rank) == (if due <= u64::MAX {
                due
            } else {
                u64::MAX as int
            })
        }),
        ({
            let due = fetched_at_ms + interval * 1000;
            due <= u64::MAX ==> c.due_at(fetched_at_ms, interval, 0) == due
        }),
        ({
            let due = fetched_at_ms + interval * (1000 - c.importance_bias_permille);
            due <= u64::MAX ==> c.due_at(fetched_at_ms, interval, 1000) == due
        }),
{
    let bias = c.importance_bias_permille as nat;
    assert(0 <= bias * rank <= 1_000_000) by (nonlinear_arith)
        requires
            bias <= 1000,
            rank <= 1000,
    ;
    lemma_whole(interval, (1000 - bias * rank / 1000) as nat);
    lemma_whole(interval, 1000);
    lemma_whole(interval, (1000 - bias) as nat);
    assert(bias * 0 == 0) by (nonlinear_arith);
    assert(bias * 1000 / 1000 == bias);
}

proof fn lemma_whole(interval: nat, share: nat)
    ensures
        interval * 1000 * share / 1000 == interval * share,
{
    assert(interval * 1000 * share == (interval * share) * 1000) by (nonlinear_arith);
}

// ---- live nodes -----------------------------------------------------------

/// The live nodes are those that exist and are not gone, each once: a document
/// of the base or one that came later. A stub is none.
pub proof fn law_live_nodes(g: GraphV, key: u64)
    requires
        g.wf(),
    ensures
        forall|i: int|
            0 <= i < g.live().len() ==> g.node((#[trigger] g.live()[i]).key) == Some(g.live()[i])
                && g.live()[i].flags & nflags::TOMBSTONE == 0,
        forall|i: int, j: int|
            0 <= i < j < g.live().len() ==> (#[trigger] g.live()[i]).key != (
            #[trigger] g.live()[j]).key,
        g.node(key) is Some && g.node(key)->0.flags & nflags::TOMBSTONE == 0
            && g.node(key)->0.flags & nflags::STUB == 0 ==> g.live().contains(g.node(key)->0),
{
    let fresh = listing(g.fresh());
    lemma_fresh_listed(g);
    lemma_base_live(g, g.n());
    lemma_fresh_live(g, fresh);
    let a = g.base_live(g.n());
    let b = g.fresh_live(fresh);
    let all = g.live();
    assert forall|i: int| 0 <= i < b.len() implies g.is_fresh((#[trigger] b[i]).key) by {
        assert(fresh.contains(b[i].key));
    }
    assert forall|i: int| 0 <= i < all.len() implies g.node((#[trigger] all[i]).key) == Some(all[i])
        && all[i].flags & nflags::TOMBSTONE == 0 by {
        if i < a.len() {
            assert(all[i] == a[i]);
        } else {
            assert(all[i] == b[i - a.len()]);
        }
    }
    assert forall|i: int, j: int| 0 <= i < j < all.len() implies (#[trigger] all[i]).key != (
    #[trigger] all[j]).key by {
        if j < a.len() {
            assert(a[i].key != a[j].key);
        } else {
            let y = b[j - a.len()];
            assert(g.is_fresh(y.key));
            if i < a.len() {
                assert(g.find(a[i].key) is Some);
            } else {
                assert(b[i - a.len()].key != y.key);
            }
        }
    }
    if g.node(key) is Some && g.node(key)->0.flags & nflags::TOMBSTONE == 0 && g.node(
        key,
    )->0.flags & nflags::STUB == 0 {
        let n = g.node(key)->0;
        lemma_node_key(g, key);
        if g.find(key) is Some {
            lemma_found(g, key);
            let x = g.find(key)->0 as int;
            assert(node_row(g.t, x).url_key == key);
            lemma_base_shown(g, g.n(), x);
            let i = choose|i: int| 0 <= i < a.len() && a[i] == n;
            assert(all[i] == n);
        } else {
            assert(g.fresh()(key));
            assert(fresh.contains(key));
            let x = choose|x: int| 0 <= x < fresh.len() && fresh[x] == key;
            lemma_fresh_shown(g, fresh, x);
            let i = choose|i: int| 0 <= i < b.len() && b[i] == n;
            assert(all[a.len() + i] == n);
        }
    }
}

proof fn lemma_patched_key(ops: Seq<OpV>, key: u64)
    requires
        patch_of(ops, key) is Some,
    ensures
        ops.map_values(|op: OpV| op.target().0).contains(key),
    decreases ops.len(),
{
    let named = ops.map_values(|op: OpV| op.target().0);
    if ops.last().target().0 == key {
        assert(named[ops.len() - 1] == key);
    } else {
        let pre = ops.drop_last();
        lemma_patched_key(pre, key);
        let before = pre.map_values(|op: OpV| op.target().0);
        let i = choose|i: int| 0 <= i < before.len() && before[i] == key;
        assert(named[i] == key);
    }
}

pub(crate) proof fn lemma_fresh_listed(g: GraphV)
    ensures
        lists(listing(g.fresh()), g.fresh()),
{
    let p = g.fresh();
    let named = g.ops.map_values(|op: OpV| op.target().0);
    assert forall|k: u64| p(k) implies #[trigger] named.contains(k) by {
        lemma_patched_key(g.ops, k);
    }
    lemma_listed(named, p);
}

proof fn lemma_base_live(g: GraphV, i: int)
    requires
        g.wf(),
        0 <= i <= g.n(),
    ensures
        forall|a: int|
            0 <= a < g.base_live(i).len() ==> {
                let n = #[trigger] g.base_live(i)[a];
                &&& g.node(n.key) == Some(n)
                &&& n.flags & nflags::TOMBSTONE == 0
                &&& exists|x: int| 0 <= x < i && (#[trigger] node_row(g.t, x)).url_key == n.key
            },
        forall|a: int, b: int|
            0 <= a < b < g.base_live(i).len() ==> (#[trigger] g.base_live(i)[a]).key != (
            #[trigger] g.base_live(i)[b]).key,
    decreases i,
{
    if i > 0 {
        lemma_base_live(g, i - 1);
        let pre = g.base_live(i - 1);
        let all = g.base_live(i);
        let k = node_row(g.t, i - 1).url_key;
        if g.node(k) is Some {
            lemma_node_key(g, k);
        }
        assert forall|a: int| 0 <= a < all.len() implies {
            let n = #[trigger] all[a];
            &&& g.node(n.key) == Some(n)
            &&& n.flags & nflags::TOMBSTONE == 0
            &&& exists|x: int| 0 <= x < i && (#[trigger] node_row(g.t, x)).url_key == n.key
        } by {
            if a < pre.len() {
                assert(all[a] == pre[a]);
                let x = choose|x: int|
                    0 <= x < i - 1 && (#[trigger] node_row(g.t, x)).url_key == pre[a].key;
                assert(node_row(g.t, x).url_key == all[a].key);
            } else {
                assert(node_row(g.t, i - 1).url_key == all[a].key);
            }
        }
        assert forall|a: int, b: int| 0 <= a < b < all.len() implies (#[trigger] all[a]).key != (
        #[trigger] all[b]).key by {
            if b < pre.len() {
                assert(pre[a].key != pre[b].key);
            } else {
                assert(all[a] == pre[a]);
                let x = choose|x: int|
                    0 <= x < i - 1 && (#[trigger] node_row(g.t, x)).url_key == pre[a].key;
                assert(node_row(g.t, x).url_key < node_row(g.t, i - 1).url_key);
            }
        }
    }
}

proof fn lemma_base_shown(g: GraphV, i: int, x: int)
    requires
        0 <= x < i,
        g.shown(node_row(g.t, x).url_key) is Some,
    ensures
        g.base_live(i).contains(g.shown(node_row(g.t, x).url_key)->0),
    decreases i,
{
    let n = g.shown(node_row(g.t, x).url_key)->0;
    let pre = g.base_live(i - 1);
    let all = g.base_live(i);
    if x < i - 1 {
        lemma_base_shown(g, i - 1, x);
        let a = choose|a: int| 0 <= a < pre.len() && pre[a] == n;
        assert(all[a] == n);
    } else {
        assert(all[pre.len() as int] == n);
    }
}

proof fn lemma_fresh_live(g: GraphV, keys: Seq<u64>)
    requires
        strictly_up(keys),
    ensures
        forall|a: int|
            0 <= a < g.fresh_live(keys).len() ==> {
                let n = #[trigger] g.fresh_live(keys)[a];
                &&& g.node(n.key) == Some(n)
                &&& n.flags & nflags::TOMBSTONE == 0
                &&& keys.contains(n.key)
            },
        forall|a: int, b: int|
            0 <= a < b < g.fresh_live(keys).len() ==> (#[trigger] g.fresh_live(keys)[a]).key != (
            #[trigger] g.fresh_live(keys)[b]).key,
    decreases keys.len(),
{
    if keys.len() > 0 {
        let less = keys.drop_last();
        assert(strictly_up(less)) by {
            assert forall|a: int, b: int| 0 <= a < b < less.len() implies less[a] < less[b] by {
                assert(keys[a] < keys[b]);
            }
        }
        lemma_fresh_live(g, less);
        let pre = g.fresh_live(less);
        let all = g.fresh_live(keys);
        let k = keys.last();
        if g.node(k) is Some {
            lemma_node_key(g, k);
        }
        assert forall|a: int| 0 <= a < all.len() implies {
            let n = #[trigger] all[a];
            &&& g.node(n.key) == Some(n)
            &&& n.flags & nflags::TOMBSTONE == 0
            &&& keys.contains(n.key)
        } by {
            if a < pre.len() {
                assert(all[a] == pre[a]);
                let x = choose|x: int| 0 <= x < less.len() && less[x] == pre[a].key;
                assert(keys[x] == all[a].key);
            } else {
                assert(keys[keys.len() - 1] == all[a].key);
            }
        }
        assert forall|a: int, b: int| 0 <= a < b < all.len() implies (#[trigger] all[a]).key != (
        #[trigger] all[b]).key by {
            if b < pre.len() {
                assert(pre[a].key != pre[b].key);
            } else {
                assert(all[a] == pre[a]);
                let x = choose|x: int| 0 <= x < less.len() && less[x] == pre[a].key;
                assert(keys[x] < keys[keys.len() - 1]);
            }
        }
    }
}

proof fn lemma_fresh_shown(g: GraphV, keys: Seq<u64>, x: int)
    requires
        0 <= x < keys.len(),
        g.node(keys[x]) is Some,
        g.node(keys[x])->0.flags & nflags::TOMBSTONE == 0,
    ensures
        g.fresh_live(keys).contains(g.node(keys[x])->0),
    decreases keys.len(),
{
    let n = g.node(keys[x])->0;
    let less = keys.drop_last();
    let pre = g.fresh_live(less);
    let all = g.fresh_live(keys);
    if x < less.len() {
        assert(less[x] == keys[x]);
        lemma_fresh_shown(g, less, x);
        let a = choose|a: int| 0 <= a < pre.len() && pre[a] == n;
        assert(all[a] == n);
    } else {
        assert(all[pre.len() as int] == n);
    }
}

// ---- the work list --------------------------------------------------------

/// When a node is due, and what the list says of it: it has a URL, its wait is
/// over, and it stands there with its URL, key, tag and rank, and with the time
/// since its wait was over. A zero interval counts as one second.
pub proof fn law_due_items(g: GraphV, n: NodeV, now_ms: u64)
    ensures
        ({
            let interval = if n.interval_s == 0 {
                1
            } else {
                n.interval_s as nat
            };
            let at = g.ttl.due_at(n.fetched_at_ms as nat, interval, n.rank_permille as nat);
            &&& g.is_due(n, now_ms) <==> at <= now_ms && n.url.len() > 0
            &&& g.is_due(n, now_ms) ==> {
                let d = g.due_item(n, now_ms);
                &&& d.url == n.url
                &&& d.key == n.key
                &&& d.etag == n.etag
                &&& d.rank_permille == n.rank_permille
                &&& d.overdue_ms == now_ms - at
            }
        }),
{
}

/// `a` is to be looked at before `b`: it is more important, or as important and
/// more overdue, or both alike and its key is smaller.
pub open spec fn sooner(a: DueV, b: DueV) -> bool {
    ||| a.rank_permille > b.rank_permille
    ||| a.rank_permille == b.rank_permille && a.overdue_ms > b.overdue_ms
    ||| a.rank_permille == b.rank_permille && a.overdue_ms == b.overdue_ms && a.key < b.key
}

/// The work list comes most important first, then most overdue, then by key.
/// It holds due live nodes only, no more than asked for, and whatever is due
/// and not listed comes after everything that is.
pub proof fn law_due_list_is_in_order(g: GraphV, now_ms: u64, max: nat)
    requires
        g.wf(),
        g.live().len() <= u64::MAX,
    ensures
        ({
            let list = g.due_list(now_ms, max);
            &&& list.len() <= max
            &&& forall|i: int, j: int|
                0 <= i < j < list.len() ==> sooner(#[trigger] list[i], #[trigger] list[j])
            &&& forall|i: int|
                0 <= i < list.len() ==> exists|x: int|
                    0 <= x < g.live().len() && g.is_due(#[trigger] g.live()[x], now_ms)
                        && g.due_item(g.live()[x], now_ms) == #[trigger] list[i]
            &&& forall|x: int|
                0 <= x < g.live().len() && g.is_due(#[trigger] g.live()[x], now_ms)
                    && !list.contains(g.due_item(g.live()[x], now_ms)) ==> list.len() == max
                    && forall|i: int|
                    0 <= i < list.len() ==> sooner(
                        #[trigger] list[i],
                        g.due_item(g.live()[x], now_ms),
                    )
        }),
{
    let nodes = g.live();
    let n = nodes.len() as int;
    let rows = g.due_rows(nodes, n, now_ms);
    let sorted = arranged(rows);
    let list = g.due_list(now_ms, max);
    law_arranged_rows_ascend(rows);
    law_live_nodes(g, 0);
    lemma_due_rows_are(g, nodes, n, now_ms);
    assert forall|i: int| 0 <= i < sorted.len() implies is_row_of(
        g,
        nodes,
        now_ms,
        #[trigger] sorted[i],
    ) by {
        assert(sorted.contains(sorted[i]));
        let y = choose|y: int| 0 <= y < rows.len() && rows[y] == sorted[i];
        assert(is_row_of(g, nodes, now_ms, rows[y]));
    }
    assert forall|i: int, j: int| 0 <= i < j < sorted.len() implies sooner(
        g.due_item(nodes[(#[trigger] sorted[i]).3 as int], now_ms),
        g.due_item(nodes[(#[trigger] sorted[j]).3 as int], now_ms),
    ) by {
        assert(is_row_of(g, nodes, now_ms, sorted[i]));
        assert(is_row_of(g, nodes, now_ms, sorted[j]));
        let a = sorted[i].3 as int;
        let b = sorted[j].3 as int;
        if a == b {
            lemma_due_rows_once(g, nodes, n, now_ms);
            assert(rows.no_duplicates());
            rows.lemma_multiset_has_no_duplicates();
            sorted.lemma_multiset_has_no_duplicates_conv();
            assert(sorted[i] != sorted[j]);
        } else {
            assert(nodes[a].key != nodes[b].key) by {
                if a < b {
                    assert(nodes[a].key != nodes[b].key);
                } else {
                    assert(nodes[b].key != nodes[a].key);
                }
            }
        }
    }
    assert forall|i: int| 0 <= i < list.len() implies exists|x: int|
        0 <= x < nodes.len() && g.is_due(#[trigger] nodes[x], now_ms) && g.due_item(
            nodes[x],
            now_ms,
        ) == #[trigger] list[i] by {
        assert(is_row_of(g, nodes, now_ms, sorted[i]));
        let x = sorted[i].3 as int;
        assert(g.is_due(nodes[x], now_ms));
    }
    assert forall|i: int, j: int| 0 <= i < j < list.len() implies sooner(
        #[trigger] list[i],
        #[trigger] list[j],
    ) by {
        assert(list[i] == g.due_item(nodes[sorted[i].3 as int], now_ms));
        assert(list[j] == g.due_item(nodes[sorted[j].3 as int], now_ms));
    }
    assert forall|x: int|
        0 <= x < nodes.len() && g.is_due(#[trigger] nodes[x], now_ms) && !list.contains(
            g.due_item(nodes[x], now_ms),
        ) implies list.len() == max && forall|i: int|
        0 <= i < list.len() ==> sooner(#[trigger] list[i], g.due_item(nodes[x], now_ms)) by {
        lemma_due_row_of(g, nodes, n, now_ms, x);
        let row = g.due_row(nodes, x, now_ms);
        assert(sorted.contains(row));
        let j = choose|j: int| 0 <= j < sorted.len() && sorted[j] == row;
        assert(row.3 == x);
        if j < list.len() {
            assert(list[j] == g.due_item(nodes[x], now_ms));
            assert(list.contains(list[j]));
        }
        assert forall|i: int| 0 <= i < list.len() implies sooner(
            #[trigger] list[i],
            g.due_item(nodes[x], now_ms),
        ) by {
            assert(list[i] == g.due_item(nodes[sorted[i].3 as int], now_ms));
            assert(sorted[j].3 == x);
        }
    }
}

/// A row stands for a due node, and holds what the list orders by.
spec fn is_row_of(g: GraphV, nodes: Seq<NodeV>, now_ms: u64, r: Row) -> bool {
    &&& r.3 < nodes.len()
    &&& g.is_due(nodes[r.3 as int], now_ms)
    &&& r.0 == 65_535 - nodes[r.3 as int].rank_permille
    &&& r.1 == u64::MAX - g.due_item(nodes[r.3 as int], now_ms).overdue_ms
    &&& r.2 == nodes[r.3 as int].key
}

proof fn lemma_due_rows_are(g: GraphV, nodes: Seq<NodeV>, i: int, now_ms: u64)
    requires
        0 <= i <= nodes.len() <= u64::MAX,
    ensures
        forall|y: int|
            0 <= y < g.due_rows(nodes, i, now_ms).len() ==> is_row_of(
                g,
                nodes,
                now_ms,
                #[trigger] g.due_rows(nodes, i, now_ms)[y],
            ) && g.due_rows(nodes, i, now_ms)[y].3 < i,
    decreases i,
{
    if i > 0 {
        lemma_due_rows_are(g, nodes, i - 1, now_ms);
        let pre = g.due_rows(nodes, i - 1, now_ms);
        let all = g.due_rows(nodes, i, now_ms);
        assert forall|y: int| 0 <= y < all.len() implies is_row_of(
            g,
            nodes,
            now_ms,
            #[trigger] all[y],
        ) && all[y].3 < i by {
            if y < pre.len() {
                assert(all[y] == pre[y]);
            }
        }
    }
}

proof fn lemma_due_rows_once(g: GraphV, nodes: Seq<NodeV>, i: int, now_ms: u64)
    requires
        0 <= i <= nodes.len() <= u64::MAX,
    ensures
        g.due_rows(nodes, i, now_ms).no_duplicates(),
    decreases i,
{
    if i > 0 {
        lemma_due_rows_once(g, nodes, i - 1, now_ms);
        lemma_due_rows_are(g, nodes, i - 1, now_ms);
        let pre = g.due_rows(nodes, i - 1, now_ms);
        let all = g.due_rows(nodes, i, now_ms);
        assert forall|x: int, y: int| 0 <= x < all.len() && 0 <= y < all.len() && x != y implies all[x]
            != all[y] by {
            if x < pre.len() {
                assert(pre[x].3 < i - 1);
            }
            if y < pre.len() {
                assert(pre[y].3 < i - 1);
            }
        }
    }
}

proof fn lemma_due_row_of(g: GraphV, nodes: Seq<NodeV>, i: int, now_ms: u64, x: int)
    requires
        0 <= x < i <= nodes.len() <= u64::MAX,
        g.is_due(nodes[x], now_ms),
    ensures
        g.due_rows(nodes, i, now_ms).contains(g.due_row(nodes, x, now_ms)),
    decreases i,
{
    let pre = g.due_rows(nodes, i - 1, now_ms);
    let all = g.due_rows(nodes, i, now_ms);
    if x < i - 1 {
        lemma_due_row_of(g, nodes, i - 1, now_ms, x);
        let y = choose|y: int| 0 <= y < pre.len() && pre[y] == g.due_row(nodes, x, now_ms);
        assert(all[y] == pre[y]);
    } else {
        assert(all[pre.len() as int] == g.due_row(nodes, x, now_ms));
    }
}

// ---- pin suggestions ------------------------------------------------------

/// `n` may be suggested for pinning: it has a URL and is not pinned yet.
pub open spec fn may_be_pinned(n: NodeV) -> bool {
    n.url.len() > 0 && n.flags & nflags::PINNED == 0
}

/// `a` is suggested before `b`: its rank is higher, or equal and its key is
/// smaller.
pub open spec fn suggested_before(a: NodeV, b: NodeV) -> bool {
    a.rank_permille > b.rank_permille || (a.rank_permille == b.rank_permille && a.key < b.key)
}

/// Suggestions for pinning are the URLs of live nodes that are not pinned, at
/// most `k`, highest rank first and then by key, and no node that could be
/// suggested ranks before one that is.
pub proof fn law_pin_suggestions(g: GraphV, k: nat)
    requires
        g.wf(),
        g.live().len() <= u64::MAX,
    ensures
        exists|at: Seq<int>| #[trigger]
            are_suggested(g, k, at),
{
    let nodes = g.live();
    let n = nodes.len() as int;
    let rows = g.pin_rows(nodes, n);
    let sorted = arranged(rows);
    let list = g.pin_list(k);
    law_arranged_rows_ascend(rows);
    law_live_nodes(g, 0);
    lemma_pin_rows_are(g, nodes, n);
    let at = Seq::new(list.len(), |i: int| sorted[i].2 as int);
    assert forall|i: int| 0 <= i < sorted.len() implies is_pin_row(nodes, #[trigger] sorted[i]) by {
        assert(sorted.contains(sorted[i]));
        let y = choose|y: int| 0 <= y < rows.len() && rows[y] == sorted[i];
        assert(is_pin_row(nodes, rows[y]));
    }
    assert forall|i: int, j: int| 0 <= i < j < sorted.len() implies suggested_before(
        nodes[(#[trigger] sorted[i]).2 as int],
        nodes[(#[trigger] sorted[j]).2 as int],
    ) by {
        assert(is_pin_row(nodes, sorted[i]));
        assert(is_pin_row(nodes, sorted[j]));
        let a = sorted[i].2 as int;
        let b = sorted[j].2 as int;
        if a == b {
            lemma_pin_rows_once(g, nodes, n);
            rows.lemma_multiset_has_no_duplicates();
            sorted.lemma_multiset_has_no_duplicates_conv();
            assert(sorted[i] != sorted[j]);
        } else if a < b {
            assert(nodes[a].key != nodes[b].key);
        } else {
            assert(nodes[b].key != nodes[a].key);
        }
    }
    assert forall|i: int, j: int| 0 <= i < j < at.len() implies suggested_before(
        nodes[#[trigger] at[i]],
        nodes[#[trigger] at[j]],
    ) by {
        assert(at[i] == sorted[i].2 && at[j] == sorted[j].2);
    }
    assert forall|i: int| 0 <= i < at.len() implies 0 <= #[trigger] at[i] < nodes.len()
        && may_be_pinned(nodes[at[i]]) && list[i] == nodes[at[i]].url by {
        assert(is_pin_row(nodes, sorted[i]));
    }
    assert forall|x: int|
        0 <= x < nodes.len() && may_be_pinned(#[trigger] nodes[x]) && !at.contains(x) implies at.len()
        == k && forall|i: int|
        0 <= i < at.len() ==> suggested_before(nodes[#[trigger] at[i]], nodes[x]) by {
        lemma_pin_row_of(g, nodes, n, x);
        let row = g.pin_row(nodes, x);
        assert(sorted.contains(row));
        let j = choose|j: int| 0 <= j < sorted.len() && sorted[j] == row;
        assert(row.2 == x);
        if j < list.len() {
            assert(at[j] == x);
            assert(at.contains(x));
        }
        assert forall|i: int| 0 <= i < at.len() implies suggested_before(
            nodes[#[trigger] at[i]],
            nodes[x],
        ) by {
            assert(at[i] == sorted[i].2 && sorted[j].2 == x);
        }
    }
    assert(are_suggested(g, k, at));
}

/// The suggestions are the URLs of the live nodes at `at`.
pub open spec fn are_suggested(g: GraphV, k: nat, at: Seq<int>) -> bool {
    let nodes = g.live();
    let list = g.pin_list(k);
    &&& at.len() == list.len() <= k
    &&& forall|i: int|
        0 <= i < at.len() ==> 0 <= #[trigger] at[i] < nodes.len() && may_be_pinned(nodes[at[i]])
            && list[i] == nodes[at[i]].url
    &&& forall|i: int, j: int|
        0 <= i < j < at.len() ==> suggested_before(nodes[#[trigger] at[i]], nodes[#[trigger] at[j]])
    &&& forall|x: int|
        0 <= x < nodes.len() && may_be_pinned(#[trigger] nodes[x]) && !at.contains(x) ==> at.len()
            == k && forall|i: int|
            0 <= i < at.len() ==> suggested_before(nodes[#[trigger] at[i]], nodes[x])
}

spec fn is_pin_row(nodes: Seq<NodeV>, r: Row) -> bool {
    &&& r.2 < nodes.len()
    &&& may_be_pinned(nodes[r.2 as int])
    &&& r.0 == 65_535 - nodes[r.2 as int].rank_permille
    &&& r.1 == nodes[r.2 as int].key
    &&& r.3 == 0
}

proof fn lemma_pin_rows_are(g: GraphV, nodes: Seq<NodeV>, i: int)
    requires
        0 <= i <= nodes.len() <= u64::MAX,
    ensures
        forall|y: int|
            0 <= y < g.pin_rows(nodes, i).len() ==> is_pin_row(
                nodes,
                #[trigger] g.pin_rows(nodes, i)[y],
            ) && g.pin_rows(nodes, i)[y].2 < i,
    decreases i,
{
    if i > 0 {
        lemma_pin_rows_are(g, nodes, i - 1);
        let pre = g.pin_rows(nodes, i - 1);
        let all = g.pin_rows(nodes, i);
        assert forall|y: int| 0 <= y < all.len() implies is_pin_row(nodes, #[trigger] all[y])
            && all[y].2 < i by {
            if y < pre.len() {
                assert(all[y] == pre[y]);
            }
        }
    }
}

proof fn lemma_pin_rows_once(g: GraphV, nodes: Seq<NodeV>, i: int)
    requires
        0 <= i <= nodes.len() <= u64::MAX,
    ensures
        g.pin_rows(nodes, i).no_duplicates(),
    decreases i,
{
    if i > 0 {
        lemma_pin_rows_once(g, nodes, i - 1);
        lemma_pin_rows_are(g, nodes, i - 1);
        let pre = g.pin_rows(nodes, i - 1);
        let all = g.pin_rows(nodes, i);
        assert forall|x: int, y: int| 0 <= x < all.len() && 0 <= y < all.len() && x != y implies all[x]
            != all[y] by {
            if x < pre.len() {
                assert(pre[x].2 < i - 1);
            }
            if y < pre.len() {
                assert(pre[y].2 < i - 1);
            }
        }
    }
}

proof fn lemma_pin_row_of(g: GraphV, nodes: Seq<NodeV>, i: int, x: int)
    requires
        0 <= x < i <= nodes.len() <= u64::MAX,
        may_be_pinned(nodes[x]),
    ensures
        g.pin_rows(nodes, i).contains(g.pin_row(nodes, x)),
    decreases i,
{
    let pre = g.pin_rows(nodes, i - 1);
    let all = g.pin_rows(nodes, i);
    if x < i - 1 {
        lemma_pin_row_of(g, nodes, i - 1, x);
        let y = choose|y: int| 0 <= y < pre.len() && pre[y] == g.pin_row(nodes, x);
        assert(all[y] == pre[y]);
    } else {
        assert(all[pre.len() as int] == g.pin_row(nodes, x));
    }
}

} // verus!
