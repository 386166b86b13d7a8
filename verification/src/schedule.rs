//! Rankings over live nodes: what is due for revalidation, what is worth
//! pinning, and which nodes are hubs.
use crate::bytesio::get_u32;
use crate::error::Result;
#[allow(unused_imports)]
use crate::format::base::dir::{edge_start, node_row, raw};
use crate::key::{NodeId, UrlKey};
#[allow(unused_imports)]
use crate::model::{at_least_one, GraphV, NodeV};
#[allow(unused_imports)]
use crate::order::arranged;
use crate::order::{arrange, Row};
#[allow(unused_imports)]
use crate::overlay::{is_pinned, patch_of};
#[allow(unused_imports)]
use crate::snapshot::nodes_view;
use crate::snapshot::{NodeRef, Snapshot};
#[allow(unused_imports)]
use crate::traverse::opt_text;
#[allow(unused_imports)]
use crate::ttl::min_nat;
use vstd::prelude::*;
use vstd::string::*;

verus! {

/// One entry of a due-for-revalidation work list.
#[derive(Clone, Copy, Debug)]
pub struct DueItem<'s> {
    /// Canonical URL to revalidate.
    pub url: &'s str,
    /// Durable key.
    pub key: UrlKey,
    /// Last seen entity tag to send as `If-None-Match`.
    pub etag: Option<&'s str>,
    /// How far past due, in milliseconds.
    pub overdue_ms: u64,
    /// Rank percentile (higher = revalidate first).
    pub rank_permille: u16,
}

/// The value of a [`DueItem`].
pub struct DueV {
    pub url: Seq<char>,
    pub key: u64,
    pub etag: Option<Seq<char>>,
    pub overdue_ms: u64,
    pub rank_permille: u16,
}

impl<'s> View for DueItem<'s> {
    type V = DueV;

    open spec fn view(&self) -> DueV {
        DueV {
            url: self.url@,
            key: self.key.0,
            etag: opt_text(self.etag),
            overdue_ms: self.overdue_ms,
            rank_permille: self.rank_permille,
        }
    }
}

pub open spec fn dues_view<'s>(items: Seq<DueItem<'s>>) -> Seq<DueV> {
    items.map_values(|d: DueItem<'s>| d@)
}

impl GraphV {
    /// When a node is next due.
    pub open spec fn next_check(self, n: NodeV) -> nat {
        self.ttl.due_at(
            n.fetched_at_ms as nat,
            at_least_one(n.interval_s) as nat,
            n.rank_permille as nat,
        )
    }

    /// A node is due once its time has come; only what has a URL can be
    /// fetched. Pinned nodes still revalidate: pinning guards eviction, not
    /// freshness.
    pub open spec fn is_due(self, n: NodeV, now_ms: u64) -> bool {
        self.next_check(n) <= now_ms && n.url.len() > 0
    }

    pub open spec fn due_item(self, n: NodeV, now_ms: u64) -> DueV {
        DueV {
            url: n.url,
            key: n.key,
            etag: n.etag,
            overdue_ms: (now_ms - self.next_check(n)) as u64,
            rank_permille: n.rank_permille,
        }
    }

    /// Where a due node stands in the work list: most important first, then
    /// most overdue, then by key. The last number says which node it is.
    pub open spec fn due_row(self, nodes: Seq<NodeV>, i: int, now_ms: u64) -> Row {
        (
            (65_535 - nodes[i].rank_permille) as u64,
            (u64::MAX - (now_ms - self.next_check(nodes[i]))) as u64,
            nodes[i].key,
            i as u64,
        )
    }

    pub open spec fn due_rows(self, nodes: Seq<NodeV>, i: int, now_ms: u64) -> Seq<Row>
        decreases i,
    {
        if i <= 0 {
            Seq::empty()
        } else {
            let pre = self.due_rows(nodes, i - 1, now_ms);
            if self.is_due(nodes[i - 1], now_ms) {
                pre.push(self.due_row(nodes, i - 1, now_ms))
            } else {
                pre
            }
        }
    }

    /// Everything due at `now_ms`, most important first, at most `max`.
    pub open spec fn due_list(self, now_ms: u64, max: nat) -> Seq<DueV> {
        let nodes = self.live();
        let rows = arranged(self.due_rows(nodes, nodes.len() as int, now_ms));
        Seq::new(
            min_nat(max, rows.len()),
            |i: int| self.due_item(nodes[rows[i].3 as int], now_ms),
        )
    }

    /// Where an unpinned node stands among pin suggestions: highest rank
    /// first, then by key.
    pub open spec fn pin_row(self, nodes: Seq<NodeV>, i: int) -> Row {
        ((65_535 - nodes[i].rank_permille) as u64, nodes[i].key, i as u64, 0)
    }

    pub open spec fn pin_rows(self, nodes: Seq<NodeV>, i: int) -> Seq<Row>
        decreases i,
    {
        if i <= 0 {
            Seq::empty()
        } else {
            let pre = self.pin_rows(nodes, i - 1);
            if !is_pinned(nodes[i - 1].flags) && nodes[i - 1].url.len() > 0 {
                pre.push(self.pin_row(nodes, i - 1))
            } else {
                pre
            }
        }
    }

    /// The URLs of the `k` highest-ranked live nodes that are not pinned.
    pub open spec fn pin_list(self, k: nat) -> Seq<Seq<char>> {
        let nodes = self.live();
        let rows = arranged(self.pin_rows(nodes, nodes.len() as int));
        Seq::new(min_nat(k, rows.len()), |i: int| nodes[rows[i].2 as int].url)
    }

    /// Edges out of and into a base node, as far as 32 bits count.
    pub open spec fn degree(self, i: int) -> nat {
        let out = if raw(self.t.edge_index).len() == 0 {
            0
        } else {
            edge_start(self.t, i + 1) - edge_start(self.t, i)
        };
        min_nat((out + node_row(self.t, i).in_degree) as nat, u32::MAX as nat)
    }

    pub open spec fn degree_rows(self) -> Seq<Row> {
        Seq::new(self.n() as nat, |i: int| (self.degree(i) as u64, 0u64, 0u64, 0u64))
    }

    /// The 99th percentile of total degrees, at least eight.
    pub open spec fn hub_cut(self) -> u32 {
        if self.n() == 0 {
            u32::MAX
        } else {
            let at = min_nat((self.n() * 99 / 100) as nat, (self.n() - 1) as nat);
            let p99 = arranged(self.degree_rows())[at as int].0;
            if p99 < 8 {
                8
            } else {
                p99 as u32
            }
        }
    }
}

impl<'s> Snapshot<'s> {
    /// The p99 total-degree hub threshold for this generation (expansion
    /// refuses to go *through* nodes at or above it).
    #[must_use]
    pub fn hub_threshold(&self) -> (r: u32)
        requires
            self.wf(),
        ensures
            r == self.graph().hub_cut(),
    {
        let ghost g = self.graph();
        proof {
            self.lemma_wf();
        }
        let n: usize = self.base_len();
        if n == 0 {
            return 0xffff_ffff;
        }
        let idx: &[u8] = self.edge_index();
        let mut rows: Vec<Row> = Vec::with_capacity(n);
        let mut i: usize = 0;
        while i < n
            invariant
                self.wf(),
                g == self.graph(),
                g.wf(),
                i <= n == g.n(),
                0 < n <= u32::MAX,
                idx@ == raw(g.t.edge_index),
                rows@.len() == i,
                forall|j: int| 0 <= j < i ==> #[trigger] rows@[j] == g.degree_rows()[j],
            decreases n - i,
        {
            let degree: u64 = self.total_degree(NodeId(i as u32));
            rows.push((degree, 0, 0, 0));
            assert(rows@[i as int] == g.degree_rows()[i as int]);
            i = i + 1;
        }
        assert(rows@ =~= g.degree_rows());
        let ghost unsorted = rows@;
        arrange(&mut rows);
        let at: usize = (n as u64 * 99 / 100) as usize;
        let at: usize = if at < n - 1 {
            at
        } else {
            n - 1
        };
        proof {
            assert(unsorted.contains(rows@[at as int]));
            let j = choose|j: int| 0 <= j < unsorted.len() && unsorted[j] == rows@[at as int];
            assert(unsorted[j] == g.degree_rows()[j]);
        }
        let p99: u64 = rows[at].0;
        if p99 < 8 {
            8
        } else {
            p99 as u32
        }
    }

    /// Edges out of and into a base node, as far as 32 bits count.
    pub fn total_degree(&self, id: NodeId) -> (r: u64)
        requires
            self.wf(),
            id.0 < self.graph().n(),
        ensures
            r == self.graph().degree(id.0 as int),
            r <= u32::MAX,
    {
        let ghost g = self.graph();
        proof {
            self.lemma_wf();
            assert(edge_start(g.t, id.0 as int) <= edge_start(g.t, id.0 + 1));
        }
        let idx: &[u8] = self.edge_index();
        let i: usize = id.0 as usize;
        let out: u64 = if idx.len() == 0 {
            0
        } else {
            let len: usize = idx.len();
            (get_u32(idx, (i + 1) * 4) - get_u32(idx, i * 4)) as u64
        };
        let sum: u64 = out + self.rec(id).in_degree() as u64;
        if sum > 0xffff_ffff {
            0xffff_ffff
        } else {
            sum
        }
    }

    /// Everything due for revalidation at `now_ms`, most important first.
    #[must_use]
    pub fn due(&self, now_ms: u64, max: usize) -> (r: Vec<DueItem<'_>>)
        requires
            self.wf(),
        ensures
            dues_view(r@) == self.graph().due_list(now_ms, max as nat),
    {
        let ghost g = self.graph();
        let nodes: Vec<NodeRef<'_>> = self.live_nodes();
        let ghost vs = g.live();
        let n: usize = nodes.len();
        let mut rows: Vec<Row> = Vec::new();
        let mut i: usize = 0;
        assert(n == vs.len());
        while i < n
            invariant
                self.wf(),
                g == self.graph(),
                vs == nodes_view(nodes@),
                i <= n == nodes@.len(),
                n == vs.len(),
                rows@ == g.due_rows(vs, i as int, now_ms),
                forall|j: int| 0 <= j < rows@.len() ==> is_due_row(g, vs, now_ms, #[trigger] rows@[j]),
            decreases n - i,
        {
            let node: NodeRef<'_> = nodes[i];
            assert(vs[i as int] == node@);
            let interval: u32 = if node.interval_s == 0 {
                1
            } else {
                node.interval_s
            };
            let next: u64 = self.ttl().next_check_at_ms(
                node.fetched_at_ms,
                interval,
                node.rank_permille,
            );
            if next <= now_ms && !node.url.is_empty() {
                let row: Row = (
                    65_535 - node.rank_permille as u64,
                    u64::MAX - (now_ms - next),
                    node.key.0,
                    i as u64,
                );
                assert(row == g.due_row(vs, i as int, now_ms));
                rows.push(row);
            }
            i = i + 1;
        }
        let ghost unsorted = rows@;
        arrange(&mut rows);
        let m: usize = if max < rows.len() {
            max
        } else {
            rows.len()
        };
        let mut out: Vec<DueItem<'_>> = Vec::with_capacity(m);
        let mut i: usize = 0;
        while i < m
            invariant
                self.wf(),
                g == self.graph(),
                vs == nodes_view(nodes@),
                n == nodes@.len(),
                n == vs.len(),
                i <= m <= rows@.len(),
                forall|j: int|
                    0 <= j < unsorted.len() ==> is_due_row(g, vs, now_ms, #[trigger] unsorted[j]),
                forall|j: int| 0 <= j < rows@.len() ==> unsorted.contains(#[trigger] rows@[j]),
                out@.len() == i,
                forall|j: int|
                    0 <= j < i ==> (#[trigger] out@[j])@ == g.due_item(
                        vs[rows@[j].3 as int],
                        now_ms,
                    ),
            decreases m - i,
        {
            let row: Row = rows[i];
            proof {
                assert(unsorted.contains(rows@[i as int]));
                let j = choose|j: int| 0 <= j < unsorted.len() && unsorted[j] == row;
                assert(is_due_row(g, vs, now_ms, unsorted[j]));
            }
            let node: NodeRef<'_> = nodes[row.3 as usize];
            assert(vs[row.3 as int] == node@);
            out.push(
                DueItem {
                    url: node.url,
                    key: node.key,
                    etag: node.etag,
                    overdue_ms: u64::MAX - row.1,
                    rank_permille: node.rank_permille,
                },
            );
            i = i + 1;
        }
        assert(dues_view(out@) =~= g.due_list(now_ms, max as nat));
        out
    }

    /// Documents worth pinning: highest-ranked live nodes not already pinned.
    #[must_use]
    pub fn pin_suggestions(&self, k: usize) -> (r: Vec<&str>)
        requires
            self.wf(),
        ensures
            texts(r@) == self.graph().pin_list(k as nat),
    {
        let ghost g = self.graph();
        let nodes: Vec<NodeRef<'_>> = self.live_nodes();
        let ghost vs = g.live();
        let n: usize = nodes.len();
        let mut rows: Vec<Row> = Vec::new();
        let mut i: usize = 0;
        assert(n == vs.len());
        while i < n
            invariant
                vs == nodes_view(nodes@),
                i <= n == nodes@.len(),
                n == vs.len(),
                rows@ == g.pin_rows(vs, i as int),
                forall|j: int| 0 <= j < rows@.len() ==> (#[trigger] rows@[j]).2 < n,
            decreases n - i,
        {
            let node: NodeRef<'_> = nodes[i];
            assert(vs[i as int] == node@);
            if !node.pinned() && !node.url.is_empty() {
                rows.push((65_535 - node.rank_permille as u64, node.key.0, i as u64, 0));
            }
            i = i + 1;
        }
        let ghost unsorted = rows@;
        arrange(&mut rows);
        let m: usize = if k < rows.len() {
            k
        } else {
            rows.len()
        };
        let mut out: Vec<&str> = Vec::with_capacity(m);
        let mut i: usize = 0;
        while i < m
            invariant
                vs == nodes_view(nodes@),
                n == nodes@.len(),
                n == vs.len(),
                i <= m <= rows@.len(),
                forall|j: int| 0 <= j < unsorted.len() ==> (#[trigger] unsorted[j]).2 < n,
                forall|j: int| 0 <= j < rows@.len() ==> unsorted.contains(#[trigger] rows@[j]),
                out@.len() == i,
                forall|j: int| 0 <= j < i ==> (#[trigger] out@[j])@ == vs[rows@[j].2 as int].url,
            decreases m - i,
        {
            let row: Row = rows[i];
            proof {
                assert(unsorted.contains(rows@[i as int]));
                let j = choose|j: int| 0 <= j < unsorted.len() && unsorted[j] == row;
                assert(unsorted[j].2 < n);
            }
            let node: NodeRef<'_> = nodes[row.2 as usize];
            assert(vs[row.2 as int] == node@);
            out.push(node.url);
            i = i + 1;
        }
        assert(texts(out@) =~= g.pin_list(k as nat));
        out
    }

    /// Keys touched by the overlay visible to this snapshot.
    pub fn overlay_keys(&self) -> (r: Vec<u64>)
        requires
            self.wf(),
        ensures
            r@.no_duplicates(),
            forall|k: u64| r@.contains(k) <==> patch_of(self.graph().ops, k) is Some,
    {
        let keys: &Vec<u64> = self.overlay().keys();
        let n: usize = keys.len();
        let mut out: Vec<u64> = Vec::with_capacity(n);
        let mut i: usize = 0;
        while i < n
            invariant
                i <= n == keys@.len(),
                out@ =~= keys@.take(i as int),
            decreases n - i,
        {
            out.push(keys[i]);
            i = i + 1;
        }
        assert(out@ =~= keys@);
        out
    }

    /// Validate internal invariants cheaply: on a validated base and a folded
    /// overlay there is nothing left to fail.
    pub fn check(&self) -> (r: Result<()>)
        requires
            self.wf(),
        ensures
            r is Ok,
    {
        let _hubs: u32 = self.hub_threshold();
        Ok(())
    }
}

/// A row of the work list names a due node and how overdue it is.
spec fn is_due_row(g: GraphV, nodes: Seq<NodeV>, now_ms: u64, r: Row) -> bool {
    &&& r.3 < nodes.len()
    &&& g.is_due(nodes[r.3 as int], now_ms)
    &&& r.1 == u64::MAX - (now_ms - g.next_check(nodes[r.3 as int]))
}

/// The texts of borrowed strings.
pub open spec fn texts(v: Seq<&str>) -> Seq<Seq<char>> {
    v.map_values(|s: &str| s@)
}

/// Nothing is listed that is not due, and whatever is due and live is listed
/// when there is room.
pub proof fn law_due_list_is_complete(g: GraphV, now_ms: u64, max: nat, i: int)
    requires
        0 <= i < g.live().len(),
        g.live().len() <= max,
        g.live().len() <= u64::MAX,
        g.is_due(g.live()[i], now_ms),
    ensures
        g.due_list(now_ms, max).contains(g.due_item(g.live()[i], now_ms)),
{
    let nodes = g.live();
    let rows = g.due_rows(nodes, nodes.len() as int, now_ms);
    lemma_due_rows(g, nodes, nodes.len() as int, now_ms, i);
    let row = g.due_row(nodes, i, now_ms);
    let le = crate::order::row_le();
    assert(vstd::relations::total_ordering(le));
    rows.lemma_sort_by_ensures(le);
    crate::order::lemma_same_rows(rows, arranged(rows), row);
    let j = choose|j: int| 0 <= j < arranged(rows).len() && arranged(rows)[j] == row;
    assert(g.due_list(now_ms, max)[j] == g.due_item(nodes[i], now_ms));
}

proof fn lemma_due_rows(g: GraphV, nodes: Seq<NodeV>, n: int, now_ms: u64, i: int)
    requires
        0 <= i < n <= nodes.len(),
        g.is_due(nodes[i], now_ms),
    ensures
        g.due_rows(nodes, n, now_ms).contains(g.due_row(nodes, i, now_ms)),
        g.due_rows(nodes, n, now_ms).len() <= n,
    decreases n,
{
    let rows = g.due_rows(nodes, n, now_ms);
    let pre = g.due_rows(nodes, n - 1, now_ms);
    lemma_due_rows_len(g, nodes, n, now_ms);
    if i == n - 1 {
        assert(rows[rows.len() - 1] == g.due_row(nodes, i, now_ms));
    } else {
        lemma_due_rows(g, nodes, n - 1, now_ms, i);
        let j = choose|j: int| 0 <= j < pre.len() && pre[j] == g.due_row(nodes, i, now_ms);
        assert(rows[j] == pre[j]);
    }
}

proof fn lemma_due_rows_len(g: GraphV, nodes: Seq<NodeV>, n: int, now_ms: u64)
    requires
        0 <= n,
    ensures
        g.due_rows(nodes, n, now_ms).len() <= n,
    decreases n,
{
    if n > 0 {
        lemma_due_rows_len(g, nodes, n - 1, now_ms);
    }
}

} // verus!
