//! Deterministic ordering. Every ranking of the library is one ascending sort
//! of integer tuples, with a total order on every tie.
use vstd::prelude::*;

verus! {

/// What is sorted: four numbers, compared from left to right.
pub type Row = (u64, u64, u64, u64);

/// `a` comes before `b`.
pub open spec fn row_lt(a: Row, b: Row) -> bool {
    a.0 < b.0 || (a.0 == b.0 && (a.1 < b.1 || (a.1 == b.1 && (a.2 < b.2 || (a.2 == b.2 && a.3
        < b.3)))))
}

/// No row comes before an earlier one.
pub open spec fn rows_sorted(rows: Seq<Row>) -> bool {
    forall|i: int, j: int| 0 <= i < j < rows.len() ==> !row_lt(rows[j], rows[i])
}

/// `<[T]>::sort_unstable` at tuples of four `u64`: the same rows in ascending
/// order, compared from left to right.
#[verifier::external_body]
pub(crate) fn sort_rows(rows: &mut Vec<Row>)
    ensures
        rows_sorted(final(rows)@),
        final(rows)@.to_multiset() == old(rows)@.to_multiset(),
{
    rows.sort_unstable()
}

/// `b` does not come before `a`.
pub open spec fn row_le() -> spec_fn(Row, Row) -> bool {
    |a: Row, b: Row| !row_lt(b, a)
}

/// `rows` in ascending order.
pub open spec fn arranged(rows: Seq<Row>) -> Seq<Row> {
    rows.sort_by(row_le())
}

/// Sorted rows are the arrangement of the rows they came from.
pub proof fn lemma_arranged(rows: Seq<Row>, sorted: Seq<Row>)
    requires
        rows_sorted(sorted),
        sorted.to_multiset() == rows.to_multiset(),
    ensures
        arranged(rows) == sorted,
        sorted.len() == rows.len(),
{
    let le = row_le();
    assert(vstd::relations::total_ordering(le));
    rows.lemma_sort_by_ensures(le);
    assert(vstd::relations::sorted_by(sorted, le));
    vstd::seq_lib::lemma_sorted_unique(arranged(rows), sorted, le);
    lemma_same_rows(rows, sorted, (0, 0, 0, 0));
}

/// An arrangement holds the same rows, as often, and no row stands behind one
/// whose numbers, compared from left to right, are larger.
pub proof fn law_arranged_rows_ascend(rows: Seq<Row>)
    ensures
        arranged(rows).len() == rows.len(),
        arranged(rows).to_multiset() == rows.to_multiset(),
        forall|r: Row| #[trigger] arranged(rows).contains(r) <==> rows.contains(r),
        forall|i: int, j: int|
            0 <= i < j < rows.len() ==> {
                let a = #[trigger] arranged(rows)[i];
                let b = #[trigger] arranged(rows)[j];
                ||| a.0 < b.0
                ||| a.0 == b.0 && a.1 < b.1
                ||| a.0 == b.0 && a.1 == b.1 && a.2 < b.2
                ||| a.0 == b.0 && a.1 == b.1 && a.2 == b.2 && a.3 <= b.3
            },
{
    let le = row_le();
    assert(vstd::relations::total_ordering(le));
    rows.lemma_sort_by_ensures(le);
    let sorted = arranged(rows);
    lemma_same_rows(rows, sorted, (0, 0, 0, 0));
    assert forall|r: Row| #[trigger] sorted.contains(r) <==> rows.contains(r) by {
        lemma_same_rows(rows, sorted, r);
    }
    assert forall|i: int, j: int| 0 <= i < j < rows.len() implies {
        let a = #[trigger] arranged(rows)[i];
        let b = #[trigger] arranged(rows)[j];
        ||| a.0 < b.0
        ||| a.0 == b.0 && a.1 < b.1
        ||| a.0 == b.0 && a.1 == b.1 && a.2 < b.2
        ||| a.0 == b.0 && a.1 == b.1 && a.2 == b.2 && a.3 <= b.3
    } by {
        assert(le(sorted[i], sorted[j]));
    }
}

/// Every arranged row is one of the rows.
pub proof fn lemma_arranged_from(rows: Seq<Row>, i: int)
    requires
        0 <= i < arranged(rows).len(),
    ensures
        rows.contains(arranged(rows)[i]),
        arranged(rows).len() == rows.len(),
{
    let le = row_le();
    assert(vstd::relations::total_ordering(le));
    rows.lemma_sort_by_ensures(le);
    lemma_same_rows(rows, arranged(rows), arranged(rows)[i]);
    assert(arranged(rows).contains(arranged(rows)[i]));
}

/// The keys strictly ascend.
pub open spec fn strictly_up(keys: Seq<u64>) -> bool {
    forall|i: int, j: int| 0 <= i < j < keys.len() ==> keys[i] < keys[j]
}

/// `keys` lists what satisfies `p`, each once, in ascending order.
pub open spec fn lists(keys: Seq<u64>, p: spec_fn(u64) -> bool) -> bool {
    &&& strictly_up(keys)
    &&& forall|k: u64| #[trigger] keys.contains(k) <==> p(k)
}

/// What satisfies `p`, in ascending order.
pub open spec fn listing(p: spec_fn(u64) -> bool) -> Seq<u64> {
    choose|keys: Seq<u64>| lists(keys, p)
}

proof fn lemma_same_keys(a: Seq<u64>, b: Seq<u64>)
    requires
        strictly_up(a),
        strictly_up(b),
        forall|k: u64| a.contains(k) <==> b.contains(k),
    ensures
        a == b,
    decreases a.len(),
{
    if a.len() == 0 {
        if b.len() > 0 {
            assert(b.contains(b[0]));
        }
        assert(a =~= b);
    } else {
        assert(a.contains(a.last()));
        let i = choose|i: int| 0 <= i < b.len() && b[i] == a.last();
        assert(b.contains(b.last()));
        let j = choose|j: int| 0 <= j < a.len() && a[j] == b.last();
        assert(a[j] <= a.last());
        assert(b[i] <= b.last());
        let a1 = a.drop_last();
        let b1 = b.drop_last();
        assert forall|k: u64| a1.contains(k) <==> b1.contains(k) by {
            if a1.contains(k) {
                let x = choose|x: int| 0 <= x < a1.len() && a1[x] == k;
                assert(a[x] == k && a[x] < a.last());
                assert(a.contains(k));
                let y = choose|y: int| 0 <= y < b.len() && b[y] == k;
                assert(b1[y] == k);
            }
            if b1.contains(k) {
                let y = choose|y: int| 0 <= y < b1.len() && b1[y] == k;
                assert(b[y] == k && b[y] < b.last());
                assert(b.contains(k));
                let x = choose|x: int| 0 <= x < a.len() && a[x] == k;
                assert(a1[x] == k);
            }
        }
        lemma_same_keys(a1, b1);
        assert(a =~= a1.push(a.last()));
        assert(b =~= b1.push(b.last()));
    }
}

/// There is one ascending list of what satisfies `p`.
pub proof fn lemma_listing(keys: Seq<u64>, p: spec_fn(u64) -> bool)
    requires
        lists(keys, p),
    ensures
        listing(p) == keys,
{
    let l = listing(p);
    assert(lists(l, p));
    assert forall|k: u64| l.contains(k) <==> keys.contains(k) by {
        assert(l.contains(k) <==> p(k));
    }
    lemma_same_keys(l, keys);
}

/// Ascending keys with one more among them.
spec fn with_key(keys: Seq<u64>, k: u64) -> Seq<u64>
    decreases keys.len(),
{
    if keys.len() == 0 || keys.last() < k {
        keys.push(k)
    } else if keys.last() == k {
        keys
    } else {
        with_key(keys.drop_last(), k).push(keys.last())
    }
}

proof fn lemma_with_key(keys: Seq<u64>, k: u64)
    requires
        strictly_up(keys),
    ensures
        strictly_up(with_key(keys, k)),
        forall|x: u64| #[trigger] with_key(keys, k).contains(x) <==> keys.contains(x) || x == k,
    decreases keys.len(),
{
    let r = with_key(keys, k);
    if keys.len() == 0 || keys.last() < k {
        assert forall|x: u64| #[trigger] r.contains(x) <==> keys.contains(x) || x == k by {
            assert(r[keys.len() as int] == k);
            if keys.contains(x) {
                let i = choose|i: int| 0 <= i < keys.len() && keys[i] == x;
                assert(r[i] == x);
            }
        }
    } else if keys.last() == k {
        assert(keys[keys.len() - 1] == k);
    } else {
        let pre = keys.drop_last();
        let sub = with_key(pre, k);
        lemma_with_key(pre, k);
        assert forall|i: int| 0 <= i < sub.len() implies #[trigger] sub[i] < keys.last() by {
            assert(sub.contains(sub[i]));
            if pre.contains(sub[i]) {
                let j = choose|j: int| 0 <= j < pre.len() && pre[j] == sub[i];
                assert(keys[j] < keys[keys.len() - 1]);
            }
        }
        assert forall|x: u64| #[trigger] r.contains(x) <==> keys.contains(x) || x == k by {
            assert(r[sub.len() as int] == keys.last());
            assert(keys[keys.len() - 1] == keys.last());
            if r.contains(x) && x != keys.last() {
                let i = choose|i: int| 0 <= i < r.len() && r[i] == x;
                assert(sub[i] == x);
                assert(sub.contains(x));
                if pre.contains(x) {
                    let j = choose|j: int| 0 <= j < pre.len() && pre[j] == x;
                    assert(keys[j] == x);
                }
            }
            if (keys.contains(x) || x == k) && x != keys.last() {
                if keys.contains(x) {
                    let j = choose|j: int| 0 <= j < keys.len() && keys[j] == x;
                    assert(pre[j] == x);
                }
                assert(sub.contains(x));
                let i = choose|i: int| 0 <= i < sub.len() && sub[i] == x;
                assert(r[i] == x);
            }
        }
    }
}

/// What of `keys` satisfies `p`, in ascending order.
spec fn gathered(keys: Seq<u64>, p: spec_fn(u64) -> bool) -> Seq<u64>
    decreases keys.len(),
{
    if keys.len() == 0 {
        Seq::empty()
    } else {
        let pre = gathered(keys.drop_last(), p);
        if p(keys.last()) {
            with_key(pre, keys.last())
        } else {
            pre
        }
    }
}

proof fn lemma_gathered(keys: Seq<u64>, p: spec_fn(u64) -> bool)
    ensures
        strictly_up(gathered(keys, p)),
        forall|x: u64| #[trigger] gathered(keys, p).contains(x) <==> keys.contains(x) && p(x),
    decreases keys.len(),
{
    if keys.len() > 0 {
        let pre = keys.drop_last();
        lemma_gathered(pre, p);
        if p(keys.last()) {
            lemma_with_key(gathered(pre, p), keys.last());
        }
        assert forall|x: u64| #[trigger] gathered(keys, p).contains(x) <==> keys.contains(x) && p(
            x,
        ) by {
            assert(keys[keys.len() - 1] == keys.last());
            assert(gathered(pre, p).contains(x) <==> pre.contains(x) && p(x));
            if pre.contains(x) {
                let i = choose|i: int| 0 <= i < pre.len() && pre[i] == x;
                assert(keys[i] == x);
            }
            if keys.contains(x) && x != keys.last() {
                let i = choose|i: int| 0 <= i < keys.len() && keys[i] == x;
                assert(pre[i] == x);
            }
        }
    }
}

/// What satisfies `p` can be listed where it is among finitely many keys.
pub proof fn lemma_listed(keys: Seq<u64>, p: spec_fn(u64) -> bool)
    requires
        forall|k: u64| p(k) ==> #[trigger] keys.contains(k),
    ensures
        lists(listing(p), p),
{
    let l = gathered(keys, p);
    lemma_gathered(keys, p);
    assert forall|k: u64| #[trigger] l.contains(k) <==> p(k) by {
        if p(k) {
            assert(keys.contains(k));
        }
    }
    assert(lists(l, p));
}

/// Rearranged rows are the same rows.
pub proof fn lemma_same_rows(a: Seq<Row>, b: Seq<Row>, r: Row)
    requires
        a.to_multiset() == b.to_multiset(),
    ensures
        a.contains(r) <==> b.contains(r),
        a.len() == b.len(),
{
    a.to_multiset_ensures();
    b.to_multiset_ensures();
    assert(a.contains(r) <==> a.to_multiset().count(r) > 0);
    assert(b.contains(r) <==> b.to_multiset().count(r) > 0);
}

/// Put rows in ascending order.
pub fn arrange(rows: &mut Vec<Row>)
    ensures
        final(rows)@ == arranged(old(rows)@),
        final(rows)@.len() == old(rows)@.len(),
        forall|i: int|
            0 <= i < final(rows)@.len() ==> old(rows)@.contains(#[trigger] final(rows)@[i]),
{
    let ghost before = rows@;
    sort_rows(rows);
    proof {
        lemma_arranged(before, rows@);
        assert forall|i: int| 0 <= i < rows@.len() implies before.contains(
            #[trigger] rows@[i],
        ) by {
            lemma_arranged_from(before, i);
        }
    }
}

/// Sort keys and drop repeats.
pub fn sorted_distinct(keys: &Vec<u64>) -> (r: Vec<u64>)
    ensures
        strictly_up(r@),
        forall|k: u64| #[trigger] r@.contains(k) <==> keys@.contains(k),
{
    let n: usize = keys.len();
    let mut rows: Vec<Row> = Vec::with_capacity(n);
    let mut i: usize = 0;
    while i < n
        invariant
            i <= n == keys@.len(),
            rows@.len() == i,
            forall|j: int| 0 <= j < i ==> #[trigger] rows@[j] == (keys@[j], 0u64, 0u64, 0u64),
        decreases n - i,
    {
        rows.push((keys[i], 0, 0, 0));
        i = i + 1;
    }
    let ghost before = rows@;
    sort_rows(&mut rows);
    proof {
        lemma_same_rows(before, rows@, (0, 0, 0, 0));
        assert forall|j: int| 0 <= j < n implies (#[trigger] rows@[j]).1 == 0 && rows@[j].2 == 0
            && rows@[j].3 == 0 && keys@.contains(rows@[j].0) by {
            lemma_same_rows(before, rows@, rows@[j]);
            assert(rows@.contains(rows@[j]));
            let x = choose|x: int| 0 <= x < before.len() && before[x] == rows@[j];
            assert(keys@[x] == rows@[j].0);
        }
    }
    let mut out: Vec<u64> = Vec::with_capacity(n);
    let mut i: usize = 0;
    while i < n
        invariant
            i <= n == rows@.len(),
            rows_sorted(rows@),
            strictly_up(out@),
            forall|j: int| 0 <= j < i ==> out@.contains((#[trigger] rows@[j]).0),
            forall|j: int| 0 <= j < out@.len() ==> keys@.contains(#[trigger] out@[j]),
            forall|j: int| 0 <= j < n ==> keys@.contains((#[trigger] rows@[j]).0),
            out@.len() > 0 ==> i > 0 && out@.last() == rows@[i - 1].0,
            i > 0 ==> out@.len() > 0,
        decreases n - i,
    {
        let k: u64 = rows[i].0;
        let ghost was = out@;
        if out.len() == 0 || out[out.len() - 1] != k {
            if out.len() > 0 {
                assert(!row_lt(rows@[i as int], rows@[i - 1]));
            }
            out.push(k);
            assert(out@[was.len() as int] == k);
            assert forall|j: int| 0 <= j < i implies out@.contains((#[trigger] rows@[j]).0) by {
                let x = choose|x: int| 0 <= x < was.len() && was[x] == rows@[j].0;
                assert(out@[x] == rows@[j].0);
            }
        } else {
            assert(out@[out@.len() - 1] == k);
        }
        i = i + 1;
    }
    proof {
        assert forall|k: u64| #[trigger] out@.contains(k) <==> keys@.contains(k) by {
            if keys@.contains(k) {
                let x = choose|x: int| 0 <= x < keys@.len() && keys@[x] == k;
                lemma_same_rows(before, rows@, before[x]);
                assert(before.contains(before[x]));
                let j = choose|j: int| 0 <= j < rows@.len() && rows@[j] == before[x];
                assert(out@.contains(rows@[j].0));
            }
        }
    }
    out
}

} // verus!
