//! How many there are of something, and where that puts one of them in order.
#[allow(unused_imports)]
use crate::order::{arranged, law_arranged_rows_ascend, Row};
use vstd::prelude::*;

verus! {

/// How many of the numbers below `n` satisfy `p`.
pub open spec fn count(n: int, p: spec_fn(int) -> bool) -> nat
    decreases n,
{
    if n <= 0 {
        0
    } else {
        count(n - 1, p) + (if p(n - 1) {
            1nat
        } else {
            0nat
        })
    }
}

pub proof fn lemma_count_bound(n: int, p: spec_fn(int) -> bool)
    requires
        0 <= n,
    ensures
        count(n, p) <= n,
    decreases n,
{
    if n > 0 {
        lemma_count_bound(n - 1, p);
    }
}

pub proof fn lemma_count_same(n: int, p: spec_fn(int) -> bool, q: spec_fn(int) -> bool)
    requires
        forall|i: int| 0 <= i < n ==> p(i) == #[trigger] q(i),
    ensures
        count(n, p) == count(n, q),
    decreases n,
{
    if n > 0 {
        lemma_count_same(n - 1, p, q);
        assert(p(n - 1) == q(n - 1));
    }
}

/// How many of the rows satisfy `p`.
pub open spec fn count_rows_where(rows: Seq<Row>, p: spec_fn(Row) -> bool) -> nat {
    count(rows.len() as int, |i: int| p(rows[i]))
}

proof fn lemma_count_is_filter(rows: Seq<Row>, p: spec_fn(Row) -> bool)
    ensures
        count_rows_where(rows, p) == rows.to_multiset().filter(p).len(),
    decreases rows.len(),
{
    broadcast use vstd::multiset::group_multiset_axioms;

    rows.to_multiset_ensures();
    if rows.len() == 0 {
        assert(rows.to_multiset() =~= vstd::multiset::Multiset::empty());
        assert(rows.to_multiset().filter(p) =~= vstd::multiset::Multiset::empty());
    } else {
        let less = rows.drop_last();
        let r = rows.last();
        lemma_count_is_filter(less, p);
        less.to_multiset_ensures();
        assert(less.push(r) =~= rows);
        assert(rows.to_multiset() =~= less.to_multiset().insert(r));
        let a = less.to_multiset().filter(p);
        let b = rows.to_multiset().filter(p);
        if p(r) {
            assert(b =~= a.insert(r));
        } else {
            assert(b =~= a);
        }
        lemma_count_same(
            rows.len() - 1,
            |i: int| p(rows[i]),
            |i: int| p(less[i]),
        );
    }
}

/// Arranging changes no count.
pub proof fn lemma_arranged_count(rows: Seq<Row>, p: spec_fn(Row) -> bool)
    ensures
        count_rows_where(arranged(rows), p) == count_rows_where(rows, p),
{
    law_arranged_rows_ascend(rows);
    lemma_count_is_filter(rows, p);
    lemma_count_is_filter(arranged(rows), p);
}

/// What holds nowhere from `a` on holds at most `a` times.
pub proof fn lemma_count_front(n: int, p: spec_fn(int) -> bool, a: int)
    requires
        0 <= a <= n,
        forall|i: int| a <= i < n ==> !(#[trigger] p(i)),
    ensures
        count(n, p) <= a,
        (forall|i: int| 0 <= i < a ==> #[trigger] p(i)) ==> count(n, p) == a,
    decreases n,
{
    if n > a {
        assert(!p(n - 1));
        lemma_count_front(n - 1, p, a);
    } else if n > 0 {
        lemma_count_front(n - 1, p, n - 1);
        if forall|i: int| 0 <= i < a ==> #[trigger] p(i) {
            assert(p(n - 1));
        }
    }
}

/// What holds nowhere before `a` holds at most as often as there is room behind.
pub proof fn lemma_count_back(n: int, p: spec_fn(int) -> bool, a: int)
    requires
        0 <= a <= n,
        forall|i: int| 0 <= i < a ==> !(#[trigger] p(i)),
    ensures
        count(n, p) <= n - a,
    decreases n,
{
    if n > a {
        lemma_count_back(n - 1, p, a);
    } else if n > 0 {
        assert(!p(n - 1));
        lemma_count_back(n - 1, p, n - 1);
    }
}

/// In an arrangement at most `at` rows have a smaller first number than the row
/// at `at`, and at most as many as stand behind it have a larger one.
pub proof fn lemma_position_bounds(rows: Seq<Row>, at: int)
    requires
        0 <= at < rows.len(),
    ensures
        ({
            let v = arranged(rows)[at].0;
            &&& count(rows.len() as int, |i: int| rows[i].0 < v) <= at
            &&& count(rows.len() as int, |i: int| rows[i].0 > v) <= rows.len() - 1 - at
            &&& exists|i: int| 0 <= i < rows.len() && (#[trigger] rows[i]).0 == v
        }),
{
    let sorted = arranged(rows);
    let n = rows.len() as int;
    law_arranged_rows_ascend(rows);
    let v = sorted[at].0;
    let below = |r: Row| r.0 < v;
    let above = |r: Row| r.0 > v;
    lemma_arranged_count(rows, below);
    lemma_arranged_count(rows, above);
    let fb = |i: int| below(sorted[i]);
    let fa = |i: int| above(sorted[i]);
    assert forall|i: int| at <= i < n implies !(#[trigger] fb(i)) by {
        if i > at {
            assert(sorted[at].0 <= sorted[i].0);
        }
    }
    lemma_count_front(n, fb, at);
    assert forall|i: int| 0 <= i < at + 1 implies !(#[trigger] fa(i)) by {
        if i < at {
            assert(sorted[i].0 <= sorted[at].0);
        }
    }
    lemma_count_back(n, fa, at + 1);
    lemma_count_same(n, |i: int| below(rows[i]), |i: int| rows[i].0 < v);
    lemma_count_same(n, |i: int| above(rows[i]), |i: int| rows[i].0 > v);
    assert(sorted.contains(sorted[at]));
    let x = choose|x: int| 0 <= x < rows.len() && rows[x] == sorted[at];
    assert(rows[x].0 == v);
}

/// Of rows that differ, as many come before one as its position in the
/// arrangement says.
pub proof fn lemma_position_counts(rows: Seq<Row>, at: int)
    requires
        0 <= at < rows.len(),
        rows.no_duplicates(),
    ensures
        count(
            rows.len() as int,
            |i: int| {
                let a = rows[i];
                let b = arranged(rows)[at];
                ||| a.0 < b.0
                ||| a.0 == b.0 && a.1 < b.1
                ||| a.0 == b.0 && a.1 == b.1 && a.2 < b.2
                ||| a.0 == b.0 && a.1 == b.1 && a.2 == b.2 && a.3 < b.3
            },
        ) == at,
{
    let sorted = arranged(rows);
    let n = rows.len() as int;
    law_arranged_rows_ascend(rows);
    rows.lemma_multiset_has_no_duplicates();
    sorted.lemma_multiset_has_no_duplicates_conv();
    let b = sorted[at];
    let before = |a: Row|
        {
            ||| a.0 < b.0
            ||| a.0 == b.0 && a.1 < b.1
            ||| a.0 == b.0 && a.1 == b.1 && a.2 < b.2
            ||| a.0 == b.0 && a.1 == b.1 && a.2 == b.2 && a.3 < b.3
        };
    lemma_arranged_count(rows, before);
    let f = |i: int| before(sorted[i]);
    assert forall|i: int| at <= i < n implies !(#[trigger] f(i)) by {
        if i > at {
            let x = sorted[at];
            let y = sorted[i];
            assert(x != y);
        }
    }
    assert forall|i: int| 0 <= i < at implies #[trigger] f(i) by {
        let x = sorted[i];
        let y = sorted[at];
        assert(x != y);
    }
    lemma_count_front(n, f, at);
    lemma_count_same(
        n,
        |i: int| before(rows[i]),
        |i: int|
            {
                let a = rows[i];
                let b = arranged(rows)[at];
                ||| a.0 < b.0
                ||| a.0 == b.0 && a.1 < b.1
                ||| a.0 == b.0 && a.1 == b.1 && a.2 < b.2
                ||| a.0 == b.0 && a.1 == b.1 && a.2 == b.2 && a.3 < b.3
            },
    );
}

} // verus!
