//! How the importance of segments is overridden, and how it survives.
#[allow(unused_imports)]
use crate::format::wal::OpV;
#[allow(unused_imports)]
use crate::key::{seg_key, UrlKey};
#[allow(unused_imports)]
use crate::model::{scored, AnchorV, GraphV};
#[allow(unused_imports)]
use crate::overlay::{
    beyond, blank, law_fold_is_incremental, patch_of, put_score, put_scores, score_index,
};
#[allow(unused_imports)]
use crate::readback::{
    is_removed, lemma_overrides_are_distinct, lemma_put_scores, lemma_same_base, lemma_score_index,
    lemma_scored_at, lemma_scores_change_no_heading, one_each, with_op,
};
#[allow(unused_imports)]
use crate::writer::{carried_score, removes, stored_seg, SegmentRecord};
use vstd::prelude::*;

verus! {

/// Overrides name `ordinal`.
pub open spec fn names(scores: Seq<(u8, u16)>, ordinal: int) -> bool {
    exists|x: int| 0 <= x < scores.len() && (#[trigger] scores[x]).0 == ordinal
}

proof fn lemma_put_keeps(scores: Seq<(u8, u16)>, s: (u8, u16), kept: (u8, u16))
    requires
        scores.contains(kept),
        kept.0 != s.0,
    ensures
        put_score(scores, s).contains(kept),
{
    lemma_score_index(scores, s.0, 0);
    let x = choose|x: int| 0 <= x < scores.len() && scores[x] == kept;
    assert(put_score(scores, s)[x] == kept);
}

proof fn lemma_put_each(scores: Seq<(u8, u16)>, more: Seq<(u8, u16)>, x: int)
    requires
        one_each(scores),
        0 <= x < more.len(),
        forall|y: int| x < y < more.len() ==> (#[trigger] more[y]).0 != more[x].0,
    ensures
        put_scores(scores, more).contains(more[x]),
    decreases more.len(),
{
    if x == more.len() - 1 {
        lemma_put_scores(scores, more);
    } else {
        let less = more.drop_last();
        assert(less[x] == more[x]);
        assert(forall|y: int| x < y < less.len() ==> #[trigger] less[y] == more[y]);
        lemma_put_each(scores, less, x);
        assert(more[more.len() - 1].0 != more[x].0);
        lemma_put_keeps(put_scores(scores, less), more.last(), more[x]);
    }
}

/// Overrides of other segments do not matter to one.
proof fn lemma_scored_alike(segs: Seq<AnchorV>, a: Seq<(u8, u16)>, b: Seq<(u8, u16)>, j: int)
    requires
        a.len() == b.len(),
        forall|x: int|
            0 <= x < a.len() ==> #[trigger] a[x] == b[x] || (a[x].0 != j && b[x].0 != j),
        0 <= j < segs.len(),
    ensures
        scored(segs, a)[j] == scored(segs, b)[j],
        scored(segs, a).len() == segs.len(),
        scored(segs, b).len() == segs.len(),
    decreases a.len(),
{
    if a.len() > 0 {
        let last = a.len() - 1;
        assert(forall|x: int| 0 <= x < last ==> #[trigger] a.drop_last()[x] == a[x]);
        assert(forall|x: int| 0 <= x < last ==> #[trigger] b.drop_last()[x] == b[x]);
        lemma_scored_alike(segs, a.drop_last(), b.drop_last(), j);
        assert(a[last] == b[last] || (a[last].0 != j && b[last].0 != j));
    }
}

proof fn lemma_put_elsewhere(
    segs: Seq<AnchorV>,
    scores: Seq<(u8, u16)>,
    more: Seq<(u8, u16)>,
    j: int,
)
    requires
        !names(more, j),
        0 <= j < segs.len(),
    ensures
        scored(segs, put_scores(scores, more))[j] == scored(segs, scores)[j],
    decreases more.len(),
{
    if more.len() > 0 {
        let less = more.drop_last();
        let s = more.last();
        assert(!names(less, j)) by {
            if names(less, j) {
                let x = choose|x: int| 0 <= x < less.len() && (#[trigger] less[x]).0 == j;
                assert(more[x].0 == j);
            }
        }
        assert(s.0 != j) by {
            assert(more[more.len() - 1] == s);
        }
        lemma_put_elsewhere(segs, scores, less, j);
        let pre = put_scores(scores, less);
        lemma_score_index(pre, s.0, 0);
        match score_index(pre, s.0, 0) {
            Some(k) => {
                lemma_scored_alike(segs, pre, pre.update(k, s), j);
            },
            None => {
                assert(pre.push(s).drop_last() =~= pre);
                lemma_scores_change_no_heading(segs, pre);
            },
        }
    }
}

/// What a segment is, but for its score.
pub open spec fn same_heading(a: AnchorV, b: AnchorV) -> bool {
    &&& a.key == b.key
    &&& a.label == b.label
    &&& a.byte_range == b.byte_range
    &&& a.depth == b.depth
}

/// Every override takes effect on the segment at its place, the last one where
/// there are several, and marks it as scored; nothing else of it changes.
pub proof fn law_every_override_takes_effect(
    g: GraphV,
    key: u64,
    scores: Seq<(u8, u16)>,
    x: int,
)
    requires
        !is_removed(g, key),
        0 <= x < scores.len(),
        forall|y: int| x < y < scores.len() ==> (#[trigger] scores[y]).0 != scores[x].0,
        scores[x].0 < g.segs(key).len(),
    ensures
        ({
            let later = with_op(g, OpV::SetImportance { key: UrlKey(key), scores });
            let j = scores[x].0 as int;
            let a = later.segs(key)[j];
            &&& later.segs(key).len() == g.segs(key).len()
            &&& a.importance == scores[x].1
            &&& a.flags & 2 != 0
            &&& same_heading(a, g.segs(key)[j])
        }),
{
    let op = OpV::SetImportance { key: UrlKey(key), scores };
    let later = with_op(g, op);
    law_fold_is_incremental(g.ops, op, key);
    lemma_same_base(g, op);
    lemma_overrides_are_distinct(g.ops, key);
    let before = match patch_of(g.ops, key) {
        Some(p) => p,
        None => blank(),
    };
    lemma_put_scores(before.importance, scores);
    lemma_put_each(before.importance, scores, x);
    let all = put_scores(before.importance, scores);
    assert(patch_of(later.ops, key)->0.importance == all);
    assert(later.plain_segs(key) == g.plain_segs(key));
    let early = beyond(before.early, g.base_list(key).len());
    let plain = scored(g.plain_segs(key), early);
    assert(later.base_list(key) == g.base_list(key));
    lemma_scores_change_no_heading(g.plain_segs(key), early);
    lemma_scores_change_no_heading(plain, before.importance);
    lemma_scores_change_no_heading(plain, all);
    let k = choose|k: int| 0 <= k < all.len() && all[k] == scores[x];
    lemma_scored_at(plain, all, k);
    lemma_segs_of(g, key, before, plain);
}

proof fn lemma_segs_of(
    g: GraphV,
    key: u64,
    before: crate::overlay::PatchV,
    plain: Seq<AnchorV>,
)
    requires
        before == (match patch_of(g.ops, key) {
            Some(p) => p,
            None => blank(),
        }),
        plain == scored(g.plain_segs(key), beyond(before.early, g.base_list(key).len())),
    ensures
        g.segs(key) == scored(plain, before.importance),
{
    if patch_of(g.ops, key) is None {
        assert(beyond(Seq::empty(), g.base_list(key).len()) =~= Seq::empty());
    }
}

/// A segment that is not named keeps all that it had.
pub proof fn law_overrides_leave_other_segments_alone(
    g: GraphV,
    key: u64,
    scores: Seq<(u8, u16)>,
    j: int,
)
    requires
        !is_removed(g, key),
        0 <= j < g.segs(key).len(),
        forall|x: int| 0 <= x < scores.len() ==> (#[trigger] scores[x]).0 != j,
    ensures
        with_op(g, OpV::SetImportance { key: UrlKey(key), scores }).segs(key)[j] == g.segs(key)[j],
{
    let op = OpV::SetImportance { key: UrlKey(key), scores };
    let later = with_op(g, op);
    law_fold_is_incremental(g.ops, op, key);
    lemma_same_base(g, op);
    let before = match patch_of(g.ops, key) {
        Some(p) => p,
        None => blank(),
    };
    let early = beyond(before.early, g.base_list(key).len());
    let plain = scored(g.plain_segs(key), early);
    assert(later.plain_segs(key) == g.plain_segs(key));
    assert(later.base_list(key) == g.base_list(key));
    lemma_segs_of(g, key, before, plain);
    lemma_scores_change_no_heading(plain, before.importance);
    assert(!names(scores, j));
    lemma_put_elsewhere(plain, before.importance, scores, j);
}

// ---- headings -------------------------------------------------------------

/// A segment of the heading `k` that was scored.
pub open spec fn is_scored(a: AnchorV, k: u64) -> bool {
    a.key == k && a.flags & 2 != 0
}

proof fn lemma_carried(segs: Seq<AnchorV>, k: u64, from: int) -> (i: int)
    requires
        0 <= from <= segs.len(),
    ensures
        carried_score(segs, k, from) is Some ==> is_first(
            segs,
            k,
            from,
            i,
            carried_score(segs, k, from)->0,
        ),
        carried_score(segs, k, from) is None ==> forall|j: int|
            from <= j < segs.len() ==> !is_scored(#[trigger] segs[j], k),
    decreases segs.len() - from,
{
    if from >= segs.len() {
        from
    } else if is_scored(segs[from], k) {
        from
    } else {
        let i = lemma_carried(segs, k, from + 1);
        assert(carried_score(segs, k, from) == carried_score(segs, k, from + 1));
        if carried_score(segs, k, from) is Some {
            assert forall|j: int| from <= j < i implies !is_scored(#[trigger] segs[j], k) by {
                if j > from {
                    assert(from + 1 <= j);
                }
            }
        } else {
            assert forall|j: int| from <= j < segs.len() implies !is_scored(
                #[trigger] segs[j],
                k,
            ) by {
                if j > from {
                    assert(from + 1 <= j);
                }
            }
        }
        i
    }
}

/// The `i`-th segment is the first from `from` on that is scored under `k`, and
/// `score` is its importance.
pub open spec fn is_first(segs: Seq<AnchorV>, k: u64, from: int, i: int, score: u16) -> bool {
    &&& from <= i < segs.len()
    &&& is_scored(segs[i], k)
    &&& segs[i].importance == score
    &&& forall|j: int| from <= j < i ==> !is_scored(#[trigger] segs[j], k)
}

/// A heading that was never scored is stored with the importance it comes with.
/// One that was scored keeps the score: what the batch shows counts first, and
/// then what is committed, unless the batch removes the document.
pub proof fn law_where_scores_come_from(
    g: GraphV,
    staged: Seq<OpV>,
    key: u64,
    s: SegmentRecord<'_>,
)
    ensures
        ({
            let k = seg_key(UrlKey(key), s.label@);
            let v = stored_seg(g, staged, key, s);
            let shown = g.segs_after(staged, key);
            let committed = g.segs(key);
            let none_shown = forall|j: int|
                0 <= j < shown.len() ==> !is_scored(#[trigger] shown[j], k);
            let none_committed = forall|j: int|
                0 <= j < committed.len() ==> !is_scored(#[trigger] committed[j], k);
            &&& none_shown && (none_committed || removes(staged, key)) ==> v.importance
                == s.importance
            &&& !none_shown ==> exists|i: int| #[trigger] is_first(shown, k, 0, i, v.importance)
            &&& none_shown && !none_committed && !removes(staged, key) ==> exists|i: int| #[trigger]
                is_first(committed, k, 0, i, v.importance)
        }),
{
    let k = seg_key(UrlKey(key), s.label@);
    let shown = g.segs_after(staged, key);
    let committed = g.segs(key);
    let v = stored_seg(g, staged, key, s);
    let a = lemma_carried(shown, k, 0);
    let b = lemma_carried(committed, k, 0);
    if carried_score(shown, k, 0) is Some {
        assert(is_first(shown, k, 0, a, v.importance));
    } else if carried_score(committed, k, 0) is Some && !removes(staged, key) {
        assert(is_first(committed, k, 0, b, v.importance));
    }
}

} // verus!
