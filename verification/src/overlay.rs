//! The committed-op overlay: the append-only run of log ops that have been
//! made durable but not yet folded into a base snapshot, plus the merged
//! per-key view a snapshot builds over it.
//!
//! Published entries never move and never change; a snapshot captures the
//! frontier once and only ever reads below it, which is the entire
//! snapshot-isolation story.
use crate::format::base::nflags;
#[allow(unused_imports)]
use crate::format::wal::{opt_view, segs_view, OpV, SegV};
use crate::format::wal::{clone_edges, clone_opt, clone_scores, clone_segs, Op, OwnedEdge, OwnedSeg};
use std::collections::HashMap;
use vstd::prelude::*;

verus! {

broadcast use vstd::std_specs::hash::group_hash_axioms;

// ---- the arena ------------------------------------------------------------

/// Chunk 0 capacity; chunk `k` holds `BASE_CAP << k` entries.
pub const BASE_CAP: usize = 64;

/// How many ops the arena takes in all: twenty chunks of doubling size.
pub const ARENA_CAP: usize = 67_108_800;

/// Two to the power of `k`.
pub open spec fn two_to(k: nat) -> nat
    decreases k,
{
    if k == 0 {
        1
    } else {
        2 * two_to((k - 1) as nat)
    }
}

/// The index of the first entry of chunk `k`.
pub open spec fn chunk_start(k: nat) -> nat {
    (BASE_CAP * (two_to(k) - 1)) as nat
}

/// The chunk of entry `i`, and its place there.
pub fn locate(i: usize) -> (r: (usize, usize))
    ensures
        i == chunk_start(r.0 as nat) + r.1,
        r.1 < BASE_CAP * two_to(r.0 as nat),
{
    let mut k: usize = 0;
    let mut left: usize = i;
    let mut cap: u128 = 64;
    while left as u128 >= cap
        invariant
            i == chunk_start(k as nat) + left,
            cap == BASE_CAP * two_to(k as nat),
            64 <= cap <= 0x2_0000_0000_0000_0000,
            k <= chunk_start(k as nat),
        decreases left,
    {
        left = left - cap as usize;
        assert(two_to((k + 1) as nat) == 2 * two_to(k as nat));
        cap = cap * 2;
        k = k + 1;
    }
    (k, left)
}

/// The last of the twenty chunks ends where the capacity does.
pub proof fn law_chunks_fill_the_arena()
    ensures
        chunk_start(20) == ARENA_CAP,
{
    reveal_with_fuel(two_to, 21);
}

/// Append-only arena of committed ops.
#[derive(Debug)]
pub struct Arena {
    entries: Vec<(u64, Op)>,
}

impl View for Arena {
    type V = Seq<(u64, Op)>;

    closed spec fn view(&self) -> Seq<(u64, Op)> {
        self.entries@
    }
}

/// How many more entries an arena of `len` entries takes.
pub open spec fn room(len: nat) -> int {
    if len < ARENA_CAP {
        ARENA_CAP - len
    } else {
        0
    }
}

impl Arena {
    pub fn new() -> (a: Self)
        ensures
            a@ == Seq::<(u64, Op)>::empty(),
    {
        Arena { entries: Vec::new() }
    }

    /// Committed entry count.
    pub fn len(&self) -> (n: usize)
        ensures
            n == self@.len(),
    {
        self.entries.len()
    }

    /// Publish one committed op. Returns `false` when the arena is full (the
    /// caller must compact).
    pub fn publish(&mut self, seq: u64, op: Op) -> (ok: bool)
        ensures
            ok <==> old(self)@.len() < ARENA_CAP,
            final(self)@ == (if ok {
                old(self)@.push((seq, op))
            } else {
                old(self)@
            }),
    {
        if self.entries.len() >= ARENA_CAP {
            return false;
        }
        self.entries.push((seq, op));
        true
    }

    /// The entries below `upto`, a frontier captured from `len`.
    pub fn committed(&self, upto: usize) -> (r: &[(u64, Op)])
        requires
            upto <= self@.len(),
        ensures
            r@ == self@.take(upto as int),
    {
        vstd::slice::slice_subrange(self.entries.as_slice(), 0, upto)
    }
}

/// What was published below a frontier stays as it was, whatever is published
/// later.
pub proof fn law_published_entries_never_change(before: Seq<(u64, Op)>, later: Seq<(u64, Op)>, upto: int)
    requires
        0 <= upto <= before.len(),
    ensures
        (before + later).take(upto) == before.take(upto),
{
    assert((before + later).take(upto) =~= before.take(upto));
}

// ---- the folded view ------------------------------------------------------

/// Last-written node core (from [`Op::UpsertNode`]).
#[derive(Debug)]
pub struct CoreFields {
    pub content_hash: u64,
    pub fetched_at_ms: u64,
    pub flags: u16,
    pub url: String,
    pub title: Option<String>,
    pub snippet: Option<String>,
    pub etag: Option<String>,
}

pub struct CoreV {
    pub content_hash: u64,
    pub fetched_at_ms: u64,
    pub flags: u16,
    pub url: Seq<char>,
    pub title: Option<Seq<char>>,
    pub snippet: Option<Seq<char>>,
    pub etag: Option<Seq<char>>,
}

impl View for CoreFields {
    type V = CoreV;

    open spec fn view(&self) -> CoreV {
        CoreV {
            content_hash: self.content_hash,
            fetched_at_ms: self.fetched_at_ms,
            flags: self.flags,
            url: self.url@,
            title: opt_view(self.title),
            snippet: opt_view(self.snippet),
            etag: opt_view(self.etag),
        }
    }
}

/// Last-written freshness state (from [`Op::Touch`]; the writer pre-computes
/// cumulative counters, so last-wins folding is exact).
#[derive(Debug)]
pub struct TouchFields {
    pub checked_at_ms: u64,
    pub content_hash: Option<u64>,
    pub etag: Option<String>,
    pub interval_s: u32,
    pub checks: u16,
    pub changes: u16,
    pub last_change_ms: u64,
    pub tombstone: bool,
}

pub struct TouchV {
    pub checked_at_ms: u64,
    pub content_hash: Option<u64>,
    pub etag: Option<Seq<char>>,
    pub interval_s: u32,
    pub checks: u16,
    pub changes: u16,
    pub last_change_ms: u64,
    pub tombstone: bool,
}

impl View for TouchFields {
    type V = TouchV;

    open spec fn view(&self) -> TouchV {
        TouchV {
            checked_at_ms: self.checked_at_ms,
            content_hash: self.content_hash,
            etag: opt_view(self.etag),
            interval_s: self.interval_s,
            checks: self.checks,
            changes: self.changes,
            last_change_ms: self.last_change_ms,
            tombstone: self.tombstone,
        }
    }
}

/// The folded per-key effect of the overlay ops visible to one snapshot.
#[derive(Debug)]
pub struct OverlayNode {
    pub core: Option<CoreFields>,
    pub segs: Option<Vec<OwnedSeg>>,
    pub edges: Option<Vec<OwnedEdge>>,
    pub touch: Option<TouchFields>,
    /// Freshness counters carried across an upsert (checks, changes,
    /// `last_change_ms`): history survives re-ingest; only `Remove` clears it.
    pub carried: Option<(u16, u16, u64)>,
    /// The revalidation interval carried across an upsert, and the hash of the
    /// content it was learned of; without a hash, that of the base record.
    pub learned: Option<(Option<u64>, u32)>,
    pub pinned: Option<bool>,
    /// Importance overrides that were given before the first segment list of
    /// the overlay, over whatever list the base has.
    pub early: Vec<(u8, u16)>,
    pub importance: Vec<(u8, u16)>,
    pub removed: bool,
    /// A `Remove` happened in this overlay: a later resurrecting upsert must
    /// not inherit the (not yet compacted) base record's history or pin.
    pub severed: bool,
}

/// The value of an [`OverlayNode`].
pub struct PatchV {
    pub core: Option<CoreV>,
    pub segs: Option<Seq<SegV>>,
    pub edges: Option<Seq<OwnedEdge>>,
    pub touch: Option<TouchV>,
    pub carried: Option<(u16, u16, u64)>,
    pub learned: Option<(Option<u64>, u32)>,
    pub pinned: Option<bool>,
    pub early: Seq<(u8, u16)>,
    pub importance: Seq<(u8, u16)>,
    pub removed: bool,
    pub severed: bool,
}

impl View for OverlayNode {
    type V = PatchV;

    open spec fn view(&self) -> PatchV {
        PatchV {
            core: match self.core {
                Some(c) => Some(c@),
                None => None,
            },
            segs: match self.segs {
                Some(s) => Some(segs_view(s@)),
                None => None,
            },
            edges: match self.edges {
                Some(e) => Some(e@),
                None => None,
            },
            touch: match self.touch {
                Some(t) => Some(t@),
                None => None,
            },
            carried: self.carried,
            learned: self.learned,
            pinned: self.pinned,
            early: self.early@,
            importance: self.importance@,
            removed: self.removed,
            severed: self.severed,
        }
    }
}

/// Nothing is known of the key yet.
pub open spec fn blank() -> PatchV {
    PatchV {
        core: None,
        segs: None,
        edges: None,
        touch: None,
        carried: None,
        learned: None,
        pinned: None,
        early: Seq::empty(),
        importance: Seq::empty(),
        removed: false,
        severed: false,
    }
}

impl Default for OverlayNode {
    fn default() -> (n: Self)
        ensures
            n@ == blank(),
    {
        OverlayNode {
            core: None,
            segs: None,
            edges: None,
            touch: None,
            carried: None,
            learned: None,
            pinned: None,
            early: Vec::new(),
            importance: Vec::new(),
            removed: false,
            severed: false,
        }
    }
}

/// The flags mark a pinned node.
pub open spec fn is_pinned(flags: u16) -> bool {
    flags & nflags::PINNED != 0
}

/// Where `ordinal` stands in `scores`, from the `i`-th on.
pub open spec fn score_index(scores: Seq<(u8, u16)>, ordinal: u8, i: int) -> Option<int>
    decreases scores.len() - i,
{
    if i >= scores.len() {
        None
    } else if scores[i].0 == ordinal {
        Some(i)
    } else {
        score_index(scores, ordinal, i + 1)
    }
}

/// `scores` with one override replaced, or appended if it is new.
pub open spec fn put_score(scores: Seq<(u8, u16)>, s: (u8, u16)) -> Seq<(u8, u16)> {
    match score_index(scores, s.0, 0) {
        Some(i) => scores.update(i, s),
        None => scores.push(s),
    }
}

/// `scores` after all of `more`, in order.
pub open spec fn put_scores(scores: Seq<(u8, u16)>, more: Seq<(u8, u16)>) -> Seq<(u8, u16)>
    decreases more.len(),
{
    if more.len() == 0 {
        scores
    } else {
        put_score(put_scores(scores, more.drop_last()), more.last())
    }
}

/// The overrides that a list of `n` segments leaves open: there is no segment
/// of their ordinal.
pub open spec fn beyond(scores: Seq<(u8, u16)>, n: nat) -> Seq<(u8, u16)>
    decreases scores.len(),
{
    if scores.len() == 0 {
        Seq::empty()
    } else {
        let pre = beyond(scores.drop_last(), n);
        if scores.last().0 >= n {
            pre.push(scores.last())
        } else {
            pre
        }
    }
}

/// The pin state after an upsert with `flags`. Pins are sticky: an explicit
/// pin state joins with the upsert's; otherwise a pin can only be proven by
/// any pinning upsert, never disproven.
pub open spec fn folded_pin(p: PatchV, flags: u16) -> Option<bool> {
    match p.pinned {
        Some(prev) => Some(is_pinned(flags) || prev),
        None => if is_pinned(flags) || (p.core is Some && is_pinned(p.core->0.flags)) {
            Some(true)
        } else {
            None
        },
    }
}

/// The content hash that the ops so far know.
pub open spec fn known_hash(p: PatchV, t: TouchV) -> Option<u64> {
    match t.content_hash {
        Some(h) => Some(h),
        None => match p.core {
            Some(c) => Some(c.content_hash),
            None => None,
        },
    }
}

/// The interval that an upsert of `content_hash` goes on with: what was learned
/// stands while the content is the same, and falls with the first other.
pub open spec fn folded_interval(p: PatchV, content_hash: u64) -> Option<(Option<u64>, u32)> {
    match p.touch {
        Some(t) => match known_hash(p, t) {
            Some(h) if h != content_hash => None,
            hash => Some((hash, t.interval_s)),
        },
        None => match p.core {
            Some(c) if c.content_hash == content_hash => p.learned,
            _ => None,
        },
    }
}

/// What is known of a key after one more op on it.
pub open spec fn step(p: PatchV, op: OpV) -> PatchV {
    match op {
        OpV::UpsertNode { content_hash, fetched_at_ms, flags, url, title, snippet, etag, .. } =>
            PatchV {
                removed: false,
                carried: match p.touch {
                    Some(t) => Some((t.checks, t.changes, t.last_change_ms)),
                    None => p.carried,
                },
                learned: folded_interval(p, content_hash),
                touch: None,
                core: Some(
                    CoreV { content_hash, fetched_at_ms, flags, url, title, snippet, etag },
                ),
                pinned: folded_pin(p, flags),
                ..p
            },
        // An override is given for a segment of the list at hand: a new list
        // comes with the scores that its headings keep. One that had no segment
        // yet stays open.
        OpV::SetSegments { segs, .. } => match p.segs {
            Some(listed) => PatchV {
                segs: Some(segs),
                early: beyond(p.early, listed.len()),
                importance: beyond(p.importance, listed.len()),
                ..p
            },
            None => if p.severed {
                PatchV { segs: Some(segs), ..p }
            } else {
                PatchV { segs: Some(segs), early: p.importance, importance: Seq::empty(), ..p }
            },
        },
        OpV::SetEdges { edges, .. } => PatchV { edges: Some(edges), ..p },
        OpV::Touch {
            checked_at_ms,
            content_hash,
            etag,
            interval_s,
            checks,
            changes,
            last_change_ms,
            tombstone,
            ..
        } => PatchV {
            touch: Some(
                TouchV {
                    checked_at_ms,
                    content_hash,
                    etag,
                    interval_s,
                    checks,
                    changes,
                    last_change_ms,
                    tombstone,
                },
            ),
            ..p
        },
        OpV::Remove { .. } => PatchV { removed: true, severed: true, ..blank() },
        OpV::SetPinned { pinned, .. } => PatchV { pinned: Some(pinned), ..p },
        OpV::SetImportance { scores, .. } => PatchV {
            importance: put_scores(p.importance, scores),
            ..p
        },
    }
}

/// What `ops` say of `key`, if they mention it.
pub open spec fn patch_of(ops: Seq<OpV>, key: u64) -> Option<PatchV>
    decreases ops.len(),
{
    if ops.len() == 0 {
        None
    } else {
        let before = patch_of(ops.drop_last(), key);
        if ops.last().target().0 != key {
            before
        } else {
            match before {
                Some(p) => Some(step(p, ops.last())),
                None => Some(step(blank(), ops.last())),
            }
        }
    }
}

/// Ops fold one at a time: what one more op says of a key is folded onto what
/// the ops before it said, and an op on another key says nothing.
pub proof fn law_fold_is_incremental(ops: Seq<OpV>, op: OpV, key: u64)
    ensures
        patch_of(ops.push(op), key) == (if op.target().0 == key {
            match patch_of(ops, key) {
                Some(p) => Some(step(p, op)),
                None => Some(step(blank(), op)),
            }
        } else {
            patch_of(ops, key)
        }),
{
    assert(ops.push(op).drop_last() =~= ops);
}

/// After a remove nothing said before it matters, except that the key is cut
/// off from its base record.
pub proof fn law_remove_clears(p: PatchV, op: OpV)
    requires
        op is Remove,
    ensures
        step(p, op) == (PatchV { removed: true, severed: true, ..blank() }),
{
}

/// A resurrecting upsert brings back nothing but what it says itself.
pub proof fn law_resurrection_is_clean(p: PatchV, remove: OpV, upsert: OpV)
    requires
        remove is Remove,
        upsert is UpsertNode,
    ensures
        ({
            let q = step(step(p, remove), upsert);
            &&& !q.removed
            &&& q.severed
            &&& q.segs is None
            &&& q.edges is None
            &&& q.touch is None
            &&& q.carried is None
            &&& q.learned is None
            &&& q.early.len() == 0
            &&& q.importance.len() == 0
            &&& q.pinned == (if is_pinned(upsert->UpsertNode_flags) {
                Some(true)
            } else {
                None::<bool>
            })
        }),
{
}

/// Once pinned, a node stays pinned through every upsert.
pub proof fn law_pins_survive_upserts(p: PatchV, upsert: OpV)
    requires
        upsert is UpsertNode,
        p.pinned == Some(true) || (p.pinned is None && p.core is Some && is_pinned(
            p.core->0.flags,
        )),
    ensures
        step(p, upsert).pinned == Some(true),
{
}

/// History survives an upsert: the counters of the last touch are carried.
pub proof fn law_history_survives_upserts(p: PatchV, upsert: OpV)
    requires
        upsert is UpsertNode,
        p.touch is Some,
    ensures
        step(p, upsert).carried == Some(
            (p.touch->0.checks, p.touch->0.changes, p.touch->0.last_change_ms),
        ),
{
}

fn find_score(scores: &Vec<(u8, u16)>, ordinal: u8) -> (r: Option<usize>)
    ensures
        match r {
            Some(i) => score_index(scores@, ordinal, 0) == Some(i as int) && i < scores@.len(),
            None => score_index(scores@, ordinal, 0) is None,
        },
{
    let n: usize = scores.len();
    let mut i: usize = 0;
    while i < n
        invariant
            i <= n == scores@.len(),
            score_index(scores@, ordinal, 0) == score_index(scores@, ordinal, i as int),
        decreases n - i,
    {
        if scores[i].0 == ordinal {
            return Some(i);
        }
        i = i + 1;
    }
    None
}

/// The overrides that a list of `n` segments leaves open.
pub(crate) fn scores_beyond(scores: &Vec<(u8, u16)>, n: usize) -> (r: Vec<(u8, u16)>)
    ensures
        r@ == beyond(scores@, n as nat),
{
    let m: usize = scores.len();
    let mut out: Vec<(u8, u16)> = Vec::new();
    let mut i: usize = 0;
    assert(scores@.take(0) =~= Seq::empty());
    while i < m
        invariant
            i <= m == scores@.len(),
            out@ == beyond(scores@.take(i as int), n as nat),
        decreases m - i,
    {
        assert(scores@.take(i + 1).drop_last() =~= scores@.take(i as int));
        if scores[i].0 as usize >= n {
            out.push(scores[i]);
        }
        i = i + 1;
    }
    assert(scores@.take(m as int) =~= scores@);
    out
}

fn fold_scores(scores: &mut Vec<(u8, u16)>, more: &Vec<(u8, u16)>)
    ensures
        final(scores)@ == put_scores(old(scores)@, more@),
{
    let ghost start = scores@;
    let n: usize = more.len();
    let mut i: usize = 0;
    assert(more@.take(0) =~= Seq::empty());
    while i < n
        invariant
            i <= n == more@.len(),
            scores@ == put_scores(start, more@.take(i as int)),
        decreases n - i,
    {
        let s: (u8, u16) = more[i];
        let ghost was = scores@;
        match find_score(scores, s.0) {
            Some(at) => {
                scores.set(at, s);
            },
            None => {
                scores.push(s);
            },
        }
        assert(scores@ == put_score(was, s));
        assert(more@.take(i + 1).drop_last() =~= more@.take(i as int));
        i = i + 1;
    }
    assert(more@.take(n as int) =~= more@);
}

impl OverlayNode {
    /// The pin state after an upsert with `flags`.
    fn pin_after(&self, flags: u16) -> (r: Option<bool>)
        ensures
            r == folded_pin(self@, flags),
    {
        let upsert_pin: bool = flags & nflags::PINNED != 0;
        match self.pinned {
            Some(prev) => Some(upsert_pin || prev),
            None => {
                let prior: bool = match &self.core {
                    Some(c) => c.flags & nflags::PINNED != 0,
                    None => false,
                };
                if upsert_pin || prior {
                    Some(true)
                } else {
                    None
                }
            },
        }
    }

    /// The interval that an upsert of `content_hash` goes on with.
    fn interval_after(&self, content_hash: u64) -> (r: Option<(Option<u64>, u32)>)
        ensures
            r == folded_interval(self@, content_hash),
    {
        match &self.touch {
            Some(t) => {
                let hash: Option<u64> = match t.content_hash {
                    Some(h) => Some(h),
                    None => match &self.core {
                        Some(c) => Some(c.content_hash),
                        None => None,
                    },
                };
                match hash {
                    Some(h) => if h != content_hash {
                        None
                    } else {
                        Some((hash, t.interval_s))
                    },
                    None => Some((hash, t.interval_s)),
                }
            },
            None => match &self.core {
                Some(c) => if c.content_hash == content_hash {
                    self.learned
                } else {
                    None
                },
                None => None,
            },
        }
    }

    /// The same state once more.
    pub fn duplicate(&self) -> (r: OverlayNode)
        ensures
            r@ == self@,
    {
        let core: Option<CoreFields> = match &self.core {
            Some(c) => Some(
                CoreFields {
                    content_hash: c.content_hash,
                    fetched_at_ms: c.fetched_at_ms,
                    flags: c.flags,
                    url: c.url.clone(),
                    title: clone_opt(&c.title),
                    snippet: clone_opt(&c.snippet),
                    etag: clone_opt(&c.etag),
                },
            ),
            None => None,
        };
        let segs: Option<Vec<OwnedSeg>> = match &self.segs {
            Some(s) => Some(clone_segs(s)),
            None => None,
        };
        let edges: Option<Vec<OwnedEdge>> = match &self.edges {
            Some(e) => Some(clone_edges(e)),
            None => None,
        };
        let touch: Option<TouchFields> = match &self.touch {
            Some(t) => Some(
                TouchFields {
                    checked_at_ms: t.checked_at_ms,
                    content_hash: t.content_hash,
                    etag: clone_opt(&t.etag),
                    interval_s: t.interval_s,
                    checks: t.checks,
                    changes: t.changes,
                    last_change_ms: t.last_change_ms,
                    tombstone: t.tombstone,
                },
            ),
            None => None,
        };
        OverlayNode {
            core,
            segs,
            edges,
            touch,
            carried: self.carried,
            learned: self.learned,
            pinned: self.pinned,
            early: clone_scores(self.early.as_slice()),
            importance: clone_scores(self.importance.as_slice()),
            removed: self.removed,
            severed: self.severed,
        }
    }

    /// Fold one more op on this key.
    pub fn fold(self, op: &Op) -> (r: OverlayNode)
        ensures
            r@ == step(self@, op@),
    {
        match op {
            Op::UpsertNode {
                key: _,
                content_hash,
                fetched_at_ms,
                flags,
                url,
                title,
                snippet,
                etag,
            } => {
                let pinned: Option<bool> = self.pin_after(*flags);
                let carried: Option<(u16, u16, u64)> = match &self.touch {
                    Some(t) => Some((t.checks, t.changes, t.last_change_ms)),
                    None => self.carried,
                };
                let learned: Option<(Option<u64>, u32)> = self.interval_after(*content_hash);
                OverlayNode {
                    core: Some(
                        CoreFields {
                            content_hash: *content_hash,
                            fetched_at_ms: *fetched_at_ms,
                            flags: *flags,
                            url: url.clone(),
                            title: clone_opt(title),
                            snippet: clone_opt(snippet),
                            etag: clone_opt(etag),
                        },
                    ),
                    segs: self.segs,
                    edges: self.edges,
                    touch: None,
                    carried,
                    learned,
                    pinned,
                    early: self.early,
                    importance: self.importance,
                    removed: false,
                    severed: self.severed,
                }
            },
            Op::SetSegments { key: _, segs } => {
                let mut r: OverlayNode = self;
                match &r.segs {
                    Some(listed) => {
                        let n: usize = listed.len();
                        r.early = scores_beyond(&r.early, n);
                        r.importance = scores_beyond(&r.importance, n);
                    },
                    None => {
                        if !r.severed {
                            r.early = r.importance;
                            r.importance = Vec::new();
                            assert(r@.importance =~= Seq::empty());
                        }
                    },
                }
                r.segs = Some(clone_segs(segs));
                r
            },
            Op::SetEdges { key: _, edges } => {
                let mut r: OverlayNode = self;
                r.edges = Some(clone_edges(edges));
                r
            },
            Op::Touch {
                key: _,
                checked_at_ms,
                outcome: _,
                content_hash,
                etag,
                interval_s,
                checks,
                changes,
                last_change_ms,
                tombstone,
            } => {
                let mut r: OverlayNode = self;
                r.touch = Some(
                    TouchFields {
                        checked_at_ms: *checked_at_ms,
                        content_hash: *content_hash,
                        etag: clone_opt(etag),
                        interval_s: *interval_s,
                        checks: *checks,
                        changes: *changes,
                        last_change_ms: *last_change_ms,
                        tombstone: *tombstone,
                    },
                );
                r
            },
            Op::Remove { key: _ } => {
                let mut r: OverlayNode = OverlayNode::default();
                r.removed = true;
                r.severed = true;
                r
            },
            Op::SetPinned { key: _, pinned } => {
                let mut r: OverlayNode = self;
                r.pinned = Some(*pinned);
                r
            },
            Op::SetImportance { key: _, scores } => {
                let mut r: OverlayNode = self;
                let mut importance: Vec<(u8, u16)> = r.importance;
                fold_scores(&mut importance, scores);
                r.importance = importance;
                r
            },
        }
    }
}

/// Merged overlay view for a snapshot: key to folded state.
pub struct OverlayView {
    map: HashMap<u64, OverlayNode>,
    keys: Vec<u64>,
    log: Ghost<Seq<OpV>>,
}

/// The keys that `ops` name, each once, in the order of their first op.
pub open spec fn named_keys(ops: Seq<OpV>) -> Seq<u64>
    decreases ops.len(),
{
    if ops.len() == 0 {
        Seq::empty()
    } else {
        let pre = named_keys(ops.drop_last());
        let key = ops.last().target().0;
        if pre.contains(key) {
            pre
        } else {
            pre.push(key)
        }
    }
}

/// The values of `ops`, without their sequence numbers.
pub open spec fn plain_ops(ops: Seq<(u64, Op)>) -> Seq<OpV> {
    ops.map_values(|p: (u64, Op)| p.1@)
}

impl OverlayView {
    /// The ops that were folded.
    pub closed spec fn ops(&self) -> Seq<OpV> {
        self.log@
    }

    /// The view holds what its ops say, and lists each key once, in the order
    /// of its first op.
    pub closed spec fn wf(&self) -> bool {
        &&& self.keys@ == named_keys(self.log@)
        &&& forall|k: u64| #[trigger]
            self.map@.contains_key(k) <==> patch_of(self.log@, k) is Some
        &&& forall|k: u64| #[trigger]
            self.map@.contains_key(k) ==> patch_of(self.log@, k) == Some(self.map@[k]@)
        &&& forall|k: u64| #[trigger] self.map@.contains_key(k) <==> self.keys@.contains(k)
        &&& self.keys@.no_duplicates()
    }

    /// Nothing folded yet.
    pub fn empty() -> (v: Self)
        ensures
            v.wf(),
            v.ops() == Seq::<OpV>::empty(),
    {
        OverlayView { map: HashMap::new(), keys: Vec::new(), log: Ghost(Seq::empty()) }
    }

    /// Fold one more op.
    pub fn absorb(&mut self, op: &Op)
        requires
            old(self).wf(),
        ensures
            final(self).wf(),
            final(self).ops() == old(self).ops().push(op@),
    {
        let key: u64 = op.key().0;
        let ghost before = self.map@;
        let ghost was = self.log@;
        let ghost ks = self.keys@;
        let entry: OverlayNode = match self.map.remove(&key) {
            Some(n) => n,
            None => {
                self.keys.push(key);
                OverlayNode::default()
            },
        };
        let folded: OverlayNode = entry.fold(op);
        self.map.insert(key, folded);
        self.log = Ghost(was.push(op@));
        proof {
            assert forall|k: u64| true implies #[trigger] patch_of(self.log@, k) == (if k == key {
                Some(folded@)
            } else {
                patch_of(was, k)
            }) by {
                law_fold_is_incremental(was, op@, k);
            }
            assert(forall|k: u64| #[trigger]
                self.map@.contains_key(k) <==> before.contains_key(k) || k == key);
            assert forall|k: u64| #[trigger] self.map@.contains_key(k) implies patch_of(
                self.log@,
                k,
            ) == Some(self.map@[k]@) by {
                if k != key {
                    assert(before.contains_key(k));
                    assert(self.map@[k] == before[k]);
                }
            }
            assert(self.log@.drop_last() =~= was);
            assert(before.contains_key(key) <==> ks.contains(key));
            assert forall|k: u64| self.map@.contains_key(k) <==> self.keys@.contains(k) by {
                assert(before.contains_key(k) <==> ks.contains(k));
                if !ks.contains(key) {
                    assert(self.keys@ == ks.push(key));
                    assert(self.keys@[ks.len() as int] == key);
                    if ks.contains(k) {
                        let i = choose|i: int| 0 <= i < ks.len() && ks[i] == k;
                        assert(self.keys@[i] == k);
                    }
                }
            }
        }
    }

    /// Fold committed ops, in order.
    pub fn build(ops: &[(u64, Op)]) -> (v: Self)
        ensures
            v.wf(),
            v.ops() == plain_ops(ops@),
    {
        let mut v: OverlayView = OverlayView::empty();
        let n: usize = ops.len();
        let mut i: usize = 0;
        while i < n
            invariant
                i <= n == ops@.len(),
                v.wf(),
                v.ops() =~= plain_ops(ops@).take(i as int),
            decreases n - i,
        {
            v.absorb(&ops[i].1);
            assert(plain_ops(ops@).take(i + 1) =~= plain_ops(ops@).take(i as int).push(
                ops@[i as int].1@,
            ));
            i = i + 1;
        }
        assert(plain_ops(ops@).take(n as int) =~= plain_ops(ops@));
        v
    }

    /// What the overlay says of `key`.
    pub fn get(&self, key: u64) -> (r: Option<&OverlayNode>)
        requires
            self.wf(),
        ensures
            match r {
                Some(n) => patch_of(self.ops(), key) == Some(n@),
                None => patch_of(self.ops(), key) is None,
            },
    {
        self.map.get(&key)
    }

    /// The keys the overlay touches, each once, in the order of first touch.
    pub fn keys(&self) -> (r: &Vec<u64>)
        requires
            self.wf(),
        ensures
            r@ == named_keys(self.ops()),
            r@.no_duplicates(),
            forall|k: u64| r@.contains(k) <==> patch_of(self.ops(), k) is Some,
    {
        assert forall|k: u64| self.keys@.contains(k) <==> patch_of(self.log@, k) is Some by {
            assert(self.map@.contains_key(k) <==> self.keys@.contains(k));
        }
        &self.keys
    }
}

} // verus!
