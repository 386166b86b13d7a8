//! The store's rules: what a directory's base and log say together, what a
//! writable opener repairs, and how a reader follows another process. The
//! directory itself holds `graph.base` (immutable snapshot), `graph.wal`
//! (append-only op log) and `graph.lock` (writer exclusion).
use crate::error::{Error, Result};
#[allow(unused_imports)]
use crate::error::Fault;
use crate::format::base::Header;
use crate::format::wal::{replay, Op, Replay};
#[allow(unused_imports)]
use crate::format::wal::{
    ops_view, parsed_header, replay_from, storable_entries, OpV, HEADER_LEN,
};
use crate::overlay::Arena;
#[allow(unused_imports)]
use crate::overlay::{room, ARENA_CAP};
use crate::ttl::TtlConfig;
#[allow(unused_imports)]
use crate::ttl::default_ttl;
pub use crate::writer::Durability;
use vstd::prelude::*;

verus! {

/// The immutable snapshot inside a store directory.
pub const BASE_FILE: &'static str = "graph.base";

/// The op log inside a store directory.
pub const WAL_FILE: &'static str = "graph.wal";

/// The writer lock inside a store directory.
pub const LOCK_FILE: &'static str = "graph.lock";

/// Store configuration.
#[derive(Clone, Copy, Debug)]
pub struct Config {
    /// Log sync policy.
    pub durability: Durability,
    /// Fold the log into a new base after this many committed ops.
    pub compact_after_ops: usize,
    /// ... or after the log grows past this many bytes, whichever first.
    pub compact_after_wal_bytes: u64,
    /// Adaptive-freshness policy applied when a touch is staged.
    pub ttl: TtlConfig,
}

impl Default for Config {
    fn default() -> (c: Self)
        ensures
            c.durability is Always,
            c.compact_after_ops == 4096,
            c.compact_after_wal_bytes == 4_194_304,
            c.ttl == default_ttl(),
    {
        Config {
            durability: Durability::Always,
            compact_after_ops: 4096,
            compact_after_wal_bytes: 4_194_304,
            ttl: TtlConfig::default(),
        }
    }
}

/// What a writable opener does to the log file.
#[derive(Clone, Copy, Debug, PartialEq, Eq, Structural)]
pub enum Repair {
    /// The log is in order.
    Keep,
    /// The log predates the base: start a fresh one for this generation.
    Reset,
    /// The tail is torn: cut the file back to this length.
    Truncate(usize),
}

/// A log read against its base.
#[derive(Debug)]
pub struct LoadedLog {
    /// The ops that the base has not folded yet.
    pub ops: Vec<(u64, Op)>,
    /// The number of the next op.
    pub next_seq: u64,
    /// The length of the intact log.
    pub wal_bytes: usize,
    /// What a writable opener does to the file.
    pub repair: Repair,
}

/// The ops numbered past `applied`.
pub open spec fn past(ops: Seq<(u64, OpV)>, applied: u64) -> Seq<(u64, OpV)>
    decreases ops.len(),
{
    if ops.len() == 0 {
        Seq::empty()
    } else {
        let pre = past(ops.drop_last(), applied);
        if ops.last().0 > applied {
            pre.push(ops.last())
        } else {
            pre
        }
    }
}

/// The number after `seq`.
pub open spec fn after(seq: u64) -> u64 {
    if seq == u64::MAX {
        u64::MAX
    } else {
        (seq + 1) as u64
    }
}

/// The value of a [`LoadedLog`].
pub struct LoadedV {
    pub ops: Seq<(u64, OpV)>,
    pub next_seq: u64,
    pub wal_bytes: nat,
    pub repair: Repair,
}

impl View for LoadedLog {
    type V = LoadedV;

    open spec fn view(&self) -> LoadedV {
        LoadedV {
            ops: ops_view(self.ops@),
            next_seq: self.next_seq,
            wal_bytes: self.wal_bytes as nat,
            repair: self.repair,
        }
    }
}

/// What the ops of a replayed log mean for a base of header `h`: a log newer
/// than its base is corruption; an older one is already folded and starts
/// over; otherwise what the base has not applied yet goes on top of it.
pub open spec fn settled(
    h: Header,
    base_generation: u64,
    ops: Seq<(u64, OpV)>,
    good_len: nat,
    raw_len: nat,
) -> Result<LoadedV, Fault> {
    if base_generation > h.generation {
        Err(Fault::Corrupt("wal is newer than base"@))
    } else if base_generation < h.generation {
        Ok(
            LoadedV {
                ops: Seq::empty(),
                next_seq: after(h.wal_applied_seq),
                wal_bytes: HEADER_LEN as nat,
                repair: Repair::Reset,
            },
        )
    } else {
        Ok(
            LoadedV {
                ops: past(ops, h.wal_applied_seq),
                next_seq: if ops.len() > 0 && ops.last().0 > h.wal_applied_seq {
                    after(ops.last().0)
                } else {
                    after(h.wal_applied_seq)
                },
                wal_bytes: good_len,
                repair: if good_len < raw_len {
                    Repair::Truncate(good_len as usize)
                } else {
                    Repair::Keep
                },
            },
        )
    }
}

/// What a log file says on top of a base of header `h`.
pub open spec fn loaded(h: Header, raw: Seq<u8>) -> Result<LoadedV, Fault> {
    if raw.len() == 0 {
        Ok(
            LoadedV {
                ops: Seq::empty(),
                next_seq: after(h.wal_applied_seq),
                wal_bytes: 0,
                repair: Repair::Keep,
            },
        )
    } else {
        match parsed_header(raw) {
            Err(e) => Err(e),
            Ok(base_generation) => match replay_from(raw, HEADER_LEN as int, Seq::empty()) {
                Err(e) => Err(e),
                Ok((ops, good)) => settled(h, base_generation, ops, good as nat, raw.len()),
            },
        }
    }
}

fn keep_past(ops: Vec<(u64, Op)>, applied: u64) -> (r: Vec<(u64, Op)>)
    requires
        storable_entries(ops@),
    ensures
        ops_view(r@) == past(ops_view(ops@), applied),
        storable_entries(r@),
{
    let ghost all = ops_view(ops@);
    let n: usize = ops.len();
    let mut out: Vec<(u64, Op)> = Vec::new();
    let mut i: usize = 0;
    assert(all.take(0) =~= Seq::empty());
    assert(ops_view(out@) =~= Seq::empty());
    while i < n
        invariant
            i <= n == ops@.len(),
            all == ops_view(ops@),
            ops_view(out@) == past(all.take(i as int), applied),
            storable_entries(ops@),
            storable_entries(out@),
        decreases n - i,
    {
        let ghost was = out@;
        let seq: u64 = ops[i].0;
        assert(all.take(i + 1).drop_last() =~= all.take(i as int));
        assert(all[i as int] == (seq, ops@[i as int].1@));
        if seq > applied {
            let op: Op = ops[i].1.clone();
            out.push((seq, op));
            assert(ops_view(out@) =~= ops_view(was).push((seq, op@)));
        }
        i = i + 1;
    }
    assert(all.take(n as int) =~= all);
    out
}

/// Settle a replayed log of `raw_len` bytes against the base it extends.
pub fn settle(header: &Header, log: Replay, raw_len: usize) -> (r: Result<LoadedLog>)
    requires
        storable_entries(log.ops@),
    ensures
        match r {
            Ok(l) => settled(
                *header,
                log.base_generation,
                ops_view(log.ops@),
                log.good_len as nat,
                raw_len as nat,
            ) == Ok::<LoadedV, Fault>(l@) && storable_entries(l.ops@),
            Err(e) => settled(
                *header,
                log.base_generation,
                ops_view(log.ops@),
                log.good_len as nat,
                raw_len as nat,
            ) == Err::<LoadedV, Fault>(e@),
        },
{
    let applied: u64 = header.wal_applied_seq;
    if log.base_generation > header.generation {
        return Err(Error::corrupt("wal is newer than base"));
    }
    if log.base_generation < header.generation {
        let ops: Vec<(u64, Op)> = Vec::new();
        assert(ops_view(ops@) =~= Seq::empty());
        return Ok(
            LoadedLog {
                ops,
                next_seq: applied.saturating_add(1),
                wal_bytes: HEADER_LEN,
                repair: Repair::Reset,
            },
        );
    }
    let good_len: usize = log.good_len;
    let mut next_seq: u64 = applied.saturating_add(1);
    let n: usize = log.ops.len();
    if n > 0 {
        let last: u64 = log.ops[n - 1].0;
        assert(ops_view(log.ops@).last().0 == last);
        if last > applied {
            next_seq = last.saturating_add(1);
        }
    }
    let repair: Repair = if good_len < raw_len {
        Repair::Truncate(good_len)
    } else {
        Repair::Keep
    };
    Ok(LoadedLog { ops: keep_past(log.ops, applied), next_seq, wal_bytes: good_len, repair })
}

/// Read a log file on top of the base it extends. A missing log, which only a
/// reader may meet, reads as an empty one.
pub fn load_log(header: &Header, raw: &[u8]) -> (r: Result<LoadedLog>)
    ensures
        match r {
            Ok(l) => loaded(*header, raw@) == Ok::<LoadedV, Fault>(l@) && storable_entries(l.ops@),
            Err(e) => loaded(*header, raw@) == Err::<LoadedV, Fault>(e@),
        },
{
    if raw.len() == 0 {
        let ops: Vec<(u64, Op)> = Vec::new();
        assert(ops_view(ops@) =~= Seq::empty());
        return Ok(
            LoadedLog {
                ops,
                next_seq: header.wal_applied_seq.saturating_add(1),
                wal_bytes: 0,
                repair: Repair::Keep,
            },
        );
    }
    let log: Replay = replay(raw)?;
    settle(header, log, raw.len())
}

/// Publish loaded ops into a fresh overlay.
pub fn fill_arena(ops: &Vec<(u64, Op)>, from: usize, arena: &mut Arena) -> (ok: bool)
    requires
        from <= ops@.len(),
    ensures
        ok <==> old(arena)@.len() + (ops@.len() - from) <= ARENA_CAP || from == ops@.len(),
        ok ==> ops_view(final(arena)@) == ops_view(old(arena)@) + ops_view(ops@).skip(from as int),
        !ok ==> ops_view(final(arena)@) == ops_view(old(arena)@) + ops_view(ops@).skip(
            from as int,
        ).take(room(old(arena)@.len())),
        storable_entries(old(arena)@) && storable_entries(ops@) ==> storable_entries(final(arena)@),
{
    let ghost before = ops_view(arena@);
    let ghost start = arena@.len();
    let n: usize = ops.len();
    let mut i: usize = from;
    assert(ops_view(arena@) =~= before + ops_view(ops@).subrange(from as int, from as int));
    while i < n
        invariant
            from <= i <= n == ops@.len(),
            start == old(arena)@.len(),
            before == ops_view(old(arena)@),
            arena@.len() == start + (i - from),
            start + (i - from) <= ARENA_CAP || i == from,
            ops_view(arena@) == before + ops_view(ops@).subrange(from as int, i as int),
            storable_entries(old(arena)@) && storable_entries(ops@) ==> storable_entries(arena@),
        decreases n - i,
    {
        let ghost was = arena@;
        let op: Op = ops[i].1.clone();
        if !arena.publish(ops[i].0, op) {
            assert(ops_view(ops@).skip(from as int).take(room(start)) =~= ops_view(ops@).subrange(
                from as int,
                i as int,
            ));
            return false;
        }
        assert(ops_view(arena@) =~= ops_view(was).push((ops@[i as int].0, op@)));
        assert(ops_view(ops@).subrange(from as int, i + 1) =~= ops_view(ops@).subrange(
            from as int,
            i as int,
        ).push(ops_view(ops@)[i as int]));
        assert(ops_view(arena@) =~= before + ops_view(ops@).subrange(from as int, i + 1));
        i = i + 1;
    }
    assert(ops_view(ops@).subrange(from as int, n as int) =~= ops_view(ops@).skip(from as int));
    true
}

/// How a reader catches up with what it found on disk.
#[derive(Clone, Copy, Debug, PartialEq, Eq, Structural)]
pub enum Reload {
    /// Nothing new became visible.
    Current,
    /// The same generation has more ops: publish those from this one on.
    Extend(usize),
    /// A new generation is there: install it.
    Install,
}

/// How a reader that shows `have` ops of generation `shown` catches up.
pub open spec fn catching_up(shown: u64, have: usize, on_disk: u64, found: usize) -> Reload {
    if on_disk != shown {
        Reload::Install
    } else if found > have {
        Reload::Extend(have)
    } else {
        Reload::Current
    }
}

/// Decide how a reader that shows `have` ops of generation `shown` catches up
/// with `found` ops of generation `on_disk`.
pub fn reload_plan(shown: u64, have: usize, on_disk: u64, found: usize) -> (r: Reload)
    ensures
        r == (if on_disk != shown {
            Reload::Install
        } else if found > have {
            Reload::Extend(have)
        } else {
            Reload::Current
        }),
        r == catching_up(shown, have, on_disk, found),
{
    if on_disk != shown {
        Reload::Install
    } else if found > have {
        Reload::Extend(have)
    } else {
        Reload::Current
    }
}

// ---- laws -----------------------------------------------------------------

proof fn lemma_past_all(ops: Seq<(u64, OpV)>, applied: u64)
    requires
        forall|i: int| 0 <= i < ops.len() ==> (#[trigger] ops[i]).0 > applied,
    ensures
        past(ops, applied) == ops,
    decreases ops.len(),
{
    if ops.len() > 0 {
        let pre = ops.drop_last();
        assert forall|i: int| 0 <= i < pre.len() implies (#[trigger] pre[i]).0 > applied by {
            assert(pre[i] == ops[i]);
        }
        lemma_past_all(pre, applied);
        assert(ops[ops.len() - 1].0 > applied);
        assert(pre.push(ops.last()) =~= ops);
    } else {
        assert(ops =~= Seq::empty());
    }
}

/// Reopening a store gives back every op that was logged on top of its base,
/// wherever the log is cut after them: a torn tail costs only what was torn,
/// and the next op continues the numbering.
pub proof fn law_reopen_gives_back_the_log(
    h: Header,
    created_at_ms: u64,
    ops: Seq<(u64, OpV)>,
    cut: int,
    k: int,
)
    requires
        crate::format::wal::loggable_ops(ops),
        forall|i: int| 0 <= i < ops.len() ==> (#[trigger] ops[i]).0 > h.wal_applied_seq,
        0 <= k <= ops.len(),
        crate::format::wal::log_bytes(h.generation, created_at_ms, ops.take(k)).len() <= cut,
        cut <= crate::format::wal::log_bytes(h.generation, created_at_ms, ops).len(),
        k < ops.len() ==> cut < crate::format::wal::log_bytes(
            h.generation,
            created_at_ms,
            ops.take(k + 1),
        ).len(),
        cut <= usize::MAX,
    ensures
        ({
            let torn = crate::format::wal::log_bytes(h.generation, created_at_ms, ops).take(cut);
            let whole = crate::format::wal::log_bytes(
                h.generation,
                created_at_ms,
                ops.take(k),
            ).len();
            &&& loaded(h, torn) matches Ok(l)
            &&& l.ops == ops.take(k)
            &&& l.wal_bytes == whole
            &&& l.repair == (if whole < cut {
                Repair::Truncate(whole as usize)
            } else {
                Repair::Keep
            })
            &&& k > 0 ==> l.next_seq == after(ops[k - 1].0)
            &&& k == 0 ==> l.next_seq == after(h.wal_applied_seq)
        }),
{
    crate::format::wal::law_torn_log_keeps_whole_frames(
        h.generation,
        created_at_ms,
        ops,
        cut,
        k,
    );
    crate::format::wal::lemma_log_len(h.generation, created_at_ms, ops.take(k));
    let pre = ops.take(k);
    assert forall|i: int| 0 <= i < pre.len() implies (#[trigger] pre[i]).0 > h.wal_applied_seq by {
        assert(pre[i] == ops[i]);
    }
    lemma_past_all(pre, h.wal_applied_seq);
    if k > 0 {
        assert(pre.last() == ops[k - 1]);
    }
}

/// A log whose ops the base has folded adds nothing, whether it still names
/// the old generation or was not reset before a crash.
pub proof fn law_folded_ops_are_skipped(
    h: Header,
    base_generation: u64,
    ops: Seq<(u64, OpV)>,
    good_len: nat,
    raw_len: nat,
)
    requires
        base_generation <= h.generation,
        forall|i: int| 0 <= i < ops.len() ==> (#[trigger] ops[i]).0 <= h.wal_applied_seq,
    ensures
        settled(h, base_generation, ops, good_len, raw_len) matches Ok(l) && l.ops.len() == 0
            && l.next_seq == after(h.wal_applied_seq),
{
    lemma_past_none(ops, h.wal_applied_seq);
    if ops.len() > 0 {
        assert(ops[ops.len() - 1].0 <= h.wal_applied_seq);
    }
}

/// A compaction that was interrupted after its base was in place recovers: the
/// log still belongs to the generation before, so a reader takes nothing from
/// it, a writable opener starts a fresh one, and numbering goes on after what
/// the base has folded.
pub proof fn law_interrupted_compaction_recovers(
    h: Header,
    base_generation: u64,
    created_at_ms: u64,
    ops: Seq<(u64, OpV)>,
)
    requires
        base_generation < h.generation,
        crate::format::wal::loggable_ops(ops),
        crate::format::wal::log_bytes(base_generation, created_at_ms, ops).len() <= usize::MAX,
    ensures
        loaded(h, crate::format::wal::log_bytes(base_generation, created_at_ms, ops)) matches Ok(l)
            && l.ops.len() == 0 && l.next_seq == after(h.wal_applied_seq) && l.repair
            == Repair::Reset,
{
    crate::format::wal::law_log_round_trip(base_generation, created_at_ms, ops);
    crate::format::wal::lemma_log_len(base_generation, created_at_ms, ops);
}

proof fn lemma_past_none(ops: Seq<(u64, OpV)>, applied: u64)
    requires
        forall|i: int| 0 <= i < ops.len() ==> (#[trigger] ops[i]).0 <= applied,
    ensures
        past(ops, applied).len() == 0,
    decreases ops.len(),
{
    if ops.len() > 0 {
        let pre = ops.drop_last();
        assert forall|i: int| 0 <= i < pre.len() implies (#[trigger] pre[i]).0 <= applied by {
            assert(pre[i] == ops[i]);
        }
        lemma_past_none(pre, applied);
        assert(ops[ops.len() - 1].0 <= applied);
    }
}

} // verus!
