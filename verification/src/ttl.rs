//! Adaptive freshness. Every document node carries a revalidation interval
//! that grows geometrically while the source is observed unchanged and is cut
//! sharply when it changes, in integer arithmetic with explicit clamps.
//! Important nodes are checked more often via a permille bias.
use vstd::prelude::*;

verus! {

/// The outcome of one revalidation observation.
#[derive(Clone, Copy, Debug, PartialEq, Eq, Structural)]
pub enum Outcome {
    /// Source unchanged (304, or identical content hash).
    Unchanged,
    /// Source content changed.
    Changed,
    /// Transient failure (network, 5xx); retry soon, do not penalize.
    Error,
    /// Source is gone (404/403/401); the node is tombstoned.
    Gone,
}

impl Outcome {
    pub open spec fn tag(self) -> u8 {
        match self {
            Outcome::Unchanged => 0,
            Outcome::Changed => 1,
            Outcome::Error => 2,
            Outcome::Gone => 3,
        }
    }

    pub open spec fn of_tag(tag: u8) -> Outcome {
        if tag == 0 {
            Outcome::Unchanged
        } else if tag == 1 {
            Outcome::Changed
        } else if tag == 3 {
            Outcome::Gone
        } else {
            Outcome::Error
        }
    }

    /// On-disk tag.
    pub fn as_tag(self) -> (t: u8)
        ensures
            t == self.tag(),
    {
        match self {
            Outcome::Unchanged => 0,
            Outcome::Changed => 1,
            Outcome::Error => 2,
            Outcome::Gone => 3,
        }
    }

    /// Decode an on-disk tag (unknown tags degrade to `Error`, the neutral
    /// outcome, rather than failing replay).
    pub fn from_tag(tag: u8) -> (o: Self)
        ensures
            o == Outcome::of_tag(tag),
    {
        match tag {
            0 => Outcome::Unchanged,
            1 => Outcome::Changed,
            3 => Outcome::Gone,
            _ => Outcome::Error,
        }
    }
}

/// Every outcome comes back from its tag.
pub proof fn law_outcome_tags_round_trip(o: Outcome)
    ensures
        Outcome::of_tag(o.tag()) == o,
{
}

/// Adaptive-TTL policy.
#[derive(Clone, Copy, Debug, PartialEq, Eq, Structural)]
pub struct TtlConfig {
    /// Interval assigned to a newly ingested node, seconds.
    pub base_s: u32,
    /// Floor, seconds.
    pub min_s: u32,
    /// Ceiling, seconds.
    pub max_s: u32,
    /// Growth ratio numerator (applied per consecutive `Unchanged`).
    pub grow_num: u32,
    /// Growth ratio denominator.
    pub grow_den: u32,
    /// Cut ratio numerator (applied on `Changed`).
    pub cut_num: u32,
    /// Cut ratio denominator.
    pub cut_den: u32,
    /// How strongly importance shortens the effective interval, in permille:
    /// a top-ranked node's interval is scaled by `(1000 - bias) / 1000`.
    pub importance_bias_permille: u32,
}

impl Default for TtlConfig {
    fn default() -> (c: Self)
        ensures
            c == default_ttl(),
    {
        TtlConfig {
            base_s: 21_600,
            min_s: 900,
            max_s: 2_592_000,
            grow_num: 3,
            grow_den: 2,
            cut_num: 1,
            cut_den: 4,
            importance_bias_permille: 500,
        }
    }
}

/// Six hours to start with, between fifteen minutes and thirty days, grown by
/// half and cut to a quarter.
pub open spec fn default_ttl() -> TtlConfig {
    TtlConfig {
        base_s: 21_600,
        min_s: 900,
        max_s: 2_592_000,
        grow_num: 3,
        grow_den: 2,
        cut_num: 1,
        cut_den: 4,
        importance_bias_permille: 500,
    }
}

pub open spec fn max_nat(a: nat, b: nat) -> nat {
    if a >= b {
        a
    } else {
        b
    }
}

pub open spec fn min_nat(a: nat, b: nat) -> nat {
    if a <= b {
        a
    } else {
        b
    }
}

impl TtlConfig {
    /// The floor does not lie above the ceiling.
    pub open spec fn wf(self) -> bool {
        self.min_s <= self.max_s
    }

    pub open spec fn clamped(self, v: nat) -> nat {
        min_nat(max_nat(v, self.min_s as nat), self.max_s as nat)
    }

    /// `interval * num / den`, rounded down (a zero denominator counts as 1),
    /// held between the floor and the ceiling.
    pub open spec fn scaled(self, interval: nat, num: nat, den: nat) -> nat {
        self.clamped(interval * num / max_nat(den, 1))
    }

    /// The next stored interval.
    pub open spec fn after(self, interval: nat, outcome: Outcome) -> nat {
        match outcome {
            Outcome::Unchanged => self.scaled(interval, self.grow_num as nat, self.grow_den as nat),
            Outcome::Changed => self.scaled(interval, self.cut_num as nat, self.cut_den as nat),
            Outcome::Error => self.min_s as nat,
            Outcome::Gone => interval,
        }
    }

    /// The share of the interval, in permille, that a node of this rank waits.
    pub open spec fn wait_permille(self, rank_permille: nat) -> nat {
        (1000 - min_nat(self.importance_bias_permille as nat, 1000) * min_nat(rank_permille, 1000)
            / 1000) as nat
    }

    /// The milliseconds that a node of this interval and rank waits.
    pub open spec fn wait_ms(self, interval: nat, rank_permille: nat) -> nat {
        interval * 1000 * self.wait_permille(rank_permille) / 1000
    }

    /// When a node is next due, in epoch milliseconds.
    pub open spec fn due_at(self, fetched_at_ms: nat, interval: nat, rank_permille: nat) -> nat {
        min_nat(fetched_at_ms + self.wait_ms(interval, rank_permille), u64::MAX as nat)
    }

    fn scale(&self, interval_s: u32, num: u32, den: u32) -> (r: u32)
        requires
            self.wf(),
        ensures
            r == self.scaled(interval_s as nat, num as nat, den as nat),
    {
        let den: u64 = if den == 0 {
            1
        } else {
            den as u64
        };
        assert(interval_s * num <= 0xffff_ffff * 0xffff_ffff) by (nonlinear_arith)
            requires
                0 <= interval_s <= 0xffff_ffff,
                0 <= num <= 0xffff_ffff,
        ;
        let v: u64 = interval_s as u64 * num as u64 / den;
        if v <= self.min_s as u64 {
            self.min_s
        } else if v >= self.max_s as u64 {
            self.max_s
        } else {
            v as u32
        }
    }

    /// The next stored interval after observing `outcome` with the current
    /// `interval_s`. `Gone` keeps the interval (the node is tombstoned and
    /// leaves the schedule); `Error` schedules a floor-interval retry.
    pub fn next_interval(&self, interval_s: u32, outcome: Outcome) -> (r: u32)
        requires
            outcome is Unchanged || outcome is Changed ==> self.wf(),
        ensures
            r == self.after(interval_s as nat, outcome),
    {
        match outcome {
            Outcome::Unchanged => self.scale(interval_s, self.grow_num, self.grow_den),
            Outcome::Changed => self.scale(interval_s, self.cut_num, self.cut_den),
            Outcome::Error => self.min_s,
            Outcome::Gone => interval_s,
        }
    }

    /// When the node is next due, given its rank percentile in permille.
    /// Higher rank means a shorter effective interval, down to
    /// `(1000 - bias) / 1000` of it.
    pub fn next_check_at_ms(&self, fetched_at_ms: u64, interval_s: u32, rank_permille: u16) -> (r:
        u64)
        ensures
            r == self.due_at(fetched_at_ms as nat, interval_s as nat, rank_permille as nat),
    {
        let bias: u64 = if self.importance_bias_permille <= 1000 {
            self.importance_bias_permille as u64
        } else {
            1000
        };
        let rank: u64 = if rank_permille <= 1000 {
            rank_permille as u64
        } else {
            1000
        };
        assert(bias * rank <= 1_000_000) by (nonlinear_arith)
            requires
                0 <= bias <= 1000,
                0 <= rank <= 1000,
        ;
        let mult: u64 = 1000 - bias * rank / 1000;
        let full: u64 = interval_s as u64 * 1000;
        assert(full * mult <= full * 1000) by (nonlinear_arith)
            requires
                0 <= mult <= 1000,
                0 <= full,
        ;
        let wait: u64 = full * mult / 1000;
        fetched_at_ms.saturating_add(wait)
    }
}

/// Whatever is observed, an interval within the bounds stays within them.
pub proof fn law_interval_stays_in_bounds(c: TtlConfig, interval: nat, o: Outcome)
    requires
        c.wf(),
        c.min_s <= interval <= c.max_s,
    ensures
        c.min_s <= c.after(interval, o) <= c.max_s,
{
}

/// While the source is unchanged the interval never shrinks below what it
/// was, up to the ceiling, and the ceiling is kept once reached.
pub proof fn law_unchanged_grows(c: TtlConfig, interval: nat)
    requires
        c.wf(),
        interval <= c.max_s,
        c.grow_num >= c.grow_den,
        c.grow_num > 0,
    ensures
        interval <= c.after(interval, Outcome::Unchanged) <= c.max_s,
        c.after(c.max_s as nat, Outcome::Unchanged) == c.max_s,
{
    let den = max_nat(c.grow_den as nat, 1);
    assert(interval * c.grow_num >= interval * den) by (nonlinear_arith)
        requires
            c.grow_num >= den,
    ;
    vstd::arithmetic::div_mod::lemma_div_is_ordered(
        (interval * den) as int,
        (interval * c.grow_num) as int,
        den as int,
    );
    vstd::arithmetic::div_mod::lemma_div_multiples_vanish(interval as int, den as int);
    assert(interval * den == den * interval) by (nonlinear_arith);
    let m = c.max_s as nat;
    assert(m * c.grow_num >= m * den) by (nonlinear_arith)
        requires
            c.grow_num >= den,
    ;
    vstd::arithmetic::div_mod::lemma_div_is_ordered(
        (m * den) as int,
        (m * c.grow_num) as int,
        den as int,
    );
    vstd::arithmetic::div_mod::lemma_div_multiples_vanish(m as int, den as int);
    assert(m * den == den * m) by (nonlinear_arith);
}

/// A change never lengthens an interval that is at or above the floor, when
/// the cut ratio is at most one.
pub proof fn law_changed_cuts(c: TtlConfig, interval: nat)
    requires
        c.wf(),
        c.min_s <= interval,
        c.cut_num <= c.cut_den,
    ensures
        c.after(interval, Outcome::Changed) <= interval,
        c.min_s <= c.after(interval, Outcome::Changed),
{
    let den = max_nat(c.cut_den as nat, 1);
    assert(interval * c.cut_num <= interval * den) by (nonlinear_arith)
        requires
            c.cut_num <= den,
            c.cut_num >= 0,
    ;
    vstd::arithmetic::div_mod::lemma_div_is_ordered(
        (interval * c.cut_num) as int,
        (interval * den) as int,
        den as int,
    );
    vstd::arithmetic::div_mod::lemma_div_multiples_vanish(interval as int, den as int);
    assert(interval * den == den * interval) by (nonlinear_arith);
}

/// The more important a node, the sooner it is due.
pub proof fn law_rank_never_delays(
    c: TtlConfig,
    fetched_at_ms: nat,
    interval: nat,
    lower: nat,
    higher: nat,
)
    requires
        lower <= higher,
    ensures
        c.due_at(fetched_at_ms, interval, higher) <= c.due_at(fetched_at_ms, interval, lower),
        c.due_at(fetched_at_ms, interval, lower) <= fetched_at_ms + interval * 1000,
{
    let bias = min_nat(c.importance_bias_permille as nat, 1000);
    let a = min_nat(lower, 1000);
    let b = min_nat(higher, 1000);
    assert(bias * a <= bias * b <= 1_000_000) by (nonlinear_arith)
        requires
            a <= b <= 1000,
            bias <= 1000,
    ;
    let full = interval * 1000;
    let wa = c.wait_permille(lower);
    let wb = c.wait_permille(higher);
    assert(wb <= wa <= 1000);
    assert(full * wb <= full * wa <= full * 1000) by (nonlinear_arith)
        requires
            wb <= wa <= 1000,
    ;
}

} // verus!
