use vstd::prelude::*;
use vstd::std_specs::convert::FromSpecImpl;
use vstd::std_specs::ops::AddSpecImpl;

use crate::message::RouterRow;
use crate::network::ConnectionStats;

verus! {

/// A decimal fraction in fixed point: `value` counts units of `10^-ACC`.
#[derive(Debug, Clone, Copy, PartialEq, Eq)]
pub struct Float<const ACC: u8> {
    pub value: u32,
}

impl<const ACC: u8> Float<ACC> {
    /// The number that has `value` units of `10^-ACC`.
    pub fn from_raw(value: u32) -> (f: Self)
        ensures
            f.value == value,
    {
        Float { value }
    }

    /// The number in units of `10^-ACC`.
    pub fn raw(&self) -> (value: u32)
        ensures
            value == self.value,
    {
        self.value
    }
}

/// A loss of one hundred percent, in hundredths of a percent.
pub const LOSS_FULL: u32 = 10_000;

/// The loss over two links in a row, all in hundredths of a percent: what of
/// the traffic is not let through by both, `1 - (1 - l1)(1 - l2)`, rounded to
/// the nearest hundredth and never below zero.
pub open spec fn loss_plus(l1: int, l2: int) -> int {
    let scaled = LOSS_FULL * (l1 + l2) - l1 * l2;
    if scaled <= 0 {
        0
    } else {
        (scaled + LOSS_FULL / 2) / (LOSS_FULL as int)
    }
}

/// The quality of a path: what it costs to send over it.
#[derive(Debug, Clone, Copy)]
pub struct Metric {
    /// Round-trip time in milliseconds.
    pub rtt: u32,
    /// Share of the traffic that is lost.
    pub loss: Float<2>,
    /// Milliseconds.
    pub jitter: u32,
    /// Kilobits per second.
    pub bandwidth: u32,
}

impl Metric {
    /// Whether the two metrics can be added: the sums of the delays must fit.
    pub open spec fn fits(self, other: Metric) -> bool {
        self.rtt + other.rtt <= u32::MAX && self.jitter + other.jitter <= u32::MAX
    }

    /// The metric of a path made of two parts: delays add up, the narrower
    /// bandwidth rules, and traffic must survive both parts.
    pub open spec fn plus(self, other: Metric) -> Metric {
        Metric {
            rtt: (self.rtt + other.rtt) as u32,
            loss: Float { value: loss_plus(self.loss.value as int, other.loss.value as int) as u32 },
            jitter: (self.jitter + other.jitter) as u32,
            bandwidth: if self.bandwidth <= other.bandwidth {
                self.bandwidth
            } else {
                other.bandwidth
            },
        }
    }

    /// The metric of a connection with the given measurements.
    pub open spec fn of_stats(stats: ConnectionStats) -> Metric {
        Metric {
            rtt: stats.rtt_ms,
            loss: stats.lost_percent,
            jitter: stats.jitter_ms,
            bandwidth: stats.bandwidth_kbps,
        }
    }

    /// What paths are compared by; lower is better.
    pub fn score(&self) -> (s: u32)
        ensures
            s == self.rtt,
    {
        self.rtt
    }

    /// The metric of this path when it is reached over a connection with the
    /// measurements `stats`.
    pub fn add_local(&self, stats: &ConnectionStats) -> (m: Metric)
        requires
            self.fits(Metric::of_stats(*stats)),
        ensures
            m == self.plus(Metric::of_stats(*stats)),
    {
        let add = Metric {
            rtt: stats.rtt_ms,
            loss: stats.lost_percent,
            jitter: stats.jitter_ms,
            bandwidth: stats.bandwidth_kbps,
        };
        *self + add
    }
}

impl core::ops::Add<Metric> for Metric {
    type Output = Metric;

    fn add(self, other: Metric) -> (sum: Metric) {
        Metric {
            rtt: self.rtt + other.rtt,
            loss: compose_loss(self.loss, other.loss),
            jitter: self.jitter + other.jitter,
            bandwidth: if self.bandwidth <= other.bandwidth {
                self.bandwidth
            } else {
                other.bandwidth
            },
        }
    }
}

impl AddSpecImpl<Metric> for Metric {
    open spec fn obeys_add_spec() -> bool {
        true
    }

    open spec fn add_req(self, other: Metric) -> bool {
        self.fits(other)
    }

    open spec fn add_spec(self, other: Metric) -> Metric {
        self.plus(other)
    }
}

impl From<RouterRow> for Metric {
    fn from(value: RouterRow) -> (m: Self) {
        Metric { rtt: value.rtt, loss: value.loss, jitter: value.jitter, bandwidth: value.bandwidth }
    }
}

impl FromSpecImpl<RouterRow> for Metric {
    open spec fn obeys_from_spec() -> bool {
        true
    }

    open spec fn from_spec(value: RouterRow) -> Self {
        Metric { rtt: value.rtt, loss: value.loss, jitter: value.jitter, bandwidth: value.bandwidth }
    }
}

/// The result of `loss_plus` is never more than the larger of its arguments,
/// unless both are below one hundred percent, and then it is below that too.
pub proof fn lemma_loss_plus_bound(l1: int, l2: int)
    requires
        0 <= l1,
        0 <= l2,
    ensures
        0 <= loss_plus(l1, l2),
        l1 <= LOSS_FULL && l2 <= LOSS_FULL ==> loss_plus(l1, l2) <= LOSS_FULL,
        l1 >= LOSS_FULL ==> loss_plus(l1, l2) <= l1,
        l2 >= LOSS_FULL ==> loss_plus(l1, l2) <= l2,
{
    let full = LOSS_FULL as int;
    let scaled = full * (l1 + l2) - l1 * l2;
    assert(scaled == full * l1 + l2 * (full - l1)) by (nonlinear_arith)
        requires
            scaled == full * (l1 + l2) - l1 * l2,
    ;
    assert(scaled == full * l2 + l1 * (full - l2)) by (nonlinear_arith)
        requires
            scaled == full * (l1 + l2) - l1 * l2,
    ;
    if l1 <= full && l2 <= full {
        assert(l2 * (full - l1) <= full * (full - l1)) by (nonlinear_arith)
            requires
                0 <= l2 <= full,
                0 <= full - l1,
        ;
        assert(full * l1 + full * (full - l1) == full * full) by (nonlinear_arith);
    }
    if l1 >= full {
        assert(l2 * (full - l1) <= 0) by (nonlinear_arith)
            requires
                0 <= l2,
                full - l1 <= 0,
        ;
    }
    if l2 >= full {
        assert(l1 * (full - l2) <= 0) by (nonlinear_arith)
            requires
                0 <= l1,
                full - l2 <= 0,
        ;
    }
}

/// The share of the traffic that a loss of `l` lets through, in hundredths of
/// a percent.
pub open spec fn survival(l: int) -> int {
    LOSS_FULL - l
}

/// Composing losses multiplies survivals: the survival of `loss_plus(l1, l2)`
/// is the product of the two survivals, scaled back and off by at most half a
/// unit.
pub proof fn lemma_loss_plus_survival(l1: int, l2: int)
    requires
        0 <= l1 <= LOSS_FULL,
        0 <= l2 <= LOSS_FULL,
    ensures
        0 <= loss_plus(l1, l2) <= LOSS_FULL,
        survival(l1) * survival(l2) - 5000 <= LOSS_FULL * survival(loss_plus(l1, l2)),
        LOSS_FULL * survival(loss_plus(l1, l2)) <= survival(l1) * survival(l2) + 4999,
{
    lemma_loss_plus_bound(l1, l2);
    let full = LOSS_FULL as int;
    let scaled = full * (l1 + l2) - l1 * l2;
    assert(scaled == full * full - (full - l1) * (full - l2)) by (nonlinear_arith)
        requires
            scaled == full * (l1 + l2) - l1 * l2,
    ;
    assert((full - l1) * (full - l2) <= full * full) by (nonlinear_arith)
        requires
            0 <= full - l1 <= full,
            0 <= full - l2 <= full,
    ;
}

/// The order in which two losses are composed does not matter.
pub proof fn lemma_loss_plus_commutative(l1: int, l2: int)
    ensures
        loss_plus(l1, l2) == loss_plus(l2, l1),
{
    assert(l1 * l2 == l2 * l1) by (nonlinear_arith);
}

/// The order in which two metrics are added does not matter.
pub proof fn lemma_plus_commutative(a: Metric, b: Metric)
    ensures
        a.fits(b) == b.fits(a),
        a.plus(b) == b.plus(a),
{
    lemma_loss_plus_commutative(a.loss.value as int, b.loss.value as int);
}

/// For losses of at most one hundred percent, the way in which three of them
/// are grouped changes the result by one hundredth of a percent at most.
pub proof fn lemma_loss_plus_associative(l1: int, l2: int, l3: int)
    requires
        0 <= l1 <= LOSS_FULL,
        0 <= l2 <= LOSS_FULL,
        0 <= l3 <= LOSS_FULL,
    ensures
        -1 <= loss_plus(loss_plus(l1, l2), l3) - loss_plus(l1, loss_plus(l2, l3)) <= 1,
{
    let full = LOSS_FULL as int;
    let s1 = survival(l1);
    let s2 = survival(l2);
    let s3 = survival(l3);
    let left_inner = loss_plus(l1, l2);
    let right_inner = loss_plus(l2, l3);
    let left = loss_plus(left_inner, l3);
    let right = loss_plus(l1, right_inner);
    lemma_loss_plus_survival(l1, l2);
    lemma_loss_plus_survival(l2, l3);
    lemma_loss_plus_survival(left_inner, l3);
    lemma_loss_plus_survival(l1, right_inner);
    let a = survival(left_inner);
    let b = survival(right_inner);
    let x = survival(left);
    let y = survival(right);
    let all = s1 * s2 * s3;
    assert(s1 * (s2 * s3) == all) by (nonlinear_arith)
        requires
            all == s1 * s2 * s3,
    ;
    // full * a is s1 * s2 within half a unit, so full * a * s3 is s1 * s2 * s3 within half of s3
    assert(all - 5000 * s3 <= full * (a * s3) <= all + 4999 * s3) by (nonlinear_arith)
        requires
            s1 * s2 - 5000 <= full * a <= s1 * s2 + 4999,
            0 <= s3,
            all == s1 * s2 * s3,
    ;
    assert(full * (a * s3) - 5000 * full <= full * (full * x) <= full * (a * s3) + 4999 * full)
        by (nonlinear_arith)
        requires
            a * s3 - 5000 <= full * x <= a * s3 + 4999,
            full == 10000,
    ;
    assert(all - 5000 * s1 <= full * (s1 * b) <= all + 4999 * s1) by (nonlinear_arith)
        requires
            s2 * s3 - 5000 <= full * b <= s2 * s3 + 4999,
            0 <= s1,
            all == s1 * (s2 * s3),
    ;
    assert(full * (s1 * b) - 5000 * full <= full * (full * y) <= full * (s1 * b) + 4999 * full)
        by (nonlinear_arith)
        requires
            s1 * b - 5000 <= full * y <= s1 * b + 4999,
            full == 10000,
    ;
    assert(full * (full * x) == 100_000_000 * x && full * (full * y) == 100_000_000 * y)
        by (nonlinear_arith)
        requires
            full == 10000,
    ;
}

/// The loss over two links in a row.
fn compose_loss(l1: Float<2>, l2: Float<2>) -> (l: Float<2>)
    ensures
        l.value == loss_plus(l1.value as int, l2.value as int),
{
    let a: u64 = l1.value as u64;
    let b: u64 = l2.value as u64;
    let full: u64 = LOSS_FULL as u64;
    proof {
        lemma_loss_plus_bound(a as int, b as int);
        assert(a * b <= 0xffff_ffff * 0xffff_ffff) by (nonlinear_arith)
            requires
                0 <= a <= 0xffff_ffff,
                0 <= b <= 0xffff_ffff,
        ;
    }
    let gross: u64 = full * (a + b);
    let both: u64 = a * b;
    if both >= gross {
        Float { value: 0 }
    } else {
        let rounded: u64 = (gross - both + full / 2) / full;
        Float { value: rounded as u32 }
    }
}

} // verus!
