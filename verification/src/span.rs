//! Spans of time.

use vstd::arithmetic::power2::*;
use vstd::prelude::*;

use crate::double::Double;

verus! {

/// A span of time: whole seconds, and nanoseconds below one second.
#[derive(Clone, Copy, PartialEq, Eq, Structural, Debug)]
pub struct Span {
    pub secs: u64,
    pub nanos: u32,
}

impl Span {
    /// The nanoseconds make up less than a second.
    pub open spec fn wf(self) -> bool {
        self.nanos < 1_000_000_000
    }

    /// The span in nanoseconds.
    pub open spec fn in_nanos(self) -> int {
        self.secs * 1_000_000_000 + self.nanos
    }

    /// What is left of a span after another, and nothing if the other is longer.
    pub fn saturating_sub(self, other: Span) -> (res: Span)
        requires
            self.wf(),
            other.wf(),
        ensures
            res.wf(),
            res.in_nanos() == (if self.in_nanos() < other.in_nanos() {
                0
            } else {
                self.in_nanos() - other.in_nanos()
            }),
    {
        if self.secs < other.secs || (self.secs == other.secs && self.nanos < other.nanos) {
            Span { secs: 0, nanos: 0 }
        } else if self.nanos >= other.nanos {
            Span { secs: self.secs - other.secs, nanos: self.nanos - other.nanos }
        } else {
            Span {
                secs: self.secs - other.secs - 1,
                nanos: 1_000_000_000 - other.nanos + self.nanos,
            }
        }
    }

    /// Whether a span is at least as long as another.
    pub fn reaches(self, other: Span) -> (res: bool)
        requires
            self.wf(),
            other.wf(),
        ensures
            res == (self.in_nanos() >= other.in_nanos()),
    {
        self.secs > other.secs || (self.secs == other.secs && self.nanos >= other.nanos)
    }
}

/// A span in seconds, as a double.
pub open spec fn seconds(span: Span) -> int {
    crate::double::sum(
        crate::double::whole(span.secs as nat),
        crate::double::quotient(
            crate::double::whole(span.nanos as nat),
            crate::double::whole(1_000_000_000),
        ),
    )
}

/// The double nearest to a thousandth.
pub open spec fn thousandth() -> int {
    crate::double::quotient(crate::double::whole(1), crate::double::whole(1000))
}

/// The seconds over which a rate is taken: those of the span, but a thousandth at least.
pub open spec fn rate_seconds(span: Span) -> int {
    if seconds(span) < thousandth() {
        thousandth()
    } else {
        seconds(span)
    }
}

/// Finds the seconds over which a rate is taken.
pub fn find_rate_seconds(span: Span) -> (res: Double)
    ensures
        res.wf(),
        !res.negative,
        res.mantissa > 0,
        -63 <= res.exponent <= 20,
        res@ == rate_seconds(span),
{
    proof {
        lemma2_to64();
    }
    let whole = Double::from_u64(span.secs);
    let part = Double::from_u64(span.nanos as u64).over(Double::from_u64(1_000_000_000));
    let total = whole.plus(part);
    let least = Double::unity().over(Double::from_u64(1000));
    if total.less(least) {
        least
    } else {
        proof {
            crate::double::lemma_sign(least);
            crate::double::lemma_sign(total);
            crate::double::lemma_magnitudes(total, least);
        }
        total
    }
}

/// A thousandth is more than nothing.
pub proof fn lemma_thousandth_positive()
    ensures
        thousandth() > 0,
{
    crate::double::lemma_whole_monotone(1, 1);
    crate::double::lemma_whole_monotone(1000, 1000);
    crate::double::lemma_whole_exact(1);
    crate::double::lemma_whole_exact(1000);
    lemma_pow2_pos(1074);
    let u = crate::double::one();
    let n = (u * u) as nat;
    let d = (1000 * u) as nat;
    lemma_pow2_strictly_increases(10, 1074);
    lemma2_to64();
    assert(1 * d <= n * 1) by (nonlinear_arith)
        requires
            d == 1000 * u,
            n == u * u,
            u >= 1024,
    ;
    crate::double::lemma_round_monotone(1, 1, n, d);
}

/// Whole seconds are taken as they are.
pub proof fn lemma_whole_seconds(secs: u64)
    ensures
        seconds(Span { secs, nanos: 0 }) == crate::double::whole(secs as nat),
        secs > 0 ==> rate_seconds(Span { secs, nanos: 0 }) == crate::double::whole(secs as nat),
{
    crate::double::lemma_whole_monotone(1_000_000_000, 1_000_000_000);
    crate::double::lemma_zero_quotient(crate::double::whole(1_000_000_000));
    crate::double::lemma_round_again(secs as nat * crate::double::one(), 1);
    if secs > 0 {
        crate::double::lemma_whole_monotone(1, secs as nat);
        crate::double::lemma_share_bounds(1, 1000);
    }
}

/// A rate is taken over a thousandth of a second at least, and else over the span itself.
pub proof fn lemma_rate_seconds(span: Span)
    ensures
        rate_seconds(span) >= crate::double::quotient(
            crate::double::whole(1),
            crate::double::whole(1000),
        ),
        rate_seconds(span) >= seconds(span),
        rate_seconds(span) == seconds(span) || rate_seconds(span) == crate::double::quotient(
            crate::double::whole(1),
            crate::double::whole(1000),
        ),
{
}

} // verus!
