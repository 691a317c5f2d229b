//! The bisection search state.

use vstd::prelude::*;

verus! {

/// Fixed-point scale: a trait value `t` in `[-1, 1]` is represented by the
/// integer `t * SCALE`, with `SCALE = 2^21`. The search starts on the
/// interval `[-SCALE, SCALE]` and halves it until its width is `2`, which
/// is the first power of two below the convergence threshold `1e-6 * SCALE`.
pub const SCALE: i64 = 2097152;

/// Whether `n` is a power of two.
pub open spec fn is_pow2(n: int) -> bool
    decreases n,
{
    if n <= 0 {
        false
    } else if n == 1 {
        true
    } else {
        n % 2 == 0 && is_pow2(n / 2)
    }
}

/// One bisection search over the fixed interval `[-SCALE, SCALE]`.
///
/// `low` and `high` are the current interval endpoints in fixed-point form.
/// The search is driven from outside: the caller evaluates the cost
/// function (the log-likelihood gradient) at `midpoint()` and passes the
/// resulting decision to `step`, until `converged()` holds.
pub struct Bisection {
    pub low: i64,
    pub high: i64,
}

impl Bisection {
    /// Interval width.
    pub open spec fn width(self) -> int {
        self.high - self.low
    }

    /// Validity: the interval is inside `[-SCALE, SCALE]` and its width is
    /// a power of two no smaller than `2`. Every state reachable from
    /// `new` through `step` satisfies this.
    pub open spec fn wf(self) -> bool {
        &&& -(SCALE as int) <= self.low
        &&& self.high <= SCALE as int
        &&& self.low < self.high
        &&& 2 <= self.width()
        &&& is_pow2(self.width())
    }

    /// The interval midpoint, exact because the width is even.
    pub open spec fn spec_mid(self) -> int {
        (self.low + self.high) / 2
    }

    /// The search has converged once the width reaches `2` (that is,
    /// `2^-20` on the trait scale, just below the `1e-6` threshold).
    pub open spec fn spec_converged(self) -> bool {
        self.width() <= 2
    }

    /// The state after one bisection step: `down` keeps the lower half
    /// (the cost at the midpoint was below the threshold, so the root lies
    /// at or below it), otherwise the upper half is kept.
    pub open spec fn spec_step(self, down: bool) -> Bisection {
        if down {
            Bisection { low: self.low, high: self.spec_mid() as i64 }
        } else {
            Bisection { low: self.spec_mid() as i64, high: self.high }
        }
    }

    /// Start a search over the full interval `[-SCALE, SCALE]`.
    pub fn new() -> (s: Bisection)
        ensures
            s.low == -SCALE,
            s.high == SCALE,
            s.wf(),
    {
        let s = Bisection { low: -SCALE, high: SCALE };
        proof {
            lemma_initial_wf(s);
        }
        s
    }

    /// Whether the interval has shrunk to its final width.
    pub fn converged(&self) -> (r: bool)
        requires
            self.wf(),
        ensures
            r == self.spec_converged(),
    {
        self.high - self.low <= 2
    }

    /// The current midpoint, at which the caller evaluates the cost.
    pub fn midpoint(&self) -> (m: i64)
        requires
            self.wf(),
        ensures
            m == self.spec_mid(),
            self.low < m < self.high,
    {
        proof {
            lemma_mid_between(*self);
        }
        let w: i64 = self.high - self.low;
        self.low + w / 2
    }

    /// One bisection step. The interval halves and stays nested in the
    /// old one; `down` keeps the lower half, otherwise the upper half.
    pub fn step(&mut self, down: bool)
        requires
            old(self).wf(),
            !old(self).spec_converged(),
        ensures
            *final(self) == old(self).spec_step(down),
            final(self).wf(),
            2 * final(self).width() == old(self).width(),
            old(self).low <= final(self).low,
            final(self).high <= old(self).high,
    {
        proof {
            lemma_step_shape(*self, down);
        }
        let mid: i64 = self.midpoint();
        if down {
            self.high = mid;
        } else {
            self.low = mid;
        }
    }

    /// The estimate a converged search returns: the midpoint of the final
    /// width-2 interval. It lies strictly inside `(-SCALE, SCALE)`.
    pub fn estimate(&self) -> (e: i64)
        requires
            self.wf(),
            self.spec_converged(),
        ensures
            e == self.spec_mid(),
            -SCALE < e < SCALE,
    {
        self.midpoint()
    }

    /// Run-time check of `wf`, for callers outside the verified world.
    pub fn well_formed(&self) -> (r: bool)
        ensures
            r == self.wf(),
    {
        if self.low < -SCALE || self.high > SCALE || self.low >= self.high {
            return false;
        }
        let w: i64 = self.high - self.low;
        if w < 2 {
            return false;
        }
        pow2_check(w)
    }
}

/// `2^22` is a power of two.
proof fn lemma_pow2_4194304()
    ensures
        is_pow2(4194304),
{
    reveal_with_fuel(is_pow2, 25);
    assert(is_pow2(4194304));
}

/// The state a search starts from: the whole interval `[-SCALE, SCALE]`.
pub open spec fn spec_start() -> Bisection {
    Bisection { low: (-SCALE) as i64, high: SCALE }
}

/// A state that spans the whole interval `[-SCALE, SCALE]` is valid.
pub proof fn lemma_initial_wf(s: Bisection)
    requires
        s.low == -SCALE,
        s.high == SCALE,
    ensures
        s.wf(),
        s.width() == 4194304,
{
    lemma_pow2_4194304();
}

/// Under `wf` the endpoint sum is even, so the midpoint is exact and lies
/// strictly between the endpoints.
pub proof fn lemma_mid_between(s: Bisection)
    requires
        s.wf(),
    ensures
        (s.low + s.high) % 2 == 0,
        s.low + s.width() / 2 == s.spec_mid(),
        s.low < s.spec_mid() < s.high,
{
    assert(s.width() % 2 == 0);
    assert(s.low + s.high == 2 * s.low + s.width());
}

/// Shape of one search step from a valid, unconverged state: the result is
/// valid, has half the width, and is nested in the old interval.
pub proof fn lemma_step_shape(s: Bisection, down: bool)
    requires
        s.wf(),
        !s.spec_converged(),
    ensures
        s.spec_step(down).wf(),
        2 * s.spec_step(down).width() == s.width(),
        s.low <= s.spec_step(down).low,
        s.spec_step(down).high <= s.high,
        down ==> s.spec_step(down).low == s.low && s.spec_step(down).high == s.spec_mid(),
        !down ==> s.spec_step(down).low == s.spec_mid() && s.spec_step(down).high == s.high,
{
    lemma_mid_between(s);
    assert(is_pow2(s.width() / 2));
}

/// Loop form of the power-of-two test: halve until odd.
fn pow2_check(n: i64) -> (r: bool)
    requires
        n >= 1,
    ensures
        r == is_pow2(n as int),
{
    let mut m: i64 = n;
    while m >= 2 && m % 2 == 0
        invariant
            1 <= m <= n,
            is_pow2(n as int) == is_pow2(m as int),
        decreases m,
    {
        m = m / 2;
    }
    m == 1
}

} // verus!
