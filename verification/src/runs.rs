//! Whole searches: their verified drivers and their properties.
//!
//! A search is driven by a decision oracle: for each midpoint the caller
//! evaluates, it answers whether the search moves down. `run` plays a
//! search out in the ghost world against such an oracle, and the proof
//! functions here state what holds of every search: it converges in
//! exactly 21 steps whatever the oracle answers, it never leaves the
//! starting interval, ordered oracles give ordered estimates, and an
//! oracle that always answers the same way drives the estimate to the
//! corresponding end of the interval.
//!
//! `search_with` and `estimate_each` are the executable counterparts:
//! they play a search (one per subject, for `estimate_each`) against a
//! caller's decision procedure, and their contracts tie the returned
//! estimates to runs of the ghost model, so the laws above apply to
//! them.

use vstd::prelude::*;
use crate::search::Bisection;
use crate::search::SCALE;
use crate::search::lemma_initial_wf;
use crate::search::lemma_mid_between;
use crate::search::lemma_step_shape;
use crate::search::spec_start;

verus! {

/// `2^k`.
pub open spec fn pow2(k: nat) -> int
    decreases k,
{
    if k == 0 {
        1
    } else {
        2 * pow2((k - 1) as nat)
    }
}

/// The number of steps a search over the full interval takes to converge:
/// the width `2 * SCALE = 2^22` halves each step until it reaches `2`.
pub const STEPS: u32 = 21;

/// The state reached after `n` bisection steps driven by the oracle `o`,
/// which is consulted at each midpoint in turn.
pub open spec fn run(s: Bisection, o: spec_fn(int) -> bool, n: nat) -> Bisection
    decreases n,
{
    if n == 0 {
        s
    } else {
        run(s.spec_step(o(s.spec_mid())), o, (n - 1) as nat)
    }
}

/// Powers of two are positive.
pub proof fn lemma_pow2_pos(k: nat)
    ensures
        pow2(k) >= 1,
    decreases k,
{
    if k > 0 {
        lemma_pow2_pos((k - 1) as nat);
    }
}

/// `pow2` is monotone.
pub proof fn lemma_pow2_le(a: nat, b: nat)
    requires
        a <= b,
    ensures
        pow2(a) <= pow2(b),
    decreases b,
{
    if a < b {
        lemma_pow2_le(a, (b - 1) as nat);
        lemma_pow2_pos((b - 1) as nat);
    }
}

/// A search stays valid and nested in its starting interval, and after
/// `n` steps its width is the starting width divided by `2^n`, whatever
/// the oracle answers.
pub proof fn lemma_run_wf(s: Bisection, o: spec_fn(int) -> bool, n: nat)
    requires
        s.wf(),
        s.width() >= 2 * pow2(n),
    ensures
        run(s, o, n).wf(),
        run(s, o, n).width() * pow2(n) == s.width(),
        s.low <= run(s, o, n).low,
        run(s, o, n).high <= s.high,
    decreases n,
{
    if n > 0 {
        let d = o(s.spec_mid());
        lemma_pow2_pos((n - 1) as nat);
        lemma_step_shape(s, d);
        let t = s.spec_step(d);
        lemma_run_wf(t, o, (n - 1) as nat);
        assert(run(t, o, (n - 1) as nat).width() * pow2(n) == s.width())
            by (nonlinear_arith)
            requires
                pow2(n) == 2 * pow2((n - 1) as nat),
                run(t, o, (n - 1) as nat).width() * pow2((n - 1) as nat) == t.width(),
                s.width() == 2 * t.width(),
        ;
    }
}

/// The concrete powers of two the convergence argument needs.
proof fn lemma_pow2_values()
    ensures
        pow2(20) == 1048576,
        pow2(21) == 2097152,
        pow2(22) == 4194304,
{
    reveal_with_fuel(pow2, 25);
}

/// Termination, independent of the cost function: from the full interval,
/// any oracle whatsoever drives the search to convergence in exactly
/// `STEPS` steps, no earlier and no later.
pub proof fn lemma_search_converges(s: Bisection, o: spec_fn(int) -> bool)
    requires
        s.low == -SCALE,
        s.high == SCALE,
    ensures
        s.wf(),
        run(s, o, STEPS as nat).wf(),
        run(s, o, STEPS as nat).spec_converged(),
        forall|k: nat| k < STEPS ==> !run(s, o, k).spec_converged(),
{
    lemma_initial_wf(s);
    lemma_pow2_values();
    lemma_run_wf(s, o, STEPS as nat);
    assert forall|k: nat| k < STEPS implies !run(s, o, k).spec_converged() by {
        lemma_pow2_le(k, 20);
        lemma_pow2_pos(k);
        lemma_run_wf(s, o, k);
        assert(run(s, o, k).width() > 2) by (nonlinear_arith)
            requires
                run(s, o, k).width() * pow2(k) == 4194304,
                1 <= pow2(k) <= 1048576,
        ;
    }
}

/// `run` unrolled at the back: one more step applies `spec_step` to the
/// state already reached, with the oracle consulted at its midpoint.
pub proof fn lemma_run_snoc(s: Bisection, o: spec_fn(int) -> bool, n: nat)
    ensures
        run(s, o, n + 1) == run(s, o, n).spec_step(o(run(s, o, n).spec_mid())),
    decreases n,
{
    let t = s.spec_step(o(s.spec_mid()));
    assert(run(s, o, n + 1) == run(t, o, n));
    if n > 0 {
        lemma_run_snoc(t, o, (n - 1) as nat);
        assert(run(s, o, n) == run(t, o, (n - 1) as nat));
    }
}

/// Two oracles that agree at every midpoint a run actually visits drive
/// the run through the same states.
pub proof fn lemma_run_agree(s: Bisection, o1: spec_fn(int) -> bool, o2: spec_fn(int) -> bool, n: nat)
    requires
        forall|i: nat| i < n ==> o1(#[trigger] run(s, o1, i).spec_mid()) == o2(run(s, o1, i).spec_mid()),
    ensures
        forall|i: nat| i <= n ==> #[trigger] run(s, o2, i) == run(s, o1, i),
    decreases n,
{
    if n > 0 {
        assert(run(s, o1, 0) == s);
        assert(o1(s.spec_mid()) == o2(s.spec_mid()));
        let t = s.spec_step(o1(s.spec_mid()));
        assert forall|i: nat| i < n - 1 implies o1(#[trigger] run(t, o1, i).spec_mid())
            == o2(run(t, o1, i).spec_mid()) by {
            assert(run(s, o1, i + 1) == run(t, o1, i));
        }
        lemma_run_agree(t, o1, o2, (n - 1) as nat);
        assert forall|i: nat| i <= n implies #[trigger] run(s, o2, i) == run(s, o1, i) by {
            if i > 0 {
                assert(run(t, o2, (i - 1) as nat) == run(t, o1, (i - 1) as nat));
                assert(run(s, o1, i) == run(t, o1, (i - 1) as nat));
                assert(run(s, o2, i) == run(t, o2, (i - 1) as nat));
            }
        }
    }
}

/// Ordered oracles give ordered searches. If at every midpoint a
/// downward answer from `o1` implies a downward answer from `o2` — for
/// the response model: `o2` belongs to a response vector with pointwise
/// smaller cost — then the search driven by `o2` never ends above the one
/// driven by `o1`. The ghost argument `j` witnesses that the two
/// intervals, which always have the same width, sit on the same dyadic
/// grid: their lower endpoints differ by `j` widths.
pub proof fn lemma_run_ordered(
    s1: Bisection,
    s2: Bisection,
    o1: spec_fn(int) -> bool,
    o2: spec_fn(int) -> bool,
    n: nat,
    j: int,
)
    requires
        s1.wf(),
        s2.wf(),
        s1.width() == s2.width(),
        s1.width() >= 2 * pow2(n),
        s2.low <= s1.low,
        s2.high <= s1.high,
        s1.low - s2.low == j * s1.width(),
        forall|m: int| #[trigger] o1(m) ==> o2(m),
    ensures
        run(s2, o2, n).low <= run(s1, o1, n).low,
        run(s2, o2, n).high <= run(s1, o1, n).high,
    decreases n,
{
    if n > 0 {
        let w: int = s1.width();
        let h: int = w / 2;
        lemma_pow2_pos((n - 1) as nat);
        let m1: int = s1.spec_mid();
        let m2: int = s2.spec_mid();
        let d1 = o1(m1);
        let d2 = o2(m2);
        lemma_mid_between(s1);
        lemma_mid_between(s2);
        lemma_step_shape(s1, d1);
        lemma_step_shape(s2, d2);
        let t1 = s1.spec_step(d1);
        let t2 = s2.spec_step(d2);
        assert(w == 2 * h);
        assert(m1 == s1.low + h);
        assert(m2 == s2.low + h);
        assert(j >= 0) by (nonlinear_arith)
            requires
                s1.low - s2.low == j * w,
                s1.low - s2.low >= 0,
                w > 0,
        ;
        if j == 0 {
            assert(s1.low == s2.low);
            assert(s1.high == s2.high);
            if d1 {
                assert(o2(m1));
                assert(d2);
            }
        } else {
            assert(s1.low - s2.low >= w) by (nonlinear_arith)
                requires
                    j >= 1,
                    s1.low - s2.low == j * w,
                    w > 0,
            ;
        }
        let j2: int = if d1 == d2 {
            2 * j
        } else if d1 {
            2 * j - 1
        } else {
            2 * j + 1
        };
        assert(t1.low - t2.low == j2 * h) by (nonlinear_arith)
            requires
                s1.low - s2.low == j * w,
                w == 2 * h,
                t1.low == if d1 { s1.low as int } else { s1.low + h },
                t2.low == if d2 { s2.low as int } else { s2.low + h },
                j2 == (if d1 == d2 { 2 * j } else if d1 { 2 * j - 1 } else { 2 * j + 1 }),
        ;
        assert(t2.low <= t1.low);
        assert(t2.high <= t1.high);
        lemma_run_ordered(t1, t2, o1, o2, (n - 1) as nat, j2);
    }
}

/// Monotonicity of the final estimate. Two full searches over
/// `[-SCALE, SCALE]` whose oracles are pointwise ordered — wherever `o1`
/// moves down, `o2` moves down too — end with ordered estimates: the
/// `o2` estimate is at most the `o1` estimate.
pub proof fn lemma_estimate_ordered(
    s: Bisection,
    o1: spec_fn(int) -> bool,
    o2: spec_fn(int) -> bool,
)
    requires
        s.low == -SCALE,
        s.high == SCALE,
        forall|m: int| #[trigger] o1(m) ==> o2(m),
    ensures
        run(s, o2, STEPS as nat).spec_mid() <= run(s, o1, STEPS as nat).spec_mid(),
{
    lemma_initial_wf(s);
    lemma_pow2_values();
    lemma_run_ordered(s, s, o1, o2, STEPS as nat, 0);
    lemma_search_converges(s, o1);
    lemma_search_converges(s, o2);
    lemma_mid_between(run(s, o1, STEPS as nat));
    lemma_mid_between(run(s, o2, STEPS as nat));
}

/// An oracle that never moves down never touches the upper endpoint.
pub proof fn lemma_run_all_up(s: Bisection, o: spec_fn(int) -> bool, n: nat)
    requires
        s.wf(),
        s.width() >= 2 * pow2(n),
        forall|m: int| !(#[trigger] o(m)),
    ensures
        run(s, o, n).high == s.high,
    decreases n,
{
    if n > 0 {
        lemma_pow2_pos((n - 1) as nat);
        let d = o(s.spec_mid());
        lemma_step_shape(s, d);
        lemma_run_all_up(s.spec_step(d), o, (n - 1) as nat);
    }
}

/// An oracle that always moves down never touches the lower endpoint.
pub proof fn lemma_run_all_down(s: Bisection, o: spec_fn(int) -> bool, n: nat)
    requires
        s.wf(),
        s.width() >= 2 * pow2(n),
        forall|m: int| #[trigger] o(m),
    ensures
        run(s, o, n).low == s.low,
    decreases n,
{
    if n > 0 {
        lemma_pow2_pos((n - 1) as nat);
        let d = o(s.spec_mid());
        lemma_step_shape(s, d);
        lemma_run_all_down(s.spec_step(d), o, (n - 1) as nat);
    }
}

/// Degenerate searches from the full interval. If the cost never falls
/// below the threshold — for the response model: every response sits at
/// its maximum, with positive slopes — the search converges to the upper
/// bound: the estimate is `SCALE - 1`, within one fixed-point unit
/// (`2^-21 < 1e-6`) of the top. Symmetrically, a cost always below the
/// threshold drives the estimate to `-SCALE + 1`.
pub proof fn lemma_estimate_degenerate(s: Bisection, o: spec_fn(int) -> bool)
    requires
        s.low == -SCALE,
        s.high == SCALE,
    ensures
        (forall|m: int| !(#[trigger] o(m))) ==> run(s, o, STEPS as nat).spec_mid() == SCALE - 1,
        (forall|m: int| #[trigger] o(m)) ==> run(s, o, STEPS as nat).spec_mid() == -SCALE + 1,
{
    lemma_initial_wf(s);
    lemma_pow2_values();
    lemma_search_converges(s, o);
    lemma_mid_between(run(s, o, STEPS as nat));
    if forall|m: int| !(#[trigger] o(m)) {
        lemma_run_all_up(s, o, STEPS as nat);
    }
    if forall|m: int| #[trigger] o(m) {
        lemma_run_all_down(s, o, STEPS as nat);
    }
}

/// The oracle `o` answers, at every midpoint its own run from the full
/// interval visits, as the decision procedure `f` may answer there.
pub open spec fn decides<F: Fn(i64) -> bool>(o: spec_fn(int) -> bool, f: F) -> bool {
    forall|i: nat|
        i < STEPS ==> call_ensures(
            f,
            ((#[trigger] run(spec_start(), o, i)).spec_mid() as i64,),
            o(run(spec_start(), o, i).spec_mid()),
        )
}

/// One whole search, verified end to end. The caller supplies the
/// decision procedure: given a midpoint in fixed-point form, strictly
/// inside the interval, it answers whether the search moves down — for
/// the response model, whether the log-likelihood gradient there falls
/// below the threshold. The estimate lies strictly inside the interval
/// and is exactly the outcome of a `run` of the ghost model against an
/// oracle that answers as the decision procedure does, so every law
/// proved of `run` holds of it.
pub fn search_with<F: Fn(i64) -> bool>(decide: F) -> (theta: i64)
    requires
        forall|m: i64| -SCALE < m < SCALE ==> #[trigger] call_requires(decide, (m,)),
    ensures
        -SCALE < theta < SCALE,
        exists|o: spec_fn(int) -> bool|
            theta == run(spec_start(), o, STEPS as nat).spec_mid() && decides(o, decide),
{
    let mut search = Bisection::new();
    let ghost mut oracle: spec_fn(int) -> bool = |mm: int| true;
    let ghost mut k: nat = 0;
    proof {
        lemma_initial_wf(search);
        assert(search == spec_start());
    }
    while !search.converged()
        invariant
            search.wf(),
            search == run(spec_start(), oracle, k),
            search.width() * pow2(k) == 4194304,
            forall|i: nat| i < k
                ==> !(search.low < #[trigger] run(spec_start(), oracle, i).spec_mid()
                    < search.high),
            forall|i: nat| i < k
                ==> call_ensures(
                    decide,
                    ((#[trigger] run(spec_start(), oracle, i)).spec_mid() as i64,),
                    oracle(run(spec_start(), oracle, i).spec_mid()),
                ),
            forall|m: i64| -SCALE < m < SCALE ==> #[trigger] call_requires(decide, (m,)),
        decreases search.high - search.low,
    {
        let mid: i64 = search.midpoint();
        let down = decide(mid);
        let ghost prev = search;
        search.step(down);
        proof {
            lemma_mid_between(prev);
            lemma_step_shape(prev, down);
            let o2: spec_fn(int) -> bool = |mm: int|
                if mm == prev.spec_mid() {
                    down
                } else {
                    oracle(mm)
                };
            assert forall|i: nat| i < k implies oracle(
                #[trigger] run(spec_start(), oracle, i).spec_mid(),
            ) == o2(run(spec_start(), oracle, i).spec_mid()) by {
                assert(run(spec_start(), oracle, i).spec_mid() != prev.spec_mid());
            }
            lemma_run_agree(spec_start(), oracle, o2, k);
            assert(run(spec_start(), o2, k) == prev);
            lemma_run_snoc(spec_start(), o2, k);
            assert(o2(prev.spec_mid()) == down);
            assert(search == run(spec_start(), o2, k + 1));
            assert(search.width() * pow2(k + 1) == 4194304) by (nonlinear_arith)
                requires
                    2 * search.width() == prev.width(),
                    prev.width() * pow2(k) == 4194304,
                    pow2(k + 1) == 2 * pow2(k),
            ;
            assert forall|i: nat| i < k + 1 implies !(search.low < #[trigger] run(
                spec_start(),
                o2,
                i,
            ).spec_mid() < search.high) by {
                if i < k {
                    assert(run(spec_start(), o2, i) == run(spec_start(), oracle, i));
                } else {
                    assert(run(spec_start(), o2, i) == prev);
                }
            }
            assert((prev.spec_mid() as i64) == mid);
            assert forall|i: nat| i < k + 1 implies call_ensures(
                decide,
                ((#[trigger] run(spec_start(), o2, i)).spec_mid() as i64,),
                o2(run(spec_start(), o2, i).spec_mid()),
            ) by {
                if i < k {
                    assert(run(spec_start(), o2, i) == run(spec_start(), oracle, i));
                } else {
                    assert(run(spec_start(), o2, i) == prev);
                    assert(o2(prev.spec_mid()) == down);
                }
            }
            oracle = o2;
            k = k + 1;
        }
    }
    let theta: i64 = search.estimate();
    proof {
        lemma_pow2_values();
        assert(search.width() == 2);
        assert(pow2(k) == 2097152);
        if k < 21 {
            lemma_pow2_le(k, 20);
        }
        if k > 21 {
            lemma_pow2_le(22, k);
        }
        assert(k == 21);
        assert(theta == run(spec_start(), oracle, STEPS as nat).spec_mid());
        assert(decides(oracle, decide));
    }
    theta
}

/// The degenerate searches, carried over to a decision procedure. If a
/// procedure's contract only ever allows the answer "not down" — the
/// cost never falls below the threshold, as with every response at its
/// maximum under positive slopes — then any search it decides ends at
/// `SCALE - 1`, one fixed-point unit below the upper bound.
/// Symmetrically, a procedure that can only answer "down" ends at
/// `-SCALE + 1`.
pub proof fn lemma_decided_extremes<F: Fn(i64) -> bool>(f: F, theta: i64, o: spec_fn(int) -> bool)
    requires
        theta == run(spec_start(), o, STEPS as nat).spec_mid(),
        decides(o, f),
    ensures
        (forall|m: i64, b: bool| call_ensures(f, (m,), b) ==> !b) ==> theta == SCALE - 1,
        (forall|m: i64, b: bool| call_ensures(f, (m,), b) ==> b) ==> theta == -SCALE + 1,
{
    assert(spec_start().low == -SCALE);
    assert(spec_start().high == SCALE);
    if forall|m: i64, b: bool| call_ensures(f, (m,), b) ==> !b {
        let o2: spec_fn(int) -> bool = |m: int| false;
        assert forall|i: nat| i < STEPS as nat implies o(
            #[trigger] run(spec_start(), o, i).spec_mid(),
        ) == o2(run(spec_start(), o, i).spec_mid()) by {
            assert(call_ensures(
                f,
                ((run(spec_start(), o, i).spec_mid()) as i64,),
                o(run(spec_start(), o, i).spec_mid()),
            ));
        }
        lemma_run_agree(spec_start(), o, o2, STEPS as nat);
        assert(forall|m: int| !(#[trigger] o2(m)));
        lemma_estimate_degenerate(spec_start(), o2);
    }
    if forall|m: i64, b: bool| call_ensures(f, (m,), b) ==> b {
        let o2: spec_fn(int) -> bool = |m: int| true;
        assert forall|i: nat| i < STEPS as nat implies o(
            #[trigger] run(spec_start(), o, i).spec_mid(),
        ) == o2(run(spec_start(), o, i).spec_mid()) by {
            assert(call_ensures(
                f,
                ((run(spec_start(), o, i).spec_mid()) as i64,),
                o(run(spec_start(), o, i).spec_mid()),
            ));
        }
        lemma_run_agree(spec_start(), o, o2, STEPS as nat);
        assert(forall|m: int| #[trigger] o2(m));
        lemma_estimate_degenerate(spec_start(), o2);
    }
}

/// A midpoint any run from the full interval visits fits in the
/// fixed-point range, so casting it to `i64` and back loses nothing.
proof fn lemma_visited_mid_in_range(o: spec_fn(int) -> bool, i: nat)
    requires
        i < STEPS,
    ensures
        -SCALE < run(spec_start(), o, i).spec_mid() < SCALE,
    decreases i,
{
    lemma_pow2_values();
    lemma_pow2_le(i, 20);
    lemma_pow2_pos(i);
    lemma_initial_wf(spec_start());
    lemma_run_wf(spec_start(), o, i);
    lemma_mid_between(run(spec_start(), o, i));
}

/// The monotonicity law, carried over to decision procedures whose
/// contracts pin their answers. If `f1` answers by `g1` and `f2` by
/// `g2`, and wherever `g1` moves down `g2` moves down too — for the
/// response model: `f2` belongs to a response vector with pointwise
/// smaller cost — then the `f2` estimate is at most the `f1` estimate.
pub proof fn lemma_decided_ordered<F1: Fn(i64) -> bool, F2: Fn(i64) -> bool>(
    f1: F1,
    f2: F2,
    theta1: i64,
    theta2: i64,
    o1: spec_fn(int) -> bool,
    o2: spec_fn(int) -> bool,
    g1: spec_fn(int) -> bool,
    g2: spec_fn(int) -> bool,
)
    requires
        theta1 == run(spec_start(), o1, STEPS as nat).spec_mid(),
        decides(o1, f1),
        theta2 == run(spec_start(), o2, STEPS as nat).spec_mid(),
        decides(o2, f2),
        forall|m: i64, b: bool| call_ensures(f1, (m,), b) ==> b == g1(m as int),
        forall|m: i64, b: bool| call_ensures(f2, (m,), b) ==> b == g2(m as int),
        forall|m: int| #[trigger] g1(m) ==> g2(m),
    ensures
        theta2 <= theta1,
{
    assert(spec_start().low == -SCALE);
    assert(spec_start().high == SCALE);
    assert forall|i: nat| i < STEPS as nat implies o1(
        #[trigger] run(spec_start(), o1, i).spec_mid(),
    ) == g1(run(spec_start(), o1, i).spec_mid()) by {
        lemma_visited_mid_in_range(o1, i);
        let m: int = run(spec_start(), o1, i).spec_mid();
        assert(call_ensures(f1, ((m as i64),), o1(m)));
        assert(((m as i64) as int) == m);
    }
    lemma_run_agree(spec_start(), o1, g1, STEPS as nat);
    assert forall|i: nat| i < STEPS as nat implies o2(
        #[trigger] run(spec_start(), o2, i).spec_mid(),
    ) == g2(run(spec_start(), o2, i).spec_mid()) by {
        lemma_visited_mid_in_range(o2, i);
        let m: int = run(spec_start(), o2, i).spec_mid();
        assert(call_ensures(f2, ((m as i64),), o2(m)));
        assert(((m as i64) as int) == m);
    }
    lemma_run_agree(spec_start(), o2, g2, STEPS as nat);
    lemma_estimate_ordered(spec_start(), g1, g2);
}

/// Like `decides`, for one member of a family of searches: the oracle
/// answers, at every midpoint its own run visits, as the two-place
/// decision procedure `f` may answer for subject `s`.
pub open spec fn decides_for<F: Fn(usize, i64) -> bool>(
    o: spec_fn(int) -> bool,
    f: F,
    s: usize,
) -> bool {
    forall|i: nat|
        i < STEPS ==> call_ensures(
            f,
            (s, (#[trigger] run(spec_start(), o, i)).spec_mid() as i64),
            o(run(spec_start(), o, i).spec_mid()),
        )
}

/// `theta` is a possible outcome of one whole search for subject `s`:
/// there is an oracle that answers as the decision procedure `f` may
/// answer for `s`, whose run from the full interval ends at `theta`.
pub open spec fn estimate_of<F: Fn(usize, i64) -> bool>(theta: i64, f: F, s: usize) -> bool {
    exists|o: spec_fn(int) -> bool|
        theta == run(spec_start(), o, STEPS as nat).spec_mid() && decides_for(o, f, s)
}

/// One whole search per subject, in subject order. The result holds
/// exactly one estimate per subject, each strictly inside the interval,
/// and each the outcome of a run of the ghost model against an oracle
/// that answers as the decision procedure does for that subject.
pub fn estimate_each<F: Fn(usize, i64) -> bool + Copy>(n_subjects: usize, decide: F) -> (thetas:
    Vec<i64>)
    requires
        forall|s: usize, m: i64|
            s < n_subjects && -SCALE < m < SCALE ==> #[trigger] call_requires(decide, (s, m)),
    ensures
        thetas.len() == n_subjects,
        forall|s: int| 0 <= s < n_subjects ==> -SCALE < #[trigger] thetas[s] < SCALE,
        forall|s: int|
            0 <= s < n_subjects ==> #[trigger] estimate_of(thetas[s], decide, s as usize),
{
    let mut thetas: Vec<i64> = Vec::new();
    let mut s: usize = 0;
    while s < n_subjects
        invariant
            s <= n_subjects,
            thetas.len() == s,
            forall|t: int| 0 <= t < s ==> -SCALE < #[trigger] thetas[t] < SCALE,
            forall|t: int|
                0 <= t < s ==> #[trigger] estimate_of(thetas[t], decide, t as usize),
            forall|ss: usize, m: i64|
                ss < n_subjects && -SCALE < m < SCALE ==> #[trigger] call_requires(
                    decide,
                    (ss, m),
                ),
        decreases n_subjects - s,
    {
        let sub = |m: i64| -> (b: bool)
            requires
                -SCALE < m < SCALE,
            ensures
                call_ensures(decide, (s, m), b),
            { decide(s, m) };
        let theta: i64 = search_with(sub);
        proof {
            let o = choose|o: spec_fn(int) -> bool|
                theta == run(spec_start(), o, STEPS as nat).spec_mid() && decides(o, sub);
            assert forall|i: nat| i < STEPS implies call_ensures(
                decide,
                (s, (#[trigger] run(spec_start(), o, i)).spec_mid() as i64),
                o(run(spec_start(), o, i).spec_mid()),
            ) by {
                assert(call_ensures(
                    sub,
                    ((run(spec_start(), o, i).spec_mid() as i64),),
                    o(run(spec_start(), o, i).spec_mid()),
                ));
            }
            assert(decides_for(o, decide, s));
            assert(estimate_of(theta, decide, s));
        }
        thetas.push(theta);
        s = s + 1;
    }
    thetas
}

} // verus!
