//! The linear congruential recurrence `state' = mult * state + plus`
//! modulo 2^64: its single step, its `n`-fold iteration, and the
//! affine-composition lemmas that justify the logarithmic-time jump.

use vstd::prelude::*;
use vstd::arithmetic::div_mod::*;
use vstd::arithmetic::power2::*;
use crate::arith::{
    m64, wrap64, lemma_wrap64_small, lemma_wrap64_add_left, lemma_wrap64_mul_left,
    lemma_wrap64_mul_add, mpow, geom, lemma_two_adic, lemma_geom_hits,
};

verus! {

/// One step of the LCG: `mult * state + plus`, modulo 2^64.
pub open spec fn lcg_step(state: u64, mult: u64, plus: u64) -> u64 {
    wrap64(mult * state + plus)
}

/// The state reached from `state` after `n` LCG steps.
pub open spec fn lcg_n(state: u64, mult: u64, plus: u64, n: nat) -> u64
    decreases n,
{
    if n == 0 {
        state
    } else {
        lcg_n(lcg_step(state, mult, plus), mult, plus, (n - 1) as nat)
    }
}

/// Iterating `a + b` steps is iterating `a` steps, then `b` steps.
pub proof fn lemma_lcg_n_add(state: u64, mult: u64, plus: u64, a: nat, b: nat)
    ensures
        lcg_n(state, mult, plus, a + b) == lcg_n(lcg_n(state, mult, plus, a), mult, plus, b),
    decreases a,
{
    if a > 0 {
        lemma_lcg_n_add(lcg_step(state, mult, plus), mult, plus, (a - 1) as nat, b);
    }
}

/// Taking one more step at the end of an iteration.
pub proof fn lemma_lcg_n_snoc(state: u64, mult: u64, plus: u64, n: nat)
    ensures
        lcg_n(state, mult, plus, n + 1) == lcg_step(lcg_n(state, mult, plus, n), mult, plus),
{
    lemma_lcg_n_add(state, mult, plus, n, 1);
    let t = lcg_n(state, mult, plus, n);
    assert(lcg_n(t, mult, plus, 1) == lcg_n(lcg_step(t, mult, plus), mult, plus, 0));
}

/// The wrapping product of two words is their product modulo 2^64.
pub proof fn lemma_wrapping_mul(a: u64, b: u64)
    ensures
        a.wrapping_mul(b) == wrap64(a * b),
{
}

/// The wrapping sum of two words is their sum modulo 2^64.
pub proof fn lemma_wrapping_add(a: u64, b: u64)
    ensures
        a.wrapping_add(b) == wrap64(a + b),
{
    if a + b > u64::MAX {
        lemma_mod_sub_multiples_vanish(a + b, m64());
        lemma_small_mod((a + b - m64()) as nat, m64() as nat);
    } else {
        lemma_small_mod((a + b) as nat, m64() as nat);
    }
}

/// The wrapping affine form `a * b + c` computes `a * b + c` modulo 2^64.
pub proof fn lemma_wrapping_mul_add(a: u64, b: u64, c: u64)
    ensures
        a.wrapping_mul(b).wrapping_add(c) == wrap64(a * b + c),
{
    lemma_wrapping_mul(a, b);
    lemma_wrapping_add(a.wrapping_mul(b), c);
    lemma_wrap64_add_left(a * b, c as int);
}

/// The wrapping affine form `mult * state + plus` computes one LCG step.
pub proof fn lemma_wrapping_affine(state: u64, mult: u64, plus: u64)
    ensures
        mult.wrapping_mul(state).wrapping_add(plus) == lcg_step(state, mult, plus),
{
    lemma_wrapping_mul_add(mult, state, plus);
}

/// Composing the affine maps `s -> am * s + ap` and `t -> cm * t + cp`
/// (first the former, then the latter) gives the affine map with
/// multiplier `am * cm` and addend `ap * cm + cp`, all modulo 2^64.
pub proof fn lemma_affine_compose(s: u64, am: u64, ap: u64, cm: u64, cp: u64)
    ensures
        lcg_step(s, wrap64(am * cm), wrap64(ap * cm + cp))
            == lcg_step(lcg_step(s, am, ap), cm, cp),
{
    // Left side: reduce both early reductions away.
    lemma_wrap64_mul_add(am * cm, s as int, wrap64(ap * cm + cp) as int);
    lemma_wrap64_add_left(ap * cm + cp, (am * cm) * s);
    assert((am * cm) * s + wrap64(ap * cm + cp) == wrap64(ap * cm + cp) + (am * cm) * s);
    // Right side: the inner step reduced early.
    assert(cm * wrap64(am * s + ap) == wrap64(am * s + ap) * cm) by (nonlinear_arith);
    lemma_wrap64_mul_add(am * s + ap, cm as int, cp as int);
    // The two unreduced affine forms agree as integers.
    assert((am * cm) * s + (ap * cm + cp) == (am * s + ap) * cm + cp) by (nonlinear_arith);
}

/// The iterated LCG in closed form: `n` steps from `state` land on
/// `mult^n * state + plus * (1 + mult + ... + mult^(n-1))`, modulo 2^64.
pub proof fn lemma_lcg_closed_form(state: u64, mult: u64, plus: u64, n: nat)
    ensures
        lcg_n(state, mult, plus, n) == wrap64(
            mpow(mult as int, n) * state + plus * geom(mult as int, n),
        ),
    decreases n,
{
    let m = mult as int;
    if n == 0 {
        assert(mpow(m, 0) * state + plus * geom(m, 0) == state) by (nonlinear_arith);
        lemma_wrap64_small(state);
    } else {
        let s1 = lcg_step(state, mult, plus);
        lemma_lcg_closed_form(s1, mult, plus, (n - 1) as nat);
        let a = mpow(m, (n - 1) as nat);
        let g = geom(m, (n - 1) as nat);
        let x = mult * state + plus;
        assert(a * s1 + plus * g == wrap64(x) * a + plus * g) by (nonlinear_arith)
            requires
                s1 == wrap64(x),
        ;
        lemma_wrap64_mul_add(x, a, plus * g);
        assert(x * a + plus * g == mpow(m, n) * state + plus * geom(m, n)) by (nonlinear_arith)
            requires
                x == m * state + plus,
                mpow(m, n) == m * a,
                geom(m, n) == g + a,
        ;
    }
}

/// The generator's period divides 2^64: any state returns to itself
/// after 2^64 steps, for a multiplier that is 1 modulo 4.
pub proof fn lemma_lcg_period(state: u64, mult: u64, plus: u64)
    requires
        mult % 4 == 1,
    ensures
        lcg_n(state, mult, plus, pow2(64)) == state,
{
    let m = mult as int;
    lemma2_to64();
    lemma2_to64_rest();
    let big = pow2(64) as int;
    lemma_two_adic(m, 64);
    let t = choose|t: int| mpow(m, pow2(64)) == 1 + #[trigger] (pow2(66) * t);
    let u = choose|u: int| u % 2 == 1 && geom(m, pow2(64)) == #[trigger] (pow2(64) * u);
    lemma_lcg_closed_form(state, mult, plus, pow2(64));
    assert(pow2(66) == 4 * big) by {
        lemma_pow2_adds(64, 2);
    }
    assert(mpow(m, pow2(64)) * state + plus * geom(m, pow2(64))
        == big * (4 * (t * state) + plus * u) + state) by (nonlinear_arith)
        requires
            mpow(m, pow2(64)) == 1 + (4 * big) * t,
            geom(m, pow2(64)) == big * u,
    ;
    lemma_mod_multiples_vanish(4 * (t * state) + plus * u, state as int, big);
    lemma_small_mod(state as nat, big as nat);
    assert(m64() == big);
}

/// Step counts only matter modulo 2^64.
pub proof fn lemma_lcg_n_mod_period(state: u64, mult: u64, plus: u64, n: nat)
    requires
        mult % 4 == 1,
    ensures
        lcg_n(state, mult, plus, n) == lcg_n(state, mult, plus, n % pow2(64)),
    decreases n,
{
    lemma_pow2_pos(64);
    if n < pow2(64) {
        lemma_small_mod(n, pow2(64));
    } else {
        lemma_lcg_n_add(state, mult, plus, pow2(64), (n - pow2(64)) as nat);
        lemma_lcg_period(state, mult, plus);
        lemma_lcg_n_mod_period(state, mult, plus, (n - pow2(64)) as nat);
        lemma_mod_sub_multiples_vanish(n as int, pow2(64) as int);
    }
}

/// With an odd addend every state steps to 0 eventually: the orbit
/// of 0 passes through every state within 2^64 steps, and the rest
/// of that cycle leads from the state back to 0.
pub proof fn lemma_lcg_orbit_hits_zero(state: u64, mult: u64, plus: u64)
    requires
        mult % 4 == 1,
        plus % 2 == 1,
    ensures
        exists|j: nat| #[trigger] lcg_n(state, mult, plus, j) == 0,
{
    let m = mult as int;
    let big = pow2(64) as int;
    lemma2_to64();
    lemma2_to64_rest();
    lemma_geom_hits(m, plus as int, state as int, 64);
    let j0 = choose|j: nat|
        j < pow2(64) && #[trigger] ((plus * geom(m, j) - state) % (pow2(64) as int)) == 0;
    lemma_lcg_closed_form(0, mult, plus, j0);
    assert(mpow(m, j0) * 0 + plus * geom(m, j0) == plus * geom(m, j0)) by (nonlinear_arith);
    lemma_mod_equivalence(plus * geom(m, j0), state as int, big);
    lemma_small_mod(state as nat, big as nat);
    assert(m64() == big);
    assert(lcg_n(0, mult, plus, j0) == state);
    let j = (pow2(64) - j0) as nat;
    lemma_lcg_n_add(0, mult, plus, j0, j);
    lemma_lcg_period(0, mult, plus);
    assert(lcg_n(state, mult, plus, j) == 0);
}

/// Jump the LCG `delta` steps ahead in logarithmic time, after
/// Brown's "Random Number Generation with Arbitrary Stride": square
/// the one-step affine map repeatedly and compose the squares that
/// the bits of `delta` select.
pub(crate) fn pcg_advance_lcg_64(state: u64, delta: u64, mult: u64, plus: u64) -> (r: u64)
    ensures
        r == lcg_n(state, mult, plus, delta as nat),
{
    let mut acc_mult: u64 = 1;
    let mut acc_plus: u64 = 0;
    let mut cur_mult: u64 = mult;
    let mut cur_plus: u64 = plus;
    let mut cur_delta: u64 = delta;
    let ghost mut done: nat = 0;
    let ghost mut span: nat = 1;
    proof {
        assert forall|s: u64| #[trigger] lcg_step(s, 1u64, 0u64) == lcg_n(s, mult, plus, 0) by {
            lemma_wrap64_small(s);
        }
        assert forall|s: u64| #[trigger] lcg_step(s, mult, plus) == lcg_n(s, mult, plus, 1) by {
            assert(lcg_n(s, mult, plus, 1) == lcg_n(lcg_step(s, mult, plus), mult, plus, 0));
        }
    }
    while cur_delta > 0
        invariant
            forall|s: u64| #[trigger] lcg_step(s, acc_mult, acc_plus)
                == lcg_n(s, mult, plus, done),
            forall|s: u64| #[trigger] lcg_step(s, cur_mult, cur_plus)
                == lcg_n(s, mult, plus, span),
            delta == done + span * cur_delta,
        decreases cur_delta,
    {
        let bit = cur_delta & 1;
        let half = cur_delta / 2;
        let ghost done0 = done;
        let ghost span0 = span;
        proof {
            assert(cur_delta & 1 == cur_delta % 2) by (bit_vector);
        }
        if bit == 1 {
            let new_acc_mult = acc_mult.wrapping_mul(cur_mult);
            let new_acc_plus = acc_plus.wrapping_mul(cur_mult).wrapping_add(cur_plus);
            proof {
                lemma_wrapping_mul(acc_mult, cur_mult);
                lemma_wrapping_mul_add(acc_plus, cur_mult, cur_plus);
                assert forall|s: u64| #[trigger] lcg_step(s, new_acc_mult, new_acc_plus)
                    == lcg_n(s, mult, plus, done + span) by {
                    lemma_affine_compose(s, acc_mult, acc_plus, cur_mult, cur_plus);
                    lemma_lcg_n_add(s, mult, plus, done, span);
                }
                done = done + span;
            }
            acc_mult = new_acc_mult;
            acc_plus = new_acc_plus;
        }
        let new_cur_mult = cur_mult.wrapping_mul(cur_mult);
        let new_cur_plus = cur_mult.wrapping_add(1).wrapping_mul(cur_plus);
        proof {
            lemma_wrapping_mul(cur_mult, cur_mult);
            // (cur_mult + 1) * cur_plus == cur_plus * cur_mult + cur_plus
            lemma_wrapping_add(cur_mult, 1);
            lemma_wrapping_mul(cur_mult.wrapping_add(1), cur_plus);
            lemma_wrap64_mul_left(cur_mult + 1, cur_plus as int);
            assert((cur_mult + 1) * cur_plus == cur_plus * cur_mult + cur_plus) by (nonlinear_arith);
            assert forall|s: u64| #[trigger] lcg_step(s, new_cur_mult, new_cur_plus)
                == lcg_n(s, mult, plus, span + span) by {
                lemma_affine_compose(s, cur_mult, cur_plus, cur_mult, cur_plus);
                lemma_lcg_n_add(s, mult, plus, span, span);
            }
            lemma_fundamental_div_mod(cur_delta as int, 2);
            assert(cur_delta == 2 * half + bit);
            assert(span0 * (2 * half + bit) == (span0 + span0) * half + span0 * bit)
                by (nonlinear_arith);
            assert(delta == done + (span0 + span0) * half);
            span = span0 + span0;
        }
        cur_mult = new_cur_mult;
        cur_plus = new_cur_plus;
        cur_delta = half;
    }
    proof {
        lemma_wrapping_mul_add(acc_mult, state, acc_plus);
        assert(delta == done);
        assert(lcg_step(state, acc_mult, acc_plus) == lcg_n(state, mult, plus, done));
    }
    acc_mult.wrapping_mul(state).wrapping_add(acc_plus)
}

} // verus!
