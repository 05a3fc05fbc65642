//! Integer arithmetic modulo 2^64: reduction of a mathematical
//! integer into a machine word, powers and geometric sums of the
//! multiplier, and the divisibility facts behind the generator's
//! period.

use vstd::prelude::*;
use vstd::arithmetic::div_mod::*;
use vstd::arithmetic::power2::*;

verus! {

/// The modulus of all generator arithmetic: 2^64.
pub open spec fn m64() -> int {
    0x1_0000_0000_0000_0000
}

/// Reduce a mathematical integer modulo 2^64 into a machine word.
pub open spec fn wrap64(x: int) -> u64 {
    (x % m64()) as u64
}

/// Reducing a value already in range is the identity.
pub proof fn lemma_wrap64_small(x: u64)
    ensures
        wrap64(x as int) == x,
{
    lemma_small_mod(x as nat, m64() as nat);
}

/// A summand may be reduced before the sum is.
pub proof fn lemma_wrap64_add_left(a: int, b: int)
    ensures
        wrap64(wrap64(a) + b) == wrap64(a + b),
{
    lemma_mod_bound(a, m64());
    lemma_add_mod_noop(a % m64(), b, m64());
    lemma_mod_twice(a, m64());
    lemma_add_mod_noop(a, b, m64());
}

/// A factor may be reduced before the product is.
pub proof fn lemma_wrap64_mul_left(a: int, b: int)
    ensures
        wrap64(wrap64(a) * b) == wrap64(a * b),
{
    lemma_mod_bound(a, m64());
    lemma_mul_mod_noop_left(a, b, m64());
}

/// The left factor of an affine form may be reduced early.
pub proof fn lemma_wrap64_mul_add(a: int, s: int, b: int)
    ensures
        wrap64(wrap64(a) * s + b) == wrap64(a * s + b),
{
    lemma_mod_bound(a, m64());
    lemma_mul_mod_noop_left(a, s, m64());
    lemma_add_mod_noop((a % m64()) * s, b, m64());
    lemma_add_mod_noop(a * s, b, m64());
}

/// The `n`-th power of `m` over the mathematical integers.
pub open spec fn mpow(m: int, n: nat) -> int
    decreases n,
{
    if n == 0 {
        1
    } else {
        m * mpow(m, (n - 1) as nat)
    }
}

/// The geometric sum `1 + m + ... + m^(n-1)` over the integers.
pub open spec fn geom(m: int, n: nat) -> int
    decreases n,
{
    if n == 0 {
        0
    } else {
        geom(m, (n - 1) as nat) + mpow(m, (n - 1) as nat)
    }
}

/// Powers multiply: `m^(a+b) == m^a * m^b`.
pub proof fn lemma_mpow_add(m: int, a: nat, b: nat)
    ensures
        mpow(m, a + b) == mpow(m, a) * mpow(m, b),
    decreases a,
{
    if a == 0 {
        assert(mpow(m, b) == 1 * mpow(m, b));
    } else {
        lemma_mpow_add(m, (a - 1) as nat, b);
        assert(m * (mpow(m, (a - 1) as nat) * mpow(m, b))
            == (m * mpow(m, (a - 1) as nat)) * mpow(m, b)) by (nonlinear_arith);
    }
}

/// Geometric sums split: the terms past the first `a` carry a factor `m^a`.
pub proof fn lemma_geom_add(m: int, a: nat, b: nat)
    ensures
        geom(m, a + b) == geom(m, a) + mpow(m, a) * geom(m, b),
    decreases b,
{
    if b == 0 {
        assert(mpow(m, a) * 0 == 0) by (nonlinear_arith);
    } else {
        lemma_geom_add(m, a, (b - 1) as nat);
        lemma_mpow_add(m, a, (b - 1) as nat);
        assert(mpow(m, a) * geom(m, (b - 1) as nat) + mpow(m, a) * mpow(m, (b - 1) as nat)
            == mpow(m, a) * (geom(m, (b - 1) as nat) + mpow(m, (b - 1) as nat)))
            by (nonlinear_arith);
    }
}

/// A power of an odd number is odd.
pub proof fn lemma_mpow_odd(m: int, n: nat)
    requires
        m % 2 == 1,
    ensures
        mpow(m, n) % 2 == 1,
    decreases n,
{
    if n > 0 {
        lemma_mpow_odd(m, (n - 1) as nat);
        lemma_mul_mod_noop_general(m, mpow(m, (n - 1) as nat), 2);
    }
}

/// A product of two odd numbers is odd.
pub proof fn lemma_odd_mul(a: int, b: int)
    requires
        a % 2 == 1,
        b % 2 == 1,
    ensures
        (a * b) % 2 == 1,
{
    lemma_mul_mod_noop_general(a, b, 2);
}

/// The 2-adic shape of powers and geometric sums of a multiplier
/// that is 1 modulo 4: `m^(2^k)` is 1 plus a multiple of `2^(k+2)`,
/// and the geometric sum of length `2^k` is `2^k` times an odd number.
pub proof fn lemma_two_adic(m: int, k: nat)
    requires
        m % 4 == 1,
    ensures
        exists|t: int| mpow(m, pow2(k)) == 1 + #[trigger] (pow2(k + 2) * t),
        exists|u: int| u % 2 == 1 && geom(m, pow2(k)) == #[trigger] (pow2(k) * u),
    decreases k,
{
    lemma2_to64();
    if k == 0 {
        lemma_fundamental_div_mod(m, 4);
        assert(m * 1 == m) by (nonlinear_arith);
        assert(mpow(m, 0) == 1);
        assert(mpow(m, 1) == m * mpow(m, 0));
        assert(geom(m, 0) == 0);
        assert(geom(m, 1) == geom(m, 0) + mpow(m, 0));
        assert(mpow(m, pow2(k)) == 1 + pow2(k + 2) * (m / 4));
        assert(geom(m, pow2(k)) == pow2(k) * 1int);
        assert((1int) % 2 == 1);
    } else {
        lemma_two_adic(m, (k - 1) as nat);
        let q = pow2((k - 1) as nat) as int;
        let t = choose|t: int|
            mpow(m, pow2((k - 1) as nat)) == 1 + #[trigger] (pow2((k - 1) as nat + 2) * t);
        let u = choose|u: int|
            u % 2 == 1 && geom(m, pow2((k - 1) as nat)) == #[trigger] (pow2((k - 1) as nat) * u);
        // Relate the powers of two in play: pow2(k-1+2) = 4q,
        // pow2(k) = 2q, pow2(k+2) = 8q.
        lemma_pow2_adds((k - 1) as nat, 2);
        lemma_pow2_adds((k - 1) as nat, 1);
        lemma_pow2_adds((k - 1) as nat, 3);
        assert(pow2((k - 1) as nat + 2) == 4 * q);
        assert(pow2(k) == 2 * q);
        assert(pow2(k + 2) == 8 * q);
        let a = mpow(m, pow2((k - 1) as nat));
        lemma_mpow_add(m, pow2((k - 1) as nat), pow2((k - 1) as nat));
        assert(mpow(m, pow2(k)) == a * a);
        assert((1 + 4 * q * t) * (1 + 4 * q * t) == 1 + (8 * q) * (t + (2 * q) * (t * t)))
            by (nonlinear_arith);
        assert(mpow(m, pow2(k)) == 1 + pow2(k + 2) * (t + (2 * q) * (t * t)));
        lemma_geom_add(m, pow2((k - 1) as nat), pow2((k - 1) as nat));
        let g = geom(m, pow2((k - 1) as nat));
        assert(geom(m, pow2(k)) == g + a * g);
        let w = u + 2 * (q * t * u);
        assert((q * u) + (1 + 4 * q * t) * (q * u) == (2 * q) * (u + 2 * (q * t * u)))
            by (nonlinear_arith);
        assert(w % 2 == 1) by {
            lemma_mod_multiples_vanish(q * t * u, u, 2);
        }
        assert(geom(m, pow2(k)) == pow2(k) * w);
    }
}

/// Every residue modulo 2^k is reached by `p * geom(m, j)` for some
/// `j < 2^k`, when `m` is 1 modulo 4 and `p` is odd: each candidate
/// bit of `j` adjusts one further bit of the value.
pub proof fn lemma_geom_hits(m: int, p: int, s: int, k: nat)
    requires
        m % 4 == 1,
        p % 2 == 1,
    ensures
        exists|j: nat|
            j < pow2(k) && #[trigger] ((p * geom(m, j) - s) % (pow2(k) as int)) == 0,
    decreases k,
{
    lemma2_to64();
    if k == 0 {
        lemma_mod_bound(p * geom(m, 0) - s, 1);
        assert((p * geom(m, 0nat) - s) % (pow2(0) as int) == 0);
        assert(0nat < pow2(0));
    } else {
        lemma_geom_hits(m, p, s, (k - 1) as nat);
        let j0 = choose|j: nat|
            j < pow2((k - 1) as nat)
                && #[trigger] ((p * geom(m, j) - s) % (pow2((k - 1) as nat) as int)) == 0;
        let q = pow2((k - 1) as nat) as int;
        let big = pow2(k) as int;
        lemma_pow2_adds((k - 1) as nat, 1);
        assert(big == 2 * q);
        let d = p * geom(m, j0) - s;
        lemma_fundamental_div_mod(d, q);
        let c = d / q;
        assert(d == q * c);
        if c % 2 == 0 {
            lemma_fundamental_div_mod(c, 2);
            assert(d == (c / 2) * (2 * q)) by (nonlinear_arith)
                requires
                    d == q * c,
                    c == 2 * (c / 2),
            ;
            lemma_mod_multiples_basic(c / 2, 2 * q);
            assert((p * geom(m, j0) - s) % big == 0);
            assert(j0 < pow2(k));
        } else {
            let j1 = (j0 + pow2((k - 1) as nat)) as nat;
            lemma_geom_add(m, j0, pow2((k - 1) as nat));
            lemma_two_adic(m, (k - 1) as nat);
            let u = choose|u: int|
                u % 2 == 1 && geom(m, pow2((k - 1) as nat)) == #[trigger] (pow2(
                    (k - 1) as nat,
                ) * u);
            lemma_mod_mod(m, 2, 2);
            lemma_mpow_odd(m, j0);
            lemma_odd_mul(p, mpow(m, j0));
            lemma_odd_mul(p * mpow(m, j0), u);
            let e = p * mpow(m, j0) * u;
            assert(p * geom(m, j1) - s == q * (c + e)) by (nonlinear_arith)
                requires
                    geom(m, j1) == geom(m, j0) + mpow(m, j0) * (q * u),
                    p * geom(m, j0) - s == q * c,
                    e == p * mpow(m, j0) * u,
            ;
            lemma_add_mod_noop(c, e, 2);
            lemma_fundamental_div_mod(c + e, 2);
            assert(p * geom(m, j1) - s == ((c + e) / 2) * (2 * q)) by (nonlinear_arith)
                requires
                    p * geom(m, j1) - s == q * (c + e),
                    c + e == 2 * ((c + e) / 2),
            ;
            lemma_mod_multiples_basic((c + e) / 2, 2 * q);
            assert((p * geom(m, j1) - s) % big == 0);
            assert(j1 < pow2(k));
        }
    }
}

} // verus!
