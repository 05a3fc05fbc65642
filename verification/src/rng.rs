//! The generator itself: a 64-bit LCG state and an odd stream
//! selector, with the XSH-RR output permutation on top.

use vstd::prelude::*;
use vstd::arithmetic::div_mod::*;
use crate::arith::wrap64;
use crate::lcg::{
    lcg_step, lcg_n, lemma_wrapping_affine, lemma_wrapping_add, lemma_lcg_n_snoc,
    lemma_lcg_orbit_hits_zero, pcg_advance_lcg_64,
};
use crate::output::{xsh_rr, xsh_rr_exec};

verus! {

/// The default 64-bit LCG multiplier of the PCG family.
pub const PCG_DEFAULT_MULTIPLIER_64: u64 = 6364136223846793005;

/// A PCG generator: `state` is the current LCG state, mutated by
/// every draw; `seq` selects the stream and stays fixed between
/// seedings (seeding always makes it odd).
#[derive(Copy, Clone)]
pub struct PCG32 {
    pub state: u64,
    pub seq: u64,
}

/// One step of this generator's LCG.
pub open spec fn pcg_step(state: u64, seq: u64) -> u64 {
    lcg_step(state, PCG_DEFAULT_MULTIPLIER_64, seq)
}

/// The state reached after `n` steps of this generator's LCG.
pub open spec fn pcg_n(state: u64, seq: u64, n: nat) -> u64 {
    lcg_n(state, PCG_DEFAULT_MULTIPLIER_64, seq, n)
}

/// The stream selector that seeding derives from its argument:
/// always odd.
pub open spec fn stream_of(init_seq: u64) -> u64 {
    (init_seq << 1) | 1
}

/// The state that seeding with `(init_state, init_seq)` leaves
/// behind: step from zero, add `init_state`, step again.
pub open spec fn seeded_state(init_state: u64, init_seq: u64) -> u64 {
    pcg_step(wrap64(pcg_step(0, stream_of(init_seq)) + init_state), stream_of(init_seq))
}

/// A 64-bit draw: the first 32-bit output in the high half, the
/// second in the low half.
pub open spec fn pcg_out_u64(state: u64, seq: u64) -> u64 {
    ((xsh_rr(state) as u64) << 32) | (xsh_rr(pcg_step(state, seq)) as u64)
}

/// A signed 64-bit delta reinterpreted as an unsigned step count:
/// a negative delta goes the long way round the 2^64-cycle.
pub open spec fn u64_of_i64(x: i64) -> u64 {
    if x >= 0 {
        x as u64
    } else {
        (x + 0x1_0000_0000_0000_0000) as u64
    }
}

/// A signed 32-bit value reinterpreted as unsigned.
pub open spec fn u32_of_i32(x: i32) -> u32 {
    if x >= 0 {
        x as u32
    } else {
        (x + 0x1_0000_0000) as u32
    }
}

/// An unsigned 32-bit value reinterpreted as signed.
pub open spec fn i32_of_u32(x: u32) -> i32 {
    if x <= 0x7fff_ffff {
        x as i32
    } else {
        (x - 0x1_0000_0000) as i32
    }
}

/// The width of a bounded draw: `high - low` as a wrapping unsigned
/// subtraction, so a reversed pair wraps to a huge width instead of
/// failing.
pub open spec fn bounded_span(low: i32, high: i32) -> u32 {
    ((u32_of_i32(high) - u32_of_i32(low)) % 0x1_0000_0000) as u32
}

/// The rejection threshold: the largest multiple of `span` that fits
/// in 32 bits.  Raw draws at or above it are discarded, which is what
/// keeps the accepted remainders uniform.
pub open spec fn reject_zone(span: u32) -> u32
    recommends
        span != 0,
{
    (u32::MAX - (u32::MAX % span)) as u32
}

/// The value a bounded draw returns for an accepted raw draw `v`:
/// `low + v % span`, wrapping, reinterpreted as signed.
pub open spec fn bounded_pick(low: i32, span: u32, v: u32) -> i32
    recommends
        span != 0,
{
    i32_of_u32(((u32_of_i32(low) + (v % span)) % 0x1_0000_0000) as u32)
}

impl PCG32 {
    /// Advance the internal LCG by one step.
    fn step(&mut self)
        ensures
            final(self).state == pcg_step(old(self).state, old(self).seq),
            final(self).seq == old(self).seq,
    {
        proof {
            lemma_wrapping_affine(self.state, PCG_DEFAULT_MULTIPLIER_64, self.seq);
        }
        self.state = self.state.wrapping_mul(PCG_DEFAULT_MULTIPLIER_64).wrapping_add(self.seq);
    }

    /// Draw 32 bits: the XSH-RR transform of the pre-step state;
    /// the generator advances by exactly one step.
    pub fn next_u32(&mut self) -> (r: u32)
        ensures
            r == xsh_rr(old(self).state),
            final(self).state == pcg_step(old(self).state, old(self).seq),
            final(self).seq == old(self).seq,
    {
        let state = self.state;
        self.step();
        xsh_rr_exec(state)
    }

    /// Build a generator from an initial state and a stream selector.
    pub fn seed(init_state: u64, init_seq: u64) -> (r: PCG32)
        ensures
            r.state == seeded_state(init_state, init_seq),
            r.seq == stream_of(init_seq),
            r.seq % 2 == 1,
    {
        let mut rng = PCG32 { state: 0, seq: 0 };
        rng.reseed(init_state, init_seq);
        rng
    }

    /// Re-seed in place, discarding the prior state entirely.
    pub fn reseed(&mut self, init_state: u64, init_seq: u64)
        ensures
            final(self).state == seeded_state(init_state, init_seq),
            final(self).seq == stream_of(init_seq),
            final(self).seq % 2 == 1,
    {
        self.state = 0;
        self.seq = (init_seq << 1) | 1;
        self.step();
        proof {
            lemma_wrapping_add(self.state, init_state);
            assert(((init_seq << 1) | 1) % 2 == 1) by (bit_vector);
        }
        self.state = self.state.wrapping_add(init_state);
        self.step();
    }

    /// Draw 64 bits as two consecutive 32-bit draws, the first in
    /// the high half; the generator advances by exactly two steps.
    pub fn next_u64(&mut self) -> (r: u64)
        ensures
            r == pcg_out_u64(old(self).state, old(self).seq),
            final(self).state == pcg_n(old(self).state, old(self).seq, 2),
            final(self).seq == old(self).seq,
    {
        proof {
            lemma_lcg_n_snoc(old(self).state, PCG_DEFAULT_MULTIPLIER_64, old(self).seq, 0);
            lemma_lcg_n_snoc(old(self).state, PCG_DEFAULT_MULTIPLIER_64, old(self).seq, 1);
        }
        let hi = self.next_u32();
        let lo = self.next_u32();
        ((hi as u64) << 32) | (lo as u64)
    }

    /// Draw the low 63 bits of a 64-bit draw: a non-negative value
    /// below 2^63, ready to be scaled into the unit interval.
    pub fn next_u63(&mut self) -> (r: u64)
        ensures
            r == pcg_out_u64(old(self).state, old(self).seq) & 0x7fff_ffff_ffff_ffff,
            r < 0x8000_0000_0000_0000,
            final(self).state == pcg_n(old(self).state, old(self).seq, 2),
            final(self).seq == old(self).seq,
    {
        let w = self.next_u64();
        let r = w & 0x7fff_ffff_ffff_ffff;
        proof {
            assert(w & 0x7fff_ffff_ffff_ffff < 0x8000_0000_0000_0000) by (bit_vector);
        }
        r
    }

    /// Reposition the stream by `delta` steps: forward for a
    /// non-negative delta, and the long way round the 2^64-cycle —
    /// which is the same as stepping back — for a negative one.
    pub fn advance(&mut self, delta: i64)
        ensures
            final(self).state == pcg_n(old(self).state, old(self).seq, u64_of_i64(delta) as nat),
            final(self).seq == old(self).seq,
    {
        let d = #[verifier::truncate] (delta as u64);
        proof {
            assert(d == u64_of_i64(delta)) by (bit_vector)
                requires
                    d == delta as u64,
            ;
        }
        self.state = pcg_advance_lcg_64(self.state, d, PCG_DEFAULT_MULTIPLIER_64, self.seq);
    }

    /// Draw an integer uniformly from `[low, high)` by rejection
    /// sampling: raw 32-bit draws at or above the zone threshold are
    /// discarded, so the accepted remainder is unbiased.  A reversed
    /// pair wraps to a huge span rather than failing; only an empty
    /// range is ruled out.
    #[verifier::rlimit(100)]
    pub fn i32_in_range(&mut self, low: i32, high: i32) -> (r: i32)
        requires
            low != high,
            old(self).seq % 2 == 1,
        ensures
            final(self).seq == old(self).seq,
            low < high ==> low <= r < high,
            exists|k: nat|
                {
                    &&& 1 <= k
                    &&& final(self).state == #[trigger] pcg_n(old(self).state, old(self).seq, k)
                    &&& forall|j: nat|
                        j + 1 < k ==> #[trigger] xsh_rr(pcg_n(old(self).state, old(self).seq, j))
                            >= reject_zone(bounded_span(low, high))
                    &&& xsh_rr(pcg_n(old(self).state, old(self).seq, (k - 1) as nat))
                        < reject_zone(bounded_span(low, high))
                    &&& r == bounded_pick(
                        low,
                        bounded_span(low, high),
                        xsh_rr(pcg_n(old(self).state, old(self).seq, (k - 1) as nat)),
                    )
                },
    {
        let low_u = #[verifier::truncate] (low as u32);
        let high_u = #[verifier::truncate] (high as u32);
        let span = high_u.wrapping_sub(low_u);
        proof {
            lemma_cast_i32_u32(low);
            lemma_cast_i32_u32(high);
            lemma_sub_mod32(high_u, low_u);
            lemma_span_nonzero(low, high);
        }
        let zone = u32::MAX - u32::MAX % span;
        let ghost s0 = self.state;
        let ghost q0 = self.seq;
        let ghost mut steps: nat = 0;
        proof {
            lemma_lcg_orbit_hits_zero(s0, PCG_DEFAULT_MULTIPLIER_64, q0);
        }
        // The loop consumes raw draws until one falls below the zone;
        // it always terminates, because the orbit reaches state 0 —
        // whose output 0 is below every zone — in at most 2^64 steps.
        let ghost mut fuel: nat = choose|j: nat|
            #[trigger] lcg_n(s0, PCG_DEFAULT_MULTIPLIER_64, q0, j) == 0;
        loop
            invariant
                self.state == pcg_n(s0, q0, steps),
                self.seq == q0,
                forall|j: nat|
                    j < steps ==> #[trigger] xsh_rr(pcg_n(s0, q0, j)) >= zone,
                s0 == old(self).state,
                q0 == old(self).seq,
                low_u == u32_of_i32(low),
                span == bounded_span(low, high),
                span != 0,
                zone == reject_zone(span),
                low != high,
                lcg_n(self.state, PCG_DEFAULT_MULTIPLIER_64, q0, fuel) == 0,
            decreases fuel,
        {
            let ghost pre = self.state;
            proof {
                lemma_lcg_n_snoc(s0, PCG_DEFAULT_MULTIPLIER_64, q0, steps);
            }
            let v = self.next_u32();
            proof {
                steps = steps + 1;
            }
            if v < zone {
                let picked = low_u.wrapping_add(v % span);
                let r = #[verifier::truncate] (picked as i32);
                proof {
                    lemma_add_mod32(low_u, v % span);
                    lemma_cast_u32_i32(picked);
                    assert(r == bounded_pick(low, span, v));
                    if low < high {
                        lemma_bounded_pick_in_range(low, high, v);
                    }
                    assert(self.state == pcg_n(s0, q0, steps));
                    assert(v == xsh_rr(pcg_n(s0, q0, (steps - 1) as nat)));
                    assert(forall|j: nat|
                        j + 1 < steps ==> #[trigger] xsh_rr(pcg_n(s0, q0, j)) >= zone);
                }
                return r;
            }
            proof {
                lemma_xsh_rr_zero();
                assert(zone >= 1);
                assert(pre != 0);
                let f0 = fuel;
                assert(f0 != 0) by {
                    assert(lcg_n(pre, PCG_DEFAULT_MULTIPLIER_64, q0, 0) == pre);
                }
                assert(lcg_n(pre, PCG_DEFAULT_MULTIPLIER_64, q0, f0) == lcg_n(
                    lcg_step(pre, PCG_DEFAULT_MULTIPLIER_64, q0),
                    PCG_DEFAULT_MULTIPLIER_64,
                    q0,
                    (f0 - 1) as nat,
                ));
                fuel = (f0 - 1) as nat;
            }
        }
    }
}

/// State 0 produces output 0, which every rejection zone accepts.
proof fn lemma_xsh_rr_zero()
    ensures
        xsh_rr(0u64) == 0u32,
{
    assert(xsh_rr(0u64) == 0u32) by (bit_vector);
}

/// Casting `i32` to `u32` reinterprets the bits: a negative value
/// comes out shifted up by 2^32.
proof fn lemma_cast_i32_u32(x: i32)
    by (bit_vector)
    ensures
        (x as u32) == u32_of_i32(x),
{
}

/// Casting `u32` to `i32` reinterprets the bits: a value with the
/// top bit set comes out shifted down by 2^32.
proof fn lemma_cast_u32_i32(x: u32)
    by (bit_vector)
    ensures
        (x as i32) == i32_of_u32(x),
{
}

/// Wrapping 32-bit subtraction is subtraction modulo 2^32.
proof fn lemma_sub_mod32(a: u32, b: u32)
    ensures
        a.wrapping_sub(b) == ((a - b) % 0x1_0000_0000) as u32,
{
    if a - b < 0 {
        lemma_mod_multiples_vanish(1, a - b, 0x1_0000_0000);
        lemma_small_mod((a - b + 0x1_0000_0000) as nat, 0x1_0000_0000);
    } else {
        lemma_small_mod((a - b) as nat, 0x1_0000_0000);
    }
}

/// Wrapping 32-bit addition is addition modulo 2^32.
proof fn lemma_add_mod32(a: u32, b: u32)
    ensures
        a.wrapping_add(b) == ((a + b) % 0x1_0000_0000) as u32,
{
    if a + b > u32::MAX {
        lemma_mod_sub_multiples_vanish(a + b, 0x1_0000_0000);
        lemma_small_mod((a + b - 0x1_0000_0000) as nat, 0x1_0000_0000);
    } else {
        lemma_small_mod((a + b) as nat, 0x1_0000_0000);
    }
}

/// Distinct bounds give a non-zero span: the reinterpretation of a
/// signed value as unsigned is injective.
proof fn lemma_span_nonzero(low: i32, high: i32)
    requires
        low != high,
    ensures
        bounded_span(low, high) != 0,
{
    let n32: int = 0x1_0000_0000;
    let lu = u32_of_i32(low) as int;
    let hu = u32_of_i32(high) as int;
    assert(lu != hu);
    if hu - lu > 0 {
        lemma_small_mod((hu - lu) as nat, n32 as nat);
    } else {
        lemma_mod_multiples_vanish(1, hu - lu, n32);
        lemma_small_mod((hu - lu + n32) as nat, n32 as nat);
    }
}

/// An accepted bounded draw lies in `[low, high)` whenever the pair
/// is ordered: the span is then exactly `high - low`, and the wrapped
/// sum `low + v % span` lands back on a plain in-range sum.
proof fn lemma_bounded_pick_in_range(low: i32, high: i32, v: u32)
    requires
        low < high,
    ensures
        low <= bounded_pick(low, bounded_span(low, high), v),
        bounded_pick(low, bounded_span(low, high), v) < high,
{
    let n32: int = 0x1_0000_0000;
    let lu = u32_of_i32(low) as int;
    let hu = u32_of_i32(high) as int;
    let d = high - low;
    // The span is exactly high - low.
    assert(hu - lu == d || hu - lu == d - n32 || hu - lu == d + n32);
    if hu - lu == d - n32 {
        lemma_mod_multiples_vanish(1, d - n32, n32);
    } else if hu - lu == d + n32 {
        lemma_mod_sub_multiples_vanish(d + n32, n32);
    }
    lemma_small_mod(d as nat, n32 as nat);
    let span = bounded_span(low, high);
    assert(span == d);
    // The accepted remainder stays below the span.
    let e = (v % (span as u32)) as int;
    lemma_mod_bound(v as int, d);
    assert(0 <= e < d);
    // The wrapped sum is low + e again, whatever the sign of low.
    let w = ((lu + e) % n32) as int;
    if low >= 0 {
        lemma_small_mod((low + e) as nat, n32 as nat);
    } else {
        if low + e >= 0 {
            lemma_mod_sub_multiples_vanish(lu + e, n32);
            lemma_small_mod((low + e) as nat, n32 as nat);
        } else {
            lemma_small_mod((lu + e) as nat, n32 as nat);
        }
    }
    assert(w == low + e || w == low + e + n32);
    assert(bounded_pick(low, span, v) == low + e);
}

} // verus!
