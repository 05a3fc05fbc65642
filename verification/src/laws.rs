//! Global laws of the generator, stated and proved over the same
//! specification functions that the method contracts use.

use vstd::prelude::*;
use vstd::arithmetic::div_mod::*;
use vstd::arithmetic::power2::*;
use crate::lcg::{
    lcg_step, lcg_n, lemma_lcg_n_add, lemma_lcg_period, lemma_lcg_n_mod_period,
};
use crate::output::xsh_rr;
use crate::rng::{
    PCG32, PCG_DEFAULT_MULTIPLIER_64, pcg_step, pcg_n, pcg_out_u64, u64_of_i64,
};

verus! {

/// The stream of 32-bit outputs a generator at `(state, seq)` yields
/// over its next `n` draws.
pub open spec fn out_stream(state: u64, seq: u64, n: nat) -> Seq<u32> {
    Seq::new(n, |i: int| xsh_rr(pcg_n(state, seq, i as nat)))
}

/// Determinism: two generators with equal state and stream selector
/// produce identical outputs, however far ahead one looks.
pub proof fn lemma_determinism(a: PCG32, b: PCG32, n: nat)
    requires
        a.state == b.state,
        a.seq == b.seq,
    ensures
        out_stream(a.state, a.seq, n) == out_stream(b.state, b.seq, n),
{
}

/// Every stream's state cycle closes after 2^64 steps.
pub proof fn lemma_pcg_period(state: u64, seq: u64)
    ensures
        pcg_n(state, seq, pow2(64)) == state,
{
    lemma_lcg_period(state, PCG_DEFAULT_MULTIPLIER_64, seq);
}

/// Jumping back one step undoes a draw: after one draw, advancing by
/// -1 makes the next draw produce the same value again.
pub proof fn lemma_advance_inverse(state: u64, seq: u64)
    ensures
        xsh_rr(pcg_n(pcg_step(state, seq), seq, u64_of_i64(-1i64) as nat)) == xsh_rr(state),
{
    lemma2_to64();
    lemma2_to64_rest();
    lemma_pcg_period(state, seq);
    assert(lcg_n(state, PCG_DEFAULT_MULTIPLIER_64, seq, pow2(64)) == lcg_n(
        lcg_step(state, PCG_DEFAULT_MULTIPLIER_64, seq),
        PCG_DEFAULT_MULTIPLIER_64,
        seq,
        (pow2(64) - 1) as nat,
    ));
    assert(u64_of_i64(-1i64) as nat == (pow2(64) - 1) as nat);
}

/// A signed delta reinterpreted as unsigned is its residue modulo 2^64.
proof fn lemma_u64_of_i64_mod(x: i64)
    ensures
        u64_of_i64(x) == x as int % 0x1_0000_0000_0000_0000,
{
    let big: int = 0x1_0000_0000_0000_0000;
    if x >= 0 {
        lemma_small_mod(x as nat, big as nat);
    } else {
        lemma_mod_multiples_vanish(1, x as int, big);
        lemma_small_mod((x + big) as nat, big as nat);
    }
}

/// Jumps compose: advancing by `a`, then by `b`, lands on the same
/// state as advancing once by the wrapping sum of `a` and `b`.
pub proof fn lemma_advance_composition(state: u64, seq: u64, a: i64, b: i64)
    ensures
        pcg_n(pcg_n(state, seq, u64_of_i64(a) as nat), seq, u64_of_i64(b) as nat) == pcg_n(
            state,
            seq,
            u64_of_i64(a.wrapping_add(b)) as nat,
        ),
{
    let big: int = 0x1_0000_0000_0000_0000;
    let au = u64_of_i64(a) as nat;
    let bu = u64_of_i64(b) as nat;
    let w = a.wrapping_add(b);
    lemma2_to64();
    lemma2_to64_rest();
    lemma_lcg_n_add(state, PCG_DEFAULT_MULTIPLIER_64, seq, au, bu);
    lemma_lcg_n_mod_period(state, PCG_DEFAULT_MULTIPLIER_64, seq, au + bu);
    lemma_u64_of_i64_mod(a);
    lemma_u64_of_i64_mod(b);
    lemma_u64_of_i64_mod(w);
    lemma_add_mod_noop(a as int, b as int, big);
    if a + b > i64::MAX {
        lemma_mod_sub_multiples_vanish(a + b, big);
    } else if a + b < i64::MIN {
        lemma_mod_multiples_vanish(1, a + b, big);
    }
    assert(w as int % big == (a + b) % big);
    assert((au + bu) % pow2(64) == u64_of_i64(w) as nat);
}

/// Distinct stream selectors separate at once: even from the same
/// state, one step under different selectors reaches different states.
pub proof fn lemma_distinct_streams_diverge(state: u64, seq_a: u64, seq_b: u64)
    requires
        seq_a != seq_b,
    ensures
        pcg_step(state, seq_a) != pcg_step(state, seq_b),
{
    let big: int = 0x1_0000_0000_0000_0000;
    let x = PCG_DEFAULT_MULTIPLIER_64 * state;
    if pcg_step(state, seq_a) == pcg_step(state, seq_b) {
        lemma_mod_equivalence(x + seq_a, x + seq_b, big);
        lemma_small_mod(seq_a as nat, big as nat);
        lemma_small_mod(seq_b as nat, big as nat);
        if seq_a > seq_b {
            lemma_small_mod((seq_a - seq_b) as nat, big as nat);
        } else {
            lemma_mod_multiples_vanish(1, seq_a - seq_b, big);
            lemma_small_mod((seq_a - seq_b + big) as nat, big as nat);
        }
    }
}

/// A 64-bit draw is exactly its two 32-bit halves in draw order: the
/// first draw shifted into the high half, the second in the low half.
pub proof fn lemma_u64_composition(state: u64, seq: u64)
    ensures
        pcg_out_u64(state, seq) == ((out_stream(state, seq, 2)[0] as u64) << 32) | (out_stream(
            state,
            seq,
            2,
        )[1] as u64),
{
    assert(pcg_n(state, seq, 0) == state);
    assert(lcg_n(state, PCG_DEFAULT_MULTIPLIER_64, seq, 1) == lcg_n(
        lcg_step(state, PCG_DEFAULT_MULTIPLIER_64, seq),
        PCG_DEFAULT_MULTIPLIER_64,
        seq,
        0,
    ));
}

} // verus!
