//! Deterministic pseudo-random generator in the splitmix style.
//!
//! The generator state is a single `u64`, advanced by a fixed golden-ratio
//! increment; each draw mixes the new state through two xor-shift-multiply
//! rounds. Both the state transition and the output are pinned down exactly,
//! so a stream of draws is a pure function of the seed and the draw count:
//! that reproducibility is what lets a probe run be repeated bit for bit.

use vstd::prelude::*;

verus! {

/// The state after one draw: the old state plus the golden-ratio increment,
/// modulo 2^64.
pub open spec fn next_state(s: u64) -> u64 {
    vstd::wrapping::u64_specs::wrapping_add(s, 0x9E37_79B9_7F4A_7C15u64)
}

/// One mixing round: fold the high bits into the low bits, then multiply
/// (modulo 2^64) by a fixed odd constant.
pub open spec fn mix_round(z: u64, shift: u64, mult: u64) -> u64 {
    vstd::wrapping::u64_specs::wrapping_mul(z ^ (z >> shift), mult)
}

/// The 64-bit output of a draw from state `s`: two mixing rounds applied to
/// the incremented state, then a final fold of the high bits.
pub open spec fn draw_output(s: u64) -> u64 {
    let z0 = next_state(s);
    let z1 = mix_round(z0, 30u64, 0xBF58_476D_1CE4_E5B9u64);
    let z2 = mix_round(z1, 27u64, 0x94D0_49BB_1331_11EBu64);
    z2 ^ (z2 >> 31u64)
}

/// The generator state after `k` draws from `seed`.
pub open spec fn state_after(seed: u64, k: nat) -> u64
    decreases k,
{
    if k == 0 {
        seed
    } else {
        next_state(state_after(seed, (k - 1) as nat))
    }
}

/// The `k`-th draw (counting from 0) of the stream seeded with `seed`.
pub open spec fn draw_at(seed: u64, k: nat) -> u64 {
    draw_output(state_after(seed, k))
}

/// Reproducibility of the probe's randomness: the whole draw stream is a
/// pure function of the seed, so two runs from equal seeds see bit-identical
/// state and draws at every position. Together with `splitmix64`'s exact
/// contract, this pins every statistic computed from the stream to the seed
/// and the draw count.
pub proof fn lemma_stream_reproducible(s1: u64, s2: u64, k: nat)
    requires
        s1 == s2,
    ensures
        state_after(s1, k) == state_after(s2, k),
        draw_at(s1, k) == draw_at(s2, k),
{
}

/// Advance the generator one step and return the 64-bit draw. The new state
/// and the output are exact functions of the old state alone: after `k`
/// draws from `seed` the state is `state_after(seed, k)` and the draws seen
/// were `draw_at(seed, 0), ..., draw_at(seed, k - 1)`.
pub fn splitmix64(state: &mut u64) -> (r: u64)
    ensures
        *final(state) == next_state(*old(state)),
        r == draw_output(*old(state)),
{
    *state = state.wrapping_add(0x9E37_79B9_7F4A_7C15);
    let mut z: u64 = *state;
    z = (z ^ (z >> 30)).wrapping_mul(0xBF58_476D_1CE4_E5B9);
    z = (z ^ (z >> 27)).wrapping_mul(0x94D0_49BB_1331_11EB);
    z ^ (z >> 31)
}

/// The top 53 bits of one draw: the integer numerator of a uniform value in
/// [0, 1) with denominator 2^53. The bound below 2^53 is what makes the
/// later division land in [0, 1).
pub fn draw_bits53(state: &mut u64) -> (r: u64)
    ensures
        *final(state) == next_state(*old(state)),
        r == draw_output(*old(state)) >> 11u64,
        r < 0x20_0000_0000_0000u64,
{
    let u = splitmix64(state);
    let r = u >> 11;
    proof {
        assert(u >> 11u64 < 0x20_0000_0000_0000u64) by (bit_vector);
    }
    r
}

/// The first `count` draws of the stream, as 53-bit numerators: position
/// `i` holds the top 53 bits of the `i`-th draw from the entry state. The
/// probe synthesizes each trial's vectors from exactly this stream, one
/// numerator per vector slot in order, so a fixed seed yields the same
/// vectors on every run.
pub fn draw_numerators(state: &mut u64, count: u32) -> (r: Vec<u64>)
    ensures
        r@.len() == count as int,
        *final(state) == state_after(*old(state), count as nat),
        forall|i: int|
            0 <= i < count ==> (#[trigger] r@[i]) == draw_at(*old(state), i as nat) >> 11u64
                && r@[i] < 0x20_0000_0000_0000u64,
{
    let ghost s0: u64 = *state;
    let mut out: Vec<u64> = Vec::new();
    let mut i: u32 = 0;
    while i < count
        invariant
            i <= count,
            out@.len() == i as int,
            *state == state_after(s0, i as nat),
            forall|j: int|
                0 <= j < i ==> (#[trigger] out@[j]) == draw_at(s0, j as nat) >> 11u64 && out@[j]
                    < 0x20_0000_0000_0000u64,
        decreases count - i,
    {
        let v = draw_bits53(state);
        out.push(v);
        proof {
            assert(state_after(s0, (i + 1) as nat) == next_state(state_after(s0, i as nat)));
        }
        i = i + 1;
    }
    out
}

} // verus!
