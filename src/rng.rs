//! A small seedable pseudo-random generator (SplitMix64).
use vstd::prelude::*;

verus! {

/// Increment added to the state on every draw.
pub const GAMMA: u64 = 0x9E37_79B9_7F4A_7C15;

/// The output mixing function of SplitMix64.
pub open spec fn mix(z: u64) -> u64 {
    let a = (z ^ (z >> 30u64)).wrapping_mul(0xBF58_476D_1CE4_E5B9u64);
    let b = (a ^ (a >> 27u64)).wrapping_mul(0x94D0_49BB_1331_11EBu64);
    b ^ (b >> 31u64)
}

/// The state after one draw.
pub open spec fn step(s: u64) -> u64 {
    s.wrapping_add(GAMMA)
}

/// The value produced by a draw from state `s`.
pub open spec fn output(s: u64) -> u64 {
    mix(step(s))
}

/// The starting state of the independent stream with index `t` under `seed`.
pub open spec fn stream_seed(seed: u64, t: u64) -> u64 {
    mix(seed.wrapping_add(mix(t)))
}

pub fn mix64(z: u64) -> (r: u64)
    ensures
        r == mix(z),
{
    let a = (z ^ (z >> 30u64)).wrapping_mul(0xBF58_476D_1CE4_E5B9u64);
    let b = (a ^ (a >> 27u64)).wrapping_mul(0x94D0_49BB_1331_11EBu64);
    b ^ (b >> 31u64)
}

/// Returns the starting state of stream `t` under `seed`.
pub fn stream_start(seed: u64, t: u64) -> (r: u64)
    ensures
        r == stream_seed(seed, t),
{
    mix64(seed.wrapping_add(mix64(t)))
}

/// Draws one value and advances the state.
pub fn next_u64(state: &mut u64) -> (r: u64)
    ensures
        *final(state) == step(*old(state)),
        r == output(*old(state)),
{
    *state = state.wrapping_add(GAMMA);
    mix64(*state)
}

/// Draws a value below `n` and advances the state.
pub fn next_below(state: &mut u64, n: u64) -> (r: u64)
    requires
        n > 0,
    ensures
        *final(state) == step(*old(state)),
        r == output(*old(state)) % n,
        r < n,
{
    let x = next_u64(state);
    x % n
}

} // verus!
