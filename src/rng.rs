use vstd::prelude::*;

verus! {

/// Increment of the generator state per draw.
pub const GOLDEN_GAMMA: u64 = 0x9e37_79b9_7f4a_7c15;

/// Output of the generator for state `z`: the SplitMix64 finaliser.
pub open spec fn mix64(z: u64) -> u64 {
    let a = (z ^ (z >> 30u64)).wrapping_mul(0xbf58_476d_1ce4_e5b9u64);
    let b = (a ^ (a >> 27u64)).wrapping_mul(0x94d0_49bb_1331_11ebu64);
    b ^ (b >> 31u64)
}

/// Generator state after one draw from state `s`.
pub open spec fn next_state(s: u64) -> u64 {
    s.wrapping_add(GOLDEN_GAMMA)
}

/// The value `range(lo, hi)` returns when drawn from state `s`.
pub open spec fn draw_in(s: u64, lo: int, hi: int) -> int {
    lo + (mix64(next_state(s)) % ((hi - lo + 1) as u64)) as int
}

/// Deterministic pseudo-random source: the same seed gives the same world.
#[derive(PartialEq, Eq, Structural, Copy, Clone, Debug)]
pub struct Rng {
    pub state: u64,
}

impl Rng {
    pub fn new(seed: u64) -> (r: Rng)
        ensures
            r.state == seed,
    {
        Rng { state: seed }
    }

    /// Advances the state and returns the next value.
    pub fn next_u64(&mut self) -> (r: u64)
        ensures
            final(self).state == next_state(old(self).state),
            r == mix64(final(self).state),
    {
        self.state = self.state.wrapping_add(GOLDEN_GAMMA);
        let z = self.state;
        let a = (z ^ (z >> 30u64)).wrapping_mul(0xbf58_476d_1ce4_e5b9u64);
        let b = (a ^ (a >> 27u64)).wrapping_mul(0x94d0_49bb_1331_11ebu64);
        b ^ (b >> 31u64)
    }

    /// A value in `[lo, hi]`, taken from the next draw.
    pub fn range(&mut self, lo: i64, hi: i64) -> (r: i64)
        requires
            lo <= hi,
            hi - lo < 0x7fff_ffff_ffff_ffff,
        ensures
            final(self).state == next_state(old(self).state),
            r == draw_in(old(self).state, lo as int, hi as int),
            lo <= r <= hi,
    {
        let span: u64 = (hi - lo + 1) as u64;
        let v = self.next_u64();
        lo + (v % span) as i64
    }
}

} // verus!
