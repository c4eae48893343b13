//! SplitMix64: the generator's source of choices.
//!
//! Small, fast, and written out here rather than taken from a crate, so that the stream a
//! seed produces is fixed by this file alone. Every operation is a pure function from a state
//! to a value and the next state.
use vstd::prelude::*;

verus! {

/// The increment added to the state at every draw.
pub const GAMMA: u64 = 0x9E37_79B9_7F4A_7C15;

/// The output function: the state, scrambled.
pub open spec fn mix(z: u64) -> u64 {
    let a = vstd::wrapping::u64_specs::wrapping_mul(z ^ (z >> 30u64), 0xBF58_476D_1CE4_E5B9u64);
    let b = vstd::wrapping::u64_specs::wrapping_mul(a ^ (a >> 27u64), 0x94D0_49BB_1331_11EBu64);
    b ^ (b >> 31u64)
}

/// A SplitMix64 state.
#[derive(Clone, Copy, Debug, PartialEq, Eq, Structural)]
pub struct SplitMix64 {
    state: u64,
}

impl SplitMix64 {
    /// The current state.
    pub closed spec fn spec_state(self) -> u64 {
        self.state
    }

    /// The state after one draw.
    pub open spec fn advanced(self) -> u64 {
        vstd::wrapping::u64_specs::wrapping_add(self.spec_state(), GAMMA)
    }

    /// The generator after one draw.
    pub closed spec fn stepped(self) -> SplitMix64 {
        SplitMix64 { state: self.advanced() }
    }

    /// The generator seeded with `seed`.
    pub closed spec fn seeded(seed: u64) -> SplitMix64 {
        SplitMix64 { state: seed }
    }

    /// A generator whose state is the seed.
    pub fn new(seed: u64) -> (r: Self)
        ensures
            r.spec_state() == seed,
            r == SplitMix64::seeded(seed),
    {
        SplitMix64 { state: seed }
    }

    /// The next 64 random bits, and the state after drawing them.
    pub fn next(self) -> (r: (u64, SplitMix64))
        ensures
            r.1.spec_state() == self.advanced(),
            r.1 == self.stepped(),
            r.0 == mix(r.1.spec_state()),
    {
        let state = self.state.wrapping_add(GAMMA);
        let z = state;
        let a = (z ^ (z >> 30u64)).wrapping_mul(0xBF58_476D_1CE4_E5B9u64);
        let b = (a ^ (a >> 27u64)).wrapping_mul(0x94D0_49BB_1331_11EBu64);
        (b ^ (b >> 31u64), SplitMix64 { state })
    }

    /// A number below `n`, and the state after drawing it.
    pub fn below(self, n: u64) -> (r: (u64, SplitMix64))
        requires
            n > 0,
        ensures
            r.0 < n,
            r.0 == mix(self.advanced()) % n,
            r.1.spec_state() == self.advanced(),
            r.1 == self.stepped(),
    {
        let (bits, next) = self.next();
        (bits % n, next)
    }

    /// A fair coin, and the state after tossing it.
    pub fn coin(self) -> (r: (bool, SplitMix64))
        ensures
            r.0 == (mix(self.advanced()) % 2 == 1),
            r.1.spec_state() == self.advanced(),
            r.1 == self.stepped(),
    {
        let (bits, next) = self.next();
        (bits % 2 == 1, next)
    }
}

/// The inverse of `x ^ (x >> 30)`, `x ^ (x >> 27)` and `x ^ (x >> 31)`: each shift is at least
/// a third of the word, so two terms undo it.
proof fn lemma_unshift(y: u64)
    by (bit_vector)
    ensures
        (y ^ (y >> 30u64) ^ (y >> 60u64)) ^ ((y ^ (y >> 30u64) ^ (y >> 60u64)) >> 30u64) == y,
        (y ^ (y >> 27u64) ^ (y >> 54u64)) ^ ((y ^ (y >> 27u64) ^ (y >> 54u64)) >> 27u64) == y,
        (y ^ (y >> 31u64) ^ (y >> 62u64)) ^ ((y ^ (y >> 31u64) ^ (y >> 62u64)) >> 31u64) == y,
{
}

/// Multiplying by `c` modulo 2^64 undoes multiplying by `d` when `c * d` is one more than a
/// multiple of 2^64.
proof fn lemma_undo_mul(y: u64, d: u64, c: u64, k: int)
    requires
        c as int * d as int == 1 + k * 0x1_0000_0000_0000_0000,
        k >= 0,
    ensures
        vstd::wrapping::u64_specs::wrapping_mul(vstd::wrapping::u64_specs::wrapping_mul(y, d), c) == y,
{
    let m: int = 0x1_0000_0000_0000_0000;
    let p: int = y as int * d as int;
    let a = vstd::wrapping::u64_specs::wrapping_mul(y, d);
    assert(0 <= p % m < m) by {
        vstd::arithmetic::div_mod::lemma_mod_bound(p, m);
    }
    assert(a as int == p % m);
    vstd::arithmetic::div_mod::lemma_mul_mod_noop_left(p, c as int, m);
    assert(p * c as int == m * (y as int * k) + y as int) by (nonlinear_arith)
        requires
            p == y as int * d as int,
            c as int * d as int == 1 + k * m,
    ;
    vstd::arithmetic::div_mod::lemma_mod_multiples_vanish(y as int * k, y as int, m);
    vstd::arithmetic::div_mod::lemma_small_mod(y as nat, m as nat);
    assert((a as nat * c as nat) % (m as nat) == y);
}

/// Every 64-bit value is what `mix` makes of some state: the scrambling is a bijection.
pub proof fn lemma_mix_onto(y: u64)
    ensures
        exists|z: u64| #[trigger] mix(z) == y,
{
    let b = y ^ (y >> 31u64) ^ (y >> 62u64);
    let t = vstd::wrapping::u64_specs::wrapping_mul(b, 0x3196_42B2_D24D_8EC3u64);
    let a = t ^ (t >> 27u64) ^ (t >> 54u64);
    let u = vstd::wrapping::u64_specs::wrapping_mul(a, 0x96DE_1B17_3F11_9089u64);
    let z = u ^ (u >> 30u64) ^ (u >> 60u64);
    lemma_unshift(y);
    lemma_unshift(t);
    lemma_unshift(u);
    lemma_undo_mul(b, 0x3196_42B2_D24D_8EC3u64, 0x94D0_49BB_1331_11EBu64, 2077064247507883091);
    lemma_undo_mul(a, 0x96DE_1B17_3F11_9089u64, 0xBF58_476D_1CE4_E5B9u64, 8125545580553827436);
    assert(z ^ (z >> 30u64) == u);
    assert(a ^ (a >> 27u64) == t);
    assert(b ^ (b >> 31u64) == y);
    assert(mix(z) == y);
}

impl SplitMix64 {
    /// Every 64-bit value is the next draw of some generator: whatever a choice needs from
    /// one draw, some state gives it.
    pub proof fn lemma_any_draw(y: u64)
        ensures
            exists|r: SplitMix64| #[trigger] mix(r.advanced()) == y,
    {
        lemma_mix_onto(y);
        let z = choose|z: u64| #[trigger] mix(z) == y;
        let r = SplitMix64 { state: vstd::wrapping::u64_specs::wrapping_sub(z, GAMMA) };
        assert(r.advanced() == z);
        assert(mix(r.advanced()) == y);
    }
}

} // verus!
