//! Deterministic, seedable Xoshiro128++ generator used for procedural
//! generation. Every operation is pinned to a spec function of the
//! generator state, so a seed determines the whole stream.

use vstd::prelude::*;

verus! {

/// The four 32-bit words of Xoshiro128++ state.
pub type RngState = (u32, u32, u32, u32);

/// Rotate `x` left by `k` bits (modulo 32).
pub open spec fn spec_rotl(x: u32, k: u32) -> u32 {
    let r = k % 32;
    if r == 0 {
        x
    } else {
        (x << r) | (x >> ((32 - r) as u32))
    }
}

/// The state a seed produces: its four 16-bit limbs, with the all-zero
/// state replaced by `[1, 0, 0, 1]`.
pub open spec fn seed_state(seed: u64) -> RngState {
    let l0 = (seed & 0xFFFF) as u32;
    let l1 = ((seed >> 16u64) & 0xFFFF) as u32;
    let l2 = ((seed >> 32u64) & 0xFFFF) as u32;
    let l3 = ((seed >> 48u64) & 0xFFFF) as u32;
    if l0 == 0 && l1 == 0 && l2 == 0 && l3 == 0 {
        (1u32, 0u32, 0u32, 1u32)
    } else {
        (l0, l1, l2, l3)
    }
}

/// The 32-bit output drawn from a state: the `++` scrambler,
/// `rotl(s0 + s3, 7) + s0` with wrapping additions.
pub open spec fn output(s: RngState) -> u32 {
    vstd::wrapping::u32_specs::wrapping_add(
        spec_rotl(vstd::wrapping::u32_specs::wrapping_add(s.0, s.3), 7),
        s.0,
    )
}

/// The state after one draw.
pub open spec fn advance(s: RngState) -> RngState {
    let t = s.1 << 9u32;
    let a2 = s.2 ^ s.0;
    let a3 = s.3 ^ s.1;
    let a1 = s.1 ^ a2;
    let a0 = s.0 ^ a3;
    (a0, a1, a2 ^ t, spec_rotl(a3, 11))
}

/// A draw in `[0, bound)` and the state after it; a zero bound draws nothing.
pub open spec fn draw_below(s: RngState, bound: u32) -> (u32, RngState) {
    if bound == 0 {
        (0u32, s)
    } else {
        ((output(s) % bound) as u32, advance(s))
    }
}

/// A draw in the inclusive `[low, high]` and the state after it; an empty
/// range yields `low` and draws nothing.
pub open spec fn draw_between(s: RngState, low: u32, high: u32) -> (u32, RngState) {
    if high < low {
        (low, s)
    } else {
        let (v, s2) = draw_below(s, (high - low + 1) as u32);
        ((low + v) as u32, s2)
    }
}

/// Whether `draw_between` can be asked for this range without the width
/// `high - low + 1` overflowing.
pub open spec fn between_fits(low: u32, high: u32) -> bool {
    high < low || high - low < u32::MAX
}

pub open spec fn is_zero_state(s: RngState) -> bool {
    s.0 == 0 && s.1 == 0 && s.2 == 0 && s.3 == 0
}

/// No seed yields the all-zero state, on which Xoshiro128 is degenerate.
pub proof fn lemma_seed_state_nonzero(seed: u64)
    ensures
        !is_zero_state(seed_state(seed)),
{
}

/// The transition keeps a nonzero state nonzero, so the generator never
/// falls into the all-zero state.
pub proof fn lemma_advance_nonzero(s: RngState)
    requires
        !is_zero_state(s),
    ensures
        !is_zero_state(advance(s)),
{
    let (s0, s1, s2, s3) = s;
    assert(s1 << 9u32 == s1 ==> s1 == 0) by (bit_vector);
    assert(((s3 ^ s1) << 11u32) | ((s3 ^ s1) >> 21u32) == 0 ==> s3 ^ s1 == 0) by (bit_vector);
    assert(s3 ^ s1 == 0 ==> s3 == s1) by (bit_vector);
    assert((s0 ^ (s3 ^ s1)) == 0 && s3 ^ s1 == 0 ==> s0 == 0) by (bit_vector);
    assert((s1 ^ (s2 ^ s0)) == 0 && s0 == 0 ==> s2 == s1) by (bit_vector);
    assert(((s2 ^ s0) ^ (s1 << 9u32)) == 0 && s0 == 0 && s2 == s1 ==> s1 << 9u32 == s1) by (bit_vector);
}

/// The first `n` values drawn from state `s`, in order.
pub open spec fn draws(s: RngState, n: nat) -> Seq<u32>
    decreases n,
{
    if n == 0 {
        Seq::empty()
    } else {
        seq![output(s)] + draws(advance(s), (n - 1) as nat)
    }
}

/// Drawing once and then `n` more values is drawing `n + 1` values.
pub proof fn lemma_draws_step(s: RngState, n: nat)
    ensures
        draws(s, n + 1)[0] == output(s),
        draws(s, n + 1).drop_first() == draws(advance(s), n),
        draws(s, n).len() == n,
    decreases n,
{
    if n > 0 {
        lemma_draws_step(advance(s), (n - 1) as nat);
    }
    assert((seq![output(s)] + draws(advance(s), n)).drop_first() =~= draws(advance(s), n));
}

/// A run of `next_u32` calls as its contract describes it: `states[i]` is
/// the generator's state before call `i`, and `outs[i]` is what that call
/// returned.
pub open spec fn drawn_run(states: Seq<RngState>, outs: Seq<u32>) -> bool {
    &&& states.len() == outs.len() + 1
    &&& forall|i: int|
        0 <= i < outs.len() ==> #[trigger] outs[i] == output(states[i]) && states[i + 1] == advance(states[i])
}

/// A run of calls returns the values drawn from the state it starts in.
pub proof fn lemma_run_draws(states: Seq<RngState>, outs: Seq<u32>)
    requires
        drawn_run(states, outs),
    ensures
        outs == draws(states[0], outs.len()),
    decreases outs.len(),
{
    if outs.len() > 0 {
        let n = (outs.len() - 1) as nat;
        let st = states.drop_first();
        let os = outs.drop_first();
        assert forall|i: int| 0 <= i < os.len() implies #[trigger] os[i] == output(st[i]) && st[i + 1] == advance(
            st[i],
        ) by {
            assert(os[i] == outs[i + 1]);
        }
        lemma_run_draws(st, os);
        lemma_draws_step(states[0], n);
        assert(states.len() == outs.len() + 1);
        assert(outs[0] == output(states[0]));
        assert(states[1] == advance(states[0]));
        let d = draws(states[0], outs.len());
        assert(d.len() == outs.len());
        assert forall|i: int| 0 <= i < outs.len() implies #[trigger] outs[i] == d[i] by {
            if i > 0 {
                assert(outs[i] == os[i - 1]);
                assert(d.drop_first()[i - 1] == d[i]);
            }
        }
        assert(outs =~= d);
    }
}

/// Two generators seeded alike return the same values: runs of the same
/// length from the same seed agree call for call.
pub proof fn lemma_same_seed_same_sequence(
    seed: u64,
    states_a: Seq<RngState>,
    outs_a: Seq<u32>,
    states_b: Seq<RngState>,
    outs_b: Seq<u32>,
)
    requires
        drawn_run(states_a, outs_a),
        drawn_run(states_b, outs_b),
        states_a[0] == seed_state(seed),
        states_b[0] == seed_state(seed),
        outs_a.len() == outs_b.len(),
    ensures
        outs_a == outs_b,
        outs_a == draws(seed_state(seed), outs_a.len()),
{
    lemma_run_draws(states_a, outs_a);
    lemma_run_draws(states_b, outs_b);
}

/// Truncating a length to 32 bits never makes it larger.
pub proof fn lemma_truncate_le(x: usize)
    ensures
        (x as u32) as int <= x as int,
{
    assert((x as u32) as usize <= x) by (bit_vector);
}

/// 128-bit Xoshiro128++ state with a 32-bit output per step.
pub struct Rng {
    s0: u32,
    s1: u32,
    s2: u32,
    s3: u32,
}

impl View for Rng {
    type V = RngState;

    closed spec fn view(&self) -> RngState {
        (self.s0, self.s1, self.s2, self.s3)
    }
}

impl Rng {
    /// Seed from a single `u64`, split into four 16-bit limbs so a zero seed
    /// still produces a nonzero state.
    pub fn from_seed(seed: u64) -> (r: Rng)
        ensures
            r@ == seed_state(seed),
            !is_zero_state(r@),
    {
        let l0 = (seed & 0xFFFF) as u32;
        let l1 = ((seed >> 16u64) & 0xFFFF) as u32;
        let l2 = ((seed >> 32u64) & 0xFFFF) as u32;
        let l3 = ((seed >> 48u64) & 0xFFFF) as u32;
        if l0 == 0 && l1 == 0 && l2 == 0 && l3 == 0 {
            Rng { s0: 1, s1: 0, s2: 0, s3: 1 }
        } else {
            Rng { s0: l0, s1: l1, s2: l2, s3: l3 }
        }
    }

    fn rotl(x: u32, k: u32) -> (r: u32)
        ensures
            r == spec_rotl(x, k),
    {
        let r = k % 32;
        if r == 0 {
            x
        } else {
            (x << r) | (x >> (32 - r))
        }
    }

    /// Produce the next 32-bit pseudo-random value.
    pub fn next_u32(&mut self) -> (r: u32)
        ensures
            r == output(old(self)@),
            final(self)@ == advance(old(self)@),
    {
        let result = Self::rotl(self.s0.wrapping_add(self.s3), 7).wrapping_add(self.s0);

        let t = self.s1 << 9;

        self.s2 = self.s2 ^ self.s0;
        self.s3 = self.s3 ^ self.s1;
        self.s1 = self.s1 ^ self.s2;
        self.s0 = self.s0 ^ self.s3;

        self.s2 = self.s2 ^ t;
        self.s3 = Self::rotl(self.s3, 11);

        result
    }

    /// Returns a pseudo-random integer in `[0, bound)`; a zero bound returns
    /// zero and leaves the state unchanged.
    pub fn below(&mut self, bound: u32) -> (r: u32)
        ensures
            (r, final(self)@) == draw_below(old(self)@, bound),
            bound > 0 ==> r < bound,
            bound == 0 ==> r == 0,
    {
        if bound == 0 {
            return 0;
        }
        self.next_u32() % bound
    }

    /// Returns a pseudo-random integer in the inclusive `[low, high]`; an
    /// empty range returns `low`.
    pub fn between(&mut self, low: u32, high: u32) -> (r: u32)
        requires
            between_fits(low, high),
        ensures
            (r, final(self)@) == draw_between(old(self)@, low, high),
            low <= high ==> low <= r <= high,
            high < low ==> r == low,
    {
        if high < low {
            return low;
        }
        low + self.below(high - low + 1)
    }
}

} // verus!
