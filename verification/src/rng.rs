//! The xorshift64 generator that drives randomized reordering
//! (simulated annealing and the genetic algorithm).
use vstd::prelude::*;

verus! {

/// One xorshift64 step (shifts 13, 7, 17).
pub open spec fn xorshift(x: u64) -> u64 {
    let a = x ^ (x << 13u64);
    let b = a ^ (a >> 7u64);
    b ^ (b << 17u64)
}

/// A small deterministic pseudo-random generator.
pub struct Rng {
    state: u64,
}

impl Rng {
    /// The generator's state.
    pub closed spec fn state_of(&self) -> u64 {
        self.state
    }

    /// A generator seeded with `seed` (a zero seed is replaced by 1).
    pub fn new(seed: u64) -> (r: Rng)
        ensures
            r.state_of() == if seed == 0 {
                1
            } else {
                seed
            },
    {
        Rng { state: if seed == 0 { 1 } else { seed } }
    }

    /// Advance the state one xorshift step and return the new state.
    pub fn next_u64(&mut self) -> (r: u64)
        ensures
            r == xorshift(old(self).state_of()),
            final(self).state_of() == r,
    {
        let mut x = self.state;
        x ^= x << 13;
        x ^= x >> 7;
        x ^= x << 17;
        self.state = x;
        x
    }

    /// A number in `[0, bound)`: the next value modulo `bound`.
    pub fn next_usize(&mut self, bound: usize) -> (r: usize)
        requires
            bound > 0,
        ensures
            r as nat == xorshift(old(self).state_of()) as nat % bound as nat,
            r < bound,
            final(self).state_of() == xorshift(old(self).state_of()),
    {
        let x = self.next_u64();
        (x % bound as u64) as usize
    }
}

/// A xorshift step maps a non-zero state to a non-zero state, so a
/// generator never reaches the all-zero state from which it could not leave.
pub proof fn lemma_xorshift_nonzero(x: u64)
    requires
        x != 0,
    ensures
        xorshift(x) != 0,
{
    assert(x != 0 ==> (x ^ (x << 13u64)) != 0) by (bit_vector);
    let a = x ^ (x << 13u64);
    assert(a != 0 ==> (a ^ (a >> 7u64)) != 0) by (bit_vector);
    let b = a ^ (a >> 7u64);
    assert(b != 0 ==> (b ^ (b << 17u64)) != 0) by (bit_vector);
}

/// A fresh generator's state is never zero.
pub proof fn lemma_seeded_nonzero(seed: u64)
    ensures
        (if seed == 0 {
            1u64
        } else {
            seed
        }) != 0,
{
}

/// Advance a bare generator state one xorshift step and return the new
/// state.
pub fn next_state(state: &mut u64) -> (r: u64)
    ensures
        r == xorshift(*old(state)),
        *final(state) == r,
{
    let mut x = *state;
    x ^= x << 13;
    x ^= x >> 7;
    x ^= x << 17;
    *state = x;
    x
}

/// A coin flip from a bare generator state: whether the next state is
/// even.
pub fn next_bool(state: &mut u64) -> (r: bool)
    ensures
        r == (xorshift(*old(state)) % 2 == 0),
        *final(state) == xorshift(*old(state)),
{
    let x = next_state(state);
    assert((x & 1 == 0) == (x % 2 == 0)) by (bit_vector);
    x & 1 == 0
}

} // verus!
