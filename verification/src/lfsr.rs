//! A seedable xorshift generator of 32-bit values.

use vstd::prelude::*;

verus! {

/// One round of the generator: three shift-and-xor stages applied in turn.
pub open spec fn xorshift(n: u32) -> u32 {
    let a = n ^ (n << 13);
    let b = a ^ (a >> 17);
    b ^ (b << 5)
}

/// The state a stream starts from: the seed itself, except that zero becomes
/// one. A state of zero would stay zero for ever.
pub open spec fn initial_state(seed: u32) -> u32 {
    if seed == 0 {
        1
    } else {
        seed
    }
}

/// The state of the stream seeded with `seed` after `n` values have been drawn.
/// The value drawn last is the state itself.
pub open spec fn stream_state(seed: u32, n: nat) -> u32
    decreases n,
{
    if n == 0 {
        initial_state(seed)
    } else {
        xorshift(stream_state(seed, (n - 1) as nat))
    }
}

/// A round never turns a nonzero state into zero, so a stream that starts
/// nonzero never gets stuck.
pub proof fn lemma_xorshift_nonzero(n: u32)
    by (bit_vector)
    requires
        n != 0,
    ensures
        xorshift(n) != 0,
{
}

/// Seeding with zero gives the stream that seeding with one gives.
pub proof fn lemma_zero_seed_is_one(n: nat)
    ensures
        stream_state(0, n) == stream_state(1, n),
    decreases n,
{
    if n > 0 {
        lemma_zero_seed_is_one((n - 1) as nat);
    }
}

/// No stream ever reaches the all-zero state, whatever its seed.
pub proof fn lemma_never_stuck(seed: u32, n: nat)
    ensures
        stream_state(seed, n) != 0,
    decreases n,
{
    if n > 0 {
        lemma_never_stuck(seed, (n - 1) as nat);
        lemma_xorshift_nonzero(stream_state(seed, (n - 1) as nat));
    }
}

/// A stream of 32-bit values. The state is never zero.
pub struct LFSR {
    state: u32,
}

impl View for LFSR {
    type V = u32;

    closed spec fn view(&self) -> u32 {
        self.state
    }
}

impl LFSR {
    #[verifier::type_invariant]
    spec fn never_stuck(self) -> bool {
        self.state != 0
    }

    /// A stream that starts from `seed`, or from one where `seed` is zero.
    pub fn new(seed: u32) -> (stream: LFSR)
        ensures
            stream@ == initial_state(seed),
            stream@ != 0,
    {
        if seed == 0 {
            LFSR { state: 1 }
        } else {
            LFSR { state: seed }
        }
    }

    /// Runs one round and returns the new state. The stream never ends.
    pub fn next(&mut self) -> (drawn: Option<u32>)
        ensures
            final(self)@ == xorshift(old(self)@),
            final(self)@ != 0,
            drawn == Some(final(self)@),
    {
        proof {
            use_type_invariant(&*self);
            lemma_xorshift_nonzero(self.state);
        }
        let mut n: u32 = self.state;
        n ^= n << 13;
        n ^= n >> 17;
        n ^= n << 5;
        self.state = n;
        Some(self.state)
    }
}

} // verus!
