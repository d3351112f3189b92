use vstd::prelude::*;

verus! {

/// The multiplier of the xorshift64* output scramble.
pub const SCRAMBLE: u64 = 0x2545_F491_4F6C_DD1D;

/// One xorshift64 step of the generator's state: shifts of 12, 25 and 27.
pub open spec fn xorshift(x: u64) -> u64 {
    let a = x ^ (x >> 12u64);
    let b = a ^ (a << 25u64);
    b ^ (b >> 27u64)
}

/// What the generator hands out for a state it has just moved to.
pub open spec fn scrambled(x: u64) -> u64 {
    x.wrapping_mul(SCRAMBLE)
}

/// A zero state is the one xorshift cannot leave; every other state stays non-zero.
pub proof fn lemma_xorshift_keeps_nonzero(x: u64)
    requires
        x != 0,
    ensures
        xorshift(x) != 0,
{
    let a = x ^ (x >> 12u64);
    let b = a ^ (a << 25u64);
    assert(a != 0) by (bit_vector)
        requires
            x != 0,
            a == x ^ (x >> 12u64),
    ;
    assert(b != 0) by (bit_vector)
        requires
            a != 0,
            b == a ^ (a << 25u64),
    ;
    assert(b ^ (b >> 27u64) != 0) by (bit_vector)
        requires
            b != 0,
    ;
}

/// The state of a generator seeded with `seed` after `n` draws.
pub open spec fn state_after(seed: u64, n: nat) -> u64
    decreases n,
{
    if n == 0 {
        seed | 1
    } else {
        xorshift(state_after(seed, (n - 1) as nat))
    }
}

/// Whatever the seed, and however many numbers are drawn, the state never reaches zero — the
/// one state xorshift would stay in forever, handing out zeros.
pub proof fn lemma_a_stream_never_sticks(seed: u64, n: nat)
    ensures
        state_after(seed, n) != 0,
    decreases n,
{
    if n == 0 {
        assert((seed | 1) != 0) by (bit_vector);
    } else {
        lemma_a_stream_never_sticks(seed, (n - 1) as nat);
        lemma_xorshift_keeps_nonzero(state_after(seed, (n - 1) as nat));
    }
}

/// Deterministic xorshift64* PRNG: a seeded stream with no global state and no entropy
/// source, so two runs from one seed draw the same numbers on every platform.
pub struct Rng(u64);

impl View for Rng {
    type V = u64;

    /// The generator's state.
    closed spec fn view(&self) -> u64 {
        self.0
    }
}

impl Rng {
    /// The state is never zero, which is the one state xorshift would stay in forever.
    #[verifier::type_invariant]
    closed spec fn nonzero(self) -> bool {
        self.0 != 0
    }

    /// Seeded with `seed`, its low bit forced on so that the state cannot be zero.
    pub fn new(seed: u64) -> (r: Rng)
        ensures
            r@ == seed | 1,
            r@ != 0,
    {
        assert((seed | 1) != 0) by (bit_vector);
        Rng(seed | 1)
    }

    /// Advance the state one xorshift step and return it scrambled by the multiplier.
    pub fn next_u64(&mut self) -> (out: u64)
        ensures
            final(self)@ == xorshift(old(self)@),
            out == scrambled(final(self)@),
            final(self)@ != 0,
    {
        proof {
            use_type_invariant(&*self);
            lemma_xorshift_keeps_nonzero(self.0);
        }
        let mut x = self.0;
        x ^= x >> 12;
        x ^= x << 25;
        x ^= x >> 27;
        self.0 = x;
        x.wrapping_mul(SCRAMBLE)
    }

    /// The top 53 bits of the next draw of [`Rng::next_u64`]: the numerator of a uniform
    /// fraction over `2^53`, which is why that fraction lies in `[0, 1)`.
    pub fn next_fraction_bits(&mut self) -> (bits: u64)
        ensures
            final(self)@ == xorshift(old(self)@),
            bits == scrambled(final(self)@) >> 11u64,
            bits < 0x20_0000_0000_0000u64,
    {
        let x = self.next_u64();
        assert(x >> 11u64 < 0x20_0000_0000_0000u64) by (bit_vector);
        x >> 11
    }
}

} // verus!
