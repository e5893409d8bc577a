//! `TernaryRng`: a seeded xorshift64 generator. Its abstract state is the
//! 64-bit word it holds, which is never zero.
use vstd::prelude::*;
use crate::trit::{Trit, trit_value};

verus! {

/// The state a generator seeded with 0 starts from.
pub const ZERO_SEED_STATE: u64 = 0xDEAD_BEEF_CAFE_BABE;

/// The 21 low bits of a draw, which make up a fraction in [0, 1) with
/// denominator 2^21.
pub const FRACTION_MASK: u64 = 0x1F_FFFF;

/// The number of distinct 21-bit fractions, 2^21.
pub const FRACTION_RANGE: u64 = 0x20_0000;

/// One xorshift64 step (shifts 13, 7, 17).
pub open spec fn xorshift(x: u64) -> u64 {
    let a = x ^ (x << 13u64);
    let b = a ^ (a >> 7u64);
    b ^ (b << 17u64)
}

/// The state after `n` xorshift steps from `s`.
pub open spec fn advance(s: u64, n: nat) -> u64
    decreases n,
{
    if n == 0 {
        s
    } else {
        xorshift(advance(s, (n - 1) as nat))
    }
}

/// The state that `TernaryRng::new(seed)` starts from.
pub open spec fn initial_state(seed: u64) -> u64 {
    if seed == 0 {
        ZERO_SEED_STATE
    } else {
        seed
    }
}

/// The 21-bit fraction numerator carried by a drawn word.
pub open spec fn fraction_bits(word: u64) -> u64 {
    word & FRACTION_MASK
}

/// The trit that `next_trit` makes of a drawn byte.
pub open spec fn trit_of_byte(b: u8) -> Trit {
    if b % 3 == 0 {
        Trit::NegOne
    } else if b % 3 == 1 {
        Trit::Zero
    } else {
        Trit::One
    }
}

/// A simple seeded PRNG (xorshift64) for reproducibility.
#[derive(Debug)]
pub struct TernaryRng {
    state: u64,
}

impl Clone for TernaryRng {
    /// A generator in the same state, which draws the same values.
    fn clone(&self) -> (r: Self)
        ensures
            r@ == self@,
    {
        proof {
            use_type_invariant(self);
        }
        TernaryRng { state: self.state }
    }
}

impl View for TernaryRng {
    type V = u64;

    closed spec fn view(&self) -> u64 {
        self.state
    }
}

/// One xorshift step maps a nonzero word to a nonzero word.
pub proof fn lemma_xorshift_nonzero(x: u64)
    requires
        x != 0,
    ensures
        xorshift(x) != 0,
{
    let a = x ^ (x << 13u64);
    assert(a != 0) by (bit_vector)
        requires
            x != 0,
            a == x ^ (x << 13u64),
    ;
    let b = a ^ (a >> 7u64);
    assert(b != 0) by (bit_vector)
        requires
            a != 0,
            b == a ^ (a >> 7u64),
    ;
    let c = b ^ (b << 17u64);
    assert(c != 0) by (bit_vector)
        requires
            b != 0,
            c == b ^ (b << 17u64),
    ;
}

/// A generator never reaches the all-zero state, from which xorshift would
/// only ever produce zeros: every state reachable from a nonzero one is
/// nonzero.
pub proof fn lemma_advance_nonzero(s: u64, n: nat)
    requires
        s != 0,
    ensures
        advance(s, n) != 0,
    decreases n,
{
    if n > 0 {
        lemma_advance_nonzero(s, (n - 1) as nat);
        lemma_xorshift_nonzero(advance(s, (n - 1) as nat));
    }
}

/// The low 21 bits of a word are below 2^21.
pub proof fn lemma_fraction_bits_bound(word: u64)
    ensures
        fraction_bits(word) < FRACTION_RANGE,
{
    assert(word & 0x1F_FFFFu64 < 0x20_0000u64) by (bit_vector);
}

impl TernaryRng {
    #[verifier::type_invariant]
    spec fn state_nonzero(self) -> bool {
        self.state != 0
    }

    /// Create a new RNG with the given seed (a zero seed is replaced, so the
    /// state is never zero).
    pub fn new(seed: u64) -> (rng: Self)
        ensures
            rng@ == initial_state(seed),
            rng@ != 0,
    {
        TernaryRng { state: if seed == 0 { ZERO_SEED_STATE } else { seed } }
    }

    /// Generate the next random u64: one xorshift64 step, which is also the
    /// new state.
    pub fn next_u64(&mut self) -> (r: u64)
        ensures
            r == xorshift(old(self)@),
            final(self)@ == r,
            r != 0,
    {
        proof {
            use_type_invariant(&*self);
            lemma_xorshift_nonzero(self.state);
        }
        let mut x = self.state;
        x = x ^ (x << 13u64);
        x = x ^ (x >> 7u64);
        x = x ^ (x << 17u64);
        self.state = x;
        x
    }

    /// Generate a random u8: the low byte of the next u64.
    pub fn next_u8(&mut self) -> (r: u8)
        ensures
            r == xorshift(old(self)@) as u8,
            final(self)@ == xorshift(old(self)@),
    {
        self.next_u64() as u8
    }

    /// The numerator of the next random fraction in [0, 1): the 21 low bits
    /// of the next u64. The fraction itself is this value divided by 2^21.
    pub fn next_fraction_bits(&mut self) -> (r: u64)
        ensures
            r == fraction_bits(xorshift(old(self)@)),
            r < FRACTION_RANGE,
            final(self)@ == xorshift(old(self)@),
    {
        let w = self.next_u64();
        proof {
            lemma_fraction_bits_bound(w);
        }
        w & FRACTION_MASK
    }

    /// Generate a random trit from the next byte: its remainder mod 3 picks
    /// -1, 0 or +1.
    pub fn next_trit(&mut self) -> (t: Trit)
        ensures
            t == trit_of_byte(xorshift(old(self)@) as u8),
            final(self)@ == xorshift(old(self)@),
    {
        let b = self.next_u8();
        let m = b % 3;
        if m == 0 {
            Trit::NegOne
        } else if m == 1 {
            Trit::Zero
        } else {
            Trit::One
        }
    }
}

/// Two generators in the same state draw the same values forever: after any
/// number of steps their states agree.
pub proof fn lemma_reproducible(a: u64, b: u64, n: nat)
    requires
        a == b,
    ensures
        advance(a, n) == advance(b, n),
{
}

/// The trit drawn from a byte is decided by the byte's remainder mod 3
/// alone: remainder 0, 1, 2 give -1, 0, +1, that is, the trit's value is the
/// remainder minus one, and the three remainders give three different trits.
pub proof fn lemma_trit_of_byte_by_residue(b: u8, c: u8)
    ensures
        trit_value(trit_of_byte(b)) == (b % 3) as int - 1,
        (b % 3 == c % 3) <==> (trit_of_byte(b) == trit_of_byte(c)),
{
}

/// Stepping `m` times and then `n` times is stepping `m + n` times.
pub proof fn lemma_advance_adds(s: u64, m: nat, n: nat)
    ensures
        advance(advance(s, m), n) == advance(s, m + n),
    decreases n,
{
    if n > 0 {
        lemma_advance_adds(s, m, (n - 1) as nat);
    }
}

} // verus!
