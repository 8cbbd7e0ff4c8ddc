//! A tiny deterministic generator (xorshift64*), so that experiments with a
//! "generic" right-hand side are reproducible. Statistical quality is
//! irrelevant; only the bit manipulation is specified and proved here. Turning
//! the 53 output bits into a number in (-1, 1) is left to the caller.
use vstd::prelude::*;

verus! {

/// The xorshift64* multiplier.
pub const MULTIPLIER: u64 = 0x2545_F491_4F6C_DD1D;

/// One xorshift step on the state: shifts by 12 right, 25 left, 27 right.
pub open spec fn xorshift_step(state: u64) -> u64 {
    let a = state ^ (state >> 12u64);
    let b = a ^ (a << 25u64);
    b ^ (b >> 27u64)
}

/// The 53 high bits of the state times the multiplier, modulo 2^64.
pub open spec fn output_bits(state: u64) -> u64 {
    (((state as nat * MULTIPLIER as nat) % 0x1_0000_0000_0000_0000) as u64) >> 11u64
}

/// A xorshift64* generator.
pub struct Xorshift64Star {
    state: u64,
}

impl Xorshift64Star {
    /// The current state.
    pub closed spec fn state(&self) -> u64 {
        self.state
    }

    pub fn new(seed: u64) -> (generator: Self)
        ensures
            generator.state() == seed,
    {
        Self { state: seed }
    }

    /// Advance the state by one xorshift step and return the 53 high bits of
    /// the scrambled new state: a number below 2^53.
    pub fn next_u53(&mut self) -> (bits: u64)
        ensures
            final(self).state() == xorshift_step(old(self).state()),
            bits == output_bits(final(self).state()),
            bits < 0x20_0000_0000_0000,
            ({
                let s = old(self).state();
                let u = s ^ (s / 0x1000);
                let t = u ^ (((u as int * 0x200_0000) % 0x1_0000_0000_0000_0000) as u64);
                final(self).state() == t ^ (t / 0x800_0000)
            }),
            bits as int == ((final(self).state() as int * 0x2545_F491_4F6C_DD1D)
                % 0x1_0000_0000_0000_0000) / 0x800,
    {
        let ghost start = self.state;
        self.state = self.state ^ (self.state >> 12);
        self.state = self.state ^ (self.state << 25);
        self.state = self.state ^ (self.state >> 27);
        let value = self.state.wrapping_mul(MULTIPLIER);
        let bits = value >> 11;
        proof {
            lemma_shift_11_bound(value);
            law_step_in_arithmetic(start);
            law_output_in_arithmetic(self.state);
        }
        bits
    }
}

proof fn lemma_shift_11_bound(x: u64)
    ensures
        (x >> 11u64) < 0x20_0000_0000_0000,
{
    assert((x >> 11u64) < 0x20_0000_0000_0000) by (bit_vector);
}

/// A non-zero state never becomes zero: each of the three xorshifts maps a
/// non-zero word to a non-zero word (a zero state would stay zero forever).
pub proof fn law_nonzero_state_stays_nonzero(state: u64)
    requires
        state != 0,
    ensures
        xorshift_step(state) != 0,
{
    let a = state ^ (state >> 12u64);
    assert(a != 0) by (bit_vector)
        requires
            state != 0,
            a == state ^ (state >> 12u64),
    ;
    let b = a ^ (a << 25u64);
    assert(b != 0) by (bit_vector)
        requires
            a != 0,
            b == a ^ (a << 25u64),
    ;
    let c = b ^ (b >> 27u64);
    assert(c != 0) by (bit_vector)
        requires
            b != 0,
            c == b ^ (b >> 27u64),
    ;
}

/// A right shift by `k` bits is division by 2^k, rounding down.
proof fn lemma_shift_right_divides(x: u64)
    ensures
        x >> 11u64 == x / 0x800,
        x >> 12u64 == x / 0x1000,
        x >> 27u64 == x / 0x800_0000,
{
    assert(x >> 11u64 == x / 0x800) by (bit_vector);
    assert(x >> 12u64 == x / 0x1000) by (bit_vector);
    assert(x >> 27u64 == x / 0x800_0000) by (bit_vector);
}

/// A left shift by 25 bits multiplies by 2^25 and drops what passes 2^64.
proof fn lemma_shift_left_multiplies(x: u64)
    ensures
        (x << 25u64) as int == (x as int * 0x200_0000) % 0x1_0000_0000_0000_0000,
{
    assert((x << 25u64) == (x % 0x80_0000_0000u64) * 0x200_0000u64) by (bit_vector);
    assert((x % 0x80_0000_0000u64) * 0x200_0000 == (x as int * 0x200_0000) % 0x1_0000_0000_0000_0000)
        by (nonlinear_arith);
}

/// What one step does to a state, in arithmetic: with u = s xor floor(s / 2^12)
/// and t = u xor (u * 2^25 mod 2^64), the new state is t xor floor(t / 2^27).
pub proof fn law_step_in_arithmetic(s: u64)
    ensures
        ({
            let u = s ^ (s / 0x1000);
            let t = u ^ (((u as int * 0x200_0000) % 0x1_0000_0000_0000_0000) as u64);
            xorshift_step(s) == t ^ (t / 0x800_0000)
        }),
{
    lemma_shift_right_divides(s);
    let u = s ^ (s / 0x1000);
    lemma_shift_left_multiplies(u);
    let t = u ^ (((u as int * 0x200_0000) % 0x1_0000_0000_0000_0000) as u64);
    lemma_shift_right_divides(t);
}

/// What a state outputs, in arithmetic: the state times 0x2545_F491_4F6C_DD1D,
/// reduced modulo 2^64, divided by 2^11 and rounded down.
pub proof fn law_output_in_arithmetic(s: u64)
    ensures
        output_bits(s) as int == ((s as int * 0x2545_F491_4F6C_DD1D) % 0x1_0000_0000_0000_0000)
            / 0x800,
{
    let w = ((s as nat * MULTIPLIER as nat) % 0x1_0000_0000_0000_0000) as u64;
    assert(w as int == (s as int * 0x2545_F491_4F6C_DD1D) % 0x1_0000_0000_0000_0000);
    lemma_shift_right_divides(w);
}

} // verus!
