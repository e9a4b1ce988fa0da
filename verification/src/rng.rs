//! Inline PCG32 (PCG-XSH-RR 32/64), the only randomness in the crate.
//!
//! Elections draw their timeouts from this generator and the simulator its
//! delays and losses, so the generator is fixed bit for bit by the
//! specification functions below.

use vstd::prelude::*;

verus! {

/// The 64-bit LCG multiplier of the PCG reference implementation.
pub const MULTIPLIER: u64 = 6364136223846793005;

/// The stream of the published `pcg32-demo`.
pub const DEFAULT_STREAM: u64 = 54;

/// The odd increment that selects `DEFAULT_STREAM`: twice the stream, plus one.
pub const DEFAULT_INCREMENT: u64 = 109;

/// PCG-XSH-RR 32/64: a 64-bit LCG state, 32-bit output by xorshift and rotate.
#[derive(Clone, Copy, Debug)]
pub struct Pcg32 {
    pub state: u64,
    pub inc: u64,
}

/// `x` rotated right by `r` bits, for `r` below 32.
pub open spec fn rotated_right(x: u32, r: u32) -> u32 {
    if r == 0 {
        x
    } else {
        (x >> r) | (x << ((32 - r) as u32))
    }
}

/// The output function: xorshift the state down to 32 bits, then rotate by its
/// five top bits.
pub open spec fn pcg_output(state: u64) -> u32 {
    rotated_right((((state >> 18u64) ^ state) >> 27u64) as u32, (state >> 59u64) as u32)
}

impl Pcg32 {
    /// The generator after one step of the linear congruence.
    pub open spec fn advanced(self) -> Pcg32 {
        Pcg32 { state: self.state.wrapping_mul(MULTIPLIER).wrapping_add(self.inc), inc: self.inc }
    }

    /// The 32 bits that the next draw gives.
    pub open spec fn output(self) -> u32 {
        pcg_output(self.state)
    }

    /// The generator that `new(seed)` gives: one step from the zero state, the
    /// seed added, one step more.
    pub open spec fn seeded(seed: u64) -> Pcg32 {
        let first = Pcg32 { state: 0, inc: DEFAULT_INCREMENT }.advanced();
        Pcg32 { state: first.state.wrapping_add(seed), inc: DEFAULT_INCREMENT }.advanced()
    }

    /// The value that the next `range_inclusive(lo, hi)` gives.
    pub open spec fn draw(self, lo: u64, hi: u64) -> u64 {
        (lo + (self.output() as u64) as int % (hi - lo + 1)) as u64
    }

    /// Seeded like the reference `pcg32_srandom_r(seed, DEFAULT_STREAM)`.
    pub fn new(seed: u64) -> (rng: Self)
        ensures
            rng == Pcg32::seeded(seed),
    {
        let inc: u64 = (DEFAULT_STREAM << 1) | 1;
        assert(inc == DEFAULT_INCREMENT) by {
            assert((54u64 << 1) | 1 == 109) by (bit_vector);
        }
        let mut rng = Pcg32 { state: 0, inc };
        rng.next_u32();
        rng.state = rng.state.wrapping_add(seed);
        rng.next_u32();
        rng
    }

    /// Draws 32 bits and advances the state by one step.
    pub fn next_u32(&mut self) -> (out: u32)
        ensures
            out == old(self).output(),
            *final(self) == old(self).advanced(),
    {
        let old_state: u64 = self.state;
        self.state = old_state.wrapping_mul(MULTIPLIER).wrapping_add(self.inc);
        let xorshifted: u32 = (((old_state >> 18) ^ old_state) >> 27) as u32;
        let rot: u32 = (old_state >> 59) as u32;
        assert(rot < 32) by {
            assert((old_state >> 59) < 32) by (bit_vector);
        }
        rotate_right(xorshifted, rot)
    }

    /// Draws from `lo..=hi` by modulo.
    pub fn range_inclusive(&mut self, lo: u64, hi: u64) -> (v: u64)
        requires
            lo <= hi,
            hi - lo < u64::MAX,
        ensures
            v == old(self).draw(lo, hi),
            lo <= v <= hi,
            *final(self) == old(self).advanced(),
    {
        let span: u64 = hi - lo + 1;
        let bits: u64 = self.next_u32() as u64;
        let offset: u64 = bits % span;
        lo + offset
    }
}

fn rotate_right(x: u32, r: u32) -> (out: u32)
    requires
        r < 32,
    ensures
        out == rotated_right(x, r),
{
    if r == 0 {
        x
    } else {
        (x >> r) | (x << (32 - r))
    }
}

/// The generator is a linear congruence modulo 2^64; every draw steps it once, and
/// it starts from the seed as the reference does.
pub proof fn law_the_generator_is_a_linear_congruence(rng: Pcg32, seed: u64)
    ensures
        rng.advanced().state as int == (rng.state as int * 6364136223846793005 + rng.inc as int)
            % 0x1_0000_0000_0000_0000,
        rng.advanced().inc == rng.inc,
        Pcg32::seeded(seed).inc == 109,
        Pcg32::seeded(seed).state as int == ((109 + seed as int) % 0x1_0000_0000_0000_0000
            * 6364136223846793005 + 109) % 0x1_0000_0000_0000_0000,
{
    lemma_step(rng);
    let zero = Pcg32 { state: 0, inc: 109 };
    lemma_step(zero);
    let first = zero.advanced();
    assert(first.state == 109);
    let added = Pcg32 { state: first.state.wrapping_add(seed), inc: 109 };
    lemma_step(added);
}

proof fn lemma_step(rng: Pcg32)
    ensures
        rng.advanced().state as int == (rng.state as int * 6364136223846793005 + rng.inc as int)
            % 0x1_0000_0000_0000_0000,
{
    let product = rng.state as int * 6364136223846793005;
    let m = 0x1_0000_0000_0000_0000int;
    assert(rng.state.wrapping_mul(MULTIPLIER) as int == product % m);
    vstd::arithmetic::div_mod::lemma_add_mod_noop(product, rng.inc as int, m);
    vstd::arithmetic::div_mod::lemma_mod_twice(product, m);
    vstd::arithmetic::div_mod::lemma_add_mod_noop(product % m, rng.inc as int, m);
}

/// The output is the state, xored with itself 18 bits down, from bit 27 on, turned
/// right by as many bits as the state's five top bits say: turned back it is that
/// again.
pub proof fn law_the_output_is_the_state_turned(state: u64)
    ensures
        ({
            let bits = (((state >> 18u64) ^ state) >> 27u64) as u32;
            let turn = (state >> 59u64) as u32;
            let out = pcg_output(state);
            &&& turn < 32
            &&& turn == 0 ==> out == bits
            &&& turn > 0 ==> (out << turn) | (out >> ((32 - turn) as u32)) == bits
        }),
{
    let bits = (((state >> 18u64) ^ state) >> 27u64) as u32;
    let turn = (state >> 59u64) as u32;
    assert(turn < 32) by (bit_vector)
        requires
            turn == (state >> 59u64) as u32,
    ;
    if turn > 0 {
        let rest = (32 - turn) as u32;
        let out = (bits >> turn) | (bits << rest);
        assert((out << turn) | (out >> rest) == bits) by (bit_vector)
            requires
                0 < turn < 32,
                rest == 32 - turn,
                out == (bits >> turn) | (bits << rest),
        ;
    }
}

/// A draw lies in its band, wherever the generator stands, and which value it is
/// is the output's remainder by the width of the band.
pub proof fn law_a_draw_lies_in_its_band(rng: Pcg32, lo: u64, hi: u64)
    requires
        lo <= hi,
    ensures
        lo <= rng.draw(lo, hi) <= hi,
        rng.draw(lo, hi) == lo + pcg_output(rng.state) as int % (hi - lo + 1),
{
}

} // verus!
