//! PCG32: a small permuted congruential pseudo-random generator (XSH RR output).
use vstd::prelude::*;

verus! {

/// The multiplier of the underlying linear congruential generator.
pub const PCG_MULTIPLIER: u64 = 6364136223846793005;

/// The state after `s`, with increment `inc` (forced odd), wrapping.
pub open spec fn pcg_step(s: u64, inc: u64) -> u64 {
    vstd::wrapping::u64_specs::wrapping_add(vstd::wrapping::u64_specs::wrapping_mul(s, PCG_MULTIPLIER), inc | 1)
}

/// The 32-bit output drawn from state `s`: xorshift high bits, then rotate right by the top
/// five bits.
pub open spec fn pcg_output(s: u64) -> u32 {
    let x = (((s >> 18u64) ^ s) >> 27u64) as u32;
    let rot = (s >> 59u64) as u32;
    (x >> rot) | (x << (((32 - rot) as u32) % 32u32))
}

pub struct PCG32 {
    state: u64,
    inc: u64,
}

impl PCG32 {
    pub closed spec fn state(self) -> u64 {
        self.state
    }

    pub closed spec fn increment(self) -> u64 {
        self.inc
    }

    /// A generator seeded with `state` and `inc`, advanced past its first two outputs.
    pub fn new(state: u64, inc: u64) -> (r: Self)
        ensures
            r.state() == pcg_step(pcg_step(state, inc), inc),
            r.increment() == inc,
    {
        let mut s = PCG32 { state, inc };
        let _ = s.next64();
        s
    }

    /// The next 32-bit output.
    pub fn next32(&mut self) -> (r: u32)
        ensures
            r == pcg_output(old(self).state()),
            final(self).state() == pcg_step(old(self).state(), old(self).increment()),
            final(self).increment() == old(self).increment(),
    {
        let oldstate = self.state;
        self.state = oldstate.wrapping_mul(PCG_MULTIPLIER).wrapping_add(self.inc | 1);
        let xorshifted: u32 = (((oldstate >> 18) ^ oldstate) >> 27) as u32;
        let rot: u32 = (oldstate >> 59) as u32;
        assert(rot < 32) by (bit_vector)
            requires
                rot == (oldstate >> 59u64) as u32,
        ;
        (xorshifted >> rot) | (xorshifted << ((32 - rot) % 32))
    }

    /// The next 64-bit output: two 32-bit outputs, the first in the low half.
    pub fn next64(&mut self) -> (r: u64)
        ensures
            r == (pcg_output(old(self).state()) as u64) | ((pcg_output(pcg_step(old(self).state(), old(self).increment())) as u64) << 32u64),
            final(self).state() == pcg_step(pcg_step(old(self).state(), old(self).increment()), old(self).increment()),
            final(self).increment() == old(self).increment(),
    {
        let lo = self.next32() as u64;
        let hi = self.next32() as u64;
        lo | (hi << 32)
    }

    /// A number in `lo..hi`, scaled from the next 32-bit output.
    pub fn range(&mut self, lo: usize, hi: usize) -> (r: usize)
        requires
            lo <= hi,
            hi - lo <= 0x1_0000_0000,
        ensures
            r == lo + (pcg_output(old(self).state()) as int * (hi - lo)) / 0x1_0000_0000,
            lo < hi ==> lo <= r < hi,
            final(self).state() == pcg_step(old(self).state(), old(self).increment()),
            final(self).increment() == old(self).increment(),
    {
        let x = self.next32() as u64;
        let r = (hi - lo) as u64;
        assert(x * r <= 0xffff_ffff * 0x1_0000_0000) by (nonlinear_arith)
            requires
                x <= 0xffff_ffff,
                r <= 0x1_0000_0000,
        ;
        assert((x * r) / 0x1_0000_0000 < r || (r == 0 && x * r == 0)) by (nonlinear_arith)
            requires
                x < 0x1_0000_0000,
        ;
        let q = x * r / 0x1_0000_0000;
        assert(q <= r);
        let scaled = q as usize;
        scaled + lo
    }
}

} // verus!
