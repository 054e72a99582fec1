//! Binary range coder: codes one bit at a time with a probability of zero
//! given in 256ths, over a 24-bit range.
use vstd::prelude::*;

verus! {

pub const STATE_BITS: u32 = 24;
pub const PROB_BITS: u32 = 8;
pub const MAX_RANGE: u32 = 0xff_ffff;
pub const NORM_SHIFT: u32 = 16;
pub const NORM_MASK: u32 = 0xffff;

/// Part of `range` given to a zero bit when it has probability `p0 / 256`.
pub open spec fn threshold_of(range: nat, p0: nat) -> nat {
    (range * p0) / 256
}

/// The range no longer fills the top byte of the coder's window.
pub open spec fn needs_norm(low: nat, range: nat) -> bool {
    (low % 0x1_0000) + range <= 0xffff
}

fn compute_threshold(range: u32, p0: u8) -> (r: u32)
    requires
        range <= MAX_RANGE,
    ensures
        r == threshold_of(range as nat, p0 as nat),
        r <= range,
{
    assert(range * p0 <= 0xff_ffff * 255) by (nonlinear_arith)
        requires
            range <= 0xff_ffff,
            p0 <= 255,
    ;
    assert((range * p0) / 256 <= range) by (nonlinear_arith)
        requires
            p0 <= 255,
    ;
    let prod = range * p0 as u32;
    assert(prod >> 8 == prod / 256) by (bit_vector);
    prod >> PROB_BITS
}

fn normalize_needed(low: u32, range: u32) -> (r: bool)
    requires
        range <= MAX_RANGE,
    ensures
        r == needs_norm(low as nat, range as nat),
{
    assert(low & 0xffff == low % 0x1_0000) by (bit_vector);
    (low & NORM_MASK) + range <= NORM_MASK
}

proof fn lemma_shift_in(x: u32, b: u8)
    requires
        x <= 0xffff,
    ensures
        (x << 8) | 0xff == x * 256 + 255,
        (x << 8) | (b as u32) == x * 256 + b,
{
    assert(x <= 0xffff ==> (x << 8) | 0xff == x * 256 + 255) by (bit_vector);
    let bb = b as u32;
    assert(x <= 0xffff && bb <= 0xff ==> (x << 8) | bb == x * 256 + bb) by (bit_vector);
}

proof fn lemma_low_shift(low: u32, range: u32)
    requires
        (low % 0x1_0000) + range <= 0xffff,
    ensures
        low << 8 == (low % 0x100_0000) * 256,
        (low % 0x100_0000) * 256 + range * 256 + 255 <= u32::MAX,
{
    assert(low << 8 == (low % 0x100_0000) * 256) by (bit_vector);
    assert(low % 0x100_0000 == (low / 0x1_0000) % 256 * 0x1_0000 + low % 0x1_0000) by (bit_vector);
    assert((low / 0x1_0000) % 256 <= 255) by (bit_vector);
}

/// Decoding side of the range coder.
pub struct Decoder {
    low: u32,
    range: u32,
    code: u32,
}

impl Decoder {
    pub closed spec fn low_spec(&self) -> nat {
        self.low as nat
    }

    pub closed spec fn range_spec(&self) -> nat {
        self.range as nat
    }

    pub closed spec fn code_spec(&self) -> nat {
        self.code as nat
    }

    /// The code lies in the range, and the window does not overflow.
    pub closed spec fn wf(&self) -> bool {
        &&& self.range <= MAX_RANGE
        &&& self.code <= self.range
        &&& self.low + self.range <= u32::MAX
    }

    pub fn new() -> (r: Decoder)
        ensures
            r.wf(),
            r.low_spec() == 0 && r.range_spec() == 0 && r.code_spec() == 0,
    {
        Decoder { low: 0, range: 0, code: 0 }
    }

    /// Decodes one bit whose probability of being zero is `p0 / 256`.
    pub fn decode_bit(&mut self, p0: u8) -> (r: bool)
        requires
            old(self).wf(),
        ensures
            final(self).wf(),
            ({
                let t = threshold_of(old(self).range_spec(), p0 as nat);
                &&& r == (old(self).code_spec() > t)
                &&& r ==> final(self).code_spec() == old(self).code_spec() - t - 1
                    && final(self).range_spec() == old(self).range_spec() - t - 1
                    && final(self).low_spec() == old(self).low_spec() + t + 1
                &&& !r ==> final(self).code_spec() == old(self).code_spec()
                    && final(self).range_spec() == t && final(self).low_spec() == old(
                    self,
                ).low_spec()
            }),
    {
        let threshold = compute_threshold(self.range, p0);
        let bit = self.code > threshold;
        if bit {
            self.code -= threshold + 1;
            self.range -= threshold + 1;
            self.low += threshold + 1;
        } else {
            self.range = threshold;
        }
        bit
    }

    /// The next input byte is due.
    pub fn needs_normalize(&self) -> (r: bool)
        requires
            self.wf(),
        ensures
            r == needs_norm(self.low_spec(), self.range_spec()),
    {
        normalize_needed(self.low, self.range)
    }

    /// Takes in the next input byte `b`. Call it only while
    /// `needs_normalize()` holds, as a decoding loop does: that is what keeps
    /// the range within 24 bits.
    pub fn normalize(&mut self, b: u8)
        requires
            old(self).wf(),
            needs_norm(old(self).low_spec(), old(self).range_spec()),
        ensures
            final(self).wf(),
            final(self).range_spec() == old(self).range_spec() * 256 + 255,
            final(self).code_spec() == old(self).code_spec() * 256 + b,
            final(self).low_spec() == (old(self).low_spec() % 0x100_0000) * 256,
    {
        proof {
            lemma_shift_in(self.range, b);
            lemma_shift_in(self.code, b);
            lemma_low_shift(self.low, self.range);
        }
        self.range = (self.range << 8) | 0xff;
        self.code = (self.code << 8) | b as u32;
        self.low = self.low << 8;
    }
}

/// Encoding side of the range coder.
pub struct Encoder {
    low: u32,
    range: u32,
}

impl Encoder {
    pub closed spec fn low_spec(&self) -> nat {
        self.low as nat
    }

    pub closed spec fn range_spec(&self) -> nat {
        self.range as nat
    }

    /// The window does not overflow.
    pub closed spec fn wf(&self) -> bool {
        &&& self.range <= MAX_RANGE
        &&& self.low + self.range <= u32::MAX
    }

    pub fn new() -> (r: Encoder)
        ensures
            r.wf(),
            r.low_spec() == 0 && r.range_spec() == MAX_RANGE,
    {
        Encoder { low: 0, range: MAX_RANGE }
    }

    /// Encodes `bit`, whose probability of being zero is `p0 / 256`. A one
    /// bit needs a non-empty range.
    pub fn encode_bit(&mut self, p0: u8, bit: bool)
        requires
            old(self).wf(),
            bit ==> old(self).range_spec() > 0,
        ensures
            final(self).wf(),
            ({
                let t = threshold_of(old(self).range_spec(), p0 as nat);
                &&& bit ==> final(self).low_spec() == old(self).low_spec() + t + 1
                    && final(self).range_spec() == old(self).range_spec() - t - 1
                &&& !bit ==> final(self).low_spec() == old(self).low_spec()
                    && final(self).range_spec() == t
            }),
    {
        let threshold = compute_threshold(self.range, p0);
        if bit {
            assert(threshold < self.range) by (nonlinear_arith)
                requires
                    threshold == (self.range * p0) / 256,
                    self.range > 0,
                    p0 <= 255,
            ;
            self.low += threshold + 1;
            self.range -= threshold + 1;
        } else {
            self.range = threshold;
        }
    }

    /// The top byte of the window is settled and due for output.
    pub fn needs_normalize(&self) -> (r: bool)
        requires
            self.wf(),
        ensures
            r == needs_norm(self.low_spec(), self.range_spec()),
    {
        normalize_needed(self.low, self.range)
    }

    /// Returns the settled output byte and widens the range. Call it only
    /// while `needs_normalize()` holds, as an encoding loop does: that is
    /// what keeps the range within 24 bits.
    pub fn normalize(&mut self) -> (r: u8)
        requires
            old(self).wf(),
            needs_norm(old(self).low_spec(), old(self).range_spec()),
        ensures
            final(self).wf(),
            r == (old(self).low_spec() / 0x1_0000) % 256,
            final(self).range_spec() == old(self).range_spec() * 256 + 255,
            final(self).low_spec() == (old(self).low_spec() % 0x100_0000) * 256,
    {
        proof {
            lemma_shift_in(self.range, 0);
            lemma_low_shift(self.low, self.range);
        }
        let low = self.low;
        assert(((low >> 16) as u8) == (low / 0x1_0000) % 256) by (bit_vector);
        let out = (self.low >> NORM_SHIFT) as u8;
        self.range = (self.range << 8) | 0xff;
        self.low = self.low << 8;
        out
    }

    /// The final output byte.
    pub fn flush(&mut self) -> (r: u8)
        requires
            old(self).wf(),
        ensures
            r == ((old(self).low_spec() + old(self).range_spec()) / 0x1_0000) % 256,
            final(self).low_spec() == old(self).low_spec(),
            final(self).range_spec() == old(self).range_spec(),
    {
        let sum = self.low + self.range;
        assert(((sum >> 16) as u8) == (sum / 0x1_0000) % 256) by (bit_vector);
        (sum >> NORM_SHIFT) as u8
    }
}

} // verus!
