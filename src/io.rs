//! Bit-level input and output over bytes. Bits are taken from and put into
//! each byte starting at its least significant bit.
use vstd::prelude::*;
use vstd::arithmetic::power2::*;
use vstd::arithmetic::div_mod::*;
use vstd::bits::*;
use crate::error::CodecError;

verus! {

/// The low `n` bits of `v`, least significant first.
pub open spec fn lsb_bits(v: nat, n: nat) -> Seq<bool>
    decreases n,
{
    if n == 0 {
        Seq::empty()
    } else {
        seq![v % 2 == 1] + lsb_bits(v / 2, (n - 1) as nat)
    }
}

/// The bits of a byte sequence, each byte least significant bit first.
pub open spec fn bytes_bits(b: Seq<u8>) -> Seq<bool>
    decreases b.len(),
{
    if b.len() == 0 {
        Seq::empty()
    } else {
        bytes_bits(b.drop_last()) + lsb_bits(b.last() as nat, 8)
    }
}

pub proof fn lemma_lsb_len(v: nat, n: nat)
    ensures
        lsb_bits(v, n).len() == n,
    decreases n,
{
    if n > 0 {
        lemma_lsb_len(v / 2, (n - 1) as nat);
    }
}

/// Splitting the low `m + n` bits into the low `m` and the `n` above them.
pub proof fn lemma_lsb_split(v: nat, m: nat, n: nat)
    ensures
        lsb_bits(v, m + n) == lsb_bits(v, m) + lsb_bits(v / pow2(m), n),
    decreases m,
{
    lemma2_to64();
    if m == 0 {
        assert(lsb_bits(v, n) =~= Seq::<bool>::empty() + lsb_bits(v, n));
    } else {
        lemma_lsb_split(v / 2, (m - 1) as nat, n);
        lemma_pow2_unfold(m);
        lemma_pow2_pos((m - 1) as nat);
        lemma_div_denominator(v as int, 2, pow2((m - 1) as nat) as int);
        assert((m + n - 1) as nat == (m - 1) as nat + n);
        assert(lsb_bits(v, m + n) =~= lsb_bits(v, m) + lsb_bits(v / pow2(m), n));
    }
}

/// Only the low `n` bits of `v` count.
pub proof fn lemma_lsb_mod(v: nat, n: nat)
    ensures
        lsb_bits(v, n) == lsb_bits(v % pow2(n), n),
    decreases n,
{
    lemma2_to64();
    if n > 0 {
        lemma_pow2_unfold(n);
        let h = pow2((n - 1) as nat);
        lemma_pow2_pos((n - 1) as nat);
        lemma_mod_breakdown(v as int, 2, h as int);
        lemma_mod_mod(v as int, 2, h as int);
        lemma_lsb_mod(v / 2, (n - 1) as nat);
        let r = v % pow2(n);
        assert(r == 2 * ((v / 2) % h) + v % 2);
        assert(r / 2 == (v / 2) % h);
        assert(r % 2 == v % 2);
    }
}

proof fn lemma_bytes_bits_prefix(s: Seq<u8>, i: int)
    requires
        0 <= i <= s.len(),
    ensures
        bytes_bits(s).len() == 8 * s.len(),
        bytes_bits(s).take(8 * i) == bytes_bits(s.take(i)),
    decreases s.len(),
{
    if s.len() > 0 {
        lemma_lsb_len(s.last() as nat, 8);
        if i == s.len() {
            lemma_bytes_bits_prefix(s.drop_last(), i - 1);
            assert(s.take(i) =~= s);
            assert(bytes_bits(s).take(8 * i) =~= bytes_bits(s));
        } else {
            lemma_bytes_bits_prefix(s.drop_last(), i);
            assert(s.drop_last().take(i) =~= s.take(i));
            assert(bytes_bits(s).take(8 * i) =~= bytes_bits(s.drop_last()).take(8 * i));
        }
    } else {
        assert(s.take(i) =~= s);
    }
}

/// A source of bits.
pub trait ReadBits {
    /// Every bit of the source, in reading order.
    spec fn bit_stream(&self) -> Seq<bool>;

    /// Number of bits read so far.
    spec fn bits_read(&self) -> nat;

    /// The source is in a usable state.
    spec fn ready(&self) -> bool;

    /// Reading fails only when the bits run out: no other error (such as
    /// one of an underlying device) can occur.
    spec fn infallible(&self) -> bool;

    /// What the latest call of `read_bits` returned.
    spec fn last_result(&self) -> Result<u32, CodecError>;

    /// Reads `nbits` bits; the first bit read is the least significant bit
    /// of the result. Fails when fewer than `nbits` bits are left, or with
    /// an error of the underlying source.
    fn read_bits(&mut self, nbits: u32) -> (r: Result<u32, CodecError>)
        requires
            old(self).ready(),
            nbits <= 32,
        ensures
            final(self).ready(),
            final(self).bit_stream() == old(self).bit_stream(),
            final(self).last_result() == r,
            old(self).infallible() ==> final(self).infallible(),
            old(self).infallible() ==> (r is Ok <==> old(self).bits_read() + nbits <= old(
                self,
            ).bit_stream().len()),
            old(self).infallible() && r is Err ==> r->Err_0 == CodecError::TruncatedInput,
            r is Ok ==> {
                &&& old(self).bits_read() + nbits <= old(self).bit_stream().len()
                &&& final(self).bits_read() == old(self).bits_read() + nbits
                &&& (r->Ok_0 as nat) < pow2(nbits as nat)
                &&& lsb_bits(r->Ok_0 as nat, nbits as nat) == old(self).bit_stream().subrange(
                    old(self).bits_read() as int,
                    old(self).bits_read() + nbits,
                )
            },
    ;
}

/// A sink of bits.
pub trait WriteBits {
    /// Every bit written so far, in order.
    spec fn bits_written(&self) -> Seq<bool>;

    /// The sink is in a usable state.
    spec fn ready(&self) -> bool;

    /// Writing never fails (no underlying device can report an error).
    spec fn infallible(&self) -> bool;

    /// What the latest call of `write_bits` or `flush` returned.
    spec fn last_result(&self) -> Result<(), CodecError>;

    /// Writes out any partly filled unit, padded with zero bits.
    fn flush(&mut self) -> (r: Result<(), CodecError>)
        requires
            old(self).ready(),
        ensures
            final(self).ready(),
            old(self).infallible() ==> r is Ok && final(self).infallible(),
            final(self).last_result() == r,
    ;

    /// Writes the low `nbits` bits of `bits`, least significant first.
    /// Fails only with an error of the underlying sink.
    fn write_bits(&mut self, bits: u32, nbits: u8) -> (r: Result<(), CodecError>)
        requires
            old(self).ready(),
            nbits <= 32,
        ensures
            final(self).ready(),
            old(self).infallible() ==> r is Ok && final(self).infallible(),
            final(self).last_result() == r,
            r is Ok ==> final(self).bits_written() == old(self).bits_written() + lsb_bits(
                bits as nat,
                nbits as nat,
            ),
    ;
}

/// Writes bits into bytes, filling each byte from its least significant bit.
pub struct BitWriter {
    /// Complete bytes.
    output: Vec<u8>,
    /// Bits of the byte being filled.
    bits: u8,
    /// Number of bits in `bits`.
    have_bits: u8,
}

impl BitWriter {
    /// Every bit written so far, in order.
    pub closed spec fn written(&self) -> Seq<bool> {
        bytes_bits(self.output@) + lsb_bits(self.bits as nat, self.have_bits as nat)
    }

    /// The complete bytes written so far.
    pub closed spec fn bytes_spec(&self) -> Seq<u8> {
        self.output@
    }

    /// Every bit written is in a complete byte or in the byte being filled.
    pub proof fn lemma_layout(&self)
        requires
            self.wf(),
        ensures
            bytes_bits(self.bytes_spec()) + lsb_bits(self.partial_byte() as nat, self.pending())
                == self.written(),
            self.pending() < 8,
            (self.partial_byte() as nat) < pow2(self.pending()),
            self.written().len() == 8 * self.bytes_spec().len() + self.pending(),
    {
        lemma_writer_len(self);
    }

    /// With no bits pending (after `flush`), the bytes hold exactly the bits
    /// written, so a `BitReader` over them reads those bits back in order.
    pub proof fn lemma_bytes_hold_written(&self)
        requires
            self.wf(),
            self.pending() == 0,
        ensures
            bytes_bits(self.bytes_spec()) == self.written(),
    {
        assert(lsb_bits(self.bits as nat, 0) =~= Seq::<bool>::empty());
        assert(bytes_bits(self.output@) + Seq::<bool>::empty() =~= bytes_bits(self.output@));
    }

    /// The byte being filled.
    pub closed spec fn partial_byte(&self) -> u8 {
        self.bits
    }

    /// Number of bits not yet in a complete byte.
    pub closed spec fn pending(&self) -> nat {
        self.have_bits as nat
    }

    /// The byte being filled holds fewer than 8 bits.
    pub closed spec fn wf(&self) -> bool {
        &&& self.have_bits < 8
        &&& (self.bits as nat) < pow2(self.have_bits as nat)
    }

    pub fn new() -> (r: BitWriter)
        ensures
            r.wf(),
            r.written() == Seq::<bool>::empty(),
            r.bytes_spec() == Seq::<u8>::empty(),
            r.pending() == 0,
            bytes_bits(r.bytes_spec()) + lsb_bits(r.partial_byte() as nat, r.pending())
                == r.written(),
            r.pending() < 8,
            (r.partial_byte() as nat) < pow2(r.pending()),
    {
        let w = BitWriter { output: Vec::new(), bits: 0, have_bits: 0 };
        proof {
            lemma2_to64();
            assert(w.output@ =~= Seq::<u8>::empty());
            assert(w.written() =~= Seq::<bool>::empty());
        }
        w
    }

    /// The complete bytes written so far.
    pub fn bytes(&self) -> (r: &Vec<u8>)
        ensures
            r@ == self.bytes_spec(),
    {
        &self.output
    }

    /// Writes the low `nbits` bits of `bits`, least significant first.
    #[verifier::rlimit(40)]
    pub fn write_bits(&mut self, bits: u32, nbits: u8) -> (r: Result<(), CodecError>)
        requires
            old(self).wf(),
            nbits <= 32,
        ensures
            final(self).wf(),
            r is Ok,
            final(self).written() == old(self).written() + lsb_bits(bits as nat, nbits as nat),
            bytes_bits(final(self).bytes_spec()) + lsb_bits(final(self).partial_byte() as nat, final(self).pending())
                == final(self).written(),
            final(self).pending() < 8,
            (final(self).partial_byte() as nat) < pow2(final(self).pending()),
            final(self).pending() == (old(self).pending() + nbits) % 8,
            final(self).bytes_spec().len() * 8 + final(self).pending() == old(self).bytes_spec().len()
                * 8 + old(self).pending() + nbits,
            final(self).bytes_spec().len() >= old(self).bytes_spec().len(),
            final(self).bytes_spec().take(old(self).bytes_spec().len() as int) == old(
                self,
            ).bytes_spec(),
    {
        let ghost goal = old(self).written() + lsb_bits(bits as nat, nbits as nat);
        let ghost bits_in = bits;
        let ghost nbits_in = nbits;
        proof {
            assert(self.output@.take(self.output@.len() as int) =~= self.output@);
        }
        let mut bits = bits;
        let mut nbits = nbits;
        while nbits > 0
            invariant
                self.wf(),
                nbits <= 32,
                self.written() + lsb_bits(bits as nat, nbits as nat) == goal,
                goal == old(self).written() + lsb_bits(bits_in as nat, nbits_in as nat),
                self.output@.len() >= old(self).output@.len(),
                self.output@.take(old(self).output@.len() as int) == old(self).output@,
            decreases nbits,
        {
            let need: u8 = 8 - self.have_bits;
            let take: u8 = if nbits < need {
                nbits
            } else {
                need
            };
            let ghost have = self.have_bits as nat;
            let ghost prev = self.output@;
            let ghost w0 = self.written();
            proof {
                lemma2_to64();
                lemma_pow2_strictly_increases(take as nat, 32);
                assert(1u32 * pow2(take as nat) <= u32::MAX);
                lemma_u32_shl_is_mul(1, take as u32);
                lemma_u32_low_bits_mask_is_mod(bits, take as nat);
                reveal(low_bits_mask);
                lemma_pow2_adds(have, take as nat);
                lemma_pow2_pos(have);
                lemma_pow2_pos(take as nat);
                if have + take < 8 {
                    lemma_pow2_strictly_increases(have + take as nat, 8);
                }
            }
            let low = bits & ((1u32 << take) - 1);
            let ghost lv = low as nat;
            proof {
                assert(lv < pow2(take as nat));
                assert(lv * pow2(have) < pow2(have + take as nat)) by (nonlinear_arith)
                    requires
                        lv < pow2(take as nat),
                        pow2(have) > 0,
                        pow2(have + take as nat) == pow2(have) * pow2(take as nat),
                ;
                lemma_u32_shl_is_mul(low, self.have_bits as u32);
                assert(self.bits + lv * pow2(have) < pow2(have + take as nat)) by (nonlinear_arith)
                    requires
                        self.bits < pow2(have),
                        lv < pow2(take as nat),
                        pow2(have + take as nat) == pow2(have) * pow2(take as nat),
                ;
            }
            let byte = self.bits + ((low << self.have_bits) as u8);
            let ghost bv = byte as nat;
            proof {
                lemma_div_mod_parts(lv, self.bits as nat, pow2(have));
                lemma_lsb_split(bv, have, take as nat);
                lemma_lsb_mod(bv, have);
                lemma_lsb_mod(self.bits as nat, have);
                lemma_small_mod(self.bits as nat, pow2(have));
                lemma_lsb_split(bits as nat, take as nat, (nbits - take) as nat);
                lemma_lsb_mod(bits as nat, take as nat);
                lemma_lsb_mod(lv, take as nat);
                lemma_small_mod(lv, pow2(take as nat));
                assert(lsb_bits(bv, have + take as nat) == lsb_bits(self.bits as nat, have)
                    + lsb_bits(bits as nat, take as nat));
            }
            if nbits < need {
                self.bits = byte;
                self.have_bits = self.have_bits + nbits;
                proof {
                    assert(take == nbits);
                    assert(self.have_bits as nat == have + take as nat);
                    assert(self.output@ == prev);
                    assert(self.written() == bytes_bits(prev) + lsb_bits(bv, have + take as nat));
                    assert(lsb_bits(bits as nat, nbits as nat) =~= lsb_bits(bits as nat, take as nat)
                        + lsb_bits((bits as nat) / pow2(take as nat), 0));
                    assert(lsb_bits((bits as nat) / pow2(take as nat), 0) =~= Seq::<bool>::empty());
                    assert(self.written() =~= w0 + lsb_bits(bits as nat, nbits as nat));
                }
                nbits = 0;
                proof {
                    assert(lsb_bits(bits as nat, 0) =~= Seq::<bool>::empty());
                    assert(self.written() + lsb_bits(bits as nat, 0) =~= goal);
                }
            } else {
                self.output.push(byte);
                self.bits = 0;
                self.have_bits = 0;
                proof {
                    assert(self.output@.take(old(self).output@.len() as int) =~= prev.take(
                        old(self).output@.len() as int,
                    ));
                    lemma_u32_shr_is_div(bits, need as u32);
                    assert(self.output@.drop_last() =~= prev);
                    assert(have + take as nat == 8);
                    assert(lsb_bits(0, 0) =~= Seq::<bool>::empty());
                }
                bits = bits >> need;
                nbits = nbits - need;
                proof {
                    assert(self.written() + lsb_bits(bits as nat, nbits as nat) =~= goal);
                }
            }
        }
        proof {
            lemma_writer_len(&*old(self));
            lemma_writer_len(self);
            lemma_lsb_len(bits_in as nat, nbits_in as nat);
            let p0 = old(self).have_bits as int;
            let b0 = old(self).output@.len() as int;
            let b1 = self.output@.len() as int;
            let p1 = self.have_bits as int;
            assert(8 * b1 + p1 == 8 * b0 + p0 + nbits_in);
            lemma_fundamental_div_mod_converse(p0 + nbits_in, 8, b1 - b0, p1);
        }
        Ok(())
    }

    /// Writes out the byte being filled, padded with zero bits, if any.
    pub fn flush(&mut self) -> (r: Result<(), CodecError>)
        requires
            old(self).wf(),
        ensures
            final(self).wf(),
            r is Ok,
            final(self).pending() == 0,
            old(self).pending() == 0 ==> final(self).bytes_spec() == old(self).bytes_spec(),
            old(self).pending() > 0 ==> final(self).bytes_spec() == old(self).bytes_spec().push(
                old(self).partial_byte(),
            ),
            final(self).written() == old(self).written() + Seq::new(
                ((8 - old(self).pending()) % 8) as nat,
                |i: int| false,
            ),
            bytes_bits(final(self).bytes_spec()) + lsb_bits(final(self).partial_byte() as nat, final(self).pending())
                == final(self).written(),
            final(self).pending() < 8,
            (final(self).partial_byte() as nat) < pow2(final(self).pending()),
    {
        proof {
            lemma2_to64();
        }
        if self.have_bits > 0 {
            let ghost have = self.have_bits as nat;
            let ghost b = self.bits as nat;
            self.output.push(self.bits);
            self.bits = 0;
            self.have_bits = 0;
            proof {
                assert(self.output@.drop_last() =~= old(self).output@);
                lemma_lsb_split(b, have, (8 - have) as nat);
                lemma_pow2_pos(have);
                lemma_small_mod(b, pow2(have));
                lemma_fundamental_div_mod(b as int, pow2(have) as int);
                lemma_lsb_zero((8 - have) as nat);
                lemma_div_mod_parts(0, b, pow2(have));
                assert(b / pow2(have) == 0);
                assert((8 - have) % 8 == 8 - have);
                assert(have + (8 - have) as nat == 8);
                assert(lsb_bits(0, 0) =~= Seq::<bool>::empty());
                assert(self.written() =~= old(self).written() + Seq::new(
                    ((8 - have) % 8) as nat,
                    |i: int| false,
                ));
            }
        } else {
            proof {
                assert(self.written() =~= old(self).written() + Seq::new(0, |i: int| false));
            }
        }
        Ok(())
    }
}

impl WriteBits for BitWriter {
    open spec fn bits_written(&self) -> Seq<bool> {
        self.written()
    }

    open spec fn ready(&self) -> bool {
        self.wf()
    }

    open spec fn infallible(&self) -> bool {
        true
    }

    open spec fn last_result(&self) -> Result<(), CodecError> {
        Ok(())
    }

    fn flush(&mut self) -> (r: Result<(), CodecError>) {
        match BitWriter::flush(self) {
            Ok(()) => Ok(()),
            Err(e) => Err(e),
        }
    }

    fn write_bits(&mut self, bits: u32, nbits: u8) -> (r: Result<(), CodecError>) {
        match BitWriter::write_bits(self, bits, nbits) {
            Ok(()) => Ok(()),
            Err(e) => Err(e),
        }
    }
}

/// Reads bits from bytes, taking each byte from its least significant bit.
pub struct BitReader {
    /// The bytes to read.
    input: Vec<u8>,
    /// Number of bytes taken from `input`.
    pos: usize,
    /// Number of bits of the last byte taken that are not read yet.
    have_bits: u32,
    /// Those bits, in the low end.
    bits: u8,
    /// What the latest read returned.
    last: Ghost<Result<u32, CodecError>>,
}

impl BitReader {
    /// What the latest read through `ReadBits` returned.
    pub closed spec fn last_read(&self) -> Result<u32, CodecError> {
        self.last@
    }

    /// Every bit of the input, in reading order.
    pub closed spec fn stream(&self) -> Seq<bool> {
        bytes_bits(self.input@)
    }

    /// Number of bits read so far.
    pub closed spec fn consumed(&self) -> nat {
        (8 * self.pos - self.have_bits) as nat
    }

    /// The unread bits of the last byte taken are the stream's bits.
    pub closed spec fn wf(&self) -> bool {
        &&& self.pos <= self.input.len()
        &&& self.have_bits <= 8
        &&& self.have_bits <= 8 * self.pos
        &&& lsb_bits(self.bits as nat, self.have_bits as nat) == bytes_bits(self.input@).subrange(
            8 * self.pos - self.have_bits,
            8 * self.pos,
        )
    }

    pub fn new(input: &[u8]) -> (r: BitReader)
        ensures
            r.wf(),
            r.stream() == bytes_bits(input@),
            r.consumed() == 0,
    {
        let mut bytes: Vec<u8> = Vec::new();
        let mut i: usize = 0;
        while i < input.len()
            invariant
                i <= input.len(),
                bytes@ == input@.take(i as int),
            decreases input.len() - i,
        {
            bytes.push(input[i]);
            i = i + 1;
            proof {
                assert(bytes@ =~= input@.take(i as int));
            }
        }
        proof {
            assert(bytes@ =~= input@);
        }
        let r = BitReader {
            input: bytes,
            pos: 0,
            have_bits: 0,
            bits: 0,
            last: Ghost(Ok(0)),
        };
        proof {
            assert(lsb_bits(0, 0) =~= bytes_bits(r.input@).subrange(0, 0));
        }
        r
    }

    /// Reads `nbits` bits; the first bit read is the least significant bit
    /// of the result. Fails when fewer than `nbits` bits are left.
    #[verifier::rlimit(40)]
    pub fn read_bits(&mut self, nbits: u32) -> (r: Result<u32, CodecError>)
        requires
            old(self).wf(),
            nbits <= 32,
        ensures
            final(self).wf(),
            final(self).stream() == old(self).stream(),
            r is Ok <==> old(self).consumed() + nbits <= old(self).stream().len(),
            r is Err ==> r->Err_0 == CodecError::TruncatedInput,
            r is Ok ==> {
                &&& final(self).consumed() == old(self).consumed() + nbits
                &&& (r->Ok_0 as nat) < pow2(nbits as nat)
                &&& lsb_bits(r->Ok_0 as nat, nbits as nat) == old(self).stream().subrange(
                    old(self).consumed() as int,
                    old(self).consumed() + nbits,
                )
            },
    {
        let mut bits: u32 = 0;
        let mut shift: u32 = 0;
        let mut need_bits: u32 = nbits;
        let ghost c0 = old(self).consumed();
        proof {
            lemma_bytes_bits_prefix(self.input@, 0);
            lemma2_to64();
            assert(lsb_bits(0, 0) =~= bytes_bits(self.input@).subrange(c0 as int, c0 as int));
        }
        while need_bits > 0
            invariant
                self.wf(),
                self.input == old(self).input,
                shift + need_bits == nbits,
                nbits <= 32,
                self.consumed() == c0 + shift,
                c0 == old(self).consumed(),
                (bits as nat) < pow2(shift as nat),
                bytes_bits(self.input@).len() == 8 * self.input.len(),
                lsb_bits(bits as nat, shift as nat) == bytes_bits(self.input@).subrange(
                    c0 as int,
                    c0 + shift,
                ),
            decreases need_bits,
        {
            if self.have_bits == 0 {
                if self.pos >= self.input.len() {
                    return Err(CodecError::TruncatedInput);
                }
                self.bits = self.input[self.pos];
                self.pos = self.pos + 1;
                self.have_bits = 8;
                proof {
                    let p = self.pos as int;
                    lemma_bytes_bits_prefix(self.input@, p);
                    lemma_bytes_bits_prefix(self.input@, p - 1);
                    assert(self.input@.take(p).drop_last() =~= self.input@.take(p - 1));
                    assert(self.input@.take(p).last() == self.bits);
                    lemma_lsb_len(self.bits as nat, 8);
                    assert(bytes_bits(self.input@).subrange(8 * p - 8, 8 * p) =~= bytes_bits(
                        self.input@.take(p),
                    ).subrange(8 * p - 8, 8 * p));
                    assert(bytes_bits(self.input@.take(p)).subrange(8 * p - 8, 8 * p)
                        =~= lsb_bits(self.bits as nat, 8));
                }
            }
            let n: u32 = if need_bits < self.have_bits {
                need_bits
            } else {
                self.have_bits
            };
            let ghost hb = self.have_bits as nat;
            let ghost b0 = self.bits as nat;
            let ghost p = self.pos as int;
            proof {
                lemma2_to64();
                lemma_pow2_strictly_increases(n as nat, 32);
                assert(1u32 * pow2(n as nat) <= u32::MAX);
                lemma_u32_shl_is_mul(1, n);
                lemma_u32_low_bits_mask_is_mod(self.bits as u32, n as nat);
                reveal(low_bits_mask);
                lemma_pow2_adds(shift as nat, n as nat);
                lemma_pow2_pos(shift as nat);
                lemma_pow2_pos(n as nat);
                if shift + n < 32 {
                    lemma_pow2_strictly_increases((shift + n) as nat, 32);
                }
            }
            let low = (self.bits as u32) & ((1u32 << n) - 1);
            let ghost lv = low as nat;
            proof {
                assert(lv * pow2(shift as nat) + bits < pow2((shift + n) as nat)) by (nonlinear_arith)
                    requires
                        lv < pow2(n as nat),
                        bits < pow2(shift as nat),
                        pow2((shift + n) as nat) == pow2(shift as nat) * pow2(n as nat),
                ;
                lemma_u32_shl_is_mul(low, shift);
            }
            let ghost ob = bits as nat;
            bits = bits + (low << shift);
            proof {
                lemma_u32_shr_is_div(self.bits as u32, n);
            }
            self.bits = ((self.bits as u32) >> n) as u8;
            self.have_bits = self.have_bits - n;
            proof {
                let nv = bits as nat;
                let seg = bytes_bits(self.input@).subrange(8 * p - hb, 8 * p);
                lemma_lsb_split(b0, n as nat, (hb - n) as nat);
                lemma_lsb_len(b0, n as nat);
                assert(lsb_bits(b0, hb) == seg);
                assert(lsb_bits(b0, n as nat) =~= seg.subrange(0, n as int));
                lemma_lsb_mod(b0, n as nat);
                lemma_lsb_mod(lv, n as nat);
                lemma_small_mod(lv, pow2(n as nat));
                assert(self.bits as nat == b0 / pow2(n as nat));
                lemma_lsb_len(b0 / pow2(n as nat), (hb - n) as nat);
                assert(lsb_bits(b0 / pow2(n as nat), (hb - n) as nat) =~= seg.subrange(
                    n as int,
                    hb as int,
                ));
                assert(lsb_bits(self.bits as nat, self.have_bits as nat) =~= bytes_bits(
                    self.input@,
                ).subrange(8 * p - self.have_bits, 8 * p));
                assert(nv == lv * pow2(shift as nat) + ob);
                lemma_div_mod_parts(lv, ob, pow2(shift as nat));
                lemma_lsb_split(nv, shift as nat, n as nat);
                lemma_lsb_mod(nv, shift as nat);
                lemma_lsb_mod(ob, shift as nat);
                lemma_small_mod(ob, pow2(shift as nat));
                assert(lsb_bits(nv, (shift + n) as nat) =~= bytes_bits(self.input@).subrange(
                    c0 as int,
                    c0 + shift + n,
                ));
            }
            shift = shift + n;
            need_bits = need_bits - n;
        }
        proof {
            lemma_bytes_bits_prefix(self.input@, 0);
        }
        Ok(bits)
    }
}

/// Output bytes `count` times copied from `start` on, each copy able to
/// read bytes that earlier copies appended.
pub open spec fn repeat_from(out: Seq<u8>, start: int, count: nat) -> Seq<u8>
    decreases count,
{
    if count == 0 {
        out
    } else {
        repeat_from(out.push(out[start]), start + 1, (count - 1) as nat)
    }
}

/// Byte input and output.
pub trait IOTrait {
    /// The whole input.
    spec fn input_bytes(&self) -> Seq<u8>;

    /// The output written so far.
    spec fn output_bytes(&self) -> Seq<u8>;

    /// Number of input bytes read so far.
    spec fn read_pos(&self) -> nat;

    /// The read position lies within the input.
    spec fn ready(&self) -> bool;

    /// No operation fails but for the reasons each one states: no error of
    /// an underlying device can occur.
    spec fn infallible(&self) -> bool;

    /// The read position lies within the input, which a `u64` can index.
    proof fn lemma_positions(&self)
        requires
            self.ready(),
        ensures
            self.read_pos() <= self.input_bytes().len() <= u64::MAX,
    ;

    /// Copies the next `count` input bytes to the output. Fails when fewer
    /// are left, or with an error of the underlying device.
    fn copy_bytes(&mut self, count: usize) -> (r: Result<(), CodecError>)
        requires
            old(self).ready(),
        ensures
            final(self).ready(),
            final(self).input_bytes() == old(self).input_bytes(),
            old(self).infallible() ==> final(self).infallible() && (r is Ok <==> old(
                self,
            ).read_pos() + count <= old(self).input_bytes().len()) && (r is Err ==> r->Err_0
                == CodecError::TruncatedInput),
            r is Ok ==> old(self).read_pos() + count <= old(self).input_bytes().len(),
            r is Ok ==> final(self).read_pos() == old(self).read_pos() + count
                && final(self).output_bytes() == old(self).output_bytes()
                + old(self).input_bytes().subrange(
                old(self).read_pos() as int,
                old(self).read_pos() + count,
            ),
    ;

    /// Number of input bytes read so far.
    fn inpos(&self) -> (r: u64)
        ensures
            r == self.read_pos(),
    ;

    /// The next input byte, or `None` at the end of the input.
    fn next_byte(&mut self) -> (r: Result<Option<u8>, CodecError>)
        requires
            old(self).ready(),
        ensures
            final(self).ready(),
            final(self).input_bytes() == old(self).input_bytes(),
            final(self).output_bytes() == old(self).output_bytes(),
            old(self).infallible() ==> final(self).infallible() && r is Ok,
            r == Ok::<Option<u8>, CodecError>(None) ==> final(self).read_pos() == old(self).read_pos()
                && old(self).read_pos() >= old(self).input_bytes().len(),
            r is Ok && r->Ok_0 is Some ==> old(self).read_pos() < old(self).input_bytes().len()
                && r->Ok_0 == Some(old(self).input_bytes()[old(self).read_pos() as int])
                && final(self).read_pos() == old(self).read_pos() + 1,
    ;

    /// Appends `b` to the output.
    fn write_byte(&mut self, b: u8) -> (r: Result<(), CodecError>)
        requires
            old(self).ready(),
        ensures
            final(self).ready(),
            final(self).input_bytes() == old(self).input_bytes(),
            final(self).read_pos() == old(self).read_pos(),
            old(self).infallible() ==> final(self).infallible() && r is Ok,
            r is Ok ==> final(self).output_bytes() == old(self).output_bytes().push(b),
    ;
}

/// Input bytes that stay available after they are read.
pub trait LookbackInput: IOTrait {
    /// The input byte at `pos`, which must have been read.
    fn lookback(&self, pos: u64) -> (r: u8)
        requires
            self.ready(),
            pos < self.read_pos(),
        ensures
            r == self.input_bytes()[pos as int],
    ;
}

/// Output that can repeat what it already holds.
pub trait RepeatOutput: IOTrait {
    /// Appends `count` output bytes copied from `distance` bytes before the
    /// most recent one on.
    fn repeat_bytes(&mut self, count: usize, distance: usize) -> (r: Result<(), CodecError>)
        requires
            old(self).ready(),
        ensures
            final(self).ready(),
            final(self).input_bytes() == old(self).input_bytes(),
            final(self).read_pos() == old(self).read_pos(),
            old(self).infallible() ==> final(self).infallible() && (r is Ok <==> distance < old(
                self,
            ).output_bytes().len()) && (r is Err ==> r->Err_0 == CodecError::BadReference),
            r is Ok ==> distance < old(self).output_bytes().len() && final(self).output_bytes()
                == repeat_from(
                old(self).output_bytes(),
                old(self).output_bytes().len() - 1 - distance,
                count as nat,
            ),
    ;
}

/// Byte input from a slice, with output collected in a vector.
pub struct SliceToVecIO {
    input: Vec<u8>,
    output: Vec<u8>,
    inpos: usize,
}

impl SliceToVecIO {
    /// The whole input.
    pub closed spec fn input_spec(&self) -> Seq<u8> {
        self.input@
    }

    /// The output written so far.
    pub closed spec fn output_spec(&self) -> Seq<u8> {
        self.output@
    }

    /// Number of input bytes read so far.
    pub closed spec fn pos_spec(&self) -> nat {
        self.inpos as nat
    }

    /// The read position lies within the input.
    pub closed spec fn wf(&self) -> bool {
        self.inpos <= self.input.len()
    }

    /// The read position and the input length fit in a `usize`.
    pub proof fn lemma_bounds(&self)
        requires
            self.wf(),
        ensures
            self.pos_spec() <= self.input_spec().len() <= usize::MAX,
    {
    }

    pub fn new(input: &[u8]) -> (r: SliceToVecIO)
        ensures
            r.wf(),
            r.input_spec() == input@,
            r.output_spec() == Seq::<u8>::empty(),
            r.pos_spec() == 0,
    {
        let mut bytes: Vec<u8> = Vec::new();
        let mut i: usize = 0;
        while i < input.len()
            invariant
                i <= input.len(),
                bytes@ == input@.take(i as int),
            decreases input.len() - i,
        {
            bytes.push(input[i]);
            i = i + 1;
            proof {
                assert(bytes@ =~= input@.take(i as int));
            }
        }
        proof {
            assert(bytes@ =~= input@);
        }
        SliceToVecIO { input: bytes, output: Vec::new(), inpos: 0 }
    }

    /// The bytes written so far.
    pub fn output(&self) -> (r: &Vec<u8>)
        ensures
            r@ == self.output_spec(),
    {
        &self.output
    }

    /// Copies the next `count` input bytes to the output. Fails when fewer
    /// are left.
    pub fn copy_bytes(&mut self, count: usize) -> (r: Result<(), CodecError>)
        requires
            old(self).wf(),
        ensures
            final(self).wf(),
            final(self).input_spec() == old(self).input_spec(),
            r is Ok <==> old(self).pos_spec() + count <= old(self).input_spec().len(),
            r is Err ==> r->Err_0 == CodecError::TruncatedInput && *final(self) == *old(self),
            r is Ok ==> final(self).pos_spec() == old(self).pos_spec() + count
                && final(self).output_spec() == old(self).output_spec()
                + old(self).input_spec().subrange(
                old(self).pos_spec() as int,
                old(self).pos_spec() + count,
            ),
    {
        if count > self.input.len() - self.inpos {
            return Err(CodecError::TruncatedInput);
        }
        let newpos = self.inpos + count;
        let mut i = self.inpos;
        let ghost out0 = self.output@;
        while i < newpos
            invariant
                self.inpos <= i <= newpos <= self.input.len(),
                self.input == old(self).input,
                self.inpos == old(self).inpos,
                out0 == old(self).output@,
                self.output@ == out0 + self.input@.subrange(self.inpos as int, i as int),
            decreases newpos - i,
        {
            self.output.push(self.input[i]);
            i = i + 1;
            proof {
                assert(self.output@ =~= out0 + self.input@.subrange(self.inpos as int, i as int));
            }
        }
        self.inpos = newpos;
        Ok(())
    }

    /// Number of input bytes read so far.
    pub fn inpos(&self) -> (r: u64)
        ensures
            r == self.pos_spec(),
    {
        self.inpos as u64
    }

    /// The next input byte, or `None` at the end of the input.
    pub fn next_byte(&mut self) -> (r: Option<u8>)
        requires
            old(self).wf(),
        ensures
            final(self).wf(),
            final(self).input_spec() == old(self).input_spec(),
            final(self).output_spec() == old(self).output_spec(),
            old(self).pos_spec() < old(self).input_spec().len() ==> r == Some(
                old(self).input_spec()[old(self).pos_spec() as int],
            ) && final(self).pos_spec() == old(self).pos_spec() + 1,
            old(self).pos_spec() >= old(self).input_spec().len() ==> r is None && *final(self)
                == *old(self),
    {
        if self.inpos < self.input.len() {
            let b = self.input[self.inpos];
            self.inpos = self.inpos + 1;
            Some(b)
        } else {
            None
        }
    }

    /// Appends `b` to the output.
    pub fn write_byte(&mut self, b: u8)
        ensures
            final(self).input_spec() == old(self).input_spec(),
            final(self).pos_spec() == old(self).pos_spec(),
            final(self).output_spec() == old(self).output_spec().push(b),
            final(self).wf() == old(self).wf(),
    {
        self.output.push(b);
    }

    /// The input byte at `pos`, which must have been read.
    pub fn lookback(&self, pos: u64) -> (r: u8)
        requires
            pos < self.pos_spec(),
            self.wf(),
        ensures
            r == self.input_spec()[pos as int],
    {
        self.input[pos as usize]
    }

    /// Appends `count` output bytes copied from `dist` bytes before the most
    /// recent one on. Fails when that lies before the start of the output.
    pub fn repeat_bytes(&mut self, count: usize, dist: usize) -> (r: Result<(), CodecError>)
        ensures
            final(self).input_spec() == old(self).input_spec(),
            final(self).pos_spec() == old(self).pos_spec(),
            final(self).wf() == old(self).wf(),
            r is Ok <==> dist < old(self).output_spec().len(),
            r is Err ==> r->Err_0 == CodecError::BadReference && *final(self) == *old(self),
            r is Ok ==> final(self).output_spec() == repeat_from(
                old(self).output_spec(),
                old(self).output_spec().len() - 1 - dist,
                count as nat,
            ),
    {
        if dist >= self.output.len() {
            return Err(CodecError::BadReference);
        }
        let mut outpos = self.output.len() - 1 - dist;
        let mut i: usize = 0;
        while i < count
            invariant
                i <= count,
                outpos < self.output.len(),
                self.input == old(self).input,
                self.inpos == old(self).inpos,
                repeat_from(self.output@, outpos as int, (count - i) as nat) == repeat_from(
                    old(self).output@,
                    old(self).output@.len() - 1 - dist,
                    count as nat,
                ),
            decreases count - i,
        {
            let b = self.output[outpos];
            self.output.push(b);
            outpos = outpos + 1;
            i = i + 1;
        }
        proof {
            assert(count - i == 0);
        }
        Ok(())
    }
}

impl ReadBits for BitReader {
    open spec fn bit_stream(&self) -> Seq<bool> {
        self.stream()
    }

    open spec fn bits_read(&self) -> nat {
        self.consumed()
    }

    open spec fn ready(&self) -> bool {
        self.wf()
    }

    open spec fn infallible(&self) -> bool {
        true
    }

    open spec fn last_result(&self) -> Result<u32, CodecError> {
        self.last_read()
    }

    fn read_bits(&mut self, nbits: u32) -> (r: Result<u32, CodecError>) {
        let r = BitReader::read_bits(self, nbits);
        self.last = Ghost(r);
        r
    }
}

impl IOTrait for SliceToVecIO {
    open spec fn input_bytes(&self) -> Seq<u8> {
        self.input_spec()
    }

    open spec fn output_bytes(&self) -> Seq<u8> {
        self.output_spec()
    }

    open spec fn read_pos(&self) -> nat {
        self.pos_spec()
    }

    open spec fn ready(&self) -> bool {
        self.wf()
    }

    open spec fn infallible(&self) -> bool {
        true
    }

    proof fn lemma_positions(&self) {
        self.lemma_bounds();
    }

    fn copy_bytes(&mut self, count: usize) -> (r: Result<(), CodecError>) {
        SliceToVecIO::copy_bytes(self, count)
    }

    fn inpos(&self) -> (r: u64) {
        SliceToVecIO::inpos(self)
    }

    fn next_byte(&mut self) -> (r: Result<Option<u8>, CodecError>) {
        Ok(SliceToVecIO::next_byte(self))
    }

    fn write_byte(&mut self, b: u8) -> (r: Result<(), CodecError>) {
        SliceToVecIO::write_byte(self, b);
        Ok(())
    }
}

impl LookbackInput for SliceToVecIO {
    fn lookback(&self, pos: u64) -> (r: u8) {
        SliceToVecIO::lookback(self, pos)
    }
}

impl RepeatOutput for SliceToVecIO {
    fn repeat_bytes(&mut self, count: usize, distance: usize) -> (r: Result<(), CodecError>) {
        SliceToVecIO::repeat_bytes(self, count, distance)
    }
}

proof fn lemma_writer_len(w: &BitWriter)
    ensures
        w.written().len() == 8 * w.output@.len() + w.have_bits,
{
    lemma_bytes_bits_prefix(w.output@, 0);
    lemma_lsb_len(w.bits as nat, w.have_bits as nat);
}

proof fn lemma_lsb_zero(n: nat)
    ensures
        lsb_bits(0, n) == Seq::new(n, |i: int| false),
    decreases n,
{
    if n > 0 {
        lemma_lsb_zero((n - 1) as nat);
        assert(lsb_bits(0, n) =~= Seq::new(n, |i: int| false));
    } else {
        assert(lsb_bits(0, n) =~= Seq::new(n, |i: int| false));
    }
}

pub(crate) proof fn lemma_div_mod_parts(p: nat, r: nat, d: nat)
    requires
        r < d,
    ensures
        (p * d + r) / d == p,
        (p * d + r) % d == r,
        (r + p * d) / d == p,
{
    lemma_fundamental_div_mod_converse((p * d + r) as int, d as int, p as int, r as int);
}

} // verus!
