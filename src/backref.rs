//! Compression with backreferences.
//!
//! A compressed stream is a sequence of runs, each starting with a lead
//! byte. A lead byte below 128 starts a literal run: that many bytes follow
//! and are copied to the output. A lead byte `128 + n` starts a
//! backreference: two bytes follow, the low and the high byte of a distance
//! `d`, and `n` bytes are copied from `d + 1` bytes before the end of the
//! output on (a copy may read bytes it has itself appended).
use vstd::prelude::*;
use vstd::arithmetic::div_mod::*;
use crate::error::CodecError;
use crate::io::{IOTrait, LookbackInput, RepeatOutput, repeat_from};

verus! {

/// Decoding of the runs from input position `pos` on, with `out` decoded so
/// far.
pub open spec fn decode_from(input: Seq<u8>, p: nat, out: Seq<u8>) -> Result<Seq<u8>, CodecError>
    decreases input.len() - p,
{
    let pos = p as int;
    if pos >= input.len() {
        Ok(out)
    } else {
        let b = input[pos];
        if b < 128 {
            if pos + 1 + b > input.len() {
                Err(CodecError::TruncatedInput)
            } else {
                decode_from(
                    input,
                    (pos + 1 + b) as nat,
                    out + input.subrange(pos + 1, pos + 1 + b),
                )
            }
        } else if pos + 3 > input.len() {
            Err(CodecError::TruncatedInput)
        } else {
            let dist = input[pos + 2] * 256 + input[pos + 1];
            if dist >= out.len() {
                Err(CodecError::BadReference)
            } else {
                decode_from(
                    input,
                    (pos + 3) as nat,
                    repeat_from(out, out.len() - 1 - dist, (b - 128) as nat),
                )
            }
        }
    }
}

/// Decodes the runs of `io`'s remaining input, appending to its output;
/// backreferences may reach into what the output held before. Errors of
/// the underlying device are passed on.
pub fn decode<IO: IOTrait + RepeatOutput>(io: &mut IO) -> (r: Result<(), CodecError>)
    requires
        old(io).ready(),
    ensures
        final(io).ready(),
        final(io).input_bytes() == old(io).input_bytes(),
        r is Ok ==> decode_from(old(io).input_bytes(), old(io).read_pos(), old(io).output_bytes())
            == Ok::<Seq<u8>, CodecError>(final(io).output_bytes()),
        old(io).infallible() ==> match decode_from(
            old(io).input_bytes(),
            old(io).read_pos(),
            old(io).output_bytes(),
        ) {
            Ok(o) => r is Ok && final(io).output_bytes() == o,
            Err(e) => r == Err::<(), CodecError>(e),
        },
{
    let ghost goal = decode_from(io.input_bytes(), io.read_pos(), io.output_bytes());
    loop
        invariant
            io.ready(),
            io.input_bytes() == old(io).input_bytes(),
            old(io).infallible() ==> io.infallible(),
            decode_from(io.input_bytes(), io.read_pos(), io.output_bytes()) == goal,
            goal == decode_from(old(io).input_bytes(), old(io).read_pos(), old(io).output_bytes()),
        decreases io.input_bytes().len() - io.read_pos(),
    {
        let b = match io.next_byte() {
            Err(e) => {
                return Err(e);
            },
            Ok(None) => {
                return Ok(());
            },
            Ok(Some(b)) => b,
        };
        if b < 128 {
            match io.copy_bytes(b as usize) {
                Err(e) => {
                    return Err(e);
                },
                Ok(()) => {},
            }
        } else {
            let lo = match io.next_byte() {
                Err(e) => {
                    return Err(e);
                },
                Ok(None) => {
                    return Err(CodecError::TruncatedInput);
                },
                Ok(Some(lo)) => lo,
            };
            let hi = match io.next_byte() {
                Err(e) => {
                    return Err(e);
                },
                Ok(None) => {
                    return Err(CodecError::TruncatedInput);
                },
                Ok(Some(hi)) => hi,
            };
            let dist = ((hi as usize) << 8) | lo as usize;
            assert(((hi as usize) << 8) | lo as usize == hi * 256 + lo) by (bit_vector);
            match io.repeat_bytes((b & 0x7f) as usize, dist) {
                Err(e) => {
                    return Err(e);
                },
                Ok(()) => {},
            }
            assert(b & 0x7f == b - 128) by (bit_vector)
                requires
                    b >= 128,
            ;
        }
    }
}

/// The runs in `cur` from position `start` on, decoded after `init`, give
/// `done`, whatever follows them.
pub open spec fn parses_to(cur: Seq<u8>, start: nat, init: Seq<u8>, done: Seq<u8>) -> bool {
    forall|w: Seq<u8>|
        w.len() >= cur.len() && #[trigger] w.take(cur.len() as int) == cur ==> decode_from(w, start, init)
            == decode_from(w, cur.len(), done)
}

proof fn lemma_parses_literal(cur: Seq<u8>, start: nat, init: Seq<u8>, done: Seq<u8>, run: Seq<u8>)
    requires
        parses_to(cur, start, init, done),
        run.len() < 128,
    ensures
        parses_to(cur + seq![run.len() as u8] + run, start, init, done + run),
{
    let cur2 = cur + seq![run.len() as u8] + run;
    assert forall|w: Seq<u8>| w.len() >= cur2.len() && #[trigger] w.take(cur2.len() as int) == cur2 implies decode_from(
        w,
        start,
        init,
    ) == decode_from(w, cur2.len(), done + run) by {
        assert(w.take(cur.len() as int) =~= cur2.take(cur.len() as int)) by {
            assert forall|i: int| 0 <= i < cur.len() implies w[i] == cur2[i] by {
                assert(w[i] == w.take(cur2.len() as int)[i]);
            }
        }
        assert(cur2.take(cur.len() as int) =~= cur);
        assert(w[cur.len() as int] == w.take(cur2.len() as int)[cur.len() as int]);
        assert(w[cur.len() as int] == cur2[cur.len() as int]);
        let n = cur.len() as int;
        assert(w.subrange(n + 1, n + 1 + run.len()) =~= run) by {
            assert forall|i: int| 0 <= i < run.len() implies w[n + 1 + i] == run[i] by {
                assert(w[n + 1 + i] == w.take(cur2.len() as int)[n + 1 + i]);
            }
        }
    }
}

proof fn lemma_parses_match(cur: Seq<u8>, start: nat, init: Seq<u8>, done: Seq<u8>, m: nat, lo: u8, hi: u8)
    requires
        parses_to(cur, start, init, done),
        m < 128,
        hi * 256 + lo < done.len(),
    ensures
        parses_to(
            cur + seq![(128 + m) as u8, lo, hi],
            start,
            init,
            repeat_from(done, done.len() - 1 - (hi * 256 + lo), m),
        ),
{
    let cur2 = cur + seq![(128 + m) as u8, lo, hi];
    let r = repeat_from(done, done.len() - 1 - (hi * 256 + lo), m);
    assert forall|w: Seq<u8>| w.len() >= cur2.len() && #[trigger] w.take(cur2.len() as int) == cur2 implies decode_from(
        w,
        start,
        init,
    ) == decode_from(w, cur2.len(), r) by {
        assert(w.take(cur.len() as int) =~= cur2.take(cur.len() as int)) by {
            assert forall|i: int| 0 <= i < cur.len() implies w[i] == cur2[i] by {
                assert(w[i] == w.take(cur2.len() as int)[i]);
            }
        }
        assert(cur2.take(cur.len() as int) =~= cur);
        assert(w[cur.len() as int] == w.take(cur2.len() as int)[cur.len() as int]);
        assert(w[cur.len() as int] == cur2[cur.len() as int]);
        let n = cur.len() as int;
        assert(w[n + 1] == w.take(cur2.len() as int)[n + 1]);
        assert(w[n + 2] == w.take(cur2.len() as int)[n + 2]);
    }
}

/// Copying `m` bytes from `dist + 1` back reproduces the input where its
/// bytes repeat at that distance.
proof fn lemma_repeat_prefix(x: Seq<u8>, a: int, dist: int, m: nat)
    requires
        0 <= dist < a,
        a + m <= x.len(),
        forall|i: int| 0 <= i < m ==> x[a - 1 - dist + i] == #[trigger] x[a + i],
    ensures
        repeat_from(x.take(a), a - 1 - dist, m) == x.take(a + m),
    decreases m,
{
    if m > 0 {
        assert(x.take(a).push(x.take(a)[a - 1 - dist]) =~= x.take(a + 1)) by {
            assert(x[a - 1 - dist + 0] == x[a + 0]);
        }
        assert forall|i: int| 0 <= i < (m - 1) as nat implies x[a + 1 - 1 - dist + i]
            == #[trigger] x[a + 1 + i] by {
            assert(x[a - 1 - dist + (i + 1)] == x[a + (i + 1)]);
        }
        lemma_repeat_prefix(x, a + 1, dist, (m - 1) as nat);
    } else {
        assert(x.take(a + m) =~= x.take(a));
    }
}

pub const MAX_RUN: u8 = 127;

/// Finds repetitions with a rolling hash of the last three bytes.
struct EncoderState {
    /// Rolling hash of the most recent bytes.
    hash: u32,
    /// Keeps the hash below the table size.
    hash_mask: u32,
    /// For each hash value, the most recent position at which it was seen.
    pos: Vec<u64>,
    /// Number of bytes read and not yet written out.
    litlen: u8,
}

impl EncoderState {
    spec fn wf(&self, inpos: nat) -> bool {
        &&& self.hash_mask == 0x3fff
        &&& self.hash <= 0x3fff
        &&& self.pos.len() == 0x4000
        &&& self.litlen < MAX_RUN
        &&& self.litlen <= inpos
        &&& forall|i: int| 0 <= i < self.pos.len() ==> #[trigger] self.pos@[i] <= inpos
    }

    fn new() -> (r: EncoderState)
        ensures
            r.wf(0),
            r.litlen == 0,
            r.hash == 0,
            forall|i: int| 0 <= i < r.pos.len() ==> #[trigger] r.pos@[i] == 0,
    {
        assert((1usize << 14usize) == 0x4000) by (bit_vector);
        let mask: usize = (1usize << 14) - 1;
        let mut pos_table: Vec<u64> = Vec::new();
        pos_table.resize(mask + 1, 0);
        EncoderState { hash: 0, hash_mask: mask as u32, pos: pos_table, litlen: 0 }
    }

    /// Updates the hash with byte `b`, records `pos` for it, and returns the
    /// position recorded before for the same hash.
    fn update_hash(&mut self, b: u8, pos: u64, Ghost(bound): Ghost<nat>) -> (r: u64)
        requires
            old(self).wf(bound),
            pos <= bound + 1,
        ensures
            final(self).wf(bound + 1),
            final(self).litlen == old(self).litlen,
            r <= bound,
    {
        let h = self.hash;
        let m = self.hash_mask;
        assert((((h << 5u32) ^ b as u32) & m) <= 0x3fff) by (bit_vector)
            requires
                m == 0x3fff,
        ;
        self.hash = ((self.hash << 5) ^ b as u32) & self.hash_mask;
        let prev = self.pos[self.hash as usize];
        self.pos.set(self.hash as usize, pos);
        prev
    }

    /// Extends a repetition of the three bytes before `pos` at the three
    /// bytes before `prev`. Returns the literals before it, its length and
    /// its distance.
    fn found_rep<IO: IOTrait + LookbackInput>(&mut self, io: &mut IO, pos: u64, prev: u64) -> (r:
        Result<(u8, u8, u64), CodecError>)
        requires
            old(io).ready(),
            old(self).wf(old(io).read_pos()),
            pos == old(io).read_pos(),
            3 <= prev < pos,
            pos - prev - 1 <= 0xffff,
            2 <= old(self).litlen,
            old(self).litlen + 1 <= pos,
            forall|i: int|
                0 <= i < 3 ==> old(io).input_bytes()[prev - 3 + i] == #[trigger] old(
                    io,
                ).input_bytes()[pos - 3 + i],
        ensures
            final(io).ready(),
            final(io).input_bytes() == old(io).input_bytes(),
            old(io).infallible() ==> r is Ok && final(io).infallible(),
            r is Ok ==> ({
                let t = r->Ok_0;
                &&& final(io).output_bytes() == old(io).output_bytes()
                &&& final(self).wf(final(io).read_pos())
                &&& t.0 == old(self).litlen - 2
                &&& 3 <= t.1 <= 127
                &&& t.2 == pos - prev - 1
                &&& final(self).litlen <= 1
                &&& final(self).litlen == 1 ==> final(io).read_pos() == pos - 3 + t.1 + 1 && old(
                    io,
                ).input_bytes()[pos - 3 + t.1] != old(io).input_bytes()[prev - 3 + t.1]
                &&& final(self).litlen == 0 && t.1 < 127 ==> final(io).read_pos() == old(
                    io,
                ).input_bytes().len()
                &&& pos - 3 + t.1 == final(io).read_pos() - final(self).litlen
                &&& forall|i: int|
                    0 <= i < t.1 ==> old(io).input_bytes()[prev - 3 + i] == #[trigger] old(
                        io,
                    ).input_bytes()[pos - 3 + i]
            }),
    {
        let litlen_before = if self.litlen > 2 {
            self.litlen - 2
        } else {
            0
        };
        let dist = pos - prev - 1;
        let mut matlen: u8 = 3;
        let mut prevpos = prev;
        self.litlen = 0;
        loop
            invariant_except_break
                self.litlen == 0,
                io.read_pos() == pos + matlen - 3,
                matlen < 127,
            invariant
                io.ready(),
                io.input_bytes() == old(io).input_bytes(),
                io.output_bytes() == old(io).output_bytes(),
                old(io).infallible() ==> io.infallible(),
                self.wf(io.read_pos()),
                3 <= matlen <= 127,
                3 <= prev < pos,
                prevpos == prev + matlen - 3,
                forall|i: int|
                    0 <= i < matlen ==> io.input_bytes()[prev - 3 + i] == #[trigger] io.input_bytes()[pos
                        - 3 + i],
            ensures
                self.litlen <= 1,
                io.read_pos() == pos + matlen - 3 + self.litlen,
                self.litlen == 1 ==> io.input_bytes()[pos - 3 + matlen] != io.input_bytes()[prev - 3
                    + matlen],
                self.litlen == 0 && matlen < 127 ==> io.read_pos() >= io.input_bytes().len(),
            decreases io.input_bytes().len() - io.read_pos(),
        {
            let ghost p0 = io.read_pos();
            let b = match io.next_byte() {
                Err(e) => {
                    return Err(e);
                },
                Ok(None) => {
                    break;
                },
                Ok(Some(b)) => b,
            };
            proof {
                io.lemma_positions();
            }
            let at = io.inpos() - 1;
            self.update_hash(b, at, Ghost(p0));
            if b == io.lookback(prevpos) {
                matlen = matlen + 1;
                prevpos = prevpos + 1;
            } else {
                self.litlen = 1;
                break;
            }
            if matlen == 127 {
                break;
            }
        }
        proof {
            io.lemma_positions();
        }
        Ok((litlen_before, matlen, dist))
    }

    /// Reads until a repetition is found, 127 literals are pending, or the
    /// input ends. Returns the literals to write before the repetition, its
    /// length (0 for none) and its distance.
    fn find_rep<IO: IOTrait + LookbackInput>(&mut self, io: &mut IO) -> (r: Result<
        (u8, u8, u64),
        CodecError,
    >)
        requires
            old(io).ready(),
            old(self).wf(old(io).read_pos()),
        ensures
            final(io).ready(),
            final(io).input_bytes() == old(io).input_bytes(),
            old(io).infallible() ==> r is Ok && final(io).infallible(),
            r is Ok ==> ({
                let t = r->Ok_0;
                let pl = old(io).read_pos() - old(self).litlen;
                let x = old(io).input_bytes();
                &&& final(io).output_bytes() == old(io).output_bytes()
                &&& final(self).wf(final(io).read_pos())
                &&& final(io).read_pos() >= old(io).read_pos()
                &&& final(io).read_pos() > old(io).read_pos() || final(self).litlen < old(
                    self,
                ).litlen || (t.0 == 0 && t.1 == 0)
                &&& t.0 <= 127
                &&& t.1 <= 127
                &&& pl + t.0 + t.1 == final(io).read_pos() - final(self).litlen
                &&& t.0 == 0 && t.1 == 0 ==> final(io).read_pos() == x.len() && final(self).litlen
                    == 0
                &&& t.1 == 0 ==> t.2 == 0 && (t.0 == 127 || final(io).read_pos() == x.len())
                &&& t.1 > 0 ==> {
                    &&& t.1 >= 3
                    &&& t.2 < pl + t.0
                    &&& t.2 <= 0xffff
                    &&& forall|i: int|
                        0 <= i < t.1 ==> x[pl + t.0 - 1 - t.2 + i] == #[trigger] x[pl + t.0 + i]
                }
            }),
    {
        let ghost pl = io.read_pos() - self.litlen;
        loop
            invariant
                io.ready(),
                io.input_bytes() == old(io).input_bytes(),
                io.output_bytes() == old(io).output_bytes(),
                old(io).infallible() ==> io.infallible(),
                self.wf(io.read_pos()),
                pl == io.read_pos() - self.litlen,
                pl == old(io).read_pos() - old(self).litlen,
                io.read_pos() >= old(io).read_pos(),
                io.read_pos() == old(io).read_pos() ==> self.litlen == old(self).litlen,
            ensures
                io.read_pos() >= io.input_bytes().len(),
            decreases io.input_bytes().len() - io.read_pos(),
        {
            let ghost p0 = io.read_pos();
            let b = match io.next_byte() {
                Err(e) => {
                    return Err(e);
                },
                Ok(None) => {
                    break;
                },
                Ok(Some(b)) => b,
            };
            proof {
                io.lemma_positions();
            }
            let pos = io.inpos();
            let prev = self.update_hash(b, pos, Ghost(p0));
            // Only take repetitions of at least 3 bytes within 0x10000
            // bytes, and only where the 3 bytes are not written out yet.
            if prev >= 3 && (pos < 0x10000 || prev > pos - 0x10000) && self.litlen >= 2
                && io.lookback(prev - 3) == io.lookback(pos - 3) && io.lookback(prev - 2)
                == io.lookback(pos - 2) && io.lookback(prev - 1) == io.lookback(pos - 1) {
                proof {
                    let x = io.input_bytes();
                    assert forall|i: int| 0 <= i < 3 implies x[prev - 3 + i] == #[trigger] x[pos - 3
                        + i] by {
                        if i == 1 {
                        } else if i == 2 {
                        }
                    }
                }
                let r = self.found_rep(io, pos, prev);
                proof {
                    if r is Ok {
                        let t = r->Ok_0;
                        let x = io.input_bytes();
                        assert forall|i: int| 0 <= i < t.1 implies x[pl + t.0 - 1 - t.2 + i]
                            == #[trigger] x[pl + t.0 + i] by {
                            assert(pl + t.0 == pos - 3);
                            assert(x[prev - 3 + i] == x[pos - 3 + i]);
                        }
                    }
                }
                return r;
            }
            self.litlen = self.litlen + 1;
            if self.litlen == 127 {
                self.litlen = 0;
                return Ok((127, 0, 0));
            }
        }
        proof {
            io.lemma_positions();
        }
        let litlen = self.litlen;
        self.litlen = 0;
        Ok((litlen, 0, 0))
    }
}

/// Writes a literal run of `litlen` input bytes from `start` on.
fn write_lit<IO: IOTrait + LookbackInput>(io: &mut IO, litlen: u8, start: u64) -> (r: Result<
    (),
    CodecError,
>)
    requires
        old(io).ready(),
        start + litlen <= old(io).read_pos(),
        litlen < 128,
    ensures
        final(io).ready(),
        final(io).input_bytes() == old(io).input_bytes(),
        final(io).read_pos() == old(io).read_pos(),
        old(io).infallible() ==> r is Ok && final(io).infallible(),
        r is Ok ==> final(io).output_bytes() == old(io).output_bytes() + seq![litlen] + old(
            io,
        ).input_bytes().subrange(start as int, start + litlen),
{
    match io.write_byte(litlen) {
        Err(e) => {
            return Err(e);
        },
        Ok(()) => {},
    }
    let mut pos = start;
    let mut i: u8 = 0;
    let ghost out0 = io.output_bytes();
    proof {
        io.lemma_positions();
        assert(io.output_bytes() =~= out0 + io.input_bytes().subrange(start as int, pos as int));
    }
    while i < litlen
        invariant
            io.ready(),
            io.input_bytes() == old(io).input_bytes(),
            io.read_pos() == old(io).read_pos(),
            old(io).infallible() ==> io.infallible(),
            out0 == old(io).output_bytes().push(litlen),
            start + litlen <= io.read_pos(),
            i <= litlen,
            pos == start + i,
            io.output_bytes() == out0 + io.input_bytes().subrange(start as int, pos as int),
        decreases litlen - i,
    {
        proof {
            io.lemma_positions();
        }
        let b = io.lookback(pos);
        match io.write_byte(b) {
            Err(e) => {
                return Err(e);
            },
            Ok(()) => {},
        }
        pos = pos + 1;
        i = i + 1;
        proof {
            assert(io.output_bytes() =~= out0 + io.input_bytes().subrange(start as int, pos as int));
        }
    }
    proof {
        assert(out0 =~= old(io).output_bytes() + seq![litlen]);
    }
    Ok(())
}

/// Compresses `io`'s input, from its start, as literal runs and
/// backreferences appended to its output. Decoding the appended runs after
/// what the output held before gives that output followed by the input.
/// The backreferences point into the input, so it is read from its start.
pub fn encode<IO: IOTrait + LookbackInput>(io: &mut IO) -> (r: Result<(), CodecError>)
    requires
        old(io).ready(),
        old(io).read_pos() == 0,
    ensures
        final(io).ready(),
        final(io).input_bytes() == old(io).input_bytes(),
        old(io).infallible() ==> r is Ok,
        r is Ok ==> final(io).output_bytes().take(old(io).output_bytes().len() as int) == old(
            io,
        ).output_bytes(),
        r is Ok ==> decode_from(
            final(io).output_bytes(),
            old(io).output_bytes().len(),
            old(io).output_bytes(),
        ) == Ok::<Seq<u8>, CodecError>(old(io).output_bytes() + old(io).input_bytes()),
{
    let ghost init = io.output_bytes();
    let ghost l0 = init.len();
    let mut state = EncoderState::new();
    proof {
        assert(init + io.input_bytes().take(0) =~= init);
        assert(init.take(l0 as int) =~= init);
    }
    loop
        invariant
            io.ready(),
            io.input_bytes() == old(io).input_bytes(),
            old(io).infallible() ==> io.infallible(),
            state.wf(io.read_pos()),
            init == old(io).output_bytes(),
            l0 == init.len(),
            io.output_bytes().len() >= l0,
            io.output_bytes().take(l0 as int) == init,
            parses_to(
                io.output_bytes(),
                l0,
                init,
                init + io.input_bytes().take(io.read_pos() - state.litlen),
            ),
        decreases (io.input_bytes().len() - io.read_pos()) * 256 + state.litlen,
    {
        let ghost x = io.input_bytes();
        let ghost p0 = io.read_pos();
        let ghost ll0 = state.litlen;
        let pos = io.inpos() - state.litlen as u64;
        let (litlen, matlen, dist) = match state.find_rep(io) {
            Err(e) => {
                return Err(e);
            },
            Ok(t) => t,
        };
        proof {
            io.lemma_positions();
            assert((io.input_bytes().len() - io.read_pos()) * 256 + state.litlen < (x.len() - p0) * 256
                + ll0 || (litlen == 0 && matlen == 0)) by (nonlinear_arith)
                requires
                    io.read_pos() > p0 || state.litlen < ll0 || (litlen == 0 && matlen == 0),
                    io.read_pos() >= p0,
                    io.read_pos() <= x.len(),
                    io.input_bytes().len() == x.len(),
                    state.litlen < 127,
                    ll0 < 127,
            ;
        }
        if litlen == 0 && matlen == 0 {
            proof {
                let out = io.output_bytes();
                assert(x.take(x.len() as int) =~= x);
                assert(out.take(out.len() as int) =~= out);
                assert(decode_from(out, l0, init) == decode_from(out, out.len(), init + x));
            }
            return Ok(());
        }
        let ghost out0 = io.output_bytes();
        if litlen > 0 {
            match write_lit(io, litlen, pos) {
                Err(e) => {
                    return Err(e);
                },
                Ok(()) => {},
            }
            proof {
                lemma_parses_literal(
                    out0,
                    l0,
                    init,
                    init + x.take(pos as int),
                    x.subrange(pos as int, pos + litlen),
                );
                assert(init + x.take(pos as int) + x.subrange(pos as int, pos + litlen) =~= init
                    + x.take(pos + litlen));
                assert(io.output_bytes().take(l0 as int) =~= out0.take(l0 as int));
                assert(seq![litlen] =~= seq![x.subrange(pos as int, pos + litlen).len() as u8]);
            }
        }
        if matlen > 0 {
            let ghost out1 = io.output_bytes();
            let lo = (dist & 0xff) as u8;
            let hi = (dist >> 8) as u8;
            assert(dist <= 0xffff ==> ((dist >> 8) as u8) * 256 + ((dist & 0xff) as u8) == dist)
                by (bit_vector);
            match io.write_byte(0x80 + matlen) {
                Err(e) => {
                    return Err(e);
                },
                Ok(()) => {},
            }
            match io.write_byte(lo) {
                Err(e) => {
                    return Err(e);
                },
                Ok(()) => {},
            }
            match io.write_byte(hi) {
                Err(e) => {
                    return Err(e);
                },
                Ok(()) => {},
            }
            proof {
                let a = (pos + litlen) as int;
                let y = init + x;
                lemma_parses_match(out1, l0, init, init + x.take(a), matlen as nat, lo, hi);
                assert forall|i: int| 0 <= i < matlen implies y[l0 + a - 1 - dist + i]
                    == #[trigger] y[l0 + a + i] by {
                    assert(x[a - 1 - dist + i] == x[a + i]);
                }
                lemma_repeat_prefix(y, l0 + a, dist as int, matlen as nat);
                assert(y.take(l0 + a) =~= init + x.take(a));
                assert(y.take(l0 + a + matlen) =~= init + x.take(a + matlen));
                assert(io.output_bytes().take(l0 as int) =~= out1.take(l0 as int));
                assert(out1.push((0x80 + matlen) as u8).push(lo).push(hi) =~= out1 + seq![
                    (128 + matlen) as u8,
                    lo,
                    hi,
                ]);
            }
        }
    }
}

} // verus!
