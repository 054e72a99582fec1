//! Table-based asymmetric numeral system (tANS) entropy coding.
use vstd::prelude::*;
use vstd::arithmetic::power2::*;
use vstd::bits::*;
use vstd::std_specs::bits::*;
use vstd::arithmetic::div_mod::*;
use crate::error::CodecError;
use crate::io::{ReadBits, WriteBits, lsb_bits, lemma_lsb_len, lemma_lsb_mod, lemma_div_mod_parts};

verus! {

/// Largest number of state bits: the bit-count selector keeps its
/// adjustment in the top byte of a 32-bit word.
pub const MAX_STATE_BITS: u32 = 24;

/// Number of bits needed to write `v`.
pub open spec fn bit_len(v: nat) -> nat
    decreases v,
{
    if v == 0 {
        0
    } else {
        1 + bit_len(v / 2)
    }
}

/// The step between consecutive slots when spreading symbols over the states.
pub open spec fn stride_of(l: nat) -> nat {
    if l <= 8 {
        5
    } else {
        l / 2 + l / 8 + 3
    }
}

/// Number of bits always transferred for a symbol of frequency `f` out of
/// `2^sbits` states: `floor(log2(2^sbits / f))`.
pub open spec fn low_nbits(f: nat, sbits: nat) -> nat {
    (sbits - bit_len((f - 1) as nat)) as nat
}

/// Lowest state at which one more bit is transferred for frequency `f`.
pub open spec fn threshold_of(f: nat, sbits: nat) -> int {
    2 * (f * pow2(low_nbits(f, sbits))) - pow2(sbits)
}

/// The packed bit-count selector of a symbol of frequency `f`.
pub open spec fn coded_nbits_of(f: nat, sbits: nat) -> int {
    if f == 0 {
        0
    } else {
        (low_nbits(f, sbits) + 1) * pow2(24) - threshold_of(f, sbits)
    }
}

pub proof fn lemma_bit_len(v: nat)
    ensures
        v < pow2(bit_len(v)),
        v > 0 ==> pow2((bit_len(v) - 1) as nat) <= v,
    decreases v,
{
    lemma2_to64();
    if v > 0 {
        lemma_bit_len(v / 2);
        lemma_pow2_unfold(bit_len(v));
        if v / 2 > 0 {
            lemma_pow2_unfold((bit_len(v) - 1) as nat);
        }
    }
}

proof fn lemma_bit_len_le(v: nat, k: nat)
    requires
        v < pow2(k),
    ensures
        bit_len(v) <= k,
{
    lemma_bit_len(v);
    if bit_len(v) > k {
        lemma_pow2_strictly_increases(k, (bit_len(v) - 1) as nat);
    }
}

/// The number of bits `n` of a symbol of frequency `f` is the one with
/// `f * 2^n <= 2^sbits < f * 2^(n+1)`.
pub proof fn lemma_low_nbits(f: nat, sbits: nat)
    requires
        1 <= f <= pow2(sbits),
    ensures
        low_nbits(f, sbits) <= sbits,
        bit_len((f - 1) as nat) <= sbits,
        f * pow2(low_nbits(f, sbits)) <= pow2(sbits),
        pow2(sbits) < 2 * (f * pow2(low_nbits(f, sbits))),
        0 < threshold_of(f, sbits) <= pow2(sbits),
{
    let b = bit_len((f - 1) as nat);
    lemma_bit_len((f - 1) as nat);
    lemma_bit_len_le((f - 1) as nat, sbits);
    let n = low_nbits(f, sbits);
    assert(n + b == sbits);
    lemma_pow2_adds(n, b);
    assert(f <= pow2(b));
    lemma_pow2_pos(n);
    lemma_mul_le(f, pow2(b), pow2(n));
    assert(pow2(sbits) == pow2(b) * pow2(n)) by {
        lemma_pow2_adds(b, n);
    }
    lemma_pow2_unfold(n + 1);
    if b == 0 {
        lemma2_to64();
        assert(f == 1);
    } else {
        lemma_pow2_unfold(b);
        assert(pow2((b - 1) as nat) < f);
        lemma_pow2_adds(n, (b - 1) as nat);
        lemma_pow2_unfold(n + 1);
        assert(pow2(sbits) == 2 * (pow2((b - 1) as nat) * pow2(n))) by (nonlinear_arith)
            requires
                pow2(sbits) == pow2(b) * pow2(n),
                pow2(b) == 2 * pow2((b - 1) as nat),
        ;
        lemma_mul_lt(pow2((b - 1) as nat), f, pow2(n));
    }
}

proof fn lemma_mul_le(a: nat, b: nat, c: nat)
    requires
        a <= b,
    ensures
        a * c <= b * c,
{
    assert(a * c <= b * c) by (nonlinear_arith)
        requires
            a <= b,
    ;
}

proof fn lemma_mul_lt(a: nat, b: nat, c: nat)
    requires
        a < b,
        c > 0,
    ensures
        a * c < b * c,
{
    assert(a * c < b * c) by (nonlinear_arith)
        requires
            a < b,
            c > 0,
    ;
}

proof fn lemma_bit_len_unique(v: nat, b: nat)
    requires
        v < pow2(b),
        b > 0 ==> pow2((b - 1) as nat) <= v,
    ensures
        bit_len(v) == b,
{
    lemma_bit_len(v);
    if bit_len(v) < b {
        if bit_len(v) < b - 1 {
            lemma_pow2_strictly_increases(bit_len(v), (b - 1) as nat);
        }
    } else if bit_len(v) > b {
        if b < bit_len(v) - 1 {
            lemma_pow2_strictly_increases(b, (bit_len(v) - 1) as nat);
        }
    }
}

/// Number of bits needed to write `v` (0 for 0).
pub fn bit_length(v: u32) -> (r: u32)
    ensures
        r == bit_len(v as nat),
        r <= 32,
{
    let lz = v.leading_zeros();
    proof {
        axiom_u32_leading_zeros(v);
        let b = (32 - lz) as u32;
        lemma2_to64();
        if b < 32 {
            lemma_u32_shr_is_div(v, b);
            assert(v >> ((32 - lz) as u32) == 0);
            lemma_pow2_pos(b as nat);
            assert(v < pow2(b as nat)) by (nonlinear_arith)
                requires
                    v as nat / pow2(b as nat) == 0,
                    pow2(b as nat) > 0,
            ;
        }
        if b > 0 {
            let t = (31 - lz) as u32;
            assert(t == b - 1);
            assert((v >> t) & 1u32 != 0);
            assert(((v >> t) & 1u32 != 0) ==> (v >> t) != 0) by (bit_vector);
            lemma_u32_shr_is_div(v, t);
            lemma_pow2_pos(t as nat);
            assert(v as nat / pow2(t as nat) >= 1);
            assert(pow2(t as nat) <= v) by (nonlinear_arith)
                requires
                    v as nat / pow2(t as nat) >= 1,
                    pow2(t as nat) > 0,
            ;
        }
        lemma_bit_len_unique(v as nat, b as nat);
    }
    32 - lz
}

/// Number of bits transferred when a symbol of frequency `f` is coded from
/// state `x`: the low count below the threshold, one more from it on.
pub open spec fn step_nbits(f: nat, sbits: nat, x: nat) -> nat {
    if x < threshold_of(f, sbits) {
        low_nbits(f, sbits)
    } else {
        low_nbits(f, sbits) + 1
    }
}

proof fn lemma_div_between(v: int, d: int, q: int)
    requires
        d > 0,
        q * d <= v < (q + 1) * d,
    ensures
        v / d == q,
{
    assert(v - q * d < d) by (nonlinear_arith)
        requires
            v < (q + 1) * d,
    ;
    vstd::arithmetic::div_mod::lemma_fundamental_div_mod_converse(v, d, q, v - q * d);
}

/// The packed selector picks the bit count without a branch: adding a state
/// `x` and shifting right by 24 gives the low count below the threshold and
/// one more from the threshold on.
pub proof fn lemma_selector(f: nat, sbits: nat, x: nat)
    requires
        1 <= f <= pow2(sbits),
        sbits <= 24,
        x < pow2(sbits),
    ensures
        (x + coded_nbits_of(f, sbits)) / pow2(24) as int == step_nbits(f, sbits, x) as int,
        step_nbits(f, sbits, x) == low_nbits(f, sbits) || step_nbits(f, sbits, x) == low_nbits(
            f,
            sbits,
        ) + 1,
{
    lemma_low_nbits(f, sbits);
    let n = low_nbits(f, sbits);
    let t = threshold_of(f, sbits);
    if sbits < 24 {
        lemma_pow2_strictly_increases(sbits, 24);
    }
    let d = pow2(24) as int;
    assert(x < d);
    let v = x + coded_nbits_of(f, sbits);
    assert(v == (n + 1) * d + (x - t)) by (nonlinear_arith)
        requires
            v == x + ((n + 1) * d - t),
    ;
    if x < t {
        assert(n * d <= v < (n + 1) * d) by (nonlinear_arith)
            requires
                v == (n + 1) * d + (x - t),
                x < t,
                t <= d,
                x >= 0,
        ;
        lemma_div_between(v, d, n as int);
    } else {
        assert((n + 1) * d <= v < (n + 2) * d) by (nonlinear_arith)
            requires
                v == (n + 1) * d + (x - t),
                x >= t,
                t > 0,
                x < d,
        ;
        lemma_div_between(v, d, (n + 1) as int);
    }
}

/// Computes the packed selector `c` of a symbol of frequency `freq`, such
/// that `(x + c) >> 24` is the number of bits to transfer from state `x`.
pub fn compute_coded_nbits(freq: u32, sbits: u32) -> (r: u32)
    requires
        sbits <= MAX_STATE_BITS,
        freq <= pow2(sbits as nat),
    ensures
        r as int == coded_nbits_of(freq as nat, sbits as nat),
{
    if freq == 0 {
        return 0;
    }
    proof {
        lemma_low_nbits(freq as nat, sbits as nat);
        lemma2_to64();
        if sbits < 24 {
            lemma_pow2_strictly_increases(sbits as nat, 24);
        }
    }
    let low_nbits = sbits - bit_length(freq - 1);
    let covered = freq << low_nbits;
    let states = 1u32 << sbits;
    proof {
        lemma_pow2_pos(low_nbits as nat);
        lemma_u32_shl_is_mul(freq, low_nbits);
        lemma_u32_shl_is_mul(1, sbits);
    }
    let threshold = covered + covered - states;
    proof {
        lemma_pow2_strictly_increases(low_nbits as nat + 1, 32);
        assert((low_nbits as nat + 1) * pow2(24) <= u32::MAX) by (nonlinear_arith)
            requires
                low_nbits + 1 <= 25,
                pow2(24) == 0x100_0000,
        ;
        lemma_u32_shl_is_mul((low_nbits + 1) as u32, 24);
    }
    ((low_nbits + 1) << 24) - threshold
}

/// Odd step used to spread the symbols over `nstates` states, a little over
/// half of them.
pub fn compute_stride(nstates: u32) -> (r: u32)
    ensures
        r == stride_of(nstates as nat),
{
    proof {
        lemma_u32_shr_is_div(nstates, 1);
        lemma_u32_shr_is_div(nstates, 3);
        lemma2_to64();
    }
    if nstates <= 8 {
        5
    } else {
        (nstates >> 1) + (nstates >> 3) + 3
    }
}

/// Sum of all frequencies.
pub open spec fn freq_sum(f: Seq<u32>) -> nat
    decreases f.len(),
{
    if f.len() == 0 {
        0
    } else {
        freq_sum(f.drop_last()) + f.last() as nat
    }
}

/// Number of occurrences of the symbols before `s`.
pub open spec fn cum_freq(f: Seq<u32>, s: int) -> nat {
    freq_sum(f.take(s))
}

/// The state that occurrence `o` (counted over all symbols in order) is
/// spread to.
pub open spec fn spread_pos(sbits: nat, o: nat) -> nat {
    (stride_of(pow2(sbits)) * (o + 1)) % pow2(sbits)
}

/// Offset that turns a successor index of symbol `s` into an occurrence
/// index: `cum_freq - f[s]` modulo the number of states.
pub open spec fn offset_of(f: Seq<u32>, s: int, sbits: nat) -> nat {
    ((cum_freq(f, s) + pow2(sbits) - f[s]) as nat) % pow2(sbits)
}

/// A frequency table that the coder accepts.
pub open spec fn valid_distribution(sbits: nat, f: Seq<u32>) -> bool {
    sbits <= MAX_STATE_BITS && freq_sum(f) == pow2(sbits)
}

proof fn lemma_cum_step(f: Seq<u32>, s: int)
    requires
        0 <= s < f.len(),
    ensures
        cum_freq(f, s + 1) == cum_freq(f, s) + f[s],
{
    assert(f.take(s + 1).drop_last() =~= f.take(s));
}

proof fn lemma_cum_le(f: Seq<u32>, s: int)
    requires
        0 <= s <= f.len(),
    ensures
        cum_freq(f, s) <= freq_sum(f),
    decreases f.len() - s,
{
    if s < f.len() {
        lemma_cum_step(f, s);
        lemma_cum_le(f, s + 1);
    } else {
        assert(f.take(s) =~= f);
    }
}

/// Checks that `freqs` sums to `2^sbits` and that `sbits` is supported.
pub fn check_distribution(sbits: u32, freqs: &[u32]) -> (r: Result<(), CodecError>)
    ensures
        r is Ok <==> valid_distribution(sbits as nat, freqs@),
        r is Err ==> r == Err::<(), CodecError>(CodecError::InvalidDistribution),
{
    if sbits > MAX_STATE_BITS {
        return Err(CodecError::InvalidDistribution);
    }
    let nstates: u64 = 1u64 << sbits;
    proof {
        lemma2_to64();
        lemma_pow2_strictly_increases(sbits as nat, 25);
        lemma_u64_shl_is_mul(1, sbits as u64);
    }
    let mut total: u64 = 0;
    let mut i: usize = 0;
    while i < freqs.len()
        invariant
            i <= freqs.len(),
            total == cum_freq(freqs@, i as int),
            total <= nstates,
            nstates == pow2(sbits as nat),
            nstates <= 0x100_0000,
        decreases freqs.len() - i,
    {
        proof {
            lemma_cum_step(freqs@, i as int);
        }
        total = total + freqs[i] as u64;
        i = i + 1;
        if total > nstates {
            proof {
                lemma_cum_le(freqs@, i as int);
            }
            return Err(CodecError::InvalidDistribution);
        }
    }
    proof {
        assert(freqs@.take(i as int) =~= freqs@);
    }
    if total != nstates {
        return Err(CodecError::InvalidDistribution);
    }
    Ok(())
}

proof fn lemma_odd_times_small(s: nat, d: nat, k: nat)
    requires
        s % 2 == 1,
        0 < d < pow2(k),
    ensures
        ((s * d) as int) % (pow2(k) as int) != 0,
    decreases k,
{
    lemma2_to64();
    if k > 0 {
        lemma_pow2_unfold(k);
        let h = pow2((k - 1) as nat) as int;
        lemma_pow2_pos((k - 1) as nat);
        if d % 2 == 1 {
            lemma_mul_mod_noop(s as int, d as int, 2);
            lemma_mod_mod((s * d) as int, 2, h);
        } else {
            let e = d / 2;
            lemma_odd_times_small(s, e, (k - 1) as nat);
            let x = (s * e) as int;
            lemma_fundamental_div_mod(x, h);
            assert(s * d == 2 * x) by (nonlinear_arith)
                requires
                    d == 2 * e,
                    x == s * e,
            ;
            assert(2 * x == (2 * h) * (x / h) + 2 * (x % h)) by (nonlinear_arith)
                requires
                    x == h * (x / h) + (x % h),
            ;
            lemma_fundamental_div_mod_converse(2 * x, 2 * h, x / h, 2 * (x % h));
        }
    }
}

/// The stride is odd, so it shares no factor with a power of two.
pub proof fn lemma_stride_odd(sbits: nat)
    ensures
        stride_of(pow2(sbits)) % 2 == 1,
{
    lemma2_to64();
    if pow2(sbits) > 8 {
        if sbits < 4 {
            if sbits < 3 {
                lemma_pow2_strictly_increases(sbits, 3);
            }
        }
        assert(sbits >= 4);
        lemma_pow2_adds(4, (sbits - 4) as nat);
        let q = pow2((sbits - 4) as nat);
        assert(pow2(sbits) / 2 + pow2(sbits) / 8 == 10 * q) by (nonlinear_arith)
            requires
                pow2(sbits) == 16 * q,
        ;
    }
}

proof fn lemma_odd_divisor_of_pow2(d: nat, k: nat)
    requires
        d % 2 == 1,
        pow2(k) % d == 0,
    ensures
        d == 1,
    decreases k,
{
    lemma2_to64();
    if k == 0 {
        if d > 1 {
            lemma_small_mod(1, d);
        }
    } else {
        lemma_pow2_unfold(k);
        lemma_fundamental_div_mod(pow2(k) as int, d as int);
        let q = pow2(k) / d;
        assert(pow2(k) == d * q);
        lemma_mul_mod_noop(d as int, q as int, 2);
        if q % 2 == 1 {
            assert((d % 2) * (q % 2) == 1);
        }
        assert(q % 2 == 0);
        lemma_fundamental_div_mod(q as int, 2);
        let h = q / 2;
        assert(pow2((k - 1) as nat) == d * h) by (nonlinear_arith)
            requires
                pow2(k) == 2 * pow2((k - 1) as nat),
                pow2(k) == d * q,
                q == 2 * h,
        ;
        lemma_mod_multiples_basic(h as int, d as int);
        assert(d * h == h * d) by (nonlinear_arith);
        lemma_odd_divisor_of_pow2(d, (k - 1) as nat);
    }
}

/// The stride and the number of states have no common divisor but 1.
pub proof fn lemma_stride_coprime(sbits: nat, d: nat)
    requires
        d > 1,
    ensures
        !(stride_of(pow2(sbits)) % d == 0 && pow2(sbits) % d == 0),
{
    let st = stride_of(pow2(sbits));
    lemma_stride_odd(sbits);
    if st % d == 0 && pow2(sbits) % d == 0 {
        if d % 2 == 0 {
            lemma_fundamental_div_mod(st as int, d as int);
            lemma_fundamental_div_mod(d as int, 2);
            let a = st / d;
            let b = d / 2;
            assert(st == 2 * (b * a)) by (nonlinear_arith)
                requires
                    st == d * a,
                    d == 2 * b,
            ;
            lemma_mod_multiples_basic((b * a) as int, 2);
            assert((2 * (b * a)) % 2 == 0) by (nonlinear_arith);
        }
        lemma_odd_divisor_of_pow2(d, sbits);
    }
}

/// Stepping by the stride visits every state once: distinct occurrences go
/// to distinct states.
pub proof fn lemma_spread_injective(sbits: nat, o1: nat, o2: nat)
    requires
        o1 < pow2(sbits),
        o2 < pow2(sbits),
        o1 != o2,
    ensures
        spread_pos(sbits, o1) != spread_pos(sbits, o2),
{
    let (a, b) = if o1 < o2 {
        (o1, o2)
    } else {
        (o2, o1)
    };
    let st = stride_of(pow2(sbits));
    let l = pow2(sbits) as int;
    lemma_stride_odd(sbits);
    lemma_odd_times_small(st, (b - a) as nat, sbits);
    assert(st * (b + 1) - st * (a + 1) == st * (b - a)) by (nonlinear_arith);
    lemma_mod_equivalence((st * (b + 1)) as int, (st * (a + 1)) as int, l);
}

/// The low `n` bits of `v`, most significant first.
pub open spec fn msb_bits(v: nat, n: nat) -> Seq<bool>
    decreases n,
{
    if n == 0 {
        Seq::empty()
    } else {
        msb_bits(v / 2, (n - 1) as nat).push(v % 2 == 1)
    }
}

/// The bits of a sequence of 32-bit words, each most significant first.
pub open spec fn words_bits(w: Seq<u32>) -> Seq<bool>
    decreases w.len(),
{
    if w.len() == 0 {
        Seq::empty()
    } else {
        words_bits(w.drop_last()) + msb_bits(w.last() as nat, 32)
    }
}

proof fn lemma_msb_split(v: nat, n: nat, m: nat)
    ensures
        msb_bits(v, n + m) == msb_bits(v / pow2(m), n) + msb_bits(v, m),
    decreases m,
{
    lemma2_to64();
    if m == 0 {
        assert(msb_bits(v, n) =~= msb_bits(v, n) + Seq::<bool>::empty());
    } else {
        lemma_msb_split(v / 2, n, (m - 1) as nat);
        lemma_pow2_unfold(m);
        lemma_pow2_pos((m - 1) as nat);
        lemma_div_denominator(v as int, 2, pow2((m - 1) as nat) as int);
        assert((n + m - 1) as nat == n + (m - 1) as nat);
        assert(msb_bits(v, n + m) =~= msb_bits(v / pow2(m), n) + msb_bits(v, m));
    }
}

proof fn lemma_msb_mod(v: nat, n: nat)
    ensures
        msb_bits(v, n) == msb_bits(v % pow2(n), n),
    decreases n,
{
    lemma2_to64();
    if n > 0 {
        lemma_pow2_unfold(n);
        let h = pow2((n - 1) as nat);
        lemma_pow2_pos((n - 1) as nat);
        lemma_mod_breakdown(v as int, 2, h as int);
        lemma_mod_mod(v as int, 2, h as int);
        lemma_msb_mod(v / 2, (n - 1) as nat);
        let r = v % pow2(n);
        assert(r == 2 * ((v / 2) % h) + v % 2);
        assert(r / 2 == (v / 2) % h);
        assert(r % 2 == v % 2);
    }
}

/// Occurrence index reached from successor value `k` of symbol `s`.
pub open spec fn occurrence_of(f: Seq<u32>, s: int, k: nat) -> nat {
    (cum_freq(f, s) + k - f[s]) as nat
}

/// State from which the first symbol `s` of a message is coded.
pub open spec fn first_state(sbits: nat, f: Seq<u32>, s: int) -> nat {
    spread_pos(sbits, occurrence_of(f, s, pow2(sbits) / pow2(low_nbits(f[s] as nat, sbits))))
}

/// State reached from state `x` by coding symbol `s`.
pub open spec fn next_state(sbits: nat, f: Seq<u32>, s: int, x: nat) -> nat {
    spread_pos(
        sbits,
        occurrence_of(f, s, (x + pow2(sbits)) / pow2(step_nbits(f[s] as nat, sbits, x))),
    )
}

/// Bits written when symbol `s` is coded from state `x`.
pub open spec fn step_bits(sbits: nat, f: Seq<u32>, s: int, x: nat) -> Seq<bool> {
    msb_bits(x, step_nbits(f[s] as nat, sbits, x))
}

/// The encoder for one message. It holds the tables built from one
/// frequency distribution, the current state, and the bits written so far.
pub struct Encoder {
    /// One entry per symbol: the packed bit-count selector and the offset
    /// from a successor value to an index into the origin table.
    symtab: Vec<(u32, u32)>,
    /// State that each occurrence index is spread to.
    origin: Vec<u32>,
    /// Frequency of each symbol.
    freqs: Vec<u32>,
    /// Full 32-bit words written so far.
    output: Vec<u32>,
    /// Bits not yet in `output`, from the most significant bit down.
    bits: u32,
    /// Current state.
    state: u32,
    /// Number of state bits.
    sbits: u32,
    /// Number of states.
    nstates: u32,
    /// Number of bits still free in `bits`.
    need_bits: u32,
}

impl Encoder {
    /// Builds the tables for `freqs` over `2^sbits` states. Fails with
    /// `InvalidDistribution` unless the frequencies sum to `2^sbits` and
    /// `sbits` is at most 24.
    #[verifier::rlimit(40)]
    pub fn new(sbits: u32, freqs: &[u32]) -> (r: Result<Encoder, CodecError>)
        ensures
            r is Ok <==> valid_distribution(sbits as nat, freqs@),
            r is Err ==> r->Err_0 == CodecError::InvalidDistribution,
            r is Ok ==> {
                let e = r->Ok_0;
                &&& e.wf()
                &&& e.table_sbits() == sbits
                &&& e.table_freqs() == freqs@
                &&& e.current() == 0
                &&& e.emitted() == Seq::<bool>::empty()
            },
    {
        match check_distribution(sbits, freqs) {
            Err(e) => {
                return Err(e);
            },
            Ok(()) => {},
        }
        proof {
            lemma2_to64();
            lemma_pow2_strictly_increases(sbits as nat, 32);
            if sbits < 24 {
                lemma_pow2_strictly_increases(sbits as nat, 24);
            }
            assert(1u32 * pow2(sbits as nat) <= u32::MAX);
            lemma_u32_shl_is_mul(1, sbits);
            lemma_pow2_pos(sbits as nat);
        }
        let nstates: u32 = 1u32 << sbits;
        let nsyms = freqs.len();
        let mask = nstates - 1;
        let mut symtab: Vec<(u32, u32)> = Vec::with_capacity(nsyms);
        let mut o: u32 = 0;
        let mut s: usize = 0;
        proof {
            assert(freqs@.take(0) =~= Seq::<u32>::empty());
        }
        // Populate the symbol table with the selector and offset.
        while s < nsyms
            invariant
                nsyms == freqs.len(),
                s <= nsyms,
                valid_distribution(sbits as nat, freqs@),
                nstates == pow2(sbits as nat),
                nstates <= 0x100_0000,
                mask == nstates - 1,
                o == cum_freq(freqs@, s as int),
                symtab.len() == s,
                forall|t: int|
                    0 <= t < s ==> #[trigger] symtab@[t] == (
                        coded_nbits_of(freqs@[t] as nat, sbits as nat) as u32,
                        offset_of(freqs@, t, sbits as nat) as u32,
                    ),
            decreases nsyms - s,
        {
            proof {
                lemma_cum_step(freqs@, s as int);
                lemma_cum_le(freqs@, s as int + 1);
            }
            let coded_nbits = compute_coded_nbits(freqs[s], sbits);
            let x = o + nstates - freqs[s];
            proof {
                lemma_u32_low_bits_mask_is_mod(x, sbits as nat);
                assert(low_bits_mask(sbits as nat) == pow2(sbits as nat) - 1) by {
                    lemma_low_bits_mask_values();
                    reveal(low_bits_mask);
                }
            }
            let offset = x & mask;
            symtab.push((coded_nbits, offset));
            o = o + freqs[s];
            s = s + 1;
        }
        let stride = compute_stride(nstates);
        let mut origin: Vec<u32> = Vec::new();
        origin.resize(nstates as usize, 0);
        proof {
            lemma_u32_low_bits_mask_is_mod(stride, sbits as nat);
            lemma_u32_low_bits_mask_is_mod(0, sbits as nat);
            assert(low_bits_mask(sbits as nat) == pow2(sbits as nat) - 1) by {
                reveal(low_bits_mask);
            }
        }
        let mut o: usize = 0;
        let mut st: u32 = stride & mask;
        proof {
            assert(freqs@.take(0) =~= Seq::<u32>::empty());
            assert(spread_pos(sbits as nat, 0) == stride as nat % pow2(sbits as nat)) by {
                let x = stride_of(pow2(sbits as nat));
                assert(x * (0 + 1) == x) by (nonlinear_arith);
            }
        }
        let mut sym: usize = 0;
        // Populate the origin table.
        while sym < nsyms
            invariant
                nsyms == freqs.len(),
                sym <= nsyms,
                valid_distribution(sbits as nat, freqs@),
                nstates == pow2(sbits as nat),
                nstates <= 0x100_0000,
                mask == nstates - 1,
                low_bits_mask(sbits as nat) == pow2(sbits as nat) - 1,
                sbits <= 24,
                stride == stride_of(nstates as nat),
                origin.len() == nstates,
                o == cum_freq(freqs@, sym as int),
                st == spread_pos(sbits as nat, o as nat),
                forall|i: int| 0 <= i < o ==> #[trigger] origin@[i] == spread_pos(sbits as nat, i as nat),
            decreases nsyms - sym,
        {
            proof {
                lemma_cum_step(freqs@, sym as int);
                lemma_cum_le(freqs@, sym as int + 1);
            }
            let f = freqs[sym];
            let mut j: u32 = 0;
            while j < f
                invariant
                    nsyms == freqs.len(),
                    sym < nsyms,
                    f == freqs@[sym as int],
                    j <= f,
                    cum_freq(freqs@, sym as int) + f <= nstates,
                    nstates == pow2(sbits as nat),
                    nstates <= 0x100_0000,
                    mask == nstates - 1,
                    low_bits_mask(sbits as nat) == pow2(sbits as nat) - 1,
                    sbits <= 24,
                    stride == stride_of(nstates as nat),
                    origin.len() == nstates,
                    o == cum_freq(freqs@, sym as int) + j,
                    st == spread_pos(sbits as nat, o as nat),
                    forall|i: int| 0 <= i < o ==> #[trigger] origin@[i] == spread_pos(sbits as nat, i as nat),
                decreases f - j,
            {
                origin.set(o, st);
                proof {
                    lemma_spread_next(sbits as nat, o as nat);
                    lemma_pow2_pos(sbits as nat);
                    assert(stride <= 0x100_0000);
                    lemma_u32_low_bits_mask_is_mod((st + stride) as u32, sbits as nat);
                }
                st = (st + stride) & mask;
                o = o + 1;
                j = j + 1;
            }
            sym = sym + 1;
        }
        proof {
            lemma_cum_le(freqs@, nsyms as int);
            assert(freqs@.take(nsyms as int) =~= freqs@);
        }
        let mut freqs_copy: Vec<u32> = Vec::new();
        let mut k: usize = 0;
        while k < nsyms
            invariant
                nsyms == freqs.len(),
                k <= nsyms,
                freqs_copy@ == freqs@.take(k as int),
            decreases nsyms - k,
        {
            freqs_copy.push(freqs[k]);
            k = k + 1;
            proof {
                assert(freqs_copy@ =~= freqs@.take(k as int));
            }
        }
        proof {
            assert(freqs_copy@ =~= freqs@);
            lemma_pow2_pos(32);
        }
        let e = Encoder {
            symtab,
            origin,
            freqs: freqs_copy,
            output: Vec::new(),
            bits: 0,
            state: 0,
            sbits,
            nstates,
            need_bits: 32,
        };
        proof {
            assert(e.output@ =~= Seq::<u32>::empty());
            assert(msb_bits(0, 0) =~= Seq::<bool>::empty());
            assert(words_bits(e.output@) =~= Seq::<bool>::empty());
            assert(e.emitted() =~= Seq::<bool>::empty());
        }
        Ok(e)
    }

    /// Number of state bits of the tables.
    pub closed spec fn table_sbits(&self) -> nat {
        self.sbits as nat
    }

    /// The frequencies the tables were built from.
    pub closed spec fn table_freqs(&self) -> Seq<u32> {
        self.freqs@
    }

    /// The current state.
    pub closed spec fn current(&self) -> nat {
        self.state as nat
    }

    /// Every bit written so far, in the order written.
    pub closed spec fn emitted(&self) -> Seq<bool> {
        words_bits(self.output@) + msb_bits(
            self.bits as nat / pow2(self.need_bits as nat),
            (32 - self.need_bits) as nat,
        )
    }

    /// The tables are those of the frequencies and the state is in range.
    pub closed spec fn wf(&self) -> bool {
        &&& valid_distribution(self.sbits as nat, self.freqs@)
        &&& self.nstates == pow2(self.sbits as nat)
        &&& self.symtab.len() == self.freqs.len()
        &&& self.origin.len() == self.nstates
        &&& forall|s: int|
            0 <= s < self.freqs.len() ==> #[trigger] self.symtab@[s] == (
            coded_nbits_of(self.freqs@[s] as nat, self.sbits as nat) as u32,
            offset_of(self.freqs@, s, self.sbits as nat) as u32,
        )
        &&& forall|o: int|
            0 <= o < self.nstates ==> #[trigger] self.origin@[o] == spread_pos(
                self.sbits as nat,
                o as nat,
            )
        &&& self.state < self.nstates
        &&& 0 < self.need_bits <= 32
        &&& self.bits as nat % pow2(self.need_bits as nat) == 0
        &&& self.sbits == 0 ==> self.output.len() == 0 && self.need_bits == 32
    }

    /// Sets the state to one that codes the first symbol `sym` of a message,
    /// writing no bits.
    #[verifier::rlimit(40)]
    pub fn encode_first(&mut self, sym: u32) -> (r: Result<(), CodecError>)
        requires
            old(self).wf(),
            sym < old(self).table_freqs().len(),
        ensures
            final(self).wf(),
            final(self).table_sbits() == old(self).table_sbits(),
            final(self).table_freqs() == old(self).table_freqs(),
            final(self).emitted() == old(self).emitted(),
            old(self).table_freqs()[sym as int] == 0 ==> r == Err::<(), CodecError>(
                CodecError::ZeroFrequencySymbol,
            ) && final(self).current() == old(self).current(),
            old(self).table_freqs()[sym as int] > 0 ==> r is Ok && final(self).current()
                == first_state(old(self).table_sbits(), old(self).table_freqs(), sym as int),
    {
        if self.freqs[sym as usize] == 0 {
            return Err(CodecError::ZeroFrequencySymbol);
        }
        let (coded_nbits, offset) = self.symtab[sym as usize];
        let ghost f = self.freqs@[sym as int] as nat;
        let ghost sb = self.sbits as nat;
        proof {
            lemma_cum_step(self.freqs@, sym as int);
            lemma_cum_le(self.freqs@, sym as int + 1);
            lemma_selector(f, sb, 0);
            lemma_low_nbits(f, sb);
            lemma2_to64();
            lemma_u32_shr_is_div(coded_nbits, 24);
        }
        let nbits = coded_nbits >> 24;
        proof {
            assert(threshold_of(f, sb) > 0);
            assert(step_nbits(f, sb, 0) == low_nbits(f, sb));
            assert(nbits as nat == low_nbits(f, sb));
            assert(nbits <= 24);
            lemma_pow2_strictly_increases(nbits as nat, 32);
            lemma_u32_shr_is_div(self.nstates, nbits);
            lemma_pow2_pos(nbits as nat);
            lemma_div_range(pow2(sb), pow2(nbits as nat), f);
            lemma_occurrence(sb, self.freqs@, sym as int, pow2(sb) / pow2(nbits as nat));
            lemma_u32_low_bits_mask_is_mod(
                ((self.nstates >> nbits) + offset) as u32,
                sb,
            );
            reveal(low_bits_mask);
        }
        let idx = (self.nstates >> nbits) + offset;
        self.state = self.origin[(idx & (self.nstates - 1)) as usize];
        Ok(())
    }

    /// Codes symbol `sym`: writes the bits of the current state that the
    /// symbol's selector asks for and moves to the next state.
    #[verifier::rlimit(40)]
    pub fn encode_sym(&mut self, sym: u32) -> (r: Result<(), CodecError>)
        requires
            old(self).wf(),
            sym < old(self).table_freqs().len(),
        ensures
            final(self).wf(),
            final(self).table_sbits() == old(self).table_sbits(),
            final(self).table_freqs() == old(self).table_freqs(),
            old(self).table_freqs()[sym as int] == 0 ==> r == Err::<(), CodecError>(
                CodecError::ZeroFrequencySymbol,
            ) && final(self).current() == old(self).current() && final(self).emitted() == old(
                self,
            ).emitted(),
            old(self).table_freqs()[sym as int] > 0 ==> r is Ok && final(self).current()
                == next_state(
                old(self).table_sbits(),
                old(self).table_freqs(),
                sym as int,
                old(self).current(),
            ) && final(self).emitted() == old(self).emitted() + step_bits(
                old(self).table_sbits(),
                old(self).table_freqs(),
                sym as int,
                old(self).current(),
            ),
    {
        if self.freqs[sym as usize] == 0 {
            return Err(CodecError::ZeroFrequencySymbol);
        }
        let (coded_nbits, offset) = self.symtab[sym as usize];
        let ghost f = self.freqs@[sym as int] as nat;
        let ghost sb = self.sbits as nat;
        let ghost x = self.state as nat;
        proof {
            lemma_cum_step(self.freqs@, sym as int);
            lemma_cum_le(self.freqs@, sym as int + 1);
            lemma_selector(f, sb, x);
            lemma_low_nbits(f, sb);
            lemma2_to64();
            if sb < 24 {
                lemma_pow2_strictly_increases(sb, 24);
            }
            assert(coded_nbits <= 25 * pow2(24));
            lemma_u32_shr_is_div((self.state + coded_nbits) as u32, 24);
        }
        let nbits = (self.state + coded_nbits) >> 24;
        proof {
            lemma_step_range(f, sb, x);
        }
        self.acc_bits(self.state, nbits);
        let sum = self.state + self.nstates;
        proof {
            let nb = nbits as nat;
            let l = pow2(sb);
            lemma_pow2_strictly_increases(nb, 32);
            lemma_pow2_pos(nb);
            lemma_u32_shr_is_div(sum, nbits);
            lemma_div_range(x + l, pow2(nb), f);
            lemma_occurrence(sb, self.freqs@, sym as int, (x + l) / pow2(nb));
            lemma_u32_low_bits_mask_is_mod(((sum >> nbits) + offset) as u32, sb);
            reveal(low_bits_mask);
        }
        let idx = (sum >> nbits) + offset;
        self.state = self.origin[(idx & (self.nstates - 1)) as usize];
        Ok(())
    }

    /// The current state.
    pub fn state(&self) -> (r: u32)
        ensures
            r == self.current(),
    {
        self.state
    }

    /// The packed selector and the offset of symbol `sym`.
    pub fn symbol_entry(&self, sym: usize) -> (r: (u32, u32))
        requires
            self.wf(),
            sym < self.table_freqs().len(),
        ensures
            r.0 == coded_nbits_of(self.table_freqs()[sym as int] as nat, self.table_sbits()),
            r.1 == offset_of(self.table_freqs(), sym as int, self.table_sbits()),
    {
        proof {
            let f = self.freqs@[sym as int] as nat;
            lemma_cum_step(self.freqs@, sym as int);
            lemma_cum_le(self.freqs@, sym as int + 1);
            lemma_pow2_pos(self.sbits as nat);
            if f > 0 {
                lemma_low_nbits(f, self.sbits as nat);
                lemma2_to64();
                if self.sbits < 24 {
                    lemma_pow2_strictly_increases(self.sbits as nat, 24);
                }
                assert((low_nbits(f, self.sbits as nat) + 1) * pow2(24) <= 25 * pow2(24)) by (nonlinear_arith)
                    requires
                        low_nbits(f, self.sbits as nat) <= 24,
                ;
            }
        }
        self.symtab[sym]
    }

    /// The state that occurrence index `o` is spread to.
    pub fn origin_at(&self, o: usize) -> (r: u32)
        requires
            self.wf(),
            o < pow2(self.table_sbits()),
        ensures
            r == spread_pos(self.table_sbits(), o as nat),
    {
        self.origin[o]
    }

    /// Ends the message: appends the final state as `sbits` bits, then writes
    /// every bit to `output` in the reverse of the order it was produced, so
    /// that a decoder reads the final state first.
    #[verifier::rlimit(40)]
    pub fn write<W: WriteBits>(&mut self, output: &mut W) -> (r: Result<(), CodecError>)
        requires
            old(self).wf(),
            old(output).ready(),
        ensures
            final(output).ready(),
            old(output).infallible() ==> r is Ok,
            old(self).table_sbits() == 0 ==> r is Ok,
            r is Err ==> !old(output).infallible() && r == final(output).last_result(),
            final(self).wf(),
            final(self).table_sbits() == old(self).table_sbits(),
            final(self).table_freqs() == old(self).table_freqs(),
            final(self).current() == old(self).current(),
            final(self).emitted() == old(self).emitted() + msb_bits(
                old(self).current(),
                old(self).table_sbits(),
            ),
            r is Ok ==> final(output).bits_written() == old(output).bits_written() + (old(
                self,
            ).emitted() + msb_bits(old(self).current(), old(self).table_sbits())).reverse(),
    {
        proof {
            lemma_pow2_pos(self.sbits as nat);
            if self.sbits > 0 {
                lemma_pow2_unfold(self.sbits as nat);
                lemma_pow2_pos((self.sbits - 1) as nat);
            }
            lemma_bit_len_unique((self.nstates - 1) as nat, self.sbits as nat);
        }
        let sbits = bit_length(self.nstates - 1);
        let ghost full = old(self).emitted() + msb_bits(old(self).current(), old(self).table_sbits());
        self.acc_bits(self.state, sbits);
        let ghost w0 = output.bits_written();
        let ghost ws = self.output@;
        proof {
            lemma2_to64();
        }
        if self.need_bits < 32 {
            proof {
                lemma_u32_shr_is_div(self.bits, self.need_bits);
            }
            match output.write_bits(self.bits >> self.need_bits, (32 - self.need_bits) as u8) {
                Err(e) => {
                    return Err(e);
                },
                Ok(()) => {},
            }
        }
        let ghost pv = self.bits as nat / pow2(self.need_bits as nat);
        let ghost pc = (32 - self.need_bits) as nat;
        proof {
            lemma_msb_reverse(pv, pc);
            if self.need_bits == 32 {
                assert(lsb_bits(pv, 0) =~= Seq::<bool>::empty());
            }
            assert(output.bits_written() == w0 + msb_bits(pv, pc).reverse());
            assert(ws.subrange(ws.len() as int, ws.len() as int) =~= Seq::<u32>::empty());
            assert(words_bits(Seq::<u32>::empty()).reverse() =~= Seq::<bool>::empty());
        }
        let mut i = self.output.len();
        while i > 0
            invariant
                output.ready(),
                old(output).infallible() ==> output.infallible(),
                self.wf(),
                self.sbits == old(self).sbits,
                self.freqs == old(self).freqs,
                self.state == old(self).state,
                self.emitted() == full,
                full == old(self).emitted() + msb_bits(old(self).current(), old(self).table_sbits()),
                self.output@ == ws,
                i <= ws.len(),
                output.bits_written() == w0 + msb_bits(pv, pc).reverse() + words_bits(
                    ws.subrange(i as int, ws.len() as int),
                ).reverse(),
            decreases i,
        {
            i = i - 1;
            let ghost prev = output.bits_written();
            match output.write_bits(self.output[i], 32) {
                Err(e) => {
                    return Err(e);
                },
                Ok(()) => {},
            }
            proof {
                let w = ws[i as int];
                let rest = ws.subrange(i as int + 1, ws.len() as int);
                assert(ws.subrange(i as int, ws.len() as int) =~= seq![w] + rest);
                lemma_words_bits_add(seq![w], rest);
                assert(seq![w].drop_last() =~= Seq::<u32>::empty());
                assert(words_bits(Seq::<u32>::empty()) =~= Seq::<bool>::empty());
                assert(seq![w].last() == w);
                assert(words_bits(seq![w]) == words_bits(seq![w].drop_last()) + msb_bits(w as nat, 32));
                assert(words_bits(seq![w]) =~= msb_bits(w as nat, 32));
                lemma_msb_reverse(w as nat, 32);
                assert((msb_bits(w as nat, 32) + words_bits(rest)).reverse() =~= words_bits(
                    rest,
                ).reverse() + lsb_bits(w as nat, 32));
            }
        }
        proof {
            assert(ws.subrange(0, ws.len() as int) =~= ws);
            assert((words_bits(ws) + msb_bits(pv, pc)).reverse() =~= msb_bits(pv, pc).reverse()
                + words_bits(ws).reverse());
        }
        Ok(())
    }

    /// Appends the low `n` bits of `v`, most significant first.
    #[verifier::rlimit(40)]
    fn acc_bits(&mut self, v: u32, n: u32)
        requires
            old(self).wf(),
            n <= 32,
            old(self).sbits == 0 ==> n == 0,
        ensures
            final(self).wf(),
            32 * final(self).output.len() + 32 - final(self).need_bits == 32 * old(self).output.len()
                + 32 - old(self).need_bits + n,
            final(self).emitted() == old(self).emitted() + msb_bits(v as nat, n as nat),
            final(self).state == old(self).state,
            final(self).sbits == old(self).sbits,
            final(self).freqs == old(self).freqs,
            final(self).symtab == old(self).symtab,
            final(self).origin == old(self).origin,
            final(self).nstates == old(self).nstates,
    {
        let mut nbits = n;
        let ghost goal = old(self).emitted() + msb_bits(v as nat, n as nat);
        proof {
            lemma2_to64();
            lemma_emitted_len(&*old(self));
        }
        while nbits > 0
            invariant
                self.wf(),
                nbits <= 32,
                self.emitted() + msb_bits(v as nat, nbits as nat) == goal,
                goal == old(self).emitted() + msb_bits(v as nat, n as nat),
                old(self).emitted().len() == 32 * old(self).output.len() + 32 - old(self).need_bits,
                self.sbits == 0 ==> nbits == 0,
                self.state == old(self).state,
                self.sbits == old(self).sbits,
                self.freqs == old(self).freqs,
                self.symtab == old(self).symtab,
                self.origin == old(self).origin,
                self.nstates == old(self).nstates,
            decreases nbits,
        {
            let ghost p = self.bits as nat / pow2(self.need_bits as nat);
            let ghost nbits_before = nbits as nat;
            let ghost prev_words = self.output@;
            let ghost need = self.need_bits as nat;
            proof {
                lemma2_to64();
                lemma_pow2_pos(need);
                lemma_pow2_pos(nbits as nat);
                lemma_fundamental_div_mod(self.bits as int, pow2(need) as int);
                assert(self.bits == p * pow2(need));
                lemma_pow2_adds((32 - need) as nat, need);
                assert((32 - need) as nat + need == 32);
                assert(pow2(32) == pow2((32 - need) as nat) * pow2(need));
                assert(p * pow2(need) < pow2(32));
                assert(p < pow2((32 - need) as nat)) by (nonlinear_arith)
                    requires
                        p * pow2(need) < pow2((32 - need) as nat) * pow2(need),
                ;
                assert((p + 1) * pow2(need) <= pow2(32)) by (nonlinear_arith)
                    requires
                        p + 1 <= pow2((32 - need) as nat),
                        pow2(32) == pow2((32 - need) as nat) * pow2(need),
                ;
            }
            let vm = if nbits < 32 {
                proof {
                    lemma_pow2_strictly_increases(nbits as nat, 32);
                    assert(1u32 * pow2(nbits as nat) <= u32::MAX);
                    lemma_u32_shl_is_mul(1, nbits);
                    lemma_u32_low_bits_mask_is_mod(v, nbits as nat);
                }
                v & ((1u32 << nbits) - 1)
            } else {
                proof {
                    lemma_small_mod(v as nat, pow2(32));
                }
                v
            };
            assert(vm == v as nat % pow2(nbits as nat));
            if self.need_bits > nbits {
                let shift = self.need_bits - nbits;
                proof {
                    lemma_pow2_adds(nbits as nat, shift as nat);
                    lemma_pow2_pos(shift as nat);
                    assert(vm * pow2(shift as nat) < pow2(need)) by (nonlinear_arith)
                        requires
                            vm < pow2(nbits as nat),
                            pow2(shift as nat) > 0,
                            pow2(need) == pow2(nbits as nat) * pow2(shift as nat),
                    ;
                    lemma_u32_shl_is_mul(vm, shift);
                }
                let ghost q: nat = p * pow2(nbits as nat) + vm as nat;
                proof {
                    assert(p * pow2(need) + vm * pow2(shift as nat) == q * pow2(shift as nat))
                        by (nonlinear_arith)
                        requires
                            q == p * pow2(nbits as nat) + vm,
                            pow2(need) == pow2(nbits as nat) * pow2(shift as nat),
                    ;
                    assert(self.bits + vm * pow2(shift as nat) <= u32::MAX) by (nonlinear_arith)
                        requires
                            self.bits == p * pow2(need),
                            vm * pow2(shift as nat) < pow2(need),
                            (p + 1) * pow2(need) <= pow2(32),
                            pow2(32) == u32::MAX + 1,
                    ;
                }
                self.bits = self.bits + (vm << shift);
                self.need_bits = shift;
                proof {
                    lemma_mod_multiples_basic(q as int, pow2(shift as nat) as int);
                    assert(self.bits == q * pow2(shift as nat));
                    lemma_div_mod_parts(q, 0, pow2(shift as nat));
                    assert(self.bits as nat / pow2(shift as nat) == q);
                    lemma_msb_split(q, (32 - need) as nat, nbits as nat);
                    assert((32 - need) as nat + nbits as nat == (32 - shift) as nat);
                    lemma_div_mod_parts(p, vm as nat, pow2(nbits as nat));
                    lemma_msb_mod(q, nbits as nat);
                    lemma_msb_mod(v as nat, nbits as nat);
                    lemma_small_mod(vm as nat, pow2(nbits as nat));
                    assert(msb_bits(v as nat, 0) =~= Seq::<bool>::empty());
                    assert(self.emitted() =~= goal);
                    assert(goal == old(self).emitted() + msb_bits(v as nat, n as nat));
                    lemma_emitted_len(self);
                    lemma_msb_len(v as nat, n as nat);
                }
                return;
            }
            let shift = nbits - self.need_bits;
            let ghost u = vm as nat / pow2(shift as nat);
            proof {
                assert(shift < 32);
                lemma_u32_shr_is_div(vm, shift);
                lemma_pow2_adds(shift as nat, need);
                lemma_pow2_pos(shift as nat);
                assert(u < pow2(need)) by (nonlinear_arith)
                    requires
                        u == vm as nat / pow2(shift as nat),
                        vm < pow2(nbits as nat),
                        pow2(nbits as nat) == pow2(shift as nat) * pow2(need),
                        pow2(shift as nat) > 0,
                {
                    if u >= pow2(need) {
                        assert(u * pow2(shift as nat) >= pow2(need) * pow2(shift as nat));
                        assert(vm as nat >= u * pow2(shift as nat));
                    }
                }
                assert(self.bits + u <= u32::MAX) by (nonlinear_arith)
                    requires
                        self.bits == p * pow2(need),
                        u < pow2(need),
                        (p + 1) * pow2(need) <= pow2(32),
                        pow2(32) == u32::MAX + 1,
                ;
            }
            let word = self.bits + (vm >> shift);
            self.output.push(word);
            nbits = shift;
            self.bits = 0;
            self.need_bits = 32;
            proof {
                let w = word as nat;
                let old_words = self.output@.drop_last();
                assert(words_bits(self.output@) == words_bits(old_words) + msb_bits(w, 32));
                lemma_div_mod_parts(p, u, pow2(need));
                lemma_msb_split(w, (32 - need) as nat, need);
                assert((32 - need) as nat + need == 32);
                lemma_msb_mod(w, need);
                lemma_msb_split(v as nat, need, shift as nat);
                assert(need + shift as nat == nbits_before);
                assert(vm == v as nat % pow2(nbits_before));
                assert(pow2(nbits_before) == pow2(shift as nat) * pow2(need));
                lemma_mod_breakdown(v as int, pow2(shift as nat) as int, pow2(need) as int);
                let xx = (v as nat / pow2(shift as nat)) % pow2(need);
                assert(vm == xx * pow2(shift as nat) + v as nat % pow2(shift as nat)) by (nonlinear_arith)
                    requires
                        vm == pow2(shift as nat) * xx + v as nat % pow2(shift as nat),
                ;
                lemma_div_mod_parts(
                    (v as nat / pow2(shift as nat)) % pow2(need),
                    v as nat % pow2(shift as nat),
                    pow2(shift as nat),
                );
                assert(u == (v as nat / pow2(shift as nat)) % pow2(need));
                lemma_msb_mod(v as nat / pow2(shift as nat), need);
                lemma_small_mod(u, pow2(need));
                assert(msb_bits(0, 0) =~= Seq::<bool>::empty());
                assert(self.emitted() =~= words_bits(old_words) + msb_bits(w, 32));
                assert(old_words =~= prev_words);
                let a = words_bits(prev_words);
                let b = msb_bits(p, (32 - need) as nat);
                let c = msb_bits(u, need);
                let d = msb_bits(v as nat, shift as nat);
                assert(msb_bits(w, 32) == b + c);
                assert(msb_bits(v as nat, nbits_before) == c + d);
                assert(goal == (a + b) + (c + d));
                assert(self.emitted() + d =~= (a + b) + (c + d));
            }
        }
        proof {
            lemma_emitted_len(self);
            lemma_msb_len(v as nat, n as nat);
            assert(msb_bits(v as nat, 0) =~= Seq::<bool>::empty());
        }
    }
}

proof fn lemma_mod_add_left(x: int, y: int, m: int)
    requires
        m > 0,
    ensures
        ((x % m) + y) % m == (x + y) % m,
{
    lemma_fundamental_div_mod(x, m);
    lemma_mod_multiples_vanish(x / m, (x % m) + y, m);
}

proof fn lemma_spread_next(sbits: nat, o: nat)
    ensures
        (spread_pos(sbits, o) + stride_of(pow2(sbits))) % pow2(sbits) == spread_pos(
            sbits,
            o + 1,
        ),
{
    let st = stride_of(pow2(sbits));
    lemma_pow2_pos(sbits);
    lemma_mod_add_left((st * (o + 1)) as int, st as int, pow2(sbits) as int);
    assert(st * (o + 1) + st == st * (o + 2)) by (nonlinear_arith);
}

/// Read backwards, the bits of `v` from the most significant are its bits
/// from the least significant.
pub proof fn lemma_msb_reverse(v: nat, n: nat)
    ensures
        msb_bits(v, n).reverse() == lsb_bits(v, n),
    decreases n,
{
    if n > 0 {
        lemma_msb_reverse(v / 2, (n - 1) as nat);
        let a = msb_bits(v / 2, (n - 1) as nat);
        assert(msb_bits(v, n).reverse() =~= seq![v % 2 == 1] + a.reverse());
    } else {
        assert(msb_bits(v, n).reverse() =~= lsb_bits(v, n));
    }
}

proof fn lemma_msb_len(v: nat, n: nat)
    ensures
        msb_bits(v, n).len() == n,
    decreases n,
{
    if n > 0 {
        lemma_msb_len(v / 2, (n - 1) as nat);
    }
}

proof fn lemma_words_bits_len(w: Seq<u32>)
    ensures
        words_bits(w).len() == 32 * w.len(),
    decreases w.len(),
{
    if w.len() > 0 {
        lemma_words_bits_len(w.drop_last());
        lemma_msb_len(w.last() as nat, 32);
    }
}

proof fn lemma_emitted_len(e: &Encoder)
    requires
        e.need_bits <= 32,
    ensures
        e.emitted().len() == 32 * e.output.len() + 32 - e.need_bits,
{
    lemma_words_bits_len(e.output@);
    lemma_msb_len(e.bits as nat / pow2(e.need_bits as nat), (32 - e.need_bits) as nat);
}

proof fn lemma_words_bits_add(a: Seq<u32>, b: Seq<u32>)
    ensures
        words_bits(a + b) == words_bits(a) + words_bits(b),
    decreases b.len(),
{
    if b.len() == 0 {
        assert(a + b =~= a);
        assert(words_bits(a) + words_bits(b) =~= words_bits(a));
    } else {
        lemma_words_bits_add(a, b.drop_last());
        assert((a + b).drop_last() =~= a + b.drop_last());
        assert(words_bits(a + b) =~= words_bits(a) + words_bits(b));
    }
}

proof fn lemma_div_range(v: nat, d: nat, a: nat)
    requires
        d > 0,
        a * d <= v < 2 * (a * d),
    ensures
        a <= v / d < 2 * a,
{
    lemma_fundamental_div_mod(v as int, d as int);
    let q = v / d;
    let r = v % d;
    if q < a {
        assert(v < a * d) by (nonlinear_arith)
            requires
                v == d * q + r,
                q + 1 <= a,
                r < d,
                d > 0,
        ;
    }
    if q >= 2 * a {
        assert(v >= 2 * (a * d)) by (nonlinear_arith)
            requires
                v == d * q + r,
                q >= 2 * a,
                r >= 0,
                d > 0,
        ;
    }
}

/// The occurrence index reached from successor value `k` of a symbol is the
/// successor value plus the symbol's offset, modulo the number of states.
proof fn lemma_occurrence(sbits: nat, f: Seq<u32>, s: int, k: nat)
    requires
        valid_distribution(sbits, f),
        0 <= s < f.len(),
        f[s] <= k < 2 * f[s],
    ensures
        (k + offset_of(f, s, sbits)) % pow2(sbits) == occurrence_of(f, s, k),
        occurrence_of(f, s, k) < pow2(sbits),
        cum_freq(f, s) <= occurrence_of(f, s, k) < cum_freq(f, s + 1),
{
    let l = pow2(sbits) as int;
    lemma_pow2_pos(sbits);
    lemma_cum_step(f, s);
    lemma_cum_le(f, s + 1);
    let c = cum_freq(f, s) as int;
    lemma_mod_add_left(c + l - f[s], k as int, l);
    lemma_mod_multiples_vanish(1, c + k - f[s], l);
    lemma_small_mod((c + k - f[s]) as nat, l as nat);
}

/// Bits read to leave the state holding successor value `k`.
pub open spec fn entry_nbits(sbits: nat, k: nat) -> nat {
    (sbits + 1 - bit_len(k)) as nat
}

/// Lowest predecessor state of the state holding successor value `k`.
pub open spec fn entry_base(sbits: nat, k: nat) -> int {
    k * pow2(entry_nbits(sbits, k)) - pow2(sbits)
}

/// A decode table entry is usable: its successors are the states
/// `base + v` for `v < 2^nbits`, all inside the table.
pub open spec fn entry_ok<S>(e: (S, u8, u32), sbits: nat) -> bool {
    &&& e.1 <= sbits
    &&& e.2 as nat % pow2(e.1 as nat) == 0
    &&& e.2 + pow2(e.1 as nat) <= pow2(sbits)
}

/// `table` is the decode table of `freqs` over `2^sbits` states: the state
/// that occurrence `j` of symbol `s` is spread to holds `s`, and the bit
/// count and base of successor value `freqs[s] + j`.
pub open spec fn is_decode_table<S>(
    table: Seq<(S, u8, u32)>,
    sbits: nat,
    freqs: Seq<u32>,
    symbols: Seq<S>,
) -> bool {
    &&& table.len() == pow2(sbits)
    &&& forall|s: int, j: int|
        0 <= s < freqs.len() && 0 <= j < freqs[s] ==> {
            let k = (freqs[s] + j) as nat;
            #[trigger] table[spread_pos(sbits, (cum_freq(freqs, s) + j) as nat) as int] == (
                symbols[s],
                entry_nbits(sbits, k) as u8,
                entry_base(sbits, k) as u32,
            )
        }
}

proof fn lemma_cum_mono(f: Seq<u32>, a: int, b: int)
    requires
        0 <= a <= b <= f.len(),
    ensures
        cum_freq(f, a) <= cum_freq(f, b),
    decreases b - a,
{
    if a < b {
        lemma_cum_step(f, b - 1);
        lemma_cum_mono(f, a, b - 1);
    }
}

/// The bit count and base of successor value `k` of a symbol: `k` shifted
/// up by the bit count lands in `[2^sbits, 2^(sbits+1))`.
proof fn lemma_entry(sbits: nat, k: nat)
    requires
        1 <= k < 2 * pow2(sbits),
    ensures
        1 <= bit_len(k) <= sbits + 1,
        entry_nbits(sbits, k) <= sbits,
        pow2(sbits) <= k * pow2(entry_nbits(sbits, k)) < 2 * pow2(sbits),
        entry_base(sbits, k) as nat % pow2(entry_nbits(sbits, k)) == 0,
        entry_base(sbits, k) + pow2(entry_nbits(sbits, k)) <= pow2(sbits),
{
    let b = bit_len(k);
    lemma_bit_len(k);
    lemma_pow2_unfold(sbits + 1);
    lemma_bit_len_le(k, sbits + 1);
    let nb = entry_nbits(sbits, k);
    assert(nb + b == sbits + 1);
    lemma_pow2_adds(nb, b);
    lemma_pow2_adds(nb, (b - 1) as nat);
    lemma_pow2_unfold(b);
    lemma_pow2_pos(nb);
    assert(pow2((b - 1) as nat) * pow2(nb) == pow2(sbits)) by {
        assert((b - 1) as nat + nb == sbits);
        lemma_pow2_adds((b - 1) as nat, nb);
    }
    lemma_mul_le(pow2((b - 1) as nat), k, pow2(nb));
    lemma_mul_lt(k, pow2(b), pow2(nb));
    assert(pow2(b) * pow2(nb) == 2 * pow2(sbits)) by (nonlinear_arith)
        requires
            pow2(b) == 2 * pow2((b - 1) as nat),
            pow2((b - 1) as nat) * pow2(nb) == pow2(sbits),
    ;
    if nb < sbits {
        lemma_pow2_adds(nb, (sbits - nb) as nat);
    }
    let q = if nb <= sbits { pow2((sbits - nb) as nat) } else { 1 };
    assert(pow2(sbits) == q * pow2(nb)) by {
        lemma_pow2_adds((sbits - nb) as nat, nb);
        assert((sbits - nb) as nat + nb == sbits);
    }
    assert(k * pow2(nb) - pow2(sbits) == (k - q) * pow2(nb)) by (nonlinear_arith)
        requires
            pow2(sbits) == q * pow2(nb),
    ;
    assert(k >= q) by {
        if k < q {
            lemma_mul_lt(k, q, pow2(nb));
        }
    }
    lemma_mod_multiples_basic((k - q) as int, pow2(nb) as int);
    assert(k < 2 * q) by {
        if k >= 2 * q {
            lemma_mul_le(2 * q, k, pow2(nb));
            assert(2 * q * pow2(nb) == 2 * pow2(sbits)) by (nonlinear_arith)
                requires
                    pow2(sbits) == q * pow2(nb),
            ;
        }
    }
    assert((k - q) * pow2(nb) + pow2(nb) <= q * pow2(nb)) by (nonlinear_arith)
        requires
            k < 2 * q,
            k >= q,
    ;
}

/// Builds the decode table of `freqs` over `2^sbits` states by the same
/// spreading as the encoder, `symbols[s]` standing for symbol `s`. Fails
/// with `InvalidDistribution` as `Encoder::new` does. `Decoder::new`
/// accepts the table.
#[verifier::rlimit(40)]
pub fn build_decode_table<S: Copy>(sbits: u32, freqs: &[u32], symbols: &[S]) -> (r: Result<
    Vec<(S, u8, u32)>,
    CodecError,
>)
    requires
        symbols.len() == freqs.len(),
    ensures
        r is Ok <==> valid_distribution(sbits as nat, freqs@),
        r is Err ==> r->Err_0 == CodecError::InvalidDistribution,
        r is Ok ==> {
            &&& is_decode_table(r->Ok_0@, sbits as nat, freqs@, symbols@)
            &&& forall|i: int|
                0 <= i < r->Ok_0@.len() ==> entry_ok(#[trigger] r->Ok_0@[i], sbits as nat)
        },
{
    match check_distribution(sbits, freqs) {
        Err(e) => {
            return Err(e);
        },
        Ok(()) => {},
    }
    proof {
        lemma2_to64();
        lemma_pow2_strictly_increases(sbits as nat, 32);
        if sbits < 24 {
            lemma_pow2_strictly_increases(sbits as nat, 24);
        }
        assert(1u32 * pow2(sbits as nat) <= u32::MAX);
        lemma_u32_shl_is_mul(1, sbits);
        lemma_pow2_pos(sbits as nat);
        lemma_u32_low_bits_mask_is_mod(0, sbits as nat);
        reveal(low_bits_mask);
    }
    let nstates: u32 = 1u32 << sbits;
    let mask = nstates - 1;
    let nsyms = freqs.len();
    proof {
        if nsyms == 0 {
            assert(freqs@.len() == 0);
        }
    }
    let filler = symbols[0];
    let mut table: Vec<(S, u8, u32)> = Vec::new();
    let mut i: u32 = 0;
    while i < nstates
        invariant
            table.len() == i,
            i <= nstates,
            nstates == pow2(sbits as nat),
            forall|t: int| 0 <= t < i ==> entry_ok(#[trigger] table@[t], sbits as nat),
        decreases nstates - i,
    {
        proof {
            lemma2_to64();
        }
        table.push((filler, 0, 0));
        i = i + 1;
    }
    let stride = compute_stride(nstates);
    let mut o: u32 = 0;
    let mut st: u32 = stride & mask;
    proof {
        lemma_u32_low_bits_mask_is_mod(stride, sbits as nat);
        assert(freqs@.take(0) =~= Seq::<u32>::empty());
        assert(spread_pos(sbits as nat, 0) == stride as nat % pow2(sbits as nat)) by {
            let x = stride_of(pow2(sbits as nat));
            assert(x * (0 + 1) == x) by (nonlinear_arith);
        }
    }
    let mut sym: usize = 0;
    while sym < nsyms
        invariant
            nsyms == freqs.len(),
            symbols.len() == nsyms,
            sym <= nsyms,
            valid_distribution(sbits as nat, freqs@),
            nstates == pow2(sbits as nat),
            nstates <= 0x100_0000,
            mask == nstates - 1,
            low_bits_mask(sbits as nat) == pow2(sbits as nat) - 1,
            sbits <= 24,
            stride == stride_of(nstates as nat),
            table.len() == nstates,
            forall|t: int| 0 <= t < nstates ==> entry_ok(#[trigger] table@[t], sbits as nat),
            o == cum_freq(freqs@, sym as int),
            st == spread_pos(sbits as nat, o as nat),
            forall|s2: int, j2: int|
                0 <= s2 < sym && 0 <= j2 < freqs@[s2] ==> {
                    let k = (freqs@[s2] + j2) as nat;
                    #[trigger] table@[spread_pos(
                        sbits as nat,
                        (cum_freq(freqs@, s2) + j2) as nat,
                    ) as int] == (
                        symbols@[s2],
                        entry_nbits(sbits as nat, k) as u8,
                        entry_base(sbits as nat, k) as u32,
                    )
                },
        decreases nsyms - sym,
    {
        proof {
            lemma_cum_step(freqs@, sym as int);
            lemma_cum_le(freqs@, sym as int + 1);
        }
        let f = freqs[sym];
        let mut j: u32 = 0;
        while j < f
            invariant
                nsyms == freqs.len(),
                symbols.len() == nsyms,
                sym < nsyms,
                f == freqs@[sym as int],
                j <= f,
                valid_distribution(sbits as nat, freqs@),
                cum_freq(freqs@, sym as int) + f <= nstates,
                cum_freq(freqs@, sym as int + 1) == cum_freq(freqs@, sym as int) + f,
                nstates == pow2(sbits as nat),
                nstates <= 0x100_0000,
                mask == nstates - 1,
                low_bits_mask(sbits as nat) == pow2(sbits as nat) - 1,
                sbits <= 24,
                stride == stride_of(nstates as nat),
                table.len() == nstates,
                forall|t: int| 0 <= t < nstates ==> entry_ok(#[trigger] table@[t], sbits as nat),
                o == cum_freq(freqs@, sym as int) + j,
                st == spread_pos(sbits as nat, o as nat),
                forall|s2: int, j2: int|
                    ((0 <= s2 < sym && 0 <= j2 < freqs@[s2]) || (s2 == sym && 0 <= j2 < j))
                        ==> {
                        let k = (freqs@[s2] + j2) as nat;
                        #[trigger] table@[spread_pos(
                            sbits as nat,
                            (cum_freq(freqs@, s2) + j2) as nat,
                        ) as int] == (
                            symbols@[s2],
                            entry_nbits(sbits as nat, k) as u8,
                            entry_base(sbits as nat, k) as u32,
                        )
                    },
            decreases f - j,
        {
            let k = f + j;
            proof {
                lemma_entry(sbits as nat, k as nat);
            }
            let bl = bit_length(k);
            let nbits = sbits + 1 - bl;
            proof {
                lemma2_to64();
                lemma_pow2_strictly_increases(sbits as nat + 1, 32);
                lemma_u32_shl_is_mul(k, nbits);
            }
            let base = (k << nbits) - nstates;
            let ghost old_table = table@;
            proof {
                assert(spread_pos(sbits as nat, o as nat) < pow2(sbits as nat)) by {
                    lemma_pow2_pos(sbits as nat);
                }
            }
            table.set(st as usize, (symbols[sym], nbits as u8, base));
            proof {
                assert forall|s2: int, j2: int|
                    ((0 <= s2 < sym && 0 <= j2 < freqs@[s2]) || (s2 == sym && 0 <= j2 < j + 1))
                        implies {
                        let k2 = (freqs@[s2] + j2) as nat;
                        #[trigger] table@[spread_pos(
                            sbits as nat,
                            (cum_freq(freqs@, s2) + j2) as nat,
                        ) as int] == (
                            symbols@[s2],
                            entry_nbits(sbits as nat, k2) as u8,
                            entry_base(sbits as nat, k2) as u32,
                        )
                    } by {
                    let o2 = (cum_freq(freqs@, s2) + j2) as nat;
                    if s2 == sym && j2 == j {
                    } else {
                        if s2 < sym {
                            lemma_cum_step(freqs@, s2);
                            lemma_cum_mono(freqs@, s2 + 1, sym as int);
                        }
                        assert(o2 < o);
                        lemma_spread_injective(sbits as nat, o2, o as nat);
                    }
                }
                lemma_spread_next(sbits as nat, o as nat);
                lemma_pow2_pos(sbits as nat);
                lemma_u32_low_bits_mask_is_mod((st + stride) as u32, sbits as nat);
            }
            st = (st + stride) & mask;
            o = o + 1;
            j = j + 1;
        }
        sym = sym + 1;
    }
    Ok(table)
}

/// Decodes symbols from a bit stream with a decode table that it borrows,
/// so that many decoders can share one table.
pub struct Decoder<'a, S> {
    /// Lookup table. Each entry is (symbol, nbits, base).
    table: &'a [(S, u8, u32)],
    /// Number of state bits: the table has `2^sbits` entries.
    sbits: u32,
    /// Current state.
    state: usize,
}

impl<'a, S: Copy> Decoder<'a, S> {
    /// The decode table.
    pub closed spec fn table_spec(&self) -> Seq<(S, u8, u32)> {
        self.table@
    }

    /// Number of state bits: the table has `2^sbits` entries.
    pub closed spec fn table_sbits(&self) -> nat {
        self.sbits as nat
    }

    /// The current state.
    pub closed spec fn current(&self) -> nat {
        self.state as nat
    }

    /// Every entry is usable and the state is in range.
    pub closed spec fn wf(&self) -> bool {
        &&& self.sbits <= MAX_STATE_BITS
        &&& self.table.len() == pow2(self.sbits as nat)
        &&& self.state < self.table.len()
        &&& forall|i: int| 0 <= i < self.table.len() ==> entry_ok(#[trigger] self.table@[i], self.sbits as nat)
    }

    /// Takes a decode table. Fails with `InvalidDistribution` unless its
    /// length is a power of two no larger than `2^24` and every entry's
    /// successors `base | v` lie inside it.
    pub fn new(table: &'a [(S, u8, u32)]) -> (r: Result<Decoder<'a, S>, CodecError>)
        ensures
            r is Ok <==> (exists|sb: nat|
                sb <= MAX_STATE_BITS && table@.len() == pow2(sb) && forall|i: int|
                    0 <= i < table@.len() ==> entry_ok(#[trigger] table@[i], sb)),
            r is Err ==> r->Err_0 == CodecError::InvalidDistribution,
            r is Ok ==> r->Ok_0.wf() && r->Ok_0.table_spec() == table@ && r->Ok_0.current() == 0
                && r->Ok_0.table_sbits() <= MAX_STATE_BITS && pow2(r->Ok_0.table_sbits())
                == table@.len(),
    {
        let len = table.len();
        proof {
            lemma2_to64();
            lemma_pow2_strictly_increases(24, 32);
        }
        if len == 0 || len > 0x100_0000 {
            proof {
                if exists|sb: nat| sb <= MAX_STATE_BITS && table@.len() == pow2(sb) {
                    let sb = choose|sb: nat| sb <= MAX_STATE_BITS && table@.len() == pow2(sb);
                    lemma_pow2_pos(sb);
                    if sb < 24 {
                        lemma_pow2_strictly_increases(sb, 24);
                    }
                }
            }
            return Err(CodecError::InvalidDistribution);
        }
        let sbits = bit_length((len - 1) as u32);
        proof {
            lemma_bit_len((len - 1) as nat);
            lemma_bit_len_le((len - 1) as nat, 24);
            assert(1u32 * pow2(sbits as nat) <= u32::MAX) by {
                if sbits < 24 {
                    lemma_pow2_strictly_increases(sbits as nat, 24);
                }
            }
            lemma_u32_shl_is_mul(1, sbits);
        }
        if (1u32 << sbits) as usize != len {
            proof {
                if exists|sb: nat| sb <= MAX_STATE_BITS && table@.len() == pow2(sb) {
                    let sb = choose|sb: nat| sb <= MAX_STATE_BITS && table@.len() == pow2(sb);
                    if sb > 0 {
                        lemma_pow2_unfold(sb);
                        lemma_pow2_pos((sb - 1) as nat);
                    }
                    lemma_bit_len_unique((len - 1) as nat, sb);
                }
            }
            return Err(CodecError::InvalidDistribution);
        }
        let mut i: usize = 0;
        while i < len
            invariant
                len == table.len(),
                len == pow2(sbits as nat),
                sbits <= 24,
                i <= len,
                forall|t: int| 0 <= t < i ==> entry_ok(#[trigger] table@[t], sbits as nat),
            decreases len - i,
        {
            let (_, nbits, base) = table[i];
            if nbits as u32 > sbits {
                proof {
                    lemma_pow2_unique_exp(sbits as nat);
                }
                return Err(CodecError::InvalidDistribution);
            }
            proof {
                lemma2_to64();
                lemma_pow2_strictly_increases(nbits as nat, 32);
                assert(1u32 * pow2(nbits as nat) <= u32::MAX);
                lemma_u32_shl_is_mul(1, nbits as u32);
                lemma_u32_low_bits_mask_is_mod(base, nbits as nat);
                reveal(low_bits_mask);
            }
            let span = 1u32 << nbits;
            if base & (span - 1) != 0 || base as u64 + span as u64 > len as u64 {
                proof {
                    lemma_pow2_unique_exp(sbits as nat);
                }
                return Err(CodecError::InvalidDistribution);
            }
            i = i + 1;
        }
        Ok(Decoder { table, sbits, state: 0 })
    }

    /// The decode table.
    pub fn table(&self) -> (r: &'a [(S, u8, u32)])
        ensures
            r@ == self.table_spec(),
    {
        self.table
    }

    /// The current state.
    pub fn state(&self) -> (r: usize)
        ensures
            r == self.current(),
    {
        self.state
    }

    /// Reads the `sbits`-bit initial state and returns its symbol.
    pub fn decode_first<R: ReadBits>(&mut self, input: &mut R) -> (r: Result<S, CodecError>)
        requires
            old(self).wf(),
            old(input).ready(),
        ensures
            final(self).wf(),
            final(input).ready(),
            final(self).table_spec() == old(self).table_spec(),
            final(self).table_sbits() == old(self).table_sbits(),
            final(input).bit_stream() == old(input).bit_stream(),
            old(input).infallible() ==> final(input).infallible() && (r is Ok <==> old(
                input,
            ).bits_read() + old(self).table_sbits() <= old(input).bit_stream().len()),
            old(input).infallible() && r is Err ==> r->Err_0 == CodecError::TruncatedInput,
            r is Err ==> final(self).current() == old(self).current(),
            r is Err ==> r == Err::<S, CodecError>(final(input).last_result()->Err_0),
            r is Ok ==> {
                &&& old(input).bits_read() + old(self).table_sbits() <= old(input).bit_stream().len()
                &&& final(self).current() < old(self).table_spec().len()
                &&& final(self).current() == bits_value(
                    old(input).bit_stream().subrange(
                        old(input).bits_read() as int,
                        (old(input).bits_read() + old(self).table_sbits()) as int,
                    ),
                )
                &&& final(input).bits_read() == old(input).bits_read() + old(self).table_sbits()
                &&& lsb_bits(final(self).current(), old(self).table_sbits()) == old(
                    input,
                ).bit_stream().subrange(
                    old(input).bits_read() as int,
                    (old(input).bits_read() + old(self).table_sbits()) as int,
                )
                &&& r->Ok_0 == old(self).table_spec()[final(self).current() as int].0
            },
    {
        proof {
            lemma_pow2_pos(self.sbits as nat);
            if self.sbits > 0 {
                lemma_pow2_unfold(self.sbits as nat);
                lemma_pow2_pos((self.sbits - 1) as nat);
            }
            lemma_bit_len_unique((self.table.len() - 1) as nat, self.sbits as nat);
            lemma2_to64();
            if self.sbits < 24 {
                lemma_pow2_strictly_increases(self.sbits as nat, 24);
            }
        }
        let sbits = bit_length((self.table.len() - 1) as u32);
        let s = match input.read_bits(sbits) {
            Err(e) => {
                return Err(e);
            },
            Ok(s) => s,
        };
        proof {
            lemma_bits_value_lsb(s as nat, sbits as nat);
            lemma_small_mod(s as nat, pow2(sbits as nat));
        }
        self.state = s as usize;
        Ok(self.table[s as usize].0)
    }

    /// Reads the bits that the current entry asks for, moves to the state
    /// `base | bits`, and returns its symbol.
    pub fn decode_sym<R: ReadBits>(&mut self, input: &mut R) -> (r: Result<S, CodecError>)
        requires
            old(self).wf(),
            old(input).ready(),
        ensures
            final(self).wf(),
            final(input).ready(),
            final(self).table_spec() == old(self).table_spec(),
            final(self).table_sbits() == old(self).table_sbits(),
            final(input).bit_stream() == old(input).bit_stream(),
            ({
                let e = old(self).table_spec()[old(self).current() as int];
                let nb = e.1 as nat;
                let c = old(input).bits_read();
                &&& old(input).infallible() ==> final(input).infallible() && (r is Ok <==> c + nb
                    <= old(input).bit_stream().len())
                &&& old(input).infallible() && r is Err ==> r->Err_0 == CodecError::TruncatedInput
                &&& r is Err ==> final(self).current() == old(self).current()
                &&& r is Err ==> r == Err::<S, CodecError>(final(input).last_result()->Err_0)
                &&& r is Ok ==> {
                    &&& c + nb <= old(input).bit_stream().len()
                    &&& final(self).current() < old(self).table_spec().len()
                    &&& final(self).current() == e.2 + bits_value(
                        old(input).bit_stream().subrange(c as int, (c + nb) as int),
                    )
                    &&& final(input).bits_read() == c + nb
                    &&& e.2 <= final(self).current() < e.2 + pow2(nb)
                    &&& lsb_bits((final(self).current() - e.2) as nat, nb)
                        == old(input).bit_stream().subrange(c as int, (c + nb) as int)
                    &&& r->Ok_0 == old(self).table_spec()[final(self).current() as int].0
                }
            }),
    {
        let (_, nbits, base) = self.table[self.state];
        let v = match input.read_bits(nbits as u32) {
            Err(e) => {
                return Err(e);
            },
            Ok(v) => v,
        };
        proof {
            lemma2_to64();
            lemma_or_is_add(base, v, nbits as u32);
            lemma_bits_value_lsb(v as nat, nbits as nat);
            lemma_small_mod(v as nat, pow2(nbits as nat));
        }
        let s = base | v;
        self.state = s as usize;
        Ok(self.table[s as usize].0)
    }
}

proof fn lemma_pow2_unique_exp(sb: nat)
    ensures
        forall|e: nat| e <= MAX_STATE_BITS && #[trigger] pow2(e) == pow2(sb) ==> e == sb,
{
    assert forall|e: nat| e <= MAX_STATE_BITS && #[trigger] pow2(e) == pow2(sb) implies e == sb by {
        if e < sb {
            lemma_pow2_strictly_increases(e, sb);
        } else if e > sb {
            lemma_pow2_strictly_increases(sb, e);
        }
    }
}

proof fn lemma_or_is_add(base: u32, v: u32, nb: u32)
    requires
        nb <= 24,
        base as nat % pow2(nb as nat) == 0,
        (v as nat) < pow2(nb as nat),
    ensures
        base | v == base + v,
{
    lemma2_to64();
    lemma_pow2_strictly_increases(nb as nat, 32);
    assert(1u32 * pow2(nb as nat) <= u32::MAX);
    lemma_u32_shl_is_mul(1, nb);
    lemma_u32_low_bits_mask_is_mod(base, nb as nat);
    lemma_u32_low_bits_mask_is_mod(v, nb as nat);
    reveal(low_bits_mask);
    lemma_small_mod(v as nat, pow2(nb as nat));
    assert(base & ((1u32 << nb) - 1) as u32 == 0);
    assert(v & ((1u32 << nb) - 1) as u32 == v);
    assert(nb < 32 ==> (base & ((1u32 << nb) - 1) as u32 == 0 && v & ((1u32 << nb) - 1) as u32 == v
        ==> base | v == base + v)) by (bit_vector);
}

proof fn lemma_step_range(f: nat, sbits: nat, x: nat)
    requires
        1 <= f <= pow2(sbits),
        sbits <= 24,
        x < pow2(sbits),
    ensures
        step_nbits(f, sbits, x) <= sbits,
        f * pow2(step_nbits(f, sbits, x)) <= x + pow2(sbits) < 2 * (f * pow2(
            step_nbits(f, sbits, x),
        )),
{
    lemma_low_nbits(f, sbits);
    let n = low_nbits(f, sbits);
    let nb = step_nbits(f, sbits, x);
    let l = pow2(sbits);
    lemma_pow2_unfold(n + 1);
    if n == sbits {
        lemma_bit_len((f - 1) as nat);
        lemma2_to64();
        if f > 1 {
            assert(bit_len((f - 1) as nat) > 0);
        }
        assert(threshold_of(f, sbits) == pow2(sbits)) by (nonlinear_arith)
            requires
                f == 1,
                n == sbits,
                threshold_of(f, sbits) == 2 * (f * pow2(n)) - pow2(sbits),
        ;
    }
    assert(f * pow2(nb) <= x + l < 2 * (f * pow2(nb))) by (nonlinear_arith)
        requires
            x < l,
            f * pow2(n) <= l,
            l < 2 * (f * pow2(n)),
            pow2(n + 1) == 2 * pow2(n),
            nb == n ==> x < threshold_of(f, sbits),
            nb == n + 1 ==> x >= threshold_of(f, sbits),
            nb == n || nb == n + 1,
            threshold_of(f, sbits) == 2 * (f * pow2(n)) - l,
    ;
}

proof fn lemma_step_arith(x: nat, l: nat, d: nat, q: nat)
    requires
        d > 0,
        l == q * d,
        x < l,
    ensures
        l <= ((x + l) / d) * d < 2 * l,
        ((x + l) / d) * d - l + x % d == x,
{
    let k = (x + l) / d;
    lemma_fundamental_div_mod((x + l) as int, d as int);
    assert(d * q + x == x + l) by (nonlinear_arith)
        requires
            l == q * d,
    ;
    lemma_mod_multiples_vanish(q as int, x as int, d as int);
    lemma_div_mod_parts(q, 0, d);
    lemma_div_is_ordered((q * d) as int, (x + l) as int, d as int);
    assert(k * d >= l) by (nonlinear_arith)
        requires
            k >= q,
            l == q * d,
            d > 0,
    ;
    assert(k * d == d * k) by (nonlinear_arith);
}

/// A successor value `k` with `2^sbits <= k * 2^e < 2^(sbits+1)` has the
/// bit count `e`.
proof fn lemma_entry_nbits_unique(sbits: nat, k: nat, e: nat)
    requires
        1 <= k < 2 * pow2(sbits),
        pow2(sbits) <= k * pow2(e) < 2 * pow2(sbits),
    ensures
        entry_nbits(sbits, k) == e,
{
    lemma_entry(sbits, k);
    let en = entry_nbits(sbits, k);
    if en < e {
        lemma_pow2_adds(en, (e - en) as nat);
        lemma_pow2_unfold((e - en) as nat);
        lemma_pow2_pos((e - en - 1) as nat);
        assert(k * pow2(e) >= 2 * (k * pow2(en))) by (nonlinear_arith)
            requires
                pow2(e) == pow2(en) * pow2((e - en) as nat),
                pow2((e - en) as nat) == 2 * pow2((e - en - 1) as nat),
                pow2((e - en - 1) as nat) >= 1,
        ;
    } else if en > e {
        lemma_pow2_adds(e, (en - e) as nat);
        lemma_pow2_unfold((en - e) as nat);
        lemma_pow2_pos((en - e - 1) as nat);
        assert(k * pow2(en) >= 2 * (k * pow2(e))) by (nonlinear_arith)
            requires
                pow2(en) == pow2(e) * pow2((en - e) as nat),
                pow2((en - e) as nat) == 2 * pow2((en - e - 1) as nat),
                pow2((en - e - 1) as nat) >= 1,
        ;
    }
}

/// Decoding undoes one encoding step. Coding symbol `s` from state `x`
/// leads to a state whose decode table entry holds `s`, reads back as many
/// bits as were written, and whose base plus the value of those bits is
/// `x` again. The bits written, read in reverse as the wire carries them,
/// are the low bits of `x` from the least significant.
pub proof fn lemma_decode_undoes_step<S>(
    table: Seq<(S, u8, u32)>,
    sbits: nat,
    freqs: Seq<u32>,
    symbols: Seq<S>,
    s: int,
    x: nat,
)
    requires
        valid_distribution(sbits, freqs),
        is_decode_table(table, sbits, freqs, symbols),
        0 <= s < freqs.len(),
        freqs[s] > 0,
        x < pow2(sbits),
    ensures
        ({
            let y = next_state(sbits, freqs, s, x);
            let nb = step_nbits(freqs[s] as nat, sbits, x);
            let e = table[y as int];
            &&& y < pow2(sbits)
            &&& e.0 == symbols[s]
            &&& e.1 == nb
            &&& e.2 + x % pow2(nb) == x
            &&& step_bits(sbits, freqs, s, x).reverse() == lsb_bits(x % pow2(nb), nb)
        }),
{
    let f = freqs[s] as nat;
    let l = pow2(sbits);
    lemma_cum_step(freqs, s);
    lemma_cum_le(freqs, s + 1);
    lemma_step_range(f, sbits, x);
    let nb = step_nbits(f, sbits, x);
    let d = pow2(nb);
    lemma_pow2_pos(nb);
    lemma_div_range(x + l, d, f);
    let k = (x + l) / d;
    lemma_occurrence(sbits, freqs, s, k);
    let j = k - f;
    assert(table[spread_pos(sbits, (cum_freq(freqs, s) + j) as nat) as int] == (
        symbols[s],
        entry_nbits(sbits, k) as u8,
        entry_base(sbits, k) as u32,
    ));
    lemma_pow2_adds((sbits - nb) as nat, nb);
    assert((sbits - nb) as nat + nb == sbits);
    lemma_step_arith(x, l, d, pow2((sbits - nb) as nat));
    assert(1 <= k < 2 * l) by {
        lemma_mul_le(f, k, d);
        if k >= 2 * l {
            lemma_mul_le(2 * l, k, d);
            assert(2 * l * d >= 2 * l) by (nonlinear_arith)
                requires
                    d >= 1,
            ;
        }
    }
    lemma_entry_nbits_unique(sbits, k, nb);
    lemma_entry(sbits, k);
    lemma2_to64();
    if sbits < 24 {
        lemma_pow2_strictly_increases(sbits, 24);
    }
    lemma_msb_reverse(x, nb);
    lemma_lsb_mod(x, nb);
}

/// Entry `e` of a decode table leads back to state `v`.
pub open spec fn covers<S>(e: (S, u8, u32), v: nat) -> bool {
    e.2 <= v < e.2 + pow2(e.1 as nat)
}

proof fn lemma_covers_unique(sbits: nat, f: nat, k1: nat, k2: nat, v: nat)
    requires
        f <= k1 < 2 * f,
        f <= k2 < 2 * f,
        1 <= f,
        k1 < 2 * pow2(sbits),
        k2 < 2 * pow2(sbits),
        entry_base(sbits, k1) <= v < entry_base(sbits, k1) + pow2(entry_nbits(sbits, k1)),
        entry_base(sbits, k2) <= v < entry_base(sbits, k2) + pow2(entry_nbits(sbits, k2)),
        entry_nbits(sbits, k1) <= entry_nbits(sbits, k2),
    ensures
        k1 == k2,
{
    let e1 = entry_nbits(sbits, k1);
    let e2 = entry_nbits(sbits, k2);
    let l = pow2(sbits);
    let y = v + l;
    lemma_pow2_pos(e1);
    lemma_pow2_adds(e1, (e2 - e1) as nat);
    assert(e1 + (e2 - e1) as nat == e2);
    let p = pow2((e2 - e1) as nat);
    lemma_pow2_pos((e2 - e1) as nat);
    let d = pow2(e1);
    assert(y < (k1 + 1) * d) by (nonlinear_arith)
        requires
            v < k1 * d - l + d,
            y == v + l,
    ;
    assert(k2 * p * d <= y < (k1 + 1) * d) by (nonlinear_arith)
        requires
            k2 * pow2(e2) <= y,
            y < (k1 + 1) * d,
            pow2(e2) == d * p,
            k1 * d - l <= v,
            v < k1 * d - l + d,
            y == v + l,
    ;
    assert(k2 * p < k1 + 1) by (nonlinear_arith)
        requires
            k2 * p * d < (k1 + 1) * d,
            d > 0,
    ;
    if e1 < e2 {
        lemma_pow2_unfold((e2 - e1) as nat);
        lemma_pow2_pos((e2 - e1 - 1) as nat);
        assert(k2 * p >= 2 * k2) by (nonlinear_arith)
            requires
                p == 2 * pow2((e2 - e1 - 1) as nat),
                pow2((e2 - e1 - 1) as nat) >= 1,
        ;
    } else {
        assert(p == 1) by {
            lemma2_to64();
        }
        assert(k1 * d <= y < (k2 + 1) * d) by (nonlinear_arith)
            requires
                k1 * d - l <= v,
                k2 * pow2(e2) - l <= v,
                v < k2 * pow2(e2) - l + pow2(e2),
                pow2(e2) == d * p,
                p == 1,
                y == v + l,
        ;
        assert(k1 < k2 + 1) by (nonlinear_arith)
            requires
                k1 * d < (k2 + 1) * d,
                d > 0,
        ;
    }
}

/// Every state is reached back from exactly one state of each symbol: for a
/// symbol `s` of nonzero frequency, the ranges `[base, base + 2^nbits)` of
/// the entries spread for `s` cover each `v` in `[0, 2^sbits)` exactly once.
pub proof fn lemma_table_coverage<S>(
    table: Seq<(S, u8, u32)>,
    sbits: nat,
    freqs: Seq<u32>,
    symbols: Seq<S>,
    s: int,
    v: nat,
)
    requires
        valid_distribution(sbits, freqs),
        is_decode_table(table, sbits, freqs, symbols),
        0 <= s < freqs.len(),
        freqs[s] > 0,
        v < pow2(sbits),
    ensures
        exists|j: int|
            0 <= j < freqs[s] && covers(
                #[trigger] table[spread_pos(sbits, (cum_freq(freqs, s) + j) as nat) as int],
                v,
            ),
        forall|j1: int, j2: int|
            0 <= j1 < freqs[s] && 0 <= j2 < freqs[s] && covers(
                #[trigger] table[spread_pos(sbits, (cum_freq(freqs, s) + j1) as nat) as int],
                v,
            ) && covers(
                #[trigger] table[spread_pos(sbits, (cum_freq(freqs, s) + j2) as nat) as int],
                v,
            ) ==> j1 == j2,
{
    let f = freqs[s] as nat;
    let l = pow2(sbits);
    lemma_cum_step(freqs, s);
    lemma_cum_le(freqs, s + 1);
    lemma_decode_undoes_step(table, sbits, freqs, symbols, s, v);
    let nb = step_nbits(f, sbits, v);
    lemma_step_range(f, sbits, v);
    lemma_pow2_pos(nb);
    lemma_div_range(v + l, pow2(nb), f);
    let k = (v + l) / pow2(nb);
    let j = k - f;
    lemma_occurrence(sbits, freqs, s, k);
    assert(v % pow2(nb) < pow2(nb));
    assert(covers(table[spread_pos(sbits, (cum_freq(freqs, s) + j) as nat) as int], v));
    assert forall|j1: int, j2: int|
        0 <= j1 < freqs[s] && 0 <= j2 < freqs[s] && covers(
            #[trigger] table[spread_pos(sbits, (cum_freq(freqs, s) + j1) as nat) as int],
            v,
        ) && covers(
            #[trigger] table[spread_pos(sbits, (cum_freq(freqs, s) + j2) as nat) as int],
            v,
        ) implies j1 == j2 by {
        let k1 = (f + j1) as nat;
        let k2 = (f + j2) as nat;
        lemma_low_nbits(f, sbits);
        lemma_entry(sbits, k1);
        lemma_entry(sbits, k2);
        lemma2_to64();
        if sbits < 24 {
            lemma_pow2_strictly_increases(sbits, 24);
        }
        if entry_nbits(sbits, k1) <= entry_nbits(sbits, k2) {
            lemma_covers_unique(sbits, f, k1, k2, v);
        } else {
            lemma_covers_unique(sbits, f, k2, k1, v);
        }
    }
}

/// A symbol that owns every state transfers no bits when coded: a message
/// of it costs only the final state's `sbits` bits.
pub proof fn lemma_single_symbol_no_bits(sbits: nat, f: Seq<u32>, s: int, x: nat)
    requires
        valid_distribution(sbits, f),
        0 <= s < f.len(),
        f[s] == pow2(sbits),
        x < pow2(sbits),
    ensures
        step_nbits(f[s] as nat, sbits, x) == 0,
        step_bits(sbits, f, s, x) == Seq::<bool>::empty(),
{
    let fs = f[s] as nat;
    lemma_low_nbits(fs, sbits);
    lemma_bit_len((fs - 1) as nat);
    lemma_pow2_pos(sbits);
    if bit_len((fs - 1) as nat) < sbits {
        lemma_pow2_strictly_increases(bit_len((fs - 1) as nat), sbits);
        if sbits > 0 {
            if bit_len((fs - 1) as nat) < (sbits - 1) as nat {
                lemma_pow2_strictly_increases(bit_len((fs - 1) as nat), (sbits - 1) as nat);
            }
            lemma_pow2_unfold(sbits);
        }
    }
    assert(low_nbits(fs, sbits) == 0);
    lemma2_to64();
    assert(threshold_of(fs, sbits) == pow2(sbits));
}

/// The value of bits read least significant first.
pub open spec fn bits_value(b: Seq<bool>) -> nat
    decreases b.len(),
{
    if b.len() == 0 {
        0
    } else {
        (if b[0] {
            1nat
        } else {
            0nat
        }) + 2 * bits_value(b.drop_first())
    }
}

proof fn lemma_bits_value_lsb(v: nat, n: nat)
    ensures
        bits_value(lsb_bits(v, n)) == v % pow2(n),
    decreases n,
{
    lemma2_to64();
    if n > 0 {
        lemma_lsb_len(v, n);
        assert(lsb_bits(v, n).drop_first() =~= lsb_bits(v / 2, (n - 1) as nat));
        lemma_bits_value_lsb(v / 2, (n - 1) as nat);
        lemma_pow2_unfold(n);
        lemma_pow2_pos((n - 1) as nat);
        lemma_mod_breakdown(v as int, 2, pow2((n - 1) as nat) as int);
    }
}

/// What the decoder yields in `count` steps from state `x`, reading `bits`.
pub open spec fn decode_steps<S>(table: Seq<(S, u8, u32)>, bits: Seq<bool>, x: nat, count: nat) -> Seq<S>
    decreases count,
{
    if count == 0 {
        Seq::empty()
    } else {
        let e = table[x as int];
        let nb = e.1 as int;
        let y = e.2 + bits_value(bits.take(nb));
        seq![table[y as int].0] + decode_steps(table, bits.skip(nb), y as nat, (count - 1) as nat)
    }
}

/// What the decoder yields for a message of `n` symbols sent as `wire`:
/// the first `sbits` bits give the first state.
pub open spec fn decode_message<S>(table: Seq<(S, u8, u32)>, sbits: nat, wire: Seq<bool>, n: nat) -> Seq<S> {
    if n == 0 {
        Seq::empty()
    } else {
        let x = bits_value(wire.take(sbits as int));
        seq![table[x as int].0] + decode_steps(table, wire.skip(sbits as int), x, (n - 1) as nat)
    }
}

/// State of the encoder after the symbols `m[0..=i]`.
pub open spec fn enc_state(sbits: nat, f: Seq<u32>, m: Seq<int>, i: nat) -> nat
    decreases i,
{
    if i == 0 {
        first_state(sbits, f, m[0])
    } else {
        next_state(sbits, f, m[i as int], enc_state(sbits, f, m, (i - 1) as nat))
    }
}

/// Bits the encoder has written after the symbols `m[0..=i]`.
pub open spec fn enc_bits(sbits: nat, f: Seq<u32>, m: Seq<int>, i: nat) -> Seq<bool>
    decreases i,
{
    if i == 0 {
        Seq::empty()
    } else {
        enc_bits(sbits, f, m, (i - 1) as nat) + step_bits(
            sbits,
            f,
            m[i as int],
            enc_state(sbits, f, m, (i - 1) as nat),
        )
    }
}

/// A message the encoder accepts: symbols of nonzero frequency.
pub open spec fn encodable(f: Seq<u32>, m: Seq<int>) -> bool {
    forall|i: int| 0 <= i < m.len() ==> 0 <= #[trigger] m[i] < f.len() && f[m[i]] > 0
}

proof fn lemma_first_state<S>(
    table: Seq<(S, u8, u32)>,
    sbits: nat,
    f: Seq<u32>,
    symbols: Seq<S>,
    s: int,
)
    requires
        valid_distribution(sbits, f),
        is_decode_table(table, sbits, f, symbols),
        0 <= s < f.len(),
        f[s] > 0,
    ensures
        first_state(sbits, f, s) < pow2(sbits),
        table[first_state(sbits, f, s) as int].0 == symbols[s],
{
    let fs = f[s] as nat;
    lemma_cum_step(f, s);
    lemma_cum_le(f, s + 1);
    lemma_low_nbits(fs, sbits);
    let n = low_nbits(fs, sbits);
    lemma_pow2_pos(n);
    lemma_div_range(pow2(sbits), pow2(n), fs);
    let k = pow2(sbits) / pow2(n);
    lemma_occurrence(sbits, f, s, k);
    let j = k - fs;
    assert(table[spread_pos(sbits, (cum_freq(f, s) + j) as nat) as int].0 == symbols[s]);
}

proof fn lemma_enc_state_bound<S>(
    table: Seq<(S, u8, u32)>,
    sbits: nat,
    f: Seq<u32>,
    symbols: Seq<S>,
    m: Seq<int>,
    i: nat,
)
    requires
        valid_distribution(sbits, f),
        is_decode_table(table, sbits, f, symbols),
        encodable(f, m),
        i < m.len(),
    ensures
        enc_state(sbits, f, m, i) < pow2(sbits),
        table[enc_state(sbits, f, m, i) as int].0 == symbols[m[i as int]],
    decreases i,
{
    if i == 0 {
        lemma_first_state(table, sbits, f, symbols, m[0]);
    } else {
        lemma_enc_state_bound(table, sbits, f, symbols, m, (i - 1) as nat);
        lemma_decode_undoes_step(
            table,
            sbits,
            f,
            symbols,
            m[i as int],
            enc_state(sbits, f, m, (i - 1) as nat),
        );
    }
}

proof fn lemma_decode_steps<S>(
    table: Seq<(S, u8, u32)>,
    sbits: nat,
    f: Seq<u32>,
    symbols: Seq<S>,
    m: Seq<int>,
    k: nat,
    rest: Seq<bool>,
)
    requires
        valid_distribution(sbits, f),
        is_decode_table(table, sbits, f, symbols),
        encodable(f, m),
        k < m.len(),
    ensures
        decode_steps(table, enc_bits(sbits, f, m, k).reverse() + rest, enc_state(sbits, f, m, k), k)
            == Seq::new(k, |i: int| symbols[m[k - 1 - i]]),
    decreases k,
{
    if k == 0 {
        assert(decode_steps(table, enc_bits(sbits, f, m, k).reverse() + rest, enc_state(sbits, f, m, k), k)
            =~= Seq::new(k, |i: int| symbols[m[k - 1 - i]]));
    } else {
        let xp = enc_state(sbits, f, m, (k - 1) as nat);
        let xk = enc_state(sbits, f, m, k);
        let sb = step_bits(sbits, f, m[k as int], xp);
        lemma_enc_state_bound(table, sbits, f, symbols, m, (k - 1) as nat);
        lemma_decode_undoes_step(table, sbits, f, symbols, m[k as int], xp);
        let nb = step_nbits(f[m[k as int]] as nat, sbits, xp);
        let tail = enc_bits(sbits, f, m, (k - 1) as nat).reverse() + rest;
        let bits = enc_bits(sbits, f, m, k).reverse() + rest;
        assert(enc_bits(sbits, f, m, k) == enc_bits(sbits, f, m, (k - 1) as nat) + sb);
        assert(enc_bits(sbits, f, m, k).reverse() =~= sb.reverse() + enc_bits(
            sbits,
            f,
            m,
            (k - 1) as nat,
        ).reverse());
        lemma_lsb_len(xp % pow2(nb), nb);
        assert(bits.take(nb as int) =~= sb.reverse());
        assert(bits.skip(nb as int) =~= tail);
        lemma_bits_value_lsb(xp % pow2(nb), nb);
        lemma_pow2_pos(nb);
        vstd::arithmetic::div_mod::lemma_mod_twice(xp as int, pow2(nb) as int);
        lemma_decode_steps(table, sbits, f, symbols, m, (k - 1) as nat, rest);
        assert(decode_steps(table, bits, xk, k) =~= Seq::new(k, |i: int| symbols[m[k - 1 - i]]));
    }
}

/// Round trip: a message `m` of symbols of nonzero frequency, coded with
/// `encode_first` for `m[0]` and `encode_sym` for the rest, then written out
/// (all bits in reverse, final state first), is decoded with the decode
/// table of the same frequencies into the symbols of `m` from last to first.
/// Anything after the message's bits, such as padding, is not read.
pub proof fn lemma_round_trip<S>(
    table: Seq<(S, u8, u32)>,
    sbits: nat,
    f: Seq<u32>,
    symbols: Seq<S>,
    m: Seq<int>,
    rest: Seq<bool>,
)
    requires
        valid_distribution(sbits, f),
        is_decode_table(table, sbits, f, symbols),
        encodable(f, m),
        m.len() > 0,
    ensures
        ({
            let last = (m.len() - 1) as nat;
            let wire = (enc_bits(sbits, f, m, last) + msb_bits(enc_state(sbits, f, m, last), sbits)).reverse();
            decode_message(table, sbits, wire + rest, m.len()) == Seq::new(
                m.len(),
                |i: int| symbols[m[m.len() - 1 - i]],
            )
        }),
{
    let last = (m.len() - 1) as nat;
    let x = enc_state(sbits, f, m, last);
    let eb = enc_bits(sbits, f, m, last);
    let wire = (eb + msb_bits(x, sbits)).reverse();
    lemma_enc_state_bound(table, sbits, f, symbols, m, last);
    lemma_msb_reverse(x, sbits);
    lemma_lsb_len(x, sbits);
    assert(wire =~= lsb_bits(x, sbits) + eb.reverse());
    let w = wire + rest;
    assert(w.take(sbits as int) =~= lsb_bits(x, sbits));
    assert(w.skip(sbits as int) =~= eb.reverse() + rest);
    lemma_bits_value_lsb(x, sbits);
    lemma_small_mod(x, pow2(sbits));
    lemma_decode_steps(table, sbits, f, symbols, m, last, rest);
    assert(decode_message(table, sbits, w, m.len()) =~= Seq::new(
        m.len(),
        |i: int| symbols[m[m.len() - 1 - i]],
    ));
}

} // verus!
