//! Canonical Huffman tables.
//!
//! A table over a symbol type `S` describes, for each codeword bit-length,
//! how many symbols use that length and which symbol sits at a given
//! (bit-length, intra-level index) pair. Codewords of one length occupy a
//! contiguous numeric range, and the next length starts at twice the end of
//! that range, which is what makes the code canonical.
//!
//! Four computed families implement the contract by formula, without
//! storing per-symbol data; `DefinedHuffmanTable` stores an explicit symbol
//! vector with per-level offsets.

use vstd::prelude::*;
use vstd::arithmetic::power2::*;
use vstd::arithmetic::mul::*;
use vstd::arithmetic::div_mod::*;
use vstd::bits::*;
use crate::file_utils::ReadError;

verus! {

/// The mathematical shape of a canonical code: how many symbols have each
/// codeword length, and which symbol sits at each (length, index) pair.
/// `symbol` is only meaningful for `index < count(bits)`.
pub trait CodeShape<S> {
    spec fn count(&self, bits: u32) -> u32;

    spec fn symbol(&self, bits: u32, index: u32) -> S;
}

/// A Huffman table usable by the decoder: its executable views agree with
/// its `CodeShape`.
pub trait HuffmanTable<S>: CodeShape<S> {
    spec fn wf(&self) -> bool;

    /// How many symbols have codewords of exactly `bits` bits.
    fn symbols_with_bits(&self, bits: u32) -> (r: u32)
        requires
            self.wf(),
        ensures
            r == self.count(bits),
    ;

    /// The symbol at `(bits, index)`; fails outside the declared support.
    fn get_symbol(&self, bits: u32, index: u32) -> (r: Result<S, ReadError>)
        requires
            self.wf(),
        ensures
            index < self.count(bits) ==> r == Ok::<S, ReadError>(self.symbol(bits, index)),
            index >= self.count(bits) ==> r == Err::<S, ReadError>(ReadError::InvalidTableInput),
    ;
}

/// True when `bits` is a positive multiple of `alignment`.
pub open spec fn nat_aligned(alignment: u32, bits: u32) -> bool {
    bits > 0 && (bits as int) % (alignment as int) == 0
}

/// The exponent of the level size at `bits` bits: `(bits/alignment)·(alignment-1)`.
pub open spec fn nat_width(alignment: u32, bits: u32) -> int {
    ((bits as int) / (alignment as int)) * ((alignment as int) - 1)
}

/// Symbols with codewords of a positive multiple `q·alignment` of bits
/// number `2^(q·(alignment-1))`; widths of 32 or more do not fit the
/// 32-bit counters, and such levels are treated as empty.
pub open spec fn nat_count(alignment: u32, bits: u32) -> u32 {
    if nat_aligned(alignment, bits) && nat_width(alignment, bits) < 32 {
        pow2(nat_width(alignment, bits) as nat) as u32
    } else {
        0
    }
}

/// First value of the level `q·alignment`: the sum of all smaller level
/// sizes, `Σ_{e=1..q-1} 2^(e·(alignment-1))`.
pub open spec fn nat_base(alignment: u32, q: int) -> nat
    decreases q,
{
    if q <= 1 {
        0
    } else {
        nat_base(alignment, q - 1) + pow2(((q - 1) * ((alignment as int) - 1)) as nat)
    }
}

/// With alignment 1 every level holds a single value, so the base is `q - 1`.
pub proof fn lemma_nat_base_alignment_one(q: int)
    requires
        q >= 1,
    ensures
        nat_base(1, q) == q - 1,
    decreases q,
{
    if q > 1 {
        lemma_nat_base_alignment_one(q - 1);
        lemma2_to64();
    }
}

/// For alignment at least 2 the bases stay below the level size:
/// `nat_base(k, q) + 2 <= 2^((q-1)(k-1)+1)`.
pub proof fn lemma_nat_base_bound(alignment: u32, q: int)
    requires
        alignment >= 2,
        q >= 1,
    ensures
        nat_base(alignment, q) + 2 <= pow2((((q - 1) * ((alignment as int) - 1)) + 1) as nat),
    decreases q,
{
    let a = (alignment as int) - 1;
    if q == 1 {
        lemma2_to64();
    } else {
        lemma_nat_base_bound(alignment, q - 1);
        assert((q - 1) * a == (q - 2) * a + a) by (nonlinear_arith);
        assert((q - 2) * a + 1 <= (q - 1) * a);
        assert((q - 2) * a >= 0) by (nonlinear_arith)
            requires
                q >= 2,
                a >= 1,
        ;
        lemma_pow2_unfold((((q - 1) * a) + 1) as nat);
        assert(pow2((((q - 2) * a) + 1) as nat) <= pow2(((q - 1) * a) as nat)) by {
            if (q - 2) * a + 1 < (q - 1) * a {
                lemma_pow2_strictly_increases((((q - 2) * a) + 1) as nat, ((q - 1) * a) as nat);
            }
        }
    }
}

/// Computes `nat_base(alignment, q)` as a 32-bit value.
fn natural_base_exec(alignment: u32, q: u32) -> (r: u32)
    requires
        alignment >= 1,
        q >= 1,
        alignment == 1 || (q as int) * ((alignment as int) - 1) <= 31,
    ensures
        r as nat == nat_base(alignment, q as int),
{
    if alignment == 1 {
        proof {
            lemma_nat_base_alignment_one(q as int);
        }
        return q - 1;
    }
    let a = alignment - 1;
    let mut base: u32 = 0;
    let mut e: u32 = 1;
    while e < q
        invariant
            alignment >= 2,
            a == alignment - 1,
            1 <= e <= q,
            (q as int) * (a as int) <= 31,
            base as nat == nat_base(alignment, e as int),
        decreases q - e,
    {
        proof {
            lemma_mul_inequality(e as int, (q as int) - 1, a as int);
            lemma_mul_inequality((q as int) - 1, q as int, a as int);
            assert((e as int) * (a as int) <= 31);
            lemma_u32_pow2_no_overflow(((e as int) * (a as int)) as nat);
            lemma_u32_shl_is_mul(1u32, (e * a) as u32);
            lemma_nat_base_bound(alignment, (e as int) + 1);
            assert(nat_base(alignment, (e as int) + 1) == nat_base(alignment, e as int) + pow2(
                ((e as int) * (a as int)) as nat,
            ));
            lemma2_to64();
            if ((e as int)) * (a as int) + 1 < 32 {
                lemma_pow2_strictly_increases((((e as int)) * (a as int) + 1) as nat, 32);
            }
            assert(pow2(32) == 0x100000000) by {
                lemma2_to64();
            }
        }
        base = base + (1u32 << (e * a));
        e = e + 1;
    }
    base
}

/// A valid (bits, index) pair of a natural-number table denotes a value
/// that fits in 32 bits.
proof fn lemma_natural_symbol_fits(alignment: u32, q: int, index: u32)
    requires
        alignment >= 1,
        1 <= q <= 0xFFFFFFFF,
        alignment == 1 ==> index == 0,
        alignment >= 2 ==> q * ((alignment as int) - 1) <= 31 && (index as nat) < pow2(
            (q * ((alignment as int) - 1)) as nat,
        ),
    ensures
        nat_base(alignment, q) + index < 0x100000000,
{
    if alignment == 1 {
        lemma_nat_base_alignment_one(q);
    } else {
        let a = (alignment as int) - 1;
        lemma_nat_base_bound(alignment, q);
        assert((q - 1) * a + 1 <= q * a) by (nonlinear_arith)
            requires
                a >= 1,
                q >= 1,
        ;
        assert((q - 1) * a >= 0) by (nonlinear_arith)
            requires
                a >= 1,
                q >= 1,
        ;
        if (q - 1) * a + 1 < q * a {
            lemma_pow2_strictly_increases(((q - 1) * a + 1) as nat, (q * a) as nat);
        }
        assert(pow2((q * a) as nat) <= 0x80000000) by {
            lemma2_to64();
            if q * a < 31 {
                lemma_pow2_strictly_increases((q * a) as nat, 31);
            }
        }
    }
}

/// Shared executable computation of `nat_count`.
fn natural_count_exec(alignment: u32, bits: u32) -> (r: u32)
    requires
        alignment >= 1,
    ensures
        r == nat_count(alignment, bits),
{
    if bits > 0 && bits % alignment == 0 {
        let q: u64 = (bits / alignment) as u64;
        proof {
            assert((q as int) * ((alignment as int) - 1) < 0x10000000000000000) by (nonlinear_arith)
                requires
                    0 <= q < 0x100000000,
                    1 <= alignment < 0x100000000,
            ;
        }
        let w: u64 = q * ((alignment as u64) - 1);
        proof {
            assert(w == nat_width(alignment, bits));
        }
        if w < 32 {
            proof {
                lemma_u32_pow2_no_overflow(w as nat);
                lemma_u32_shl_is_mul(1u32, w as u32);
            }
            1u32 << (w as u32)
        } else {
            0
        }
    } else {
        0
    }
}

/// Establishes that a positive aligned bit count has `bits/alignment >= 1`,
/// and that an index below the level size is zero when the alignment is 1.
proof fn lemma_natural_level_facts(alignment: u32, bits: u32, index: u32)
    requires
        alignment >= 1,
        index < nat_count(alignment, bits),
    ensures
        1 <= (bits as int) / (alignment as int) <= 0xFFFFFFFF,
        alignment == 1 ==> index == 0,
        alignment >= 2 ==> ((bits as int) / (alignment as int)) * ((alignment as int) - 1) <= 31
            && (index as nat) < pow2(
            ((((bits as int) / (alignment as int))) * ((alignment as int) - 1)) as nat,
        ),
{
    let q = (bits as int) / (alignment as int);
    lemma_fundamental_div_mod(bits as int, alignment as int);
    assert(q >= 1) by (nonlinear_arith)
        requires
            bits as int == (alignment as int) * q + ((bits as int) % (alignment as int)),
            (bits as int) % (alignment as int) == 0,
            bits >= 1,
            alignment >= 1,
    ;
    assert(q <= bits) by (nonlinear_arith)
        requires
            bits as int == (alignment as int) * q + ((bits as int) % (alignment as int)),
            (bits as int) % (alignment as int) == 0,
            alignment >= 1,
            q >= 1,
    ;
    if alignment == 1 {
        assert(q * ((alignment as int) - 1) == 0) by (nonlinear_arith)
            requires
                alignment == 1,
        ;
        lemma2_to64();
    }
}

/// Encodes unsigned numbers with codeword lengths that are multiples of
/// the alignment; each length `q·k` level holds `2^(q·(k-1))` values.
#[derive(Clone, Copy)]
pub struct NaturalNumberHuffmanTable {
    pub alignment: u32,
}

impl NaturalNumberHuffmanTable {
    pub fn create_with_alignment(alignment: u32) -> (r: Self)
        requires
            alignment >= 1,
        ensures
            r.alignment == alignment,
            r.wf(),
    {
        NaturalNumberHuffmanTable { alignment }
    }
}

impl CodeShape<u32> for NaturalNumberHuffmanTable {
    open spec fn count(&self, bits: u32) -> u32 {
        nat_count(self.alignment, bits)
    }

    open spec fn symbol(&self, bits: u32, index: u32) -> u32 {
        (nat_base(self.alignment, (bits as int) / (self.alignment as int)) + index) as u32
    }
}

impl HuffmanTable<u32> for NaturalNumberHuffmanTable {
    open spec fn wf(&self) -> bool {
        self.alignment >= 1
    }

    fn symbols_with_bits(&self, bits: u32) -> (r: u32) {
        natural_count_exec(self.alignment, bits)
    }

    fn get_symbol(&self, bits: u32, index: u32) -> (r: Result<u32, ReadError>) {
        let count = self.symbols_with_bits(bits);
        if index >= count {
            return Err(ReadError::InvalidTableInput);
        }
        proof {
            lemma_natural_level_facts(self.alignment, bits, index);
        }
        let q = bits / self.alignment;
        let base = natural_base_exec(self.alignment, q);
        proof {
            lemma_natural_symbol_fits(self.alignment, q as int, index);
        }
        Ok(base + index)
    }
}

/// The natural-number encoding over the unsigned index domain.
#[derive(Clone, Copy)]
pub struct NaturalUsizeHuffmanTable {
    pub alignment: u32,
}

impl NaturalUsizeHuffmanTable {
    pub fn create_with_alignment(alignment: u32) -> (r: Self)
        requires
            alignment >= 1,
        ensures
            r.alignment == alignment,
            r.wf(),
    {
        NaturalUsizeHuffmanTable { alignment }
    }
}

impl CodeShape<usize> for NaturalUsizeHuffmanTable {
    open spec fn count(&self, bits: u32) -> u32 {
        nat_count(self.alignment, bits)
    }

    open spec fn symbol(&self, bits: u32, index: u32) -> usize {
        (nat_base(self.alignment, (bits as int) / (self.alignment as int)) + index) as usize
    }
}

impl HuffmanTable<usize> for NaturalUsizeHuffmanTable {
    open spec fn wf(&self) -> bool {
        self.alignment >= 1
    }

    fn symbols_with_bits(&self, bits: u32) -> (r: u32) {
        natural_count_exec(self.alignment, bits)
    }

    fn get_symbol(&self, bits: u32, index: u32) -> (r: Result<usize, ReadError>) {
        let count = self.symbols_with_bits(bits);
        if index >= count {
            return Err(ReadError::InvalidTableInput);
        }
        proof {
            lemma_natural_level_facts(self.alignment, bits, index);
        }
        let q = bits / self.alignment;
        let base = natural_base_exec(self.alignment, q);
        proof {
            lemma_natural_symbol_fits(self.alignment, q as int, index);
            assert(0x100000000 <= usize::MAX + 1) by {
                assert(usize::BITS == 32 || usize::BITS == 64);
            }
        }
        Ok((base as usize) + (index as usize))
    }
}

/// Sum of the lower halves of the level sizes:
/// `Σ_{m=1..n} 2^(m·(alignment-1) - 1)`, for alignment at least 2.
pub open spec fn int_half_base(alignment: u32, n: int) -> nat
    decreases n,
{
    if n <= 0 {
        0
    } else {
        int_half_base(alignment, n - 1) + pow2((n * ((alignment as int) - 1) - 1) as nat)
    }
}

/// The half-level bases stay below the level size:
/// `int_half_base(k, n) + 1 <= 2^(n(k-1))`.
pub proof fn lemma_int_half_base_bound(alignment: u32, n: int)
    requires
        alignment >= 2,
        n >= 0,
    ensures
        int_half_base(alignment, n) + 1 <= pow2((n * ((alignment as int) - 1)) as nat),
    decreases n,
{
    let a = (alignment as int) - 1;
    if n == 0 {
        lemma2_to64();
        assert(n * a == 0) by (nonlinear_arith)
            requires
                n == 0,
        ;
    } else {
        lemma_int_half_base_bound(alignment, n - 1);
        assert(n * a == (n - 1) * a + a) by (nonlinear_arith);
        assert((n - 1) * a >= 0) by (nonlinear_arith)
            requires
                n >= 1,
                a >= 1,
        ;
        // (n-1)a <= na - 1
        lemma_pow2_unfold((n * a) as nat);
        assert(pow2(((n - 1) * a) as nat) <= pow2((n * a - 1) as nat)) by {
            if (n - 1) * a < n * a - 1 {
                lemma_pow2_strictly_increases(((n - 1) * a) as nat, (n * a - 1) as nat);
            }
        }
    }
}

/// Computes `int_half_base(alignment, n)` as a 32-bit value.
fn int_half_base_exec(alignment: u32, n: u32) -> (r: u32)
    requires
        alignment >= 2,
        (n as int) * ((alignment as int) - 1) <= 31,
    ensures
        r as nat == int_half_base(alignment, n as int),
{
    proof {
        assert(n <= 31) by (nonlinear_arith)
            requires
                (n as int) * ((alignment as int) - 1) <= 31,
                alignment >= 2,
        ;
    }
    let a = alignment - 1;
    let mut base: u32 = 0;
    let mut m: u32 = 1;
    while m <= n
        invariant
            alignment >= 2,
            a == alignment - 1,
            n <= 31,
            1 <= m <= n + 1,
            (n as int) * (a as int) <= 31,
            base as nat == int_half_base(alignment, (m as int) - 1),
        decreases n + 1 - m,
    {
        proof {
            lemma_mul_inequality(m as int, n as int, a as int);
            assert((m as int) * (a as int) <= 31);
            assert(1 <= (m as int) * (a as int)) by (nonlinear_arith)
                requires
                    m >= 1,
                    a >= 1,
            ;
            lemma_u32_pow2_no_overflow(((m as int) * (a as int) - 1) as nat);
            lemma_u32_shl_is_mul(1u32, (m * a - 1) as u32);
            lemma_int_half_base_bound(alignment, m as int);
            assert(int_half_base(alignment, m as int) == int_half_base(alignment, (m as int) - 1)
                + pow2(((m as int) * (a as int) - 1) as nat));
            assert(pow2(((m as int) * (a as int)) as nat) <= 0x80000000) by {
                lemma2_to64();
                if (m as int) * (a as int) < 31 {
                    lemma_pow2_strictly_increases(((m as int) * (a as int)) as nat, 31);
                }
            }
        }
        base = base + (1u32 << (m * a - 1));
        m = m + 1;
    }
    base
}

/// Encodes signed numbers: each level of `2^(q(k-1))` codewords is split in
/// halves, the lower half mapping to values from `int_half_base(k, q-1)`
/// upward and the upper half to values from `-int_half_base(k, q)` upward.
#[derive(Clone, Copy)]
pub struct IntegerNumberHuffmanTable {
    pub alignment: u32,
}

impl IntegerNumberHuffmanTable {
    pub fn create_with_alignment(alignment: u32) -> (r: Self)
        requires
            alignment >= 2,
        ensures
            r.alignment == alignment,
            r.wf(),
    {
        IntegerNumberHuffmanTable { alignment }
    }
}

impl CodeShape<i32> for IntegerNumberHuffmanTable {
    open spec fn count(&self, bits: u32) -> u32 {
        nat_count(self.alignment, bits)
    }

    open spec fn symbol(&self, bits: u32, index: u32) -> i32 {
        let q = (bits as int) / (self.alignment as int);
        let a = (self.alignment as int) - 1;
        let half = pow2((q * a - 1) as nat) as int;
        if index < half {
            (int_half_base(self.alignment, q - 1) + index) as i32
        } else {
            ((index as int) - half - (int_half_base(self.alignment, q) as int)) as i32
        }
    }
}

impl HuffmanTable<i32> for IntegerNumberHuffmanTable {
    open spec fn wf(&self) -> bool {
        self.alignment >= 2
    }

    fn symbols_with_bits(&self, bits: u32) -> (r: u32) {
        natural_count_exec(self.alignment, bits)
    }

    fn get_symbol(&self, bits: u32, index: u32) -> (r: Result<i32, ReadError>) {
        let count = self.symbols_with_bits(bits);
        if index >= count {
            return Err(ReadError::InvalidTableInput);
        }
        proof {
            lemma_natural_level_facts(self.alignment, bits, index);
        }
        let q = bits / self.alignment;
        let a = self.alignment - 1;
        let ghost qa = (q as int) * (a as int);
        proof {
            assert(1 <= qa <= 31) by (nonlinear_arith)
                requires
                    qa == (q as int) * (a as int),
                    q >= 1,
                    a >= 1,
                    (q as int) * (a as int) <= 31,
            ;
            lemma_u32_pow2_no_overflow(qa as nat);
            assert(count as nat == pow2(qa as nat));
            lemma_pow2_unfold(qa as nat);
        }
        let half = count / 2;
        proof {
            assert(half as nat == pow2((qa - 1) as nat));
        }
        if index < half {
            proof {
                lemma_mul_inequality((q as int) - 1, q as int, a as int);
                assert(((q as int) - 1) * (a as int) >= 0) by (nonlinear_arith)
                    requires
                        q >= 1,
                        a >= 1,
                ;
            }
            let base = int_half_base_exec(self.alignment, q - 1);
            proof {
                lemma_int_half_base_bound(self.alignment, (q as int) - 1);
                // base + index < pow2((q-1)a) + pow2(qa - 1) <= 2^31 - 1
                assert(((q as int) - 1) * (a as int) <= qa - 1) by (nonlinear_arith)
                    requires
                        qa == (q as int) * (a as int),
                        q >= 1,
                        a >= 1,
                ;
                assert(pow2((((q as int) - 1) * (a as int)) as nat) <= pow2((qa - 1) as nat)) by {
                    if ((q as int) - 1) * (a as int) < qa - 1 {
                        lemma_pow2_strictly_increases(
                            (((q as int) - 1) * (a as int)) as nat,
                            (qa - 1) as nat,
                        );
                    }
                }
                assert(pow2((qa - 1) as nat) <= 0x40000000) by {
                    lemma2_to64();
                    if qa - 1 < 30 {
                        lemma_pow2_strictly_increases((qa - 1) as nat, 30);
                    }
                }
            }
            let value = base + index;
            Ok(value as i32)
        } else {
            let nbase = int_half_base_exec(self.alignment, q);
            let off = index - half;
            proof {
                lemma_int_half_base_bound(self.alignment, q as int);
                assert(pow2(qa as nat) <= 0x80000000) by {
                    lemma2_to64();
                    if qa < 31 {
                        lemma_pow2_strictly_increases(qa as nat, 31);
                    }
                }
                assert(pow2((qa - 1) as nat) <= 0x40000000) by {
                    lemma2_to64();
                    if qa - 1 < 30 {
                        lemma_pow2_strictly_increases((qa - 1) as nat, 30);
                    }
                }
            }
            let value = (off as i64) - (nbase as i64);
            Ok(value as i32)
        }
    }
}

/// The smallest `b` with `2^b >= p`.
pub open spec fn log2_ceil(p: nat) -> nat
    decreases p,
{
    if p <= 1 {
        0
    } else {
        1 + log2_ceil(((p + 1) / 2) as nat)
    }
}

pub proof fn lemma_log2_ceil_bounds(p: nat)
    requires
        p >= 1,
    ensures
        pow2(log2_ceil(p)) >= p,
        p >= 2 ==> pow2((log2_ceil(p) - 1) as nat) < p,
    decreases p,
{
    if p >= 2 {
        let h = ((p + 1) / 2) as nat;
        lemma_log2_ceil_bounds(h);
        lemma_pow2_unfold((1 + log2_ceil(h)) as nat);
        if h >= 2 {
            assert(pow2((log2_ceil(h) - 1) as nat) <= h - 1);
            lemma_pow2_unfold(log2_ceil(h));
        } else {
            assert(h == 1);
            lemma2_to64();
        }
    } else {
        lemma2_to64();
    }
}

/// `log2_ceil` is pinned down by its two bounds.
pub proof fn lemma_log2_ceil_is(p: nat, b: nat)
    requires
        p >= 1,
        pow2(b) >= p,
        b == 0 || pow2((b - 1) as nat) < p,
    ensures
        log2_ceil(p) == b,
{
    let l = log2_ceil(p);
    lemma_log2_ceil_bounds(p);
    if l < b {
        lemma_pow2_strictly_increases(l, (b - 1) as nat);
        if l < b - 1 {
        }
        assert(pow2(l) <= pow2((b - 1) as nat)) by {
            if l < b - 1 {
                lemma_pow2_strictly_increases(l, (b - 1) as nat);
            }
        }
        assert(false);
    }
    if l > b {
        assert(p >= 2) by {
            if p == 1 {
                assert(log2_ceil(1) == 0);
            }
        }
        assert(pow2(b) <= pow2((l - 1) as nat)) by {
            if b < l - 1 {
                lemma_pow2_strictly_increases(b, (l - 1) as nat);
            }
        }
        assert(false);
    }
}

/// Finds the smallest bit width whose codespace covers `possibilities`.
fn max_bits_exec(possibilities: u32) -> (r: u32)
    requires
        1 <= possibilities <= 0x80000000,
    ensures
        r as nat == log2_ceil(possibilities as nat),
        r <= 31,
{
    let mut max_bits: u32 = 0;
    loop
        invariant
            1 <= possibilities <= 0x80000000,
            max_bits <= 31,
            max_bits == 0 || pow2((max_bits - 1) as nat) < possibilities,
        decreases 32 - max_bits,
    {
        proof {
            lemma_u32_pow2_no_overflow(max_bits as nat);
            lemma_u32_shl_is_mul(1u32, max_bits);
        }
        if possibilities <= (1u32 << max_bits) {
            proof {
                lemma_log2_ceil_is(possibilities as nat, max_bits as nat);
            }
            return max_bits;
        }
        proof {
            assert(max_bits < 31) by {
                if max_bits == 31 {
                    lemma2_to64();
                    assert(pow2(31) == 0x80000000);
                }
            }
        }
        max_bits = max_bits + 1;
    }
}

/// A table over the finite range `min..=max` of unsigned values. With
/// `P = max-min+1` and `B` the smallest width with `2^B >= P`, the first
/// `L = 2^B - P` values use `B-1` bits and the remaining `P - L` use `B`.
pub struct RangedIntegerHuffmanTable {
    pub min: u32,
    pub max: u32,
    pub max_bits: u32,
    pub limit: u32,
}

/// The table the constructor builds for `min..=max`.
pub open spec fn spec_ranged(min: u32, max: u32) -> RangedIntegerHuffmanTable {
    let p = (max - min + 1) as nat;
    let b = log2_ceil(p);
    RangedIntegerHuffmanTable {
        min,
        max,
        max_bits: b as u32,
        limit: (pow2(b) - p) as u32,
    }
}

impl RangedIntegerHuffmanTable {
    pub fn new(min: u32, max: u32) -> (r: Self)
        requires
            min <= max,
            max - min < 0x80000000,
        ensures
            r == spec_ranged(min, max),
            r.wf(),
    {
        let possibilities = max - min + 1;
        let max_bits = max_bits_exec(possibilities);
        proof {
            lemma_log2_ceil_bounds(possibilities as nat);
            lemma_u32_pow2_no_overflow(max_bits as nat);
            lemma_u32_shl_is_mul(1u32, max_bits);
        }
        let limit = (1u32 << max_bits) - possibilities;
        Self { min, max, max_bits, limit }
    }
}

impl CodeShape<u32> for RangedIntegerHuffmanTable {
    open spec fn count(&self, bits: u32) -> u32 {
        if bits == self.max_bits {
            (self.max - self.min + 1 - self.limit) as u32
        } else if self.max_bits >= 1 && bits == (self.max_bits - 1) as u32 {
            self.limit
        } else {
            0
        }
    }

    open spec fn symbol(&self, bits: u32, index: u32) -> u32 {
        if bits == self.max_bits {
            (index + self.limit + self.min) as u32
        } else {
            (index + self.min) as u32
        }
    }
}

impl HuffmanTable<u32> for RangedIntegerHuffmanTable {
    open spec fn wf(&self) -> bool {
        &&& self.min <= self.max
        &&& self.max - self.min < 0x80000000
        &&& *self == spec_ranged(self.min, self.max)
    }

    fn symbols_with_bits(&self, bits: u32) -> (r: u32) {
        proof {
            lemma_ranged_fields(self.min, self.max);
        }
        if bits == self.max_bits {
            self.max - self.min + 1 - self.limit
        } else if self.max_bits >= 1 && bits == self.max_bits - 1 {
            self.limit
        } else {
            0
        }
    }

    fn get_symbol(&self, bits: u32, index: u32) -> (r: Result<u32, ReadError>) {
        let count = self.symbols_with_bits(bits);
        if index >= count {
            return Err(ReadError::InvalidTableInput);
        }
        proof {
            lemma_ranged_fields(self.min, self.max);
        }
        if bits == self.max_bits {
            Ok(index + self.limit + self.min)
        } else {
            Ok(index + self.min)
        }
    }
}

/// Field bounds of a constructed ranged table: the limit never exceeds the
/// number of possibilities, so every emitted value lies in `min..=max`.
pub proof fn lemma_ranged_fields(min: u32, max: u32)
    requires
        min <= max,
        max - min < 0x80000000,
    ensures
        ({
            let t = spec_ranged(min, max);
            &&& t.limit <= max - min
            &&& t.max_bits <= 31
            &&& log2_ceil((max - min + 1) as nat) <= 31
            &&& t.max_bits as nat == log2_ceil((max - min + 1) as nat)
            &&& (t.limit as nat) + (max - min + 1) == pow2(t.max_bits as nat)
            &&& (t.max_bits == 0 ==> min == max)
        }),
{
    let p = (max - min + 1) as nat;
    let b = log2_ceil(p);
    lemma_log2_ceil_bounds(p);
    assert(b <= 31) by {
        if b >= 32 {
            assert(p >= 2) by {
                if p == 1 {
                    assert(log2_ceil(1) == 0);
                }
            }
            assert(pow2((b - 1) as nat) < p);
            assert(pow2(31) <= pow2((b - 1) as nat)) by {
                if 31 < b - 1 {
                    lemma_pow2_strictly_increases(31, (b - 1) as nat);
                }
            }
            lemma2_to64();
        }
    }
    assert(pow2(b) < 2 * p) by {
        if p >= 2 {
            lemma_pow2_unfold(b);
        } else {
            assert(b == 0);
            lemma2_to64();
        }
    }
    if b == 0 {
        lemma2_to64();
    }
}

/// The ranged encoding over the unsigned index domain.
pub struct RangedNaturalUsizeHuffmanTable {
    pub min: usize,
    pub max: usize,
    pub max_bits: u32,
    pub limit: u32,
}

/// The table the constructor builds for `min..=max`.
pub open spec fn spec_ranged_usize(min: usize, max: usize) -> RangedNaturalUsizeHuffmanTable {
    let p = (max - min + 1) as nat;
    let b = log2_ceil(p);
    RangedNaturalUsizeHuffmanTable {
        min,
        max,
        max_bits: b as u32,
        limit: (pow2(b) - p) as u32,
    }
}

impl RangedNaturalUsizeHuffmanTable {
    pub fn new(min: usize, max: usize) -> (r: Self)
        requires
            min <= max,
            max - min < 0x80000000,
        ensures
            r == spec_ranged_usize(min, max),
            r.wf(),
    {
        let possibilities: u32 = ((max - min) as u32) + 1;
        let max_bits = max_bits_exec(possibilities);
        proof {
            lemma_log2_ceil_bounds(possibilities as nat);
            lemma_u32_pow2_no_overflow(max_bits as nat);
            lemma_u32_shl_is_mul(1u32, max_bits);
        }
        let limit = (1u32 << max_bits) - possibilities;
        Self { min, max, max_bits, limit }
    }
}

impl CodeShape<usize> for RangedNaturalUsizeHuffmanTable {
    open spec fn count(&self, bits: u32) -> u32 {
        if bits == self.max_bits {
            (self.max - self.min + 1 - self.limit) as u32
        } else if self.max_bits >= 1 && bits == (self.max_bits - 1) as u32 {
            self.limit
        } else {
            0
        }
    }

    open spec fn symbol(&self, bits: u32, index: u32) -> usize {
        if bits == self.max_bits {
            (index + self.limit + self.min) as usize
        } else {
            (index + self.min) as usize
        }
    }
}

impl HuffmanTable<usize> for RangedNaturalUsizeHuffmanTable {
    open spec fn wf(&self) -> bool {
        &&& self.min <= self.max
        &&& self.max - self.min < 0x80000000
        &&& *self == spec_ranged_usize(self.min, self.max)
    }

    fn symbols_with_bits(&self, bits: u32) -> (r: u32) {
        proof {
            lemma_ranged_usize_fields(self.min, self.max);
        }
        if bits == self.max_bits {
            (((self.max - self.min) as u32) + 1) - self.limit
        } else if self.max_bits >= 1 && bits == self.max_bits - 1 {
            self.limit
        } else {
            0
        }
    }

    fn get_symbol(&self, bits: u32, index: u32) -> (r: Result<usize, ReadError>) {
        let count = self.symbols_with_bits(bits);
        if index >= count {
            return Err(ReadError::InvalidTableInput);
        }
        proof {
            lemma_ranged_usize_fields(self.min, self.max);
        }
        if bits == self.max_bits {
            Ok(((index + self.limit) as usize) + self.min)
        } else {
            Ok((index as usize) + self.min)
        }
    }
}

/// Field bounds of a constructed usize ranged table.
pub proof fn lemma_ranged_usize_fields(min: usize, max: usize)
    requires
        min <= max,
        max - min < 0x80000000,
    ensures
        ({
            let t = spec_ranged_usize(min, max);
            &&& t.limit <= max - min
            &&& t.max_bits <= 31
            &&& (t.limit as nat) + (max - min + 1) == pow2(t.max_bits as nat)
            &&& (t.max_bits == 0 ==> min == max)
        }),
{
    let p = (max - min + 1) as nat;
    let b = log2_ceil(p);
    lemma_log2_ceil_bounds(p);
    assert(b <= 31) by {
        if b >= 32 {
            assert(p >= 2) by {
                if p == 1 {
                    assert(log2_ceil(1) == 0);
                }
            }
            assert(pow2((b - 1) as nat) < p);
            assert(pow2(31) <= pow2((b - 1) as nat)) by {
                if 31 < b - 1 {
                    lemma_pow2_strictly_increases(31, (b - 1) as nat);
                }
            }
            lemma2_to64();
        }
    }
    assert(pow2(b) < 2 * p) by {
        if p >= 2 {
            lemma_pow2_unfold(b);
        } else {
            assert(b == 0);
            lemma2_to64();
        }
    }
    if b == 0 {
        lemma2_to64();
    }
}

/// The bases of a natural-number code never decrease.
pub proof fn lemma_nat_base_mono(alignment: u32, q1: int, q2: int)
    requires
        q1 <= q2,
    ensures
        nat_base(alignment, q1) <= nat_base(alignment, q2),
    decreases q2 - q1,
{
    if q1 < q2 {
        lemma_nat_base_mono(alignment, q1, q2 - 1);
    }
}

/// Distinct valid (level, index) pairs of the natural-number code denote
/// distinct values: each level's values are the contiguous range starting
/// at its base, and the next base sits exactly past it.
pub proof fn lemma_natural_value_unique(alignment: u32, q1: int, i1: u32, q2: int, i2: u32)
    requires
        alignment >= 1,
        1 <= q1,
        1 <= q2,
        (i1 as nat) < pow2((q1 * ((alignment as int) - 1)) as nat),
        (i2 as nat) < pow2((q2 * ((alignment as int) - 1)) as nat),
        q1 != q2 || i1 != i2,
        q1 * ((alignment as int) - 1) >= 0,
        q2 * ((alignment as int) - 1) >= 0,
    ensures
        nat_base(alignment, q1) + i1 != nat_base(alignment, q2) + i2,
{
    if q1 == q2 {
    } else if q1 < q2 {
        assert(nat_base(alignment, q1 + 1) == nat_base(alignment, q1) + pow2(
            (q1 * ((alignment as int) - 1)) as nat,
        ));
        lemma_nat_base_mono(alignment, q1 + 1, q2);
    } else {
        assert(nat_base(alignment, q2 + 1) == nat_base(alignment, q2) + pow2(
            (q2 * ((alignment as int) - 1)) as nat,
        ));
        lemma_nat_base_mono(alignment, q2 + 1, q1);
    }
}

/// Establishes the level facts a uniqueness proof needs from
/// `index < nat_count(alignment, bits)`.
proof fn lemma_natural_pair_facts(alignment: u32, bits: u32, index: u32)
    requires
        alignment >= 1,
        index < nat_count(alignment, bits),
    ensures
        nat_aligned(alignment, bits),
        alignment == 1 ==> index == 0,
        ({
            let q = (bits as int) / (alignment as int);
            &&& 1 <= q <= 0xFFFFFFFF
            &&& q * ((alignment as int) - 1) == nat_width(alignment, bits)
            &&& 0 <= nat_width(alignment, bits) < 32
            &&& (index as nat) < pow2(nat_width(alignment, bits) as nat)
            &&& bits == q * (alignment as int)
        }),
{
    lemma_natural_level_facts(alignment, bits, index);
    let q = (bits as int) / (alignment as int);
    lemma_fundamental_div_mod(bits as int, alignment as int);
    lemma_u32_pow2_no_overflow(nat_width(alignment, bits) as nat);
    assert(q * ((alignment as int) - 1) >= 0) by (nonlinear_arith)
        requires
            q >= 1,
            alignment >= 1,
    ;
    if alignment == 1 {
        assert(q * ((alignment as int) - 1) == 0) by (nonlinear_arith)
            requires
                alignment == 1,
        ;
        lemma2_to64();
    }
}

/// Law: over all levels of a natural-number table, the symbol at each
/// valid (bit-length, index) pair is unique.
pub proof fn lemma_natural_table_symbols_unique(
    t: NaturalNumberHuffmanTable,
    b1: u32,
    i1: u32,
    b2: u32,
    i2: u32,
)
    requires
        t.wf(),
        i1 < t.count(b1),
        i2 < t.count(b2),
        b1 != b2 || i1 != i2,
    ensures
        t.symbol(b1, i1) != t.symbol(b2, i2),
{
    let a = t.alignment;
    lemma_natural_pair_facts(a, b1, i1);
    lemma_natural_pair_facts(a, b2, i2);
    let q1 = (b1 as int) / (a as int);
    let q2 = (b2 as int) / (a as int);
    assert(b1 != b2 ==> q1 != q2);
    lemma2_to64();
    lemma_natural_value_unique(a, q1, i1, q2, i2);
    lemma_natural_symbol_fits(a, q1, i1);
    lemma_natural_symbol_fits(a, q2, i2);
}

/// Law: the same uniqueness for the unsigned-index variant.
pub proof fn lemma_natural_usize_table_symbols_unique(
    t: NaturalUsizeHuffmanTable,
    b1: u32,
    i1: u32,
    b2: u32,
    i2: u32,
)
    requires
        t.wf(),
        i1 < t.count(b1),
        i2 < t.count(b2),
        b1 != b2 || i1 != i2,
    ensures
        t.symbol(b1, i1) != t.symbol(b2, i2),
{
    let a = t.alignment;
    lemma_natural_pair_facts(a, b1, i1);
    lemma_natural_pair_facts(a, b2, i2);
    let q1 = (b1 as int) / (a as int);
    let q2 = (b2 as int) / (a as int);
    assert(b1 != b2 ==> q1 != q2);
    lemma2_to64();
    lemma_natural_value_unique(a, q1, i1, q2, i2);
    lemma_natural_symbol_fits(a, q1, i1);
    lemma_natural_symbol_fits(a, q2, i2);
}

/// The half-level bases of the signed code never decrease.
pub proof fn lemma_int_half_base_mono(alignment: u32, n1: int, n2: int)
    requires
        n1 <= n2,
    ensures
        int_half_base(alignment, n1) <= int_half_base(alignment, n2),
    decreases n2 - n1,
{
    if n1 < n2 {
        lemma_int_half_base_mono(alignment, n1, n2 - 1);
    }
}

/// Law: over all levels of a signed-number table, the symbol at each
/// valid (bit-length, index) pair is unique. The lower half of each level
/// covers `[half_base(q-1), half_base(q))` and the upper half covers
/// `[-half_base(q), -half_base(q-1))`, so the levels tile the integers
/// outward from zero.
pub proof fn lemma_integer_table_symbols_unique(
    t: IntegerNumberHuffmanTable,
    b1: u32,
    i1: u32,
    b2: u32,
    i2: u32,
)
    requires
        t.wf(),
        i1 < t.count(b1),
        i2 < t.count(b2),
        b1 != b2 || i1 != i2,
    ensures
        t.symbol(b1, i1) != t.symbol(b2, i2),
{
    let a = t.alignment;
    lemma_natural_pair_facts(a, b1, i1);
    lemma_natural_pair_facts(a, b2, i2);
    let q1 = (b1 as int) / (a as int);
    let q2 = (b2 as int) / (a as int);
    assert(b1 != b2 ==> q1 != q2);
    lemma_integer_pair_bounds(a, q1, i1);
    lemma_integer_pair_bounds(a, q2, i2);
    let v1 = integer_pair_value(a, q1, i1);
    let v2 = integer_pair_value(a, q2, i2);
    assert(t.symbol(b1, i1) as int == v1);
    assert(t.symbol(b2, i2) as int == v2);
    assert(v1 != v2) by {
        lemma_integer_value_unique(a, q1, i1, q2, i2);
    }
}

/// The level value of a signed pair, before the 32-bit cast.
pub open spec fn integer_pair_value(alignment: u32, q: int, index: u32) -> int {
    let half = pow2((q * ((alignment as int) - 1) - 1) as nat) as int;
    if index < half {
        int_half_base(alignment, q - 1) + index
    } else {
        (index as int) - half - (int_half_base(alignment, q) as int)
    }
}

/// Distinct valid signed pairs denote distinct values.
proof fn lemma_integer_value_unique(alignment: u32, q1: int, i1: u32, q2: int, i2: u32)
    requires
        alignment >= 2,
        1 <= q1,
        1 <= q2,
        q1 * ((alignment as int) - 1) < 32,
        q2 * ((alignment as int) - 1) < 32,
        (i1 as nat) < pow2((q1 * ((alignment as int) - 1)) as nat),
        (i2 as nat) < pow2((q2 * ((alignment as int) - 1)) as nat),
        q1 != q2 || i1 != i2,
    ensures
        integer_pair_value(alignment, q1, i1) != integer_pair_value(alignment, q2, i2),
{
    lemma_integer_pair_bounds(alignment, q1, i1);
    lemma_integer_pair_bounds(alignment, q2, i2);
    if q1 == q2 {
    } else if q1 < q2 {
        lemma_int_half_base_mono(alignment, q1, q2 - 1);
        lemma_int_half_base_mono(alignment, q1 - 1, q2 - 1);
        lemma_int_half_base_mono(alignment, q1, q2);
    } else {
        lemma_int_half_base_mono(alignment, q2, q1 - 1);
        lemma_int_half_base_mono(alignment, q2 - 1, q1 - 1);
        lemma_int_half_base_mono(alignment, q2, q1);
    }
}

/// The positive half of level `q` covers `[half_base(q-1), half_base(q))`
/// and the negative half covers `[-half_base(q), -half_base(q-1))`.
proof fn lemma_integer_pair_bounds(alignment: u32, q: int, index: u32)
    requires
        alignment >= 2,
        1 <= q,
        q * ((alignment as int) - 1) < 32,
        (index as nat) < pow2((q * ((alignment as int) - 1)) as nat),
    ensures
        ({
            let half = pow2((q * ((alignment as int) - 1) - 1) as nat) as int;
            let v = integer_pair_value(alignment, q, index);
            &&& (index < half ==> int_half_base(alignment, q - 1) <= v < int_half_base(
                alignment,
                q,
            ))
            &&& (index >= half ==> -(int_half_base(alignment, q) as int) <= v < -(int_half_base(
                alignment,
                q - 1,
            ) as int))
            &&& -0x80000000 <= v <= 0x7FFFFFFF
        }),
{
    let a = (alignment as int) - 1;
    let w = q * a;
    assert(q * a >= 1) by (nonlinear_arith)
        requires
            q >= 1,
            a >= 1,
    ;
    lemma_pow2_unfold(w as nat);
    let half = pow2((w - 1) as nat) as int;
    assert((q - 1) * a >= 0) by (nonlinear_arith)
        requires
            q >= 1,
            a >= 1,
    ;
    assert(int_half_base(alignment, q) == int_half_base(alignment, q - 1) + pow2((w - 1) as nat));
    lemma_int_half_base_bound(alignment, q);
    lemma_int_half_base_bound(alignment, q - 1);
    assert(pow2(w as nat) <= 0x80000000) by {
        lemma2_to64();
        if w < 31 {
            lemma_pow2_strictly_increases(w as nat, 31);
        }
    }
}

/// Identity on the value, giving the coverage law a term to match on.
pub open spec fn spec_covered(t: RangedIntegerHuffmanTable, v: u32) -> u32 {
    v
}

/// Law: a ranged table emits exactly the values of its range. The values
/// `min..min+limit` use the short width, the rest the full width, the
/// short width is one below the full one, and `limit = 2^B - P` where `B`
/// is the smallest width with `2^B >= P`.
pub proof fn lemma_ranged_table_covers_range(min: u32, max: u32)
    requires
        min <= max,
        max - min < 0x80000000,
    ensures
        ({
            let t = spec_ranged(min, max);
            let p = (max - min + 1) as nat;
            &&& forall|b: u32, i: u32| i < t.count(b) ==> min <= #[trigger] t.symbol(b, i) <= max
            &&& forall|b1: u32, i1: u32, b2: u32, i2: u32|
                i1 < t.count(b1) && i2 < t.count(b2) && (b1 != b2 || i1 != i2)
                    ==> #[trigger] t.symbol(b1, i1) != #[trigger] t.symbol(b2, i2)
            &&& forall|v: u32|
                min <= #[trigger] spec_covered(t, v) && v <= max ==> exists|b: u32, i: u32|
                    i < t.count(b) && #[trigger] t.symbol(b, i) == v
            &&& t.max_bits as nat == log2_ceil(p)
            &&& pow2(t.max_bits as nat) >= p
            &&& (p >= 2 ==> pow2((t.max_bits - 1) as nat) < p)
            &&& (t.limit as nat) + p == pow2(t.max_bits as nat)
        }),
{
    let t = spec_ranged(min, max);
    let p = (max - min + 1) as nat;
    lemma_ranged_fields(min, max);
    lemma_log2_ceil_bounds(p);
    assert forall|b: u32, i: u32| i < t.count(b) implies min <= #[trigger] t.symbol(b, i)
        <= max by {
        assert(b == t.max_bits || (t.max_bits >= 1 && b == (t.max_bits - 1) as u32));
    }
    assert forall|b1: u32, i1: u32, b2: u32, i2: u32|
        i1 < t.count(b1) && i2 < t.count(b2) && (b1 != b2 || i1 != i2) implies #[trigger] t.symbol(
        b1,
        i1,
    ) != #[trigger] t.symbol(b2, i2) by {
        assert(b1 == t.max_bits || (t.max_bits >= 1 && b1 == (t.max_bits - 1) as u32));
        assert(b2 == t.max_bits || (t.max_bits >= 1 && b2 == (t.max_bits - 1) as u32));
        if b1 == b2 {
        } else if b1 == t.max_bits {
            assert(t.symbol(b1, i1) >= min + t.limit);
            assert(t.symbol(b2, i2) < min + t.limit);
        } else {
            assert(t.symbol(b2, i2) >= min + t.limit);
            assert(t.symbol(b1, i1) < min + t.limit);
        }
    }
    assert forall|v: u32| min <= #[trigger] spec_covered(t, v) && v <= max implies exists|
        b: u32,
        i: u32,
    | i < t.count(b) && #[trigger] t.symbol(b, i) == v by {
        if v < min + t.limit {
            let b = (t.max_bits - 1) as u32;
            let i = (v - min) as u32;
            assert(i < t.count(b) && t.symbol(b, i) == v);
        } else {
            let b = t.max_bits;
            let i = (v - min - t.limit) as u32;
            assert(i < t.count(b) && t.symbol(b, i) == v);
        }
    }
    assert(t.max_bits as nat == log2_ceil(p));
    if p >= 2 {
        assert(log2_ceil(p) >= 1);
        assert((t.max_bits - 1) as nat == log2_ceil(p) - 1);
    }
}

/// A stored canonical table: `symbols` in canonical code order, and
/// `level_indexes[b-1]` the offset where the symbols of length `b` start
/// (lengths `0` start at offset zero; the last level ends at
/// `symbols.len()`).
pub struct DefinedHuffmanTable<S> {
    pub level_indexes: Vec<usize>,
    pub symbols: Vec<S>,
}

impl<S> DefinedHuffmanTable<S> {
    /// Offset of the first symbol of length `bits`.
    pub open spec fn level_lo(&self, bits: u32) -> int {
        if bits == 0 {
            0
        } else {
            self.level_indexes@[(bits - 1) as int] as int
        }
    }

    /// Offset past the last symbol of length `bits`.
    pub open spec fn level_hi(&self, bits: u32) -> int {
        if bits as int == self.level_indexes@.len() {
            self.symbols@.len() as int
        } else {
            self.level_indexes@[bits as int] as int
        }
    }
}

impl<S> CodeShape<S> for DefinedHuffmanTable<S> {
    open spec fn count(&self, bits: u32) -> u32 {
        if bits as int <= self.level_indexes@.len() {
            (self.level_hi(bits) - self.level_lo(bits)) as u32
        } else {
            0
        }
    }

    open spec fn symbol(&self, bits: u32, index: u32) -> S {
        self.symbols@[self.level_lo(bits) + index]
    }
}

impl<S: Copy> HuffmanTable<S> for DefinedHuffmanTable<S> {
    open spec fn wf(&self) -> bool {
        &&& self.symbols@.len() <= 0xFFFFFFFF
        &&& forall|i: int|
            0 <= i < self.level_indexes@.len() ==> #[trigger] self.level_indexes@[i]
                <= self.symbols@.len()
        &&& forall|i: int, j: int|
            0 <= i <= j < self.level_indexes@.len() ==> #[trigger] self.level_indexes@[i]
                <= #[trigger] self.level_indexes@[j]
    }

    fn symbols_with_bits(&self, bits: u32) -> (r: u32) {
        let levels = self.level_indexes.len();
        if (bits as usize) > levels {
            return 0;
        }
        let lo: usize = if bits == 0 {
            0
        } else {
            self.level_indexes[(bits - 1) as usize]
        };
        let hi: usize = if (bits as usize) == levels {
            self.symbols.len()
        } else {
            self.level_indexes[bits as usize]
        };
        (hi - lo) as u32
    }

    fn get_symbol(&self, bits: u32, index: u32) -> (r: Result<S, ReadError>) {
        let count = self.symbols_with_bits(bits);
        if index >= count {
            return Err(ReadError::InvalidTableInput);
        }
        let lo: usize = if bits == 0 {
            0
        } else {
            self.level_indexes[(bits - 1) as usize]
        };
        Ok(self.symbols[lo + (index as usize)])
    }
}

/// The mathematical content of a stored table: the size of each level and
/// the symbols in canonical order. This is what the table codec promises
/// to have decoded, and it implements the same `CodeShape` contract as the
/// stored table itself.
pub struct DefinedShape<S> {
    pub levels: Seq<u32>,
    pub symbols: Seq<S>,
}

/// Sum of the first `upto` level sizes.
pub open spec fn levels_sum(levels: Seq<u32>, upto: int) -> int
    decreases upto,
{
    if upto <= 0 {
        0
    } else {
        levels_sum(levels, upto - 1) + levels[upto - 1]
    }
}

pub proof fn lemma_levels_sum_nonneg(levels: Seq<u32>, upto: int)
    ensures
        levels_sum(levels, upto) >= 0,
    decreases upto,
{
    if upto > 0 {
        lemma_levels_sum_nonneg(levels, upto - 1);
    }
}

impl<S> CodeShape<S> for DefinedShape<S> {
    open spec fn count(&self, bits: u32) -> u32 {
        if (bits as int) < self.levels.len() {
            self.levels[bits as int]
        } else {
            0
        }
    }

    open spec fn symbol(&self, bits: u32, index: u32) -> S {
        self.symbols[levels_sum(self.levels, bits as int) + index]
    }
}

/// A stored table realises a shape when both describe the same code.
pub open spec fn table_matches_shape<S>(t: &DefinedHuffmanTable<S>, m: DefinedShape<S>) -> bool {
    &&& forall|b: u32| #[trigger] t.count(b) == m.count(b)
    &&& forall|b: u32, i: u32|
        i < m.count(b) ==> #[trigger] t.symbol(b, i) == m.symbol(b, i)
}

} // verus!
