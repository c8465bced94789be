//! The bit-level decoding engine: reading one symbol out of the stream by
//! canonical Huffman traversal, the element readers built on it, and the
//! table codec that reads a whole stored table out of the stream.
//!
//! Every executable reader is specified against a spec-level decoder over
//! the remaining bit sequence, so the result of a read is a function of
//! the bits alone.

use vstd::prelude::*;
use crate::bits::InputBitStream;
use crate::file_utils::ReadError;
use crate::huffman::CodeShape;
use crate::huffman::HuffmanTable;
use crate::huffman::spec_ranged;
use crate::huffman::lemma_ranged_fields;
use crate::huffman::NaturalNumberHuffmanTable;
use crate::huffman::IntegerNumberHuffmanTable;
use crate::huffman::RangedIntegerHuffmanTable;
use crate::huffman::DefinedHuffmanTable;
use crate::huffman::DefinedShape;
use crate::huffman::levels_sum;
use crate::huffman::table_matches_shape;
use vstd::arithmetic::power2::lemma2_to64;
use vstd::arithmetic::power2::pow2;
use vstd::arithmetic::power2::lemma_pow2_unfold;

verus! {

/// Outcome of decoding one item: the item and the bits left over, or the
/// error the decoder raises.
pub enum Decoded<T> {
    Done { value: T, rest: Seq<bool> },
    Fail { err: ReadError },
}

/// One traversal step of canonical Huffman decoding, tracking only the
/// offset of the accumulated code value inside the current level
/// (`local = value - base` in the classical formulation). Offsets beyond
/// 2^31 - 1 or bit-lengths beyond 32 bits of counter do not fit the
/// decoder's arithmetic and fail.
pub open spec fn spec_decode_loop<S, T: CodeShape<S>>(
    t: &T,
    s: Seq<bool>,
    local: u32,
    bitlen: u32,
) -> Decoded<S>
    decreases s.len(),
{
    if local > 0x7FFFFFFFu32 {
        Decoded::Fail { err: ReadError::FormatViolation }
    } else if s.len() == 0 {
        Decoded::Fail { err: ReadError::UnexpectedEndOfFile }
    } else {
        let bit: u32 = if s[0] {
            1u32
        } else {
            0u32
        };
        let l2: u32 = (2 * local + bit) as u32;
        let lev = t.count(bitlen);
        if l2 < lev {
            Decoded::Done { value: t.symbol(bitlen, l2), rest: s.drop_first() }
        } else if bitlen == 0xFFFFFFFFu32 {
            Decoded::Fail { err: ReadError::FormatViolation }
        } else {
            spec_decode_loop(t, s.drop_first(), (l2 - lev) as u32, (bitlen + 1) as u32)
        }
    }
}

/// Reading one symbol: a table with a zero-length codeword emits its
/// single symbol without consuming bits; otherwise the traversal starts
/// at bit-length one.
pub open spec fn spec_read_symbol<S, T: CodeShape<S>>(t: &T, s: Seq<bool>) -> Decoded<S> {
    if t.count(0) > 0 {
        Decoded::Done { value: t.symbol(0, 0), rest: s }
    } else {
        spec_decode_loop(t, s, 0, 1)
    }
}

/// The traversal consumes at least one bit whenever it emits a symbol.
pub proof fn lemma_decode_loop_consumes<S, T: CodeShape<S>>(
    t: &T,
    s: Seq<bool>,
    local: u32,
    bitlen: u32,
)
    ensures
        match spec_decode_loop(t, s, local, bitlen) {
            Decoded::Done { value, rest } => rest.len() < s.len(),
            Decoded::Fail { .. } => true,
        },
    decreases s.len(),
{
    if local > 0x7FFFFFFFu32 || s.len() == 0 {
    } else {
        let bit: u32 = if s[0] {
            1u32
        } else {
            0u32
        };
        let l2: u32 = (2 * local + bit) as u32;
        let lev = t.count(bitlen);
        if l2 < lev || bitlen == 0xFFFFFFFFu32 {
        } else {
            lemma_decode_loop_consumes(t, s.drop_first(), (l2 - lev) as u32, (bitlen + 1) as u32);
        }
    }
}

/// Reading a symbol never lengthens the stream, and consumes at least one
/// bit unless the table has a zero-length codeword.
pub proof fn lemma_read_symbol_consumes<S, T: CodeShape<S>>(t: &T, s: Seq<bool>)
    ensures
        match spec_read_symbol(t, s) {
            Decoded::Done { value, rest } => rest.len() <= s.len() && (t.count(0) == 0
                ==> rest.len() < s.len()),
            Decoded::Fail { .. } => true,
        },
{
    if t.count(0) == 0 {
        lemma_decode_loop_consumes(t, s, 0, 1);
    }
}

/// The traversal only emits symbols of the table's declared support.
pub proof fn lemma_decode_loop_emits<S, T: CodeShape<S>>(
    t: &T,
    s: Seq<bool>,
    local: u32,
    bitlen: u32,
)
    ensures
        match spec_decode_loop(t, s, local, bitlen) {
            Decoded::Done { value, rest } => exists|b: u32, i: u32|
                i < t.count(b) && value == t.symbol(b, i),
            Decoded::Fail { .. } => true,
        },
    decreases s.len(),
{
    if local > 0x7FFFFFFFu32 || s.len() == 0 {
    } else {
        let bit: u32 = if s[0] {
            1u32
        } else {
            0u32
        };
        let l2: u32 = (2 * local + bit) as u32;
        let lev = t.count(bitlen);
        if l2 < lev {
            assert(l2 < t.count(bitlen) && spec_decode_loop(t, s, local, bitlen)
                == (Decoded::Done { value: t.symbol(bitlen, l2), rest: s.drop_first() }));
        } else if bitlen == 0xFFFFFFFFu32 {
        } else {
            lemma_decode_loop_emits(t, s.drop_first(), (l2 - lev) as u32, (bitlen + 1) as u32);
        }
    }
}

/// Same statement for a whole symbol read.
pub proof fn lemma_read_symbol_emits<S, T: CodeShape<S>>(t: &T, s: Seq<bool>)
    ensures
        match spec_read_symbol(t, s) {
            Decoded::Done { value, rest } => exists|b: u32, i: u32|
                i < t.count(b) && value == t.symbol(b, i),
            Decoded::Fail { .. } => true,
        },
{
    if t.count(0) > 0 {
        assert(0 < t.count(0) && spec_read_symbol(t, s) == (Decoded::Done {
            value: t.symbol(0, 0),
            rest: s,
        }));
    } else {
        lemma_decode_loop_emits(t, s, 0, 1);
    }
}

/// Decoding depends on the table only through its counts and symbols.
pub proof fn lemma_decode_loop_congruent<S, T1: CodeShape<S>, T2: CodeShape<S>>(
    t1: &T1,
    t2: &T2,
    s: Seq<bool>,
    local: u32,
    bitlen: u32,
)
    requires
        forall|b: u32| #[trigger] t1.count(b) == t2.count(b),
        forall|b: u32, i: u32| i < t1.count(b) ==> #[trigger] t1.symbol(b, i) == t2.symbol(b, i),
    ensures
        spec_decode_loop(t1, s, local, bitlen) == spec_decode_loop(t2, s, local, bitlen),
    decreases s.len(),
{
    if local > 0x7FFFFFFFu32 || s.len() == 0 {
    } else {
        let bit: u32 = if s[0] {
            1u32
        } else {
            0u32
        };
        let l2: u32 = (2 * local + bit) as u32;
        let lev = t1.count(bitlen);
        if l2 < lev || bitlen == 0xFFFFFFFFu32 {
        } else {
            lemma_decode_loop_congruent(
                t1,
                t2,
                s.drop_first(),
                (l2 - lev) as u32,
                (bitlen + 1) as u32,
            );
        }
    }
}

/// Same statement for a whole symbol read.
pub proof fn lemma_read_symbol_congruent<S, T1: CodeShape<S>, T2: CodeShape<S>>(
    t1: &T1,
    t2: &T2,
    s: Seq<bool>,
)
    requires
        forall|b: u32| #[trigger] t1.count(b) == t2.count(b),
        forall|b: u32, i: u32| i < t1.count(b) ==> #[trigger] t1.symbol(b, i) == t2.symbol(b, i),
    ensures
        spec_read_symbol(t1, s) == spec_read_symbol(t2, s),
{
    if t1.count(0) > 0 {
        assert(0 < t1.count(0));
    } else {
        lemma_decode_loop_congruent(t1, t2, s, 0, 1);
    }
}

/// A symbol read from a ranged table lies between its bounds.
pub proof fn lemma_ranged_symbol_bounds(min: u32, max: u32, s: Seq<bool>)
    requires
        min <= max,
        max - min < 0x80000000,
    ensures
        match spec_read_symbol(&spec_ranged(min, max), s) {
            Decoded::Done { value, rest } => min <= value <= max,
            Decoded::Fail { .. } => true,
        },
{
    let t = spec_ranged(min, max);
    lemma_ranged_fields(min, max);
    lemma_read_symbol_emits(&t, s);
}

impl InputBitStream {
    /// Reads one symbol by canonical Huffman traversal: accumulate bits
    /// most significant first, and emit as soon as the accumulated offset
    /// falls inside the current level.
    pub fn read_symbol<S, T: HuffmanTable<S>>(&mut self, table: &T) -> (r: Result<S, ReadError>)
        requires
            old(self).wf(),
            table.wf(),
        ensures
            final(self).wf(),
            final(self).raw() == old(self).raw(),
            match spec_read_symbol(table, old(self).bits()) {
                Decoded::Done { value, rest } => r == Ok::<S, ReadError>(value)
                    && final(self).bits() == rest,
                Decoded::Fail { err } => r == Err::<S, ReadError>(err),
            },
    {
        if table.symbols_with_bits(0) > 0 {
            return table.get_symbol(0, 0);
        }
        let mut local: u32 = 0;
        let mut bitlen: u32 = 1;
        loop
            invariant
                self.wf(),
                table.wf(),
                table.count(0) == 0,
                self.raw() == old(self).raw(),
                spec_read_symbol(table, old(self).bits()) == spec_decode_loop(
                    table,
                    self.bits(),
                    local,
                    bitlen,
                ),
            decreases self.bits().len(),
        {
            if local > 0x7FFFFFFF {
                return Err(ReadError::FormatViolation);
            }
            let b = self.read_boolean()?;
            let bit: u32 = if b {
                1
            } else {
                0
            };
            let l2 = 2 * local + bit;
            let lev = table.symbols_with_bits(bitlen);
            if l2 < lev {
                return table.get_symbol(bitlen, l2);
            }
            if bitlen == 0xFFFFFFFF {
                return Err(ReadError::FormatViolation);
            }
            local = l2 - lev;
            bitlen = bitlen + 1;
        }
    }
}

/// The values `char::from_u32` accepts: every code point that is not a
/// surrogate.
pub open spec fn is_unicode_scalar(v: u32) -> bool {
    v < 0xD800 || (0xE000 <= v && v <= 0x10FFFF)
}

/// Relies on `char::from_u32` from std: it returns `Some` exactly when the
/// value is a Unicode scalar value, and the char then has that value.
#[verifier::external_body]
fn char_from_u32(v: u32) -> (r: Option<char>)
    ensures
        is_unicode_scalar(v) ==> r == Some(v as char),
        !is_unicode_scalar(v) ==> r is None,
{
    char::from_u32(v)
}

/// A strictly positive difference: `previous + v + 1`, failing when the
/// sum leaves the 32-bit range.
pub open spec fn spec_read_diff_u32<T: CodeShape<u32>>(
    t: &T,
    s: Seq<bool>,
    previous: u32,
) -> Decoded<u32> {
    match spec_read_symbol(t, s) {
        Decoded::Fail { err } => Decoded::Fail { err },
        Decoded::Done { value, rest } => {
            if previous + value + 1 <= u32::MAX {
                Decoded::Done { value: (previous + value + 1) as u32, rest }
            } else {
                Decoded::Fail { err: ReadError::FormatViolation }
            }
        },
    }
}

/// A strictly positive difference over a signed previous value.
pub open spec fn spec_read_diff_i32<T: CodeShape<u32>>(
    t: &T,
    s: Seq<bool>,
    previous: i32,
) -> Decoded<i32> {
    match spec_read_symbol(t, s) {
        Decoded::Fail { err } => Decoded::Fail { err },
        Decoded::Done { value, rest } => {
            if value > 0x7FFFFFFFu32 || previous + value + 1 > 0x7FFFFFFF {
                Decoded::Fail { err: ReadError::FormatViolation }
            } else {
                Decoded::Done { value: (previous + value + 1) as i32, rest }
            }
        },
    }
}

/// A number read as a Unicode scalar.
pub open spec fn spec_read_character<T: CodeShape<u32>>(t: &T, s: Seq<bool>) -> Decoded<char> {
    match spec_read_symbol(t, s) {
        Decoded::Fail { err } => Decoded::Fail { err },
        Decoded::Done { value, rest } => {
            if is_unicode_scalar(value) {
                Decoded::Done { value: value as char, rest }
            } else {
                Decoded::Fail { err: ReadError::InvalidCodepoint }
            }
        },
    }
}

/// The next character of a strictly increasing run: `previous + v + 1`.
pub open spec fn spec_read_diff_character<T: CodeShape<u32>>(
    t: &T,
    s: Seq<bool>,
    previous: char,
) -> Decoded<char> {
    match spec_read_symbol(t, s) {
        Decoded::Fail { err } => Decoded::Fail { err },
        Decoded::Done { value, rest } => {
            if value + (previous as u32) + 1 > u32::MAX {
                Decoded::Fail { err: ReadError::InvalidCodepoint }
            } else if is_unicode_scalar((value + (previous as u32) + 1) as u32) {
                Decoded::Done { value: ((value + (previous as u32) + 1) as u32) as char, rest }
            } else {
                Decoded::Fail { err: ReadError::InvalidCodepoint }
            }
        },
    }
}

impl InputBitStream {
    /// Reads a symbol and adds it to `previous`, plus one, so that runs of
    /// strictly increasing values can be stored as differences.
    pub fn read_diff_u32<T: HuffmanTable<u32>>(&mut self, table: &T, previous: u32) -> (r: Result<
        u32,
        ReadError,
    >)
        requires
            old(self).wf(),
            table.wf(),
        ensures
            final(self).wf(),
            final(self).raw() == old(self).raw(),
            match spec_read_diff_u32(table, old(self).bits(), previous) {
                Decoded::Done { value, rest } => r == Ok::<u32, ReadError>(value)
                    && final(self).bits() == rest,
                Decoded::Fail { err } => r == Err::<u32, ReadError>(err),
            },
    {
        let v = self.read_symbol(table)?;
        let sum: u64 = (previous as u64) + (v as u64) + 1;
        if sum > 0xFFFFFFFFu64 {
            return Err(ReadError::FormatViolation);
        }
        Ok(sum as u32)
    }

    /// The signed counterpart of `read_diff_u32`.
    pub fn read_diff_i32<T: HuffmanTable<u32>>(&mut self, table: &T, previous: i32) -> (r: Result<
        i32,
        ReadError,
    >)
        requires
            old(self).wf(),
            table.wf(),
        ensures
            final(self).wf(),
            final(self).raw() == old(self).raw(),
            match spec_read_diff_i32(table, old(self).bits(), previous) {
                Decoded::Done { value, rest } => r == Ok::<i32, ReadError>(value)
                    && final(self).bits() == rest,
                Decoded::Fail { err } => r == Err::<i32, ReadError>(err),
            },
    {
        let v = self.read_symbol(table)?;
        if v > 0x7FFFFFFFu32 {
            return Err(ReadError::FormatViolation);
        }
        let sum: i64 = (previous as i64) + (v as i64) + 1;
        if sum > 0x7FFFFFFFi64 {
            return Err(ReadError::FormatViolation);
        }
        Ok(sum as i32)
    }

    /// Reads a number and interprets it as a Unicode scalar.
    pub fn read_character<T: HuffmanTable<u32>>(&mut self, table: &T) -> (r: Result<
        char,
        ReadError,
    >)
        requires
            old(self).wf(),
            table.wf(),
        ensures
            final(self).wf(),
            final(self).raw() == old(self).raw(),
            match spec_read_character(table, old(self).bits()) {
                Decoded::Done { value, rest } => r == Ok::<char, ReadError>(value)
                    && final(self).bits() == rest,
                Decoded::Fail { err } => r == Err::<char, ReadError>(err),
            },
    {
        let v = self.read_symbol(table)?;
        match char_from_u32(v) {
            Some(ch) => Ok(ch),
            None => Err(ReadError::InvalidCodepoint),
        }
    }

    /// Reads the next character of a strictly increasing run.
    pub fn read_diff_character<T: HuffmanTable<u32>>(&mut self, table: &T, previous: char) -> (r:
        Result<char, ReadError>)
        requires
            old(self).wf(),
            table.wf(),
        ensures
            final(self).wf(),
            final(self).raw() == old(self).raw(),
            match spec_read_diff_character(table, old(self).bits(), previous) {
                Decoded::Done { value, rest } => r == Ok::<char, ReadError>(value)
                    && final(self).bits() == rest,
                Decoded::Fail { err } => r == Err::<char, ReadError>(err),
            },
    {
        let v = self.read_symbol(table)?;
        let sum: u64 = (v as u64) + ((previous as u32) as u64) + 1;
        if sum > 0xFFFFFFFFu64 {
            return Err(ReadError::InvalidCodepoint);
        }
        match char_from_u32(sum as u32) {
            Some(ch) => Ok(ch),
            None => Err(ReadError::InvalidCodepoint),
        }
    }
}

/// A pair of element readers for the table codec: one for the first
/// symbol of a level and one for each later symbol, which is read as a
/// difference from its predecessor.
pub trait ElementReader<S>: Sized {
    spec fn wf(&self) -> bool;

    spec fn spec_first(&self, s: Seq<bool>) -> Decoded<S>;

    spec fn spec_next(&self, s: Seq<bool>, previous: S) -> Decoded<S>;

    fn read_first(&self, stream: &mut InputBitStream) -> (r: Result<S, ReadError>)
        requires
            old(stream).wf(),
            self.wf(),
        ensures
            final(stream).wf(),
            final(stream).raw() == old(stream).raw(),
            match self.spec_first(old(stream).bits()) {
                Decoded::Done { value, rest } => r == Ok::<S, ReadError>(value)
                    && final(stream).bits() == rest,
                Decoded::Fail { err } => r == Err::<S, ReadError>(err),
            },
    ;

    fn read_next(&self, stream: &mut InputBitStream, previous: S) -> (r: Result<S, ReadError>)
        requires
            old(stream).wf(),
            self.wf(),
        ensures
            final(stream).wf(),
            final(stream).raw() == old(stream).raw(),
            match self.spec_next(old(stream).bits(), previous) {
                Decoded::Done { value, rest } => r == Ok::<S, ReadError>(value)
                    && final(stream).bits() == rest,
                Decoded::Fail { err } => r == Err::<S, ReadError>(err),
            },
    ;
}

/// Characters: a plain scalar first, then strictly increasing scalars as
/// differences.
pub struct CharElementReader {
    pub base: NaturalNumberHuffmanTable,
    pub diff: NaturalNumberHuffmanTable,
}

impl ElementReader<char> for CharElementReader {
    open spec fn wf(&self) -> bool {
        self.base.wf() && self.diff.wf()
    }

    open spec fn spec_first(&self, s: Seq<bool>) -> Decoded<char> {
        spec_read_character(&self.base, s)
    }

    open spec fn spec_next(&self, s: Seq<bool>, previous: char) -> Decoded<char> {
        spec_read_diff_character(&self.diff, s, previous)
    }

    fn read_first(&self, stream: &mut InputBitStream) -> (r: Result<char, ReadError>) {
        stream.read_character(&self.base)
    }

    fn read_next(&self, stream: &mut InputBitStream, previous: char) -> (r: Result<
        char,
        ReadError,
    >) {
        stream.read_diff_character(&self.diff, previous)
    }
}

/// Unsigned numbers: a plain value first, then strictly increasing values
/// as differences.
pub struct U32ElementReader {
    pub base: NaturalNumberHuffmanTable,
    pub diff: NaturalNumberHuffmanTable,
}

impl ElementReader<u32> for U32ElementReader {
    open spec fn wf(&self) -> bool {
        self.base.wf() && self.diff.wf()
    }

    open spec fn spec_first(&self, s: Seq<bool>) -> Decoded<u32> {
        spec_read_symbol(&self.base, s)
    }

    open spec fn spec_next(&self, s: Seq<bool>, previous: u32) -> Decoded<u32> {
        spec_read_diff_u32(&self.diff, s, previous)
    }

    fn read_first(&self, stream: &mut InputBitStream) -> (r: Result<u32, ReadError>) {
        stream.read_symbol(&self.base)
    }

    fn read_next(&self, stream: &mut InputBitStream, previous: u32) -> (r: Result<
        u32,
        ReadError,
    >) {
        stream.read_diff_u32(&self.diff, previous)
    }
}

/// Signed numbers: a signed value first, then strictly increasing values
/// as unsigned differences.
pub struct I32ElementReader {
    pub base: IntegerNumberHuffmanTable,
    pub diff: NaturalNumberHuffmanTable,
}

impl ElementReader<i32> for I32ElementReader {
    open spec fn wf(&self) -> bool {
        self.base.wf() && self.diff.wf()
    }

    open spec fn spec_first(&self, s: Seq<bool>) -> Decoded<i32> {
        spec_read_symbol(&self.base, s)
    }

    open spec fn spec_next(&self, s: Seq<bool>, previous: i32) -> Decoded<i32> {
        spec_read_diff_i32(&self.diff, s, previous)
    }

    fn read_first(&self, stream: &mut InputBitStream) -> (r: Result<i32, ReadError>) {
        stream.read_symbol(&self.base)
    }

    fn read_next(&self, stream: &mut InputBitStream, previous: i32) -> (r: Result<
        i32,
        ReadError,
    >) {
        stream.read_diff_i32(&self.diff, previous)
    }
}

/// A range of two or more values has no zero-length codeword, so reading
/// from it always consumes bits.
pub proof fn lemma_ranged_zero_count(maxv: u32)
    requires
        1 <= maxv <= 0x7FFFFFFF,
    ensures
        spec_ranged(0, maxv).count(0) == 0,
{
    let t = spec_ranged(0, maxv);
    lemma_ranged_fields(0, maxv);
    lemma2_to64();
    if t.max_bits == 0 {
        assert(false);
    } else if t.max_bits == 1 {
        assert((t.limit as nat) + (maxv + 1) == pow2(1));
    }
}

/// The level-length protocol of the table codec. `maxv` is the number of
/// codewords still assignable at the current length; each level length is
/// read from a range table over `0..=maxv`, and the remainder doubles.
/// A remainder beyond 2^31 - 1 does not fit a range table and fails.
pub open spec fn spec_levels(s: Seq<bool>, maxv: u32, acc: Seq<u32>) -> Decoded<Seq<u32>>
    decreases s.len(),
    via spec_levels_dec
{
    if maxv == 0 {
        Decoded::Done { value: acc, rest: s }
    } else if maxv > 0x7FFFFFFFu32 {
        Decoded::Fail { err: ReadError::FormatViolation }
    } else {
        match spec_read_symbol(&spec_ranged(0, maxv), s) {
            Decoded::Fail { err } => Decoded::Fail { err },
            Decoded::Done { value: l, rest } => {
                if l > maxv {
                    Decoded::Fail { err: ReadError::FormatViolation }
                } else {
                    spec_levels(rest, ((maxv - l) * 2) as u32, acc.push(l))
                }
            },
        }
    }
}

#[via_fn]
proof fn spec_levels_dec(s: Seq<bool>, maxv: u32, acc: Seq<u32>) {
    if 1 <= maxv <= 0x7FFFFFFF {
        let t = spec_ranged(0, maxv);
        lemma_ranged_zero_count(maxv);
        lemma_read_symbol_consumes(&t, s);
    }
}

/// Reading the remaining `k` symbols of one level, each as a difference
/// from its predecessor.
pub open spec fn spec_level_syms<S, R: ElementReader<S>>(
    r: &R,
    s: Seq<bool>,
    previous: S,
    k: u32,
    acc: Seq<S>,
) -> Decoded<Seq<S>>
    decreases k,
{
    if k == 0 {
        Decoded::Done { value: acc, rest: s }
    } else {
        match r.spec_next(s, previous) {
            Decoded::Fail { err } => Decoded::Fail { err },
            Decoded::Done { value, rest } => spec_level_syms(
                r,
                rest,
                value,
                (k - 1) as u32,
                acc.push(value),
            ),
        }
    }
}

/// Reading the symbols of all levels from `idx` on: for each non-empty
/// level, one base symbol and then differences.
pub open spec fn spec_symbols_phase<S, R: ElementReader<S>>(
    r: &R,
    s: Seq<bool>,
    levels: Seq<u32>,
    idx: int,
    acc: Seq<S>,
) -> Decoded<Seq<S>>
    decreases levels.len() - idx,
{
    if idx < 0 || idx >= levels.len() {
        Decoded::Done { value: acc, rest: s }
    } else {
        let l = levels[idx];
        if l == 0 {
            spec_symbols_phase(r, s, levels, idx + 1, acc)
        } else {
            match r.spec_first(s) {
                Decoded::Fail { err } => Decoded::Fail { err },
                Decoded::Done { value, rest } => {
                    match spec_level_syms(r, rest, value, (l - 1) as u32, acc.push(value)) {
                        Decoded::Fail { err } => Decoded::Fail { err },
                        Decoded::Done { value: acc2, rest: rest2 } => spec_symbols_phase(
                            r,
                            rest2,
                            levels,
                            idx + 1,
                            acc2,
                        ),
                    }
                },
            }
        }
    }
}

/// The whole table codec: level lengths, a size check, then the symbols.
pub open spec fn spec_read_table<S, R: ElementReader<S>>(r: &R, s: Seq<bool>) -> Decoded<
    DefinedShape<S>,
> {
    match spec_levels(s, 1, Seq::empty()) {
        Decoded::Fail { err } => Decoded::Fail { err },
        Decoded::Done { value: levels, rest } => {
            if levels_sum(levels, levels.len() as int) > 0xFFFFFFFF {
                Decoded::Fail { err: ReadError::FormatViolation }
            } else {
                match spec_symbols_phase(r, rest, levels, 0, Seq::empty()) {
                    Decoded::Fail { err } => Decoded::Fail { err },
                    Decoded::Done { value: syms, rest: rest2 } => Decoded::Done {
                        value: DefinedShape { levels, symbols: syms },
                        rest: rest2,
                    },
                }
            }
        },
    }
}

/// Partial sums of the level sizes never decrease.
pub proof fn lemma_levels_sum_mono(levels: Seq<u32>, i: int, j: int)
    requires
        i <= j,
    ensures
        levels_sum(levels, i) <= levels_sum(levels, j),
    decreases j - i,
{
    if i < j {
        lemma_levels_sum_mono(levels, i, j - 1);
    }
}

impl InputBitStream {
    /// Reads a stored table out of the stream: first the size of every
    /// level through the adaptive range protocol, then for each non-empty
    /// level a base symbol and strictly increasing differences.
    #[verifier::loop_isolation(false)]
    pub fn read_table<S: Copy, R: ElementReader<S>>(&mut self, reader: &R) -> (res: Result<
        DefinedHuffmanTable<S>,
        ReadError,
    >)
        requires
            old(self).wf(),
            reader.wf(),
        ensures
            final(self).wf(),
            final(self).raw() == old(self).raw(),
            match spec_read_table(reader, old(self).bits()) {
                Decoded::Done { value: shape, rest } => res matches Ok(t) && t.wf()
                    && table_matches_shape(&t, shape) && t.symbols@ == shape.symbols
                    && final(self).bits() == rest,
                Decoded::Fail { err } => res == Err::<DefinedHuffmanTable<S>, ReadError>(err),
            },
    {
        let ghost s0 = self.bits();
        let mut level_lengths: Vec<u32> = Vec::new();
        let mut maxv: u32 = 1;
        while maxv > 0
            invariant
                self.wf(),
                self.raw() == old(self).raw(),
                maxv > 0 || level_lengths@.len() > 0,
                spec_levels(s0, 1, Seq::empty()) == spec_levels(
                    self.bits(),
                    maxv,
                    level_lengths@,
                ),
            decreases self.bits().len(),
        {
            if maxv > 0x7FFFFFFF {
                return Err(ReadError::FormatViolation);
            }
            let table = RangedIntegerHuffmanTable::new(0, maxv);
            let ghost pre = self.bits();
            let ghost pre_levels = level_lengths@;
            let l = match self.read_symbol(&table) {
                Ok(l) => l,
                Err(e) => {
                    return Err(e);
                },
            };
            proof {
                lemma_ranged_symbol_bounds(0, maxv, pre);
                lemma_ranged_zero_count(maxv);
                lemma_read_symbol_consumes(&spec_ranged(0, maxv), pre);
            }
            level_lengths.push(l);
            maxv = (maxv - l) * 2;
            proof {
                assert(level_lengths@ =~= pre_levels.push(l));
            }
        }
        proof {
            assert(spec_levels(s0, 1, Seq::empty()) == (Decoded::Done {
                value: level_lengths@,
                rest: self.bits(),
            }));
        }
        // the symbols of all levels together must fit the 32-bit counters
        let ghost levels = level_lengths@;
        let mut total: u64 = 0;
        let mut i: usize = 0;
        while i < level_lengths.len()
            invariant
                i <= levels.len(),
                total == levels_sum(levels, i as int),
                total <= 0xFFFFFFFF,
            decreases levels.len() - i,
        {
            total = total + (level_lengths[i] as u64);
            i = i + 1;
            if total > 0xFFFFFFFF {
                proof {
                    lemma_levels_sum_mono(levels, i as int, levels.len() as int);
                }
                return Err(ReadError::FormatViolation);
            }
        }
        proof {
            lemma_levels_sum_mono(levels, i as int, levels.len() as int);
            assert(levels_sum(levels, levels.len() as int) <= 0xFFFFFFFF);
        }
        // read the symbols, recording where each level starts
        let ghost s1 = self.bits();
        let mut level_indexes: Vec<usize> = Vec::new();
        let mut symbols: Vec<S> = Vec::new();
        let mut index: usize = 0;
        while index < level_lengths.len()
            invariant
                self.wf(),
                self.raw() == old(self).raw(),
                index <= levels.len(),
                symbols@.len() == levels_sum(levels, index as int),
                level_indexes@.len() == (if index == 0 {
                    0int
                } else {
                    (index - 1) as int
                }),
                forall|j: int|
                    0 <= j < level_indexes@.len() ==> #[trigger] level_indexes@[j] == levels_sum(
                        levels,
                        j + 1,
                    ),
                spec_symbols_phase(reader, s1, levels, 0, Seq::empty()) == spec_symbols_phase(
                    reader,
                    self.bits(),
                    levels,
                    index as int,
                    symbols@,
                ),
            decreases levels.len() - index,
        {
            if index > 0 {
                proof {
                    lemma_levels_sum_nonneg_pub(levels, index as int);
                    lemma_levels_sum_mono(levels, index as int, levels.len() as int);
                }
                level_indexes.push(symbols.len());
            }
            let level_length = level_lengths[index];
            if level_length > 0 {
                let ghost pre = self.bits();
                let ghost pre_syms = symbols@;
                let mut element = match reader.read_first(self) {
                    Ok(v) => v,
                    Err(e) => {
                        return Err(e);
                    },
                };
                symbols.push(element);
                proof {
                    assert(symbols@ =~= pre_syms.push(element));
                }
                let mut k: u32 = 1;
                while k < level_length
                    invariant
                        self.wf(),
                        self.raw() == old(self).raw(),
                        1 <= k <= level_length,
                        symbols@.len() == levels_sum(levels, index as int) + k,
                        spec_symbols_phase(reader, s1, levels, 0, Seq::empty()) == (match
                            spec_level_syms(
                            reader,
                            self.bits(),
                            element,
                            (level_length - k) as u32,
                            symbols@,
                        ) {
                            Decoded::Done { value: acc2, rest: rest2 } => spec_symbols_phase(
                                reader,
                                rest2,
                                levels,
                                index as int + 1,
                                acc2,
                            ),
                            Decoded::Fail { err } => Decoded::Fail { err },
                        }),
                    decreases level_length - k,
                {
                    let ghost pre_inner_syms = symbols@;
                    element = match reader.read_next(self, element) {
                        Ok(v) => v,
                        Err(e) => {
                            return Err(e);
                        },
                    };
                    symbols.push(element);
                    proof {
                        assert(symbols@ =~= pre_inner_syms.push(element));
                    }
                    k = k + 1;
                }
            }
            index = index + 1;
        }
        proof {
            assert(spec_symbols_phase(reader, s1, levels, 0, Seq::empty()) == (Decoded::Done {
                value: symbols@,
                rest: self.bits(),
            }));
        }
        let table = DefinedHuffmanTable { level_indexes, symbols };
        proof {
            lemma_built_table_matches(&table, DefinedShape { levels, symbols: table.symbols@ });
        }
        Ok(table)
    }
}

pub proof fn lemma_levels_sum_nonneg_pub(levels: Seq<u32>, upto: int)
    ensures
        levels_sum(levels, upto) >= 0,
    decreases upto,
{
    if upto > 0 {
        lemma_levels_sum_nonneg_pub(levels, upto - 1);
    }
}

/// The level-length protocol's bookkeeping: from position `i` on, each
/// length is at most the assignable remainder `m`, which doubles after
/// every level and reaches zero exactly at the end.
pub open spec fn chain_ok(levels: Seq<u32>, i: int, m: int) -> bool
    decreases levels.len() - i,
{
    if i < 0 || i >= levels.len() {
        m == 0
    } else {
        levels[i] <= m && chain_ok(levels, i + 1, (m - levels[i]) * 2)
    }
}

/// What the level-length phase guarantees of its output.
proof fn lemma_levels_chain(s: Seq<bool>, maxv: u32, acc: Seq<u32>)
    ensures
        match spec_levels(s, maxv, acc) {
            Decoded::Done { value: levels, rest } => levels.len() >= acc.len() && levels.take(
                acc.len() as int,
            ) == acc && chain_ok(levels, acc.len() as int, maxv as int),
            Decoded::Fail { .. } => true,
        },
    decreases s.len(),
{
    if maxv == 0 {
        match spec_levels(s, maxv, acc) {
            Decoded::Done { value: levels, rest } => {
                assert(levels.take(acc.len() as int) =~= acc);
            },
            Decoded::Fail { .. } => {},
        }
    } else if maxv > 0x7FFFFFFFu32 {
    } else {
        lemma_ranged_zero_count(maxv);
        lemma_read_symbol_consumes(&spec_ranged(0, maxv), s);
        match spec_read_symbol(&spec_ranged(0, maxv), s) {
            Decoded::Fail { err } => {},
            Decoded::Done { value: l, rest } => {
                if l <= maxv {
                    lemma_levels_chain(rest, ((maxv - l) * 2) as u32, acc.push(l));
                    match spec_levels(rest, ((maxv - l) * 2) as u32, acc.push(l)) {
                        Decoded::Done { value: levels, rest: r2 } => {
                            assert(levels.take(acc.push(l).len() as int) == acc.push(l));
                            assert(levels.take(acc.len() as int) =~= acc) by {
                                assert(forall|j: int|
                                    0 <= j < acc.len() ==> levels.take(acc.push(l).len() as int)[j]
                                        == #[trigger] levels[j]);
                            }
                            assert(levels[acc.len() as int] == acc.push(l)[acc.len() as int]);
                        },
                        Decoded::Fail { .. } => {},
                    }
                }
            },
        }
    }
}

/// Kraft weight of the levels from `i` on: `Σ_b ℓ_b · 2^(B−b)` with `B`
/// the deepest level.
pub open spec fn kraft_from(levels: Seq<u32>, i: int) -> int
    decreases levels.len() - i,
{
    if i < 0 || i >= levels.len() {
        0
    } else {
        (levels[i] as int) * (pow2((levels.len() - 1 - i) as nat) as int) + kraft_from(
            levels,
            i + 1,
        )
    }
}

/// A chain that uses the codespace exactly has Kraft weight `m·2^(B−i)`.
proof fn lemma_chain_kraft(levels: Seq<u32>, i: int, m: int)
    requires
        0 <= i < levels.len(),
        chain_ok(levels, i, m),
    ensures
        kraft_from(levels, i) == m * (pow2((levels.len() - 1 - i) as nat) as int),
    decreases levels.len() - i,
{
    let l = levels[i] as int;
    assert(levels[i] <= m && chain_ok(levels, i + 1, (m - l) * 2));
    if i == levels.len() - 1 {
        assert((m - l) * 2 == 0);
        assert(m == l) by (nonlinear_arith)
            requires
                (m - l) * 2 == 0,
        ;
        lemma2_to64();
        assert(kraft_from(levels, i + 1) == 0);
        assert((levels.len() - 1 - i) as nat == 0);
        assert(kraft_from(levels, i) == l * (pow2(0) as int) + 0);
        assert(m * (pow2(0) as int) == m) by (nonlinear_arith)
            requires
                pow2(0) == 1,
        ;
    } else {
        lemma_chain_kraft(levels, i + 1, (m - l) * 2);
        let e = (levels.len() - 1 - i) as nat;
        assert(e >= 1);
        lemma_pow2_unfold(e);
        let p = pow2((e - 1) as nat) as int;
        assert((levels.len() - 1 - (i + 1)) as nat == (e - 1) as nat);
        assert(kraft_from(levels, i + 1) == ((m - l) * 2) * p);
        assert(kraft_from(levels, i) == l * (pow2(e) as int) + kraft_from(levels, i + 1));
        assert(pow2(e) as int == 2 * p);
        assert(l * (2 * p) + ((m - l) * 2) * p == m * (2 * p)) by (nonlinear_arith);
        assert(kraft_from(levels, i) == m * (pow2(e) as int));
    }
}

/// Every symbol run of one level adds exactly its count of symbols.
proof fn lemma_level_syms_count<S, R: ElementReader<S>>(
    r: &R,
    s: Seq<bool>,
    previous: S,
    k: u32,
    acc: Seq<S>,
)
    ensures
        match spec_level_syms(r, s, previous, k, acc) {
            Decoded::Done { value, rest } => value.len() == acc.len() + k,
            Decoded::Fail { .. } => true,
        },
    decreases k,
{
    if k > 0 {
        match r.spec_next(s, previous) {
            Decoded::Fail { err } => {},
            Decoded::Done { value, rest } => {
                lemma_level_syms_count(r, rest, value, (k - 1) as u32, acc.push(value));
            },
        }
    }
}

/// The symbol phase adds exactly the sum of the level sizes.
proof fn lemma_symbols_phase_count<S, R: ElementReader<S>>(
    r: &R,
    s: Seq<bool>,
    levels: Seq<u32>,
    idx: int,
    acc: Seq<S>,
)
    requires
        0 <= idx <= levels.len(),
    ensures
        match spec_symbols_phase(r, s, levels, idx, acc) {
            Decoded::Done { value, rest } => value.len() == acc.len() + levels_sum(
                levels,
                levels.len() as int,
            ) - levels_sum(levels, idx),
            Decoded::Fail { .. } => true,
        },
    decreases levels.len() - idx,
{
    if idx < levels.len() {
        let l = levels[idx];
        if l == 0 {
            lemma_symbols_phase_count(r, s, levels, idx + 1, acc);
        } else {
            match r.spec_first(s) {
                Decoded::Fail { err } => {},
                Decoded::Done { value, rest } => {
                    lemma_level_syms_count(r, rest, value, (l - 1) as u32, acc.push(value));
                    match spec_level_syms(r, rest, value, (l - 1) as u32, acc.push(value)) {
                        Decoded::Fail { err } => {},
                        Decoded::Done { value: acc2, rest: rest2 } => {
                            lemma_symbols_phase_count(r, rest2, levels, idx + 1, acc2);
                        },
                    }
                },
            }
        }
    }
}

/// Law: for every table the codec decodes, the level-length sum equals
/// the symbol count, and the level lengths are feasible: the Kraft
/// weight `Σ_b ℓ_b · 2^(B−b)` does not exceed `2^B` for the deepest
/// length `B` (the protocol in fact uses the codespace exactly).
pub proof fn lemma_table_codec_shape<S, R: ElementReader<S>>(r: &R, s: Seq<bool>)
    ensures
        match spec_read_table(r, s) {
            Decoded::Done { value: shape, rest } => {
                &&& shape.levels.len() > 0
                &&& shape.symbols.len() == levels_sum(shape.levels, shape.levels.len() as int)
                &&& kraft_from(shape.levels, 0) == pow2((shape.levels.len() - 1) as nat)
                &&& kraft_from(shape.levels, 0) <= pow2((shape.levels.len() - 1) as nat)
            },
            Decoded::Fail { .. } => true,
        },
{
    lemma_levels_chain(s, 1, Seq::empty());
    match spec_levels(s, 1, Seq::empty()) {
        Decoded::Fail { err } => {},
        Decoded::Done { value: levels, rest } => {
            assert(levels.len() > 0) by {
                if levels.len() == 0 {
                    assert(chain_ok(levels, 0, 1));
                }
            }
            lemma_chain_kraft(levels, 0, 1);
            if levels_sum(levels, levels.len() as int) <= 0xFFFFFFFF {
                lemma_symbols_phase_count(r, rest, levels, 0, Seq::<S>::empty());
            }
        },
    }
}


/// A table assembled from level offsets that are the partial sums of the
/// level sizes realises exactly the shape of those levels and symbols.
proof fn lemma_built_table_matches<S: Copy>(t: &DefinedHuffmanTable<S>, m: DefinedShape<S>)
    requires
        m.levels.len() > 0,
        t.level_indexes@.len() == m.levels.len() - 1,
        t.symbols@ == m.symbols,
        t.symbols@.len() == levels_sum(m.levels, m.levels.len() as int),
        t.symbols@.len() <= 0xFFFFFFFF,
        forall|j: int|
            0 <= j < t.level_indexes@.len() ==> #[trigger] t.level_indexes@[j] == levels_sum(
                m.levels,
                j + 1,
            ),
    ensures
        t.wf(),
        table_matches_shape(t, m),
{
    assert forall|j: int| 0 <= j < t.level_indexes@.len() implies #[trigger] t.level_indexes@[j]
        <= t.symbols@.len() by {
        lemma_levels_sum_mono(m.levels, j + 1, m.levels.len() as int);
    }
    assert forall|i: int, j: int|
        0 <= i <= j < t.level_indexes@.len() implies #[trigger] t.level_indexes@[i]
        <= #[trigger] t.level_indexes@[j] by {
        lemma_levels_sum_mono(m.levels, i + 1, j + 1);
    }
    assert forall|b: u32| #[trigger] t.count(b) == m.count(b) by {
        lemma_level_bounds(t, m, b);
    }
    assert forall|b: u32, i: u32| i < m.count(b) implies #[trigger] t.symbol(b, i) == m.symbol(
        b,
        i,
    ) by {
        lemma_level_bounds(t, m, b);
        assert(t.level_lo(b) == levels_sum(m.levels, b as int));
    }
}

/// The level bounds of a table built from partial sums.
proof fn lemma_level_bounds<S>(t: &DefinedHuffmanTable<S>, m: DefinedShape<S>, b: u32)
    requires
        m.levels.len() > 0,
        t.level_indexes@.len() == m.levels.len() - 1,
        t.symbols@ == m.symbols,
        t.symbols@.len() == levels_sum(m.levels, m.levels.len() as int),
        t.symbols@.len() <= 0xFFFFFFFF,
        forall|j: int|
            0 <= j < t.level_indexes@.len() ==> #[trigger] t.level_indexes@[j] == levels_sum(
                m.levels,
                j + 1,
            ),
    ensures
        (b as int) < m.levels.len() ==> t.level_lo(b) == levels_sum(m.levels, b as int)
            && t.level_hi(b) == levels_sum(m.levels, b as int + 1),
        t.count(b) == m.count(b),
{
    lemma_levels_sum_nonneg_pub(m.levels, b as int);
    if (b as int) < m.levels.len() {
        assert(t.level_hi(b) - t.level_lo(b) == m.levels[b as int]);
        lemma_levels_sum_mono(m.levels, b as int, m.levels.len() as int);
    }
}

} // verus!
