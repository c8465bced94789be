//! Error taxonomy of the decoder, and the raw-byte preamble check.

use vstd::prelude::*;
use crate::bits::InputBitStream;

verus! {

/// Everything that can go wrong while decoding a stream.
#[derive(Clone, Copy, Debug, PartialEq, Eq, Structural)]
pub enum ReadError {
    /// The underlying byte source failed (only produced by callers that
    /// wrap an actual I/O source; in-memory decoding never raises it).
    IoError,
    /// The byte source ran out in the middle of a decode.
    UnexpectedEndOfFile,
    /// A raw byte of the preamble did not match the expected value.
    UnexpectedByte { expected: u8, actual: u8, pos: usize },
    /// A decoded character value is not a Unicode scalar value.
    InvalidCodepoint,
    /// A table was asked for a symbol at a bit-length/index outside its support.
    InvalidTableInput,
    /// A ranged table was asked for with an empty range.
    InvalidRange,
    /// The stream describes a shape the format leaves undefined
    /// (zero symbol arrays).
    NotImplemented,
    /// The stream is structurally invalid: a value out of the range the
    /// format allows at that point, or beyond what the decoder can represent.
    FormatViolation,
}

/// Outcome of matching `expected` against `data` starting at `pos`:
/// the position after the match, or the error the byte-wise check raises.
pub open spec fn spec_match_bytes(data: Seq<u8>, pos: int, expected: Seq<u8>) -> Result<int, ReadError>
    decreases expected.len(),
{
    if expected.len() == 0 {
        Ok(pos)
    } else if pos >= data.len() {
        Err(ReadError::UnexpectedEndOfFile)
    } else if data[pos] != expected[0] {
        Err(ReadError::UnexpectedByte { expected: expected[0], actual: data[pos], pos: pos as usize })
    } else {
        spec_match_bytes(data, pos + 1, expected.drop_first())
    }
}

/// Reads one raw byte and checks it against `value`.
pub fn assert_next_is_same_u8(stream: &mut InputBitStream, value: u8) -> (r: Result<bool, ReadError>)
    requires
        old(stream).wf(),
        old(stream).aligned(),
    ensures
        final(stream).wf(),
        final(stream).aligned(),
        final(stream).raw() == old(stream).raw(),
        match spec_match_bytes(old(stream).raw(), old(stream).pos(), seq![value]) {
            Ok(p) => r == Ok::<bool, ReadError>(true) && final(stream).pos() == p,
            Err(e) => r == Err::<bool, ReadError>(e),
        },
{
    let ghost data = stream.raw();
    let here = stream.position();
    match stream.read_u8() {
        Err(e) => Err(e),
        Ok(x) => {
            if x == value {
                proof {
                    assert(spec_match_bytes(data, here as int, seq![value])
                        == spec_match_bytes(data, here + 1, seq![value].drop_first()));
                    assert(seq![value].drop_first() =~= Seq::<u8>::empty());
                }
                Ok(true)
            } else {
                Err(ReadError::UnexpectedByte { expected: value, actual: x, pos: here })
            }
        },
    }
}

/// Reads `expected.len()` raw bytes and checks them one by one.
pub fn assert_next_is_same_text(stream: &mut InputBitStream, expected: &[u8]) -> (r: Result<bool, ReadError>)
    requires
        old(stream).wf(),
        old(stream).aligned(),
    ensures
        final(stream).wf(),
        final(stream).aligned(),
        final(stream).raw() == old(stream).raw(),
        match spec_match_bytes(old(stream).raw(), old(stream).pos(), expected@) {
            Ok(p) => r == Ok::<bool, ReadError>(true) && final(stream).pos() == p,
            Err(e) => r == Err::<bool, ReadError>(e),
        },
{
    let ghost data = stream.raw();
    proof {
        assert(expected@.skip(0) =~= expected@);
    }
    let mut i: usize = 0;
    while i < expected.len()
        invariant
            stream.wf(),
            stream.aligned(),
            stream.raw() == data,
            data == old(stream).raw(),
            i <= expected@.len(),
            spec_match_bytes(data, old(stream).pos(), expected@)
                == spec_match_bytes(data, stream.pos(), expected@.skip(i as int)),
        decreases expected@.len() - i,
    {
        let ghost pos = stream.pos();
        let value = expected[i];
        match assert_next_is_same_u8(stream, value) {
            Err(e) => {
                proof {
                    let ex = expected@.skip(i as int);
                    assert(ex[0] == value);
                    if pos >= data.len() {
                        assert(spec_match_bytes(data, pos, seq![value])
                            == Err::<int, ReadError>(ReadError::UnexpectedEndOfFile));
                        assert(spec_match_bytes(data, pos, ex)
                            == Err::<int, ReadError>(ReadError::UnexpectedEndOfFile));
                    } else if data[pos] != value {
                        let err = ReadError::UnexpectedByte {
                            expected: value,
                            actual: data[pos],
                            pos: pos as usize,
                        };
                        assert(spec_match_bytes(data, pos, seq![value]) == Err::<int, ReadError>(err));
                        assert(spec_match_bytes(data, pos, ex) == Err::<int, ReadError>(err));
                    } else {
                        assert(seq![value][0] == value);
                        assert(seq![value].drop_first() =~= Seq::<u8>::empty());
                        assert(spec_match_bytes(data, pos + 1, Seq::<u8>::empty())
                            == Ok::<int, ReadError>(pos + 1));
                        assert(spec_match_bytes(data, pos, seq![value]) == Ok::<int, ReadError>(pos + 1));
                        assert(false);
                    }
                }
                return Err(e);
            },
            Ok(_) => {
                proof {
                    let ex = expected@.skip(i as int);
                    assert(ex[0] == value);
                    if pos < data.len() && data[pos] == value {
                        assert(ex.drop_first() =~= expected@.skip(i + 1));
                        assert(spec_match_bytes(data, pos, ex)
                            == spec_match_bytes(data, pos + 1, expected@.skip(i + 1)));
                        assert(seq![value][0] == value);
                        assert(seq![value].drop_first() =~= Seq::<u8>::empty());
                        assert(spec_match_bytes(data, pos + 1, Seq::<u8>::empty())
                            == Ok::<int, ReadError>(pos + 1));
                        assert(spec_match_bytes(data, pos, seq![value]) == Ok::<int, ReadError>(pos + 1));
                    } else {
                        if pos >= data.len() {
                            assert(spec_match_bytes(data, pos, seq![value])
                                == Err::<int, ReadError>(ReadError::UnexpectedEndOfFile));
                        } else {
                            assert(spec_match_bytes(data, pos, seq![value]) matches Err(_));
                        }
                        assert(false);
                    }
                }
                i = i + 1;
            },
        }
    }
    proof {
        assert(expected@.skip(i as int) =~= Seq::<u8>::empty());
    }
    Ok(true)
}

/// A successful byte match ends exactly past the expected bytes.
pub proof fn lemma_match_bytes_pos(data: Seq<u8>, pos: int, expected: Seq<u8>)
    ensures
        spec_match_bytes(data, pos, expected) matches Ok(p) ==> p == pos + expected.len(),
    decreases expected.len(),
{
    if expected.len() > 0 && pos < data.len() && data[pos] == expected[0] {
        lemma_match_bytes_pos(data, pos + 1, expected.drop_first());
    }
}

} // verus!
