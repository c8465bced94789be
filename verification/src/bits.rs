//! A least-significant-bit-first stream of single bits over an owned byte
//! buffer. Bit 0 of a byte is delivered before bit 1; a fresh byte is
//! fetched only when the current one is exhausted.

use vstd::prelude::*;
use crate::file_utils::ReadError;

verus! {

/// The `n` low bits of `b`, least significant first.
pub open spec fn low_bits(b: u8, n: nat) -> Seq<bool>
    decreases n,
{
    if n == 0 {
        Seq::empty()
    } else {
        seq![b % 2 == 1] + low_bits(b / 2, (n - 1) as nat)
    }
}

/// All eight bits of `b`, least significant first.
pub open spec fn byte_bits(b: u8) -> Seq<bool> {
    low_bits(b, 8)
}

/// The bits of a byte sequence, each byte least significant bit first.
pub open spec fn bytes_bits(s: Seq<u8>) -> Seq<bool>
    decreases s.len(),
{
    if s.len() == 0 {
        Seq::empty()
    } else {
        byte_bits(s[0]) + bytes_bits(s.drop_first())
    }
}

pub struct InputBitStream {
    data: Vec<u8>,
    byte_pos: usize,
    buffer: u8,
    remaining: u32,
}

impl InputBitStream {
    pub closed spec fn wf(&self) -> bool {
        &&& self.byte_pos <= self.data@.len()
        &&& self.remaining <= 8
    }

    /// The bits this stream has yet to deliver.
    pub closed spec fn bits(&self) -> Seq<bool> {
        low_bits(self.buffer, self.remaining as nat)
            + bytes_bits(self.data@.skip(self.byte_pos as int))
    }

    /// True when no partly consumed byte is buffered, so the next read
    /// starts at a byte boundary.
    pub closed spec fn aligned(&self) -> bool {
        self.remaining == 0
    }

    /// The underlying byte buffer.
    pub closed spec fn raw(&self) -> Seq<u8> {
        self.data@
    }

    /// The index of the next byte to be fetched.
    pub closed spec fn pos(&self) -> int {
        self.byte_pos as int
    }

    pub fn new(data: Vec<u8>) -> (r: InputBitStream)
        ensures
            r.wf(),
            r.aligned(),
            r.raw() == data@,
            r.pos() == 0,
            r.bits() == bytes_bits(data@),
    {
        let r = InputBitStream { data, byte_pos: 0, buffer: 0, remaining: 0 };
        proof {
            assert(r.data@.skip(0) =~= r.data@);
            assert(r.bits() =~= bytes_bits(r.data@));
        }
        r
    }

    /// The current byte position, for error reports.
    pub fn position(&self) -> (r: usize)
        ensures
            r as int == self.pos(),
    {
        self.byte_pos
    }

    /// Reads one raw byte; only meaningful on a byte boundary.
    pub fn read_u8(&mut self) -> (r: Result<u8, ReadError>)
        requires
            old(self).wf(),
            old(self).aligned(),
        ensures
            final(self).wf(),
            final(self).aligned(),
            final(self).raw() == old(self).raw(),
            old(self).pos() < old(self).raw().len() ==> r == Ok::<u8, ReadError>(
                old(self).raw()[old(self).pos()],
            ) && final(self).pos() == old(self).pos() + 1,
            old(self).pos() >= old(self).raw().len() ==> r == Err::<u8, ReadError>(
                ReadError::UnexpectedEndOfFile,
            ) && final(self).pos() == old(self).pos(),
    {
        if self.byte_pos >= self.data.len() {
            Err(ReadError::UnexpectedEndOfFile)
        } else {
            let b = self.data[self.byte_pos];
            self.byte_pos = self.byte_pos + 1;
            Ok(b)
        }
    }

    /// Delivers the next bit of the stream.
    pub fn read_boolean(&mut self) -> (r: Result<bool, ReadError>)
        requires
            old(self).wf(),
        ensures
            final(self).wf(),
            final(self).raw() == old(self).raw(),
            old(self).bits().len() > 0 ==> r == Ok::<bool, ReadError>(old(self).bits()[0])
                && final(self).bits() == old(self).bits().drop_first(),
            old(self).bits().len() == 0 ==> r == Err::<bool, ReadError>(
                ReadError::UnexpectedEndOfFile,
            ) && final(self).bits() == old(self).bits(),
    {
        if self.remaining == 0 {
            if self.byte_pos >= self.data.len() {
                proof {
                    assert(self.data@.skip(self.byte_pos as int) =~= Seq::<u8>::empty());
                    assert(self.bits() =~= Seq::<bool>::empty());
                }
                return Err(ReadError::UnexpectedEndOfFile);
            }
            proof {
                let tail = self.data@.skip(self.byte_pos as int);
                assert(tail.len() > 0);
                assert(tail[0] == self.data@[self.byte_pos as int]);
                assert(tail.drop_first() =~= self.data@.skip(self.byte_pos as int + 1));
                assert(self.bits() =~= bytes_bits(tail));
            }
            self.buffer = self.data[self.byte_pos];
            self.byte_pos = self.byte_pos + 1;
            self.remaining = 8;
            proof {
                assert(self.bits() =~= old(self).bits());
            }
        }
        let ghost pre = *self;
        let result = self.buffer % 2 == 1;
        self.buffer = self.buffer / 2;
        self.remaining = self.remaining - 1;
        proof {
            assert(low_bits(pre.buffer, pre.remaining as nat)
                == seq![pre.buffer % 2 == 1] + low_bits(pre.buffer / 2, (pre.remaining - 1) as nat));
            assert(pre.bits()[0] == result);
            assert(self.bits() =~= pre.bits().drop_first());
            assert(pre.bits() == old(self).bits());
        }
        Ok(result)
    }
}

/// On a byte boundary the stream's bits are exactly the bits of the bytes
/// that remain.
pub proof fn lemma_aligned_bits(s: &InputBitStream)
    requires
        s.wf(),
        s.aligned(),
    ensures
        s.bits() == bytes_bits(s.raw().skip(s.pos())),
{
    assert(s.bits() =~= bytes_bits(s.raw().skip(s.pos())));
}

} // verus!
