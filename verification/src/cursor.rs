//! Position-tracked reader over an in-memory save buffer, its append-only
//! writer counterpart, and the fixed-width little-endian wire encodings that
//! both sides share.
//!
//! The spec functions here (`le_u32`, `le_i32`, `bool_word`, `le_block`) are
//! the ground truth of the wire format: every decoder ensures that the bytes
//! it consumed are the encoding of what it returned, and every encoder
//! ensures that it appended exactly that encoding. Round-trip fidelity of the
//! whole engine is built from these contracts.

use vstd::prelude::*;

use crate::error::DecodeError;

verus! {

/// The four little-endian bytes of a 32-bit word.
pub open spec fn le_u32(v: u32) -> Seq<u8> {
    seq![
        (v & 0xff) as u8,
        ((v >> 8) & 0xff) as u8,
        ((v >> 16) & 0xff) as u8,
        ((v >> 24) & 0xff) as u8,
    ]
}

/// Signed 32-bit values are written as their two's-complement word.
pub open spec fn le_i32(v: i32) -> Seq<u8> {
    le_u32(v as u32)
}

/// Booleans travel as a whole 32-bit word: zero for false, one for true.
pub open spec fn bool_word(b: bool) -> u32 {
    if b {
        1u32
    } else {
        0u32
    }
}

/// A length-prefixed block: a 32-bit byte count, then the raw bytes.
pub open spec fn le_block(s: Seq<u8>) -> Seq<u8> {
    le_u32(s.len() as u32) + s
}

/// Reassembling a word from its four little-endian bytes is the inverse of
/// `le_u32`.
pub proof fn lemma_le_u32_reassemble(b0: u8, b1: u8, b2: u8, b3: u8)
    ensures
        le_u32(
            (b0 as u32) | ((b1 as u32) << 8) | ((b2 as u32) << 16) | ((b3 as u32) << 24),
        ) =~= seq![b0, b1, b2, b3],
{
    let v = (b0 as u32) | ((b1 as u32) << 8) | ((b2 as u32) << 16) | ((b3 as u32) << 24);
    assert((v & 0xff) as u8 == b0 && ((v >> 8) & 0xff) as u8 == b1 && ((v >> 16) & 0xff) as u8
        == b2 && ((v >> 24) & 0xff) as u8 == b3) by (bit_vector)
        requires
            v == (b0 as u32) | ((b1 as u32) << 8) | ((b2 as u32) << 16) | ((b3 as u32) << 24),
    ;
}

/// Two words with the same little-endian bytes are the same word.
pub proof fn lemma_le_u32_injective(a: u32, b: u32)
    requires
        le_u32(a) == le_u32(b),
    ensures
        a == b,
{
    assert(le_u32(a)[0] == le_u32(b)[0] && le_u32(a)[1] == le_u32(b)[1] && le_u32(a)[2] == le_u32(
        b,
    )[2] && le_u32(a)[3] == le_u32(b)[3]);
    assert((a & 0xff) as u8 == (b & 0xff) as u8 && ((a >> 8) & 0xff) as u8 == ((b >> 8) & 0xff) as
        u8 && ((a >> 16) & 0xff) as u8 == ((b >> 16) & 0xff) as u8 && ((a >> 24) & 0xff) as u8 == ((
    b >> 24) & 0xff) as u8 ==> a == b) by (bit_vector);
}

/// Forward-only reader over one in-memory save buffer.
///
/// Its position only ever moves forward, and every successful read advances
/// it by exactly the number of bytes consumed. Running past the end of the
/// buffer is terminal for the load.
pub struct SaveCursor {
    buf: Vec<u8>,
    pos: usize,
}

impl SaveCursor {
    /// The whole underlying buffer; reading never changes it.
    pub closed spec fn bytes(&self) -> Seq<u8> {
        self.buf@
    }

    /// The current read position.
    pub closed spec fn pos(&self) -> int {
        self.pos as int
    }

    /// The position never runs past the end of the buffer.
    pub open spec fn wf(&self) -> bool {
        0 <= self.pos() <= self.bytes().len()
    }

    /// How many bytes are still unread.
    pub open spec fn remaining(&self) -> int {
        self.bytes().len() - self.pos()
    }

    pub fn new(buf: Vec<u8>) -> (r: SaveCursor)
        ensures
            r.wf(),
            r.bytes() == buf@,
            r.pos() == 0,
    {
        SaveCursor { buf, pos: 0 }
    }

    pub fn position(&self) -> (r: usize)
        ensures
            r == self.pos(),
    {
        self.pos
    }

    /// Moves the position back to an earlier point. Only error paths use
    /// this, to leave the cursor where the failing item began.
    pub(crate) fn rewind_to(&mut self, p: usize)
        requires
            old(self).wf(),
            p <= old(self).pos(),
        ensures
            final(self).wf(),
            final(self).bytes() == old(self).bytes(),
            final(self).pos() == p,
    {
        self.pos = p;
    }

    /// Reads the single next byte.
    pub fn read_u8(&mut self) -> (r: Result<u8, DecodeError>)
        requires
            old(self).wf(),
        ensures
            final(self).wf(),
            final(self).bytes() == old(self).bytes(),
            match r {
                Ok(b) => old(self).remaining() >= 1 && final(self).pos() == old(self).pos() + 1
                    && b == old(self).bytes()[old(self).pos()],
                Err(e) => e == DecodeError::OutOfBounds && old(self).remaining() < 1 && *final(self)
                    == *old(self),
            },
    {
        if self.pos < self.buf.len() {
            let b = self.buf[self.pos];
            self.pos = self.pos + 1;
            Ok(b)
        } else {
            Err(DecodeError::OutOfBounds)
        }
    }

    /// Reads the next `n` bytes verbatim.
    pub fn read_exact(&mut self, n: usize) -> (r: Result<Vec<u8>, DecodeError>)
        requires
            old(self).wf(),
        ensures
            final(self).wf(),
            final(self).bytes() == old(self).bytes(),
            match r {
                Ok(v) => old(self).remaining() >= n && final(self).pos() == old(self).pos() + n
                    && v@ == old(self).bytes().subrange(old(self).pos(), old(self).pos() + n),
                Err(e) => e == DecodeError::OutOfBounds && old(self).remaining() < n && *final(self)
                    == *old(self),
            },
    {
        if n <= self.buf.len() - self.pos {
            let mut v: Vec<u8> = Vec::new();
            let mut i: usize = 0;
            while i < n
                invariant
                    i <= n,
                    self.pos + n <= self.buf.len(),
                    v@ == self.buf@.subrange(self.pos as int, self.pos + i),
                decreases n - i,
            {
                v.push(self.buf[self.pos + i]);
                i = i + 1;
                assert(v@ =~= self.buf@.subrange(self.pos as int, self.pos + i));
            }
            self.pos = self.pos + n;
            Ok(v)
        } else {
            Err(DecodeError::OutOfBounds)
        }
    }

    /// Reads a little-endian 32-bit unsigned word.
    pub fn read_u32(&mut self) -> (r: Result<u32, DecodeError>)
        requires
            old(self).wf(),
        ensures
            final(self).wf(),
            final(self).bytes() == old(self).bytes(),
            match r {
                Ok(v) => old(self).remaining() >= 4 && final(self).pos() == old(self).pos() + 4
                    && le_u32(v) == old(self).bytes().subrange(old(self).pos(), old(self).pos() + 4),
                Err(e) => e == DecodeError::OutOfBounds && old(self).remaining() < 4 && *final(self)
                    == *old(self),
            },
    {
        if 4 <= self.buf.len() - self.pos {
            let b0 = self.buf[self.pos];
            let b1 = self.buf[self.pos + 1];
            let b2 = self.buf[self.pos + 2];
            let b3 = self.buf[self.pos + 3];
            let v = (b0 as u32) | ((b1 as u32) << 8) | ((b2 as u32) << 16) | ((b3 as u32) << 24);
            proof {
                lemma_le_u32_reassemble(b0, b1, b2, b3);
                assert(old(self).bytes().subrange(old(self).pos(), old(self).pos() + 4) =~= seq![
                    b0,
                    b1,
                    b2,
                    b3,
                ]);
            }
            self.pos = self.pos + 4;
            Ok(v)
        } else {
            Err(DecodeError::OutOfBounds)
        }
    }

    /// Reads a little-endian 32-bit signed word.
    pub fn read_i32(&mut self) -> (r: Result<i32, DecodeError>)
        requires
            old(self).wf(),
        ensures
            final(self).wf(),
            final(self).bytes() == old(self).bytes(),
            match r {
                Ok(v) => old(self).remaining() >= 4 && final(self).pos() == old(self).pos() + 4
                    && le_i32(v) == old(self).bytes().subrange(old(self).pos(), old(self).pos() + 4),
                Err(e) => e == DecodeError::OutOfBounds && old(self).remaining() < 4 && *final(self)
                    == *old(self),
            },
    {
        match self.read_u32() {
            Ok(v) => {
                let s = v as i32;
                proof {
                    assert(s as u32 == v) by (bit_vector)
                        requires
                            s == v as i32,
                    ;
                }
                Ok(s)
            },
            Err(e) => Err(e),
        }
    }

    /// Reads a boolean stored as a whole word; any word other than zero or
    /// one means the file is corrupt. Success is owed whenever the next
    /// four bytes encode a boolean word.
    pub fn read_bool_word(&mut self) -> (r: Result<bool, DecodeError>)
        requires
            old(self).wf(),
        ensures
            final(self).wf(),
            final(self).bytes() == old(self).bytes(),
            match r {
                Ok(b) => old(self).remaining() >= 4 && final(self).pos() == old(self).pos() + 4
                    && le_u32(bool_word(b)) == old(self).bytes().subrange(
                    old(self).pos(),
                    old(self).pos() + 4,
                ),
                Err(e) => final(self).pos() == old(self).pos() && (e == DecodeError::OutOfBounds
                    ==> old(self).remaining() < 4) && (e == DecodeError::Corrupt ==> old(
                    self,
                ).remaining() >= 4 && (forall|b: bool|
                    le_u32(bool_word(b)) != old(self).bytes().subrange(
                        old(self).pos(),
                        old(self).pos() + 4,
                    ))) && (e == DecodeError::OutOfBounds || e == DecodeError::Corrupt),
            },
    {
        let saved = self.pos;
        match self.read_u32() {
            Ok(w) => {
                if w == 0 {
                    Ok(false)
                } else if w == 1 {
                    Ok(true)
                } else {
                    proof {
                        assert forall|b: bool|
                            le_u32(bool_word(b)) != old(self).bytes().subrange(
                                old(self).pos(),
                                old(self).pos() + 4,
                            ) by {
                            if le_u32(bool_word(b)) == old(self).bytes().subrange(
                                old(self).pos(),
                                old(self).pos() + 4,
                            ) {
                                lemma_le_u32_injective(bool_word(b), w);
                            }
                        }
                    }
                    self.pos = saved;
                    Err(DecodeError::Corrupt)
                }
            },
            Err(e) => Err(e),
        }
    }

    /// Reads a length-prefixed block of raw bytes.
    pub fn read_block(&mut self) -> (r: Result<Vec<u8>, DecodeError>)
        requires
            old(self).wf(),
        ensures
            final(self).wf(),
            final(self).bytes() == old(self).bytes(),
            match r {
                Ok(v) => final(self).pos() == old(self).pos() + 4 + v@.len() && v@.len()
                    <= u32::MAX && old(self).bytes().subrange(old(self).pos(), final(self).pos())
                    == le_block(v@),
                Err(e) => e == DecodeError::OutOfBounds && final(self).pos() == old(self).pos() && (
                old(self).remaining() < 4 || exists|m: u32|
                    #[trigger] le_u32(m) == old(self).bytes().subrange(
                        old(self).pos(),
                        old(self).pos() + 4,
                    ) && old(self).remaining() < 4 + m),
            },
    {
        let saved = self.pos;
        let n = match self.read_u32() {
            Ok(n) => n,
            Err(e) => {
                return Err(e);
            },
        };
        match self.read_exact(n as usize) {
            Ok(v) => {
                proof {
                    assert(n as usize as int == n as int);
                    assert(v@.len() == n);
                    assert(le_u32(v@.len() as u32) == le_u32(n)) by {
                        assert(v@.len() as u32 == n);
                    }
                    assert(old(self).bytes().subrange(old(self).pos(), old(self).pos() + 4 + n)
                        =~= old(self).bytes().subrange(old(self).pos(), old(self).pos() + 4) + old(
                        self,
                    ).bytes().subrange(old(self).pos() + 4, old(self).pos() + 4 + n));
                }
                Ok(v)
            },
            Err(e) => {
                proof {
                    assert(le_u32(n) == old(self).bytes().subrange(
                        old(self).pos(),
                        old(self).pos() + 4,
                    ));
                }
                self.pos = saved;
                Err(e)
            },
        }
    }
}

/// Appends one byte to the output buffer.
pub fn write_u8(out: &mut Vec<u8>, b: u8)
    ensures
        final(out)@ == old(out)@.push(b),
{
    out.push(b);
}

/// Appends the little-endian bytes of a 32-bit unsigned word.
pub fn write_u32(out: &mut Vec<u8>, v: u32)
    ensures
        final(out)@ == old(out)@ + le_u32(v),
{
    out.push((v & 0xff) as u8);
    out.push(((v >> 8) & 0xff) as u8);
    out.push(((v >> 16) & 0xff) as u8);
    out.push(((v >> 24) & 0xff) as u8);
    assert(out@ =~= old(out)@ + le_u32(v));
}

/// Appends the little-endian bytes of a 32-bit signed word.
pub fn write_i32(out: &mut Vec<u8>, v: i32)
    ensures
        final(out)@ == old(out)@ + le_i32(v),
{
    write_u32(out, v as u32);
}

/// Appends a boolean as a whole word.
pub fn write_bool_word(out: &mut Vec<u8>, b: bool)
    ensures
        final(out)@ == old(out)@ + le_u32(bool_word(b)),
{
    if b {
        write_u32(out, 1);
    } else {
        write_u32(out, 0);
    }
}

/// Appends raw bytes verbatim.
pub fn write_bytes(out: &mut Vec<u8>, data: &Vec<u8>)
    ensures
        final(out)@ == old(out)@ + data@,
{
    let ghost orig: Seq<u8> = out@;
    let mut i: usize = 0;
    while i < data.len()
        invariant
            i <= data.len(),
            out@ == orig + data@.subrange(0, i as int),
        decreases data.len() - i,
    {
        out.push(data[i]);
        i = i + 1;
        assert(out@ =~= orig + data@.subrange(0, i as int));
    }
    assert(out@ =~= orig + data@);
}

/// Appends a length-prefixed block; the block must fit its 32-bit count.
pub fn write_block(out: &mut Vec<u8>, data: &Vec<u8>) -> (r: Result<(), DecodeError>)
    ensures
        match r {
            Ok(()) => data@.len() <= u32::MAX && final(out)@ == old(out)@ + le_block(data@),
            Err(e) => e == DecodeError::Corrupt && data@.len() > u32::MAX && *final(out) == *old(
                out,
            ),
        },
{
    if data.len() > u32::MAX as usize {
        return Err(DecodeError::Corrupt);
    }
    write_u32(out, data.len() as u32);
    write_bytes(out, data);
    assert(out@ =~= old(out)@ + le_block(data@));
    Ok(())
}

} // verus!
