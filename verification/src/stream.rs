//! An in-memory byte stream with a position: what the archive is read from
//! and written to.

use crate::error::IoErrorKind;
use crate::varint::{varint_consumed, varint_encode, varint_read, VarintRead};
use integer_encoding::{VarIntReader, VarIntWriter};
use vstd::prelude::*;

verus! {

/// Bytes and a position among them. The position may lie beyond the last
/// byte: reading there finds nothing, writing there fills the gap with zeros.
pub struct ByteCursor {
    pub data: Vec<u8>,
    pub pos: u64,
}

/// What a stream holds from position `pos` on.
pub open spec fn bytes_from(data: Seq<u8>, pos: nat) -> Seq<u8> {
    if pos <= data.len() {
        data.skip(pos as int)
    } else {
        Seq::empty()
    }
}

/// `n` zero bytes.
pub open spec fn zeros(n: nat) -> Seq<u8> {
    Seq::new(n, |i: int| 0u8)
}

/// The stream `data` after `bytes` were written at position `pos`: what lay
/// there is replaced, what lay behind it stays, and a gap before it is zero.
pub open spec fn write_at(data: Seq<u8>, pos: nat, bytes: Seq<u8>) -> Seq<u8> {
    let head = if pos <= data.len() {
        data.take(pos as int)
    } else {
        data + zeros((pos - data.len()) as nat)
    };
    let after = pos + bytes.len();
    let tail = if after <= data.len() {
        data.skip(after as int)
    } else {
        Seq::empty()
    };
    head + bytes + tail
}

/// `integer_encoding::VarIntReader::read_varint` for `usize`, on the bytes
/// `data` from position `pos`. Returns the outcome and the position after
/// it. The crate reads byte by byte up to the first one with a clear top
/// bit; it reports the end of the stream where the bytes run out first, and
/// invalid data where more bytes carry the top bit than a `usize` takes,
/// which it finds when it has read one byte more than that.
#[verifier::external_body]
fn read_varint_at(data: &[u8], pos: u64) -> (r: (Result<usize, IoErrorKind>, u64))
    ensures
        match varint_read(bytes_from(data@, pos as nat)) {
            VarintRead::Value { value, len } => r.0 == Ok::<usize, IoErrorKind>(value),
            VarintRead::Eof => r.0 == Err::<usize, IoErrorKind>(IoErrorKind::UnexpectedEof),
            VarintRead::Unterminated => r.0 == Err::<usize, IoErrorKind>(
                IoErrorKind::InvalidData,
            ),
        },
        r.1 == pos + varint_consumed(bytes_from(data@, pos as nat)),
{
    let mut cursor = std::io::Cursor::new(data);
    cursor.set_position(pos);
    let value = cursor.read_varint::<usize>().map_err(
        |e| match e.kind() {
            std::io::ErrorKind::UnexpectedEof => IoErrorKind::UnexpectedEof,
            std::io::ErrorKind::InvalidData => IoErrorKind::InvalidData,
            _ => IoErrorKind::InvalidInput,
        },
    );
    (value, cursor.position())
}

/// `integer_encoding::VarIntWriter::write_varint` for `usize`, into an empty
/// vector: the bytes that encode `n`.
#[verifier::external_body]
pub(crate) fn varint_bytes(n: usize) -> (out: Vec<u8>)
    ensures
        out@ == varint_encode(n as nat),
{
    let mut out: Vec<u8> = Vec::new();
    let _ = out.write_varint(n);
    out
}

/// Writing one run of bytes behind another is writing the two as one.
pub proof fn lemma_write_at_twice(data: Seq<u8>, pos: nat, a: Seq<u8>, b: Seq<u8>)
    ensures
        write_at(write_at(data, pos, a), pos + a.len(), b) == write_at(data, pos, a + b),
{
    let first = write_at(data, pos, a);
    let both = write_at(first, pos + a.len(), b);
    let once = write_at(data, pos, a + b);
    assert(both.len() == once.len());
    assert forall|i: int| 0 <= i < both.len() implies both[i] == once[i] by {
        if i < pos {
            assert(both[i] == first[i]);
        } else if i < pos + a.len() {
            assert(both[i] == first[i]);
        } else if i < pos + a.len() + b.len() {
        } else {
            assert(both[i] == first[i]);
        }
    }
    assert(both =~= once);
}

/// Adds the bytes `src` at the end of `dst`.
pub fn append_bytes(dst: &mut Vec<u8>, src: &[u8])
    ensures
        final(dst)@ == old(dst)@ + src@,
{
    let mut i: usize = 0;
    while i < src.len()
        invariant
            i <= src@.len(),
            dst@ == old(dst)@ + src@.take(i as int),
        decreases src@.len() - i,
    {
        dst.push(src[i]);
        assert(src@.take(i + 1) == src@.take(i as int).push(src@[i as int]));
        i = i + 1;
    }
    assert(src@.take(src@.len() as int) == src@);
}

impl ByteCursor {
    /// A stream over `data`, positioned at its start.
    pub fn new(data: Vec<u8>) -> (c: Self)
        ensures
            c.data == data,
            c.pos == 0,
    {
        ByteCursor { data, pos: 0 }
    }

    /// The bytes of the stream.
    pub fn into_inner(self) -> (data: Vec<u8>)
        ensures
            data == self.data,
    {
        self.data
    }

    /// What is left to read: the bytes from the position on.
    pub open spec fn remaining(&self) -> Seq<u8> {
        bytes_from(self.data@, self.pos as nat)
    }

    /// The position: how many bytes lie before the next one read or written.
    pub fn stream_position(&self) -> (pos: u64)
        ensures
            pos == self.pos,
    {
        self.pos
    }

    /// Moves the position to `pos` bytes from the start.
    pub fn seek_from_start(&mut self, pos: u64)
        ensures
            final(self).data == old(self).data,
            final(self).pos == pos,
    {
        self.pos = pos;
    }

    /// Moves the position back to the start.
    pub fn rewind(&mut self)
        ensures
            final(self).data == old(self).data,
            final(self).pos == 0,
    {
        self.pos = 0;
    }

    /// Moves the position `n` bytes forward. Fails, and leaves the stream as
    /// it was, if the new position does not fit in 64 bits.
    pub fn seek_forward(&mut self, n: u64) -> (r: Result<u64, IoErrorKind>)
        ensures
            final(self).data == old(self).data,
            old(self).pos + n <= u64::MAX ==> r == Ok::<u64, IoErrorKind>(
                (old(self).pos + n) as u64,
            ) && final(self).pos == old(self).pos + n,
            old(self).pos + n > u64::MAX ==> r == Err::<u64, IoErrorKind>(
                IoErrorKind::InvalidInput,
            ) && final(self).pos == old(self).pos,
    {
        if n > u64::MAX - self.pos {
            return Err(IoErrorKind::InvalidInput);
        }
        self.pos = self.pos + n;
        Ok(self.pos)
    }

    /// Reads one length prefix at the position and moves behind what was
    /// read of it: behind the prefix, to the end of the stream where the
    /// bytes run out, or behind the byte that is one too many.
    pub fn read_varint(&mut self) -> (r: Result<usize, IoErrorKind>)
        ensures
            final(self).data == old(self).data,
            match varint_read(old(self).remaining()) {
                VarintRead::Value { value, len } => r == Ok::<usize, IoErrorKind>(value)
                    && final(self).pos == old(self).pos + len,
                VarintRead::Eof => r == Err::<usize, IoErrorKind>(IoErrorKind::UnexpectedEof),
                VarintRead::Unterminated => r == Err::<usize, IoErrorKind>(
                    IoErrorKind::InvalidData,
                ),
            },
            final(self).pos == old(self).pos + varint_consumed(old(self).remaining()),
    {
        let (value, pos) = read_varint_at(self.data.as_slice(), self.pos);
        self.pos = pos;
        value
    }

    /// Reads exactly `n` bytes at the position and moves behind them. Fails
    /// with `UnexpectedEof` if fewer are left, and then stands at the end of
    /// the stream.
    pub fn read_exact(&mut self, n: usize) -> (r: Result<Vec<u8>, IoErrorKind>)
        ensures
            final(self).data == old(self).data,
            n <= old(self).remaining().len() ==> r is Ok && r->Ok_0@ == old(
                self,
            ).remaining().take(n as int) && final(self).pos == old(self).pos + n,
            n > old(self).remaining().len() ==> r == Err::<Vec<u8>, IoErrorKind>(
                IoErrorKind::UnexpectedEof,
            ) && final(self).pos == old(self).data@.len(),
    {
        let len = self.data.len();
        let left: usize = if self.pos > len as u64 {
            0
        } else {
            len - (self.pos as usize)
        };
        if n > left {
            self.pos = len as u64;
            return Err(IoErrorKind::UnexpectedEof);
        }
        if n == 0 {
            return Ok(Vec::new());
        }
        let start = self.pos as usize;
        let mut out: Vec<u8> = Vec::with_capacity(n);
        let mut i: usize = 0;
        while i < n
            invariant
                i <= n,
                start + n <= self.data.len(),
                out@ == self.data@.subrange(start as int, start + i),
            decreases n - i,
        {
            out.push(self.data[start + i]);
            i = i + 1;
        }
        proof {
            assert(out@ == self.remaining().take(n as int));
        }
        self.pos = (start + n) as u64;
        Ok(out)
    }

    /// Writes `bytes` at the position and moves behind them. What lay there
    /// is overwritten; the stream grows as far as needed. Fails, and writes
    /// nothing, if the end of the write does not fit in a `usize`.
    pub fn write_all(&mut self, bytes: &[u8]) -> (r: Result<(), IoErrorKind>)
        ensures
            old(self).pos + bytes@.len() <= usize::MAX ==> r is Ok && final(self).data@
                == write_at(old(self).data@, old(self).pos as nat, bytes@) && final(self).pos
                == old(self).pos + bytes@.len(),
            old(self).pos + bytes@.len() > usize::MAX ==> r == Err::<(), IoErrorKind>(
                IoErrorKind::InvalidInput,
            ) && *final(self) == *old(self),
    {
        let n = bytes.len();
        if self.pos > usize::MAX as u64 || n > usize::MAX - (self.pos as usize) {
            return Err(IoErrorKind::InvalidInput);
        }
        let start = self.pos as usize;
        let ghost before = self.data@;
        while self.data.len() < start
            invariant
                self.pos == start,
                self.data@.len() <= start || self.data@ == before,
                self.data@.len() >= before.len(),
                self.data@ == before + zeros((self.data@.len() - before.len()) as nat),
            decreases start - self.data.len(),
        {
            self.data.push(0u8);
        }
        let ghost padded = self.data@;
        let mut i: usize = 0;
        while i < n
            invariant
                i <= n,
                n == bytes@.len(),
                start + n <= usize::MAX,
                self.pos == start,
                start <= padded.len(),
                self.data@.len() >= padded.len(),
                self.data@.len() >= start + i,
                self.data@ == padded.take(start as int) + bytes@.take(i as int) + (if start + i
                    <= padded.len() {
                    padded.skip(start + i)
                } else {
                    Seq::empty()
                }),
            decreases n - i,
        {
            if start + i < self.data.len() {
                self.data.set(start + i, bytes[i]);
            } else {
                self.data.push(bytes[i]);
            }
            i = i + 1;
        }
        proof {
            assert(bytes@.take(n as int) == bytes@);
            assert(self.data@ == write_at(before, start as nat, bytes@));
        }
        self.pos = (start + n) as u64;
        Ok(())
    }
}

} // verus!
