//! A section of an archive: the identifier of a block and where its bytes
//! lie in the stream.

use crate::cid::{Cid, CidView, DAG_CBOR, DAG_PB, RAW};
use crate::error::{CarError, ErrorKind, IoErrorKind};
use crate::ipld::{dag_cbor_read, dag_pb_value, TreeValue, TreeView};
use crate::stream::{bytes_from, ByteCursor};
use vstd::prelude::*;

verus! {

/// Where a block lies: its identifier, the offset of its first byte from
/// the start of the stream, and the number of its bytes. The bytes
/// themselves stay in the stream until they are asked for.
#[derive(Debug)]
pub struct Section {
    cid: Cid,
    pos: u64,
    len: usize,
}

/// A section as a mathematical value.
pub struct SectionView {
    pub cid: CidView,
    pub pos: u64,
    pub len: usize,
}

impl View for Section {
    type V = SectionView;

    closed spec fn view(&self) -> SectionView {
        SectionView { cid: self.cid@, pos: self.pos, len: self.len }
    }
}

/// The bytes of a stream from offset `pos`, `len` of them, where the stream
/// has that many.
pub open spec fn payload_at(data: Seq<u8>, pos: nat, len: nat) -> Option<Seq<u8>> {
    let rest = bytes_from(data, pos);
    if len <= rest.len() {
        Some(rest.take(len as int))
    } else {
        None
    }
}

/// The value that the bytes of a block stand for under its identifier.
/// There is none where the identifier is not that of the bytes. Else the
/// codec decides: plain bytes stand for themselves, the two structured
/// forms for what they decode to, and under any other codec there is no
/// value.
pub open spec fn block_value(cid: CidView, data: Seq<u8>) -> Option<TreeView> {
    let codec = cid.codec;
    if !cid.names(data) {
        None
    } else if codec == RAW {
        Some(TreeView::Bytes(data))
    } else if codec == DAG_PB {
        dag_pb_value(data)
    } else if codec == DAG_CBOR {
        dag_cbor_read(data)
    } else {
        None
    }
}

/// Holds the bytes of a block against its identifier, then decodes them by
/// the codec that the identifier names. Fails with a parsing error where
/// the digest of the bytes is not the one in the identifier, where the
/// codec is none of the three that are read, or the bytes are not in its
/// form.
pub fn decode_block(cid: &Cid, data: Vec<u8>) -> (r: Result<TreeValue, CarError>)
    ensures
        match block_value(cid@, data@) {
            Some(v) => r is Ok && r->Ok_0@ == v,
            None => r is Err && r->Err_0 is Parsing,
        },
{
    if !cid.matches(data.as_slice()) {
        return Err(CarError::Parsing("the block does not hash to its identifier".to_string()));
    }
    let codec = cid.codec();
    if codec == RAW {
        Ok(TreeValue::Bytes(data))
    } else if codec == DAG_PB {
        TreeValue::from_dag_pb(data.as_slice())
    } else if codec == DAG_CBOR {
        TreeValue::from_dag_cbor(data.as_slice())
    } else {
        Err(CarError::Parsing("unsupported codec".to_string()))
    }
}

impl Section {
    /// The section of the block `cid` whose `len` bytes start at offset `pos`.
    pub fn new(cid: Cid, pos: u64, len: usize) -> (s: Self)
        ensures
            s@ == (SectionView { cid: cid@, pos, len }),
    {
        Section { cid, pos, len }
    }

    /// Reads the bytes of the block from the stream and leaves the stream
    /// behind them. Fails with `UnexpectedEof` where the stream ends before
    /// the last of them, and leaves the stream at its end.
    pub fn read_data(&self, stream: &mut ByteCursor) -> (r: Result<Vec<u8>, CarError>)
        ensures
            final(stream).data == old(stream).data,
            match payload_at(old(stream).data@, self@.pos as nat, self@.len as nat) {
                Some(bytes) => r is Ok && r->Ok_0@ == bytes && final(stream).pos == self@.pos
                    + self@.len,
                None => r is Err && r->Err_0 == CarError::IO(IoErrorKind::UnexpectedEof)
                    && final(stream).pos == old(stream).data@.len(),
            },
    {
        stream.seek_from_start(self.pos);
        match stream.read_exact(self.len) {
            Ok(bytes) => Ok(bytes),
            Err(kind) => Err(CarError::IO(kind)),
        }
    }

    /// Reads the block from the stream and decodes it by the codec of its
    /// identifier.
    pub fn ipld(&self, stream: &mut ByteCursor) -> (r: Result<TreeValue, CarError>)
        ensures
            final(stream).data == old(stream).data,
            match payload_at(old(stream).data@, self@.pos as nat, self@.len as nat) {
                Some(bytes) => match block_value(self@.cid, bytes) {
                    Some(v) => r is Ok && r->Ok_0@ == v,
                    None => r is Err && r->Err_0 is Parsing,
                },
                None => r is Err && r->Err_0 == CarError::IO(IoErrorKind::UnexpectedEof),
            },
    {
        let data = self.read_data(stream)?;
        decode_block(&self.cid, data)
    }

    /// The identifier of the block, borrowed.
    pub fn cid_ref(&self) -> (c: &Cid)
        ensures
            c@ == self@.cid,
    {
        &self.cid
    }

    /// The identifier of the block.
    pub fn cid(&self) -> (c: Cid)
        ensures
            c@ == self@.cid,
    {
        self.cid.clone()
    }

    /// The offset of the block's first byte from the start of the stream.
    pub fn pos(&self) -> (pos: u64)
        ensures
            pos == self@.pos,
    {
        self.pos
    }

    /// The number of the block's bytes.
    pub fn len(&self) -> (len: usize)
        ensures
            len == self@.len,
    {
        self.len
    }
}

impl Clone for Section {
    fn clone(&self) -> (s: Self)
        ensures
            s@ == self@,
    {
        Section { cid: self.cid.clone(), pos: self.pos, len: self.len }
    }
}

} // verus!
