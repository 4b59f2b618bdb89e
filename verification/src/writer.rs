//! Writing an archive: the header before the first section, then one
//! section after another.

use crate::cid::{cid_bytes, empty_pb_cid, pb_cid, raw_cid, Cid, CidView};
use crate::error::{CarError, ErrorKind, IoErrorKind};
use crate::header::{header_bytes, header_decoded, header_value, CarHeader, HeaderView};
use crate::ipld::header_cbor;
use crate::reader::{archive_read, index_of, section_payload, MAX_ALLOWED_SECTION_SIZE};
use crate::roundtrip::{lemma_first_section_is_read_back, lemma_head_block_read};
use crate::ipld::{dag_pb_bytes, dag_pb_encode, node_shaped, TreeValue, TreeView};
use crate::stream::{append_bytes, lemma_write_at_twice, varint_bytes, write_at, ByteCursor};
use crate::varint::varint_encode;
use vstd::prelude::*;

verus! {

/// What a streamed block hands to the function that hashes it: the next
/// bytes, or the word that there are no more.
pub enum WriteStream<'bs> {
    Bytes(&'bs [u8]),
    End,
}

/// The bytes of a header in an archive: the length of its encoding, then the
/// encoding.
pub open spec fn head_block(h: HeaderView) -> Option<Seq<u8>> {
    match header_bytes(h) {
        Some(bytes) => Some(varint_encode(bytes.len()) + bytes),
        None => None,
    }
}

/// The bytes of a section in an archive: the length of what follows, the
/// identifier, the block.
pub open spec fn section_block(cid: CidView, data: Seq<u8>) -> Seq<u8> {
    varint_encode(cid_bytes(cid).len() + data.len()) + cid_bytes(cid) + data
}

/// A writer as a mathematical value: the stream, the position in it, the
/// header, and whether the header is still to be written.
pub struct WriterView {
    pub data: Seq<u8>,
    pub pos: nat,
    pub pending: bool,
    pub header: HeaderView,
}

/// The identifier that holds the place of a streamed section's own.
pub open spec fn holder_bytes() -> Seq<u8> {
    cid_bytes(crate::cid::pb_cid_of(Seq::empty()))
}

impl WriterView {
    /// What goes before the next section: the header where it is still to
    /// be written, else nothing. There is none where the header has no
    /// bytes.
    pub open spec fn pending_head(self) -> Option<Seq<u8>> {
        if self.pending {
            head_block(self.header)
        } else {
            Some(Seq::empty())
        }
    }

    /// The writer after `bytes` were written at the position, or the
    /// failure of a stream that would grow beyond what a `usize` counts.
    pub open spec fn put(self, bytes: Seq<u8>) -> Result<WriterView, ErrorKind> {
        if self.pos + bytes.len() <= usize::MAX {
            Ok(
                WriterView {
                    data: write_at(self.data, self.pos, bytes),
                    pos: self.pos + bytes.len(),
                    ..self
                },
            )
        } else {
            Err(ErrorKind::IO)
        }
    }

    /// The writer after the section of `cid` and `block` was written, or
    /// the kind of the error.
    pub open spec fn written(self, cid: CidView, block: Seq<u8>) -> Result<WriterView, ErrorKind> {
        match self.pending_head() {
            None => Err(ErrorKind::Parsing),
            Some(head) => match self.put(head + section_block(cid, block)) {
                Ok(w) => Ok(WriterView { pending: false, ..w }),
                Err(k) => Err(k),
            },
        }
    }

    /// What opens a streamed section with a block of `stream_len` bytes:
    /// what goes before the section, the length of the section, and the
    /// identifier that holds the place.
    pub open spec fn stream_head(self, stream_len: usize) -> Option<Seq<u8>> {
        match self.pending_head() {
            None => None,
            Some(head) => Some(
                head + varint_encode((stream_len + holder_bytes().len()) as nat) + holder_bytes(),
            ),
        }
    }

    /// Where the identifier of a streamed section lies.
    pub open spec fn stream_slot(self, stream_len: usize) -> nat {
        (self.pos + self.stream_head(stream_len)->Some_0.len() - holder_bytes().len()) as nat
    }

    /// The writer after a streamed section was opened, or the kind of the
    /// error.
    pub open spec fn stream_opened(self, stream_len: usize) -> Result<WriterView, ErrorKind> {
        match self.stream_head(stream_len) {
            None => Err(ErrorKind::Parsing),
            Some(first) => if stream_len + holder_bytes().len() > usize::MAX {
                Err(ErrorKind::IO)
            } else {
                match self.put(first) {
                    Ok(w) => Ok(WriterView { pending: false, ..w }),
                    Err(k) => Err(k),
                }
            },
        }
    }

    /// The writer after the identifier `cid` was written at `slot`, over
    /// the one that held its place, and the position was left `stream_len`
    /// bytes behind it; or the kind of the error.
    pub open spec fn stream_closed(self, slot: nat, cid: CidView, stream_len: usize) -> Result<
        WriterView,
        ErrorKind,
    > {
        let end = slot + cid_bytes(cid).len();
        if end > usize::MAX || end + stream_len > u64::MAX {
            Err(ErrorKind::IO)
        } else {
            Ok(
                WriterView {
                    data: write_at(self.data, slot, cid_bytes(cid)),
                    pos: (end + stream_len) as nat,
                    ..self
                },
            )
        }
    }

    /// The writer after a block of `stream_len` bytes was streamed from
    /// `source` and turned out to have the identifier `cid`; or the kind of
    /// the error.
    pub open spec fn streamed(self, stream_len: usize, source: Seq<u8>, cid: CidView) -> Result<
        WriterView,
        ErrorKind,
    > {
        match self.stream_opened(stream_len) {
            Err(k) => Err(k),
            Ok(opened) => match opened.put(source) {
                Err(k) => Err(k),
                Ok(filled) => filled.stream_closed(self.stream_slot(stream_len), cid, stream_len),
            },
        }
    }

    /// The writer after `header` was written over the first header, or the
    /// kind of the error: an invalid section where `header` has not as many
    /// roots as the first one, a parsing error where it has no bytes.
    pub open spec fn rewritten(self, header: HeaderView) -> Result<WriterView, ErrorKind> {
        if header.roots.len() != self.header.roots.len() {
            Err(ErrorKind::InvalidSection)
        } else {
            match head_block(header) {
                None => Err(ErrorKind::Parsing),
                Some(head) => Ok(
                    WriterView {
                        data: write_at(self.data, 0, head),
                        pos: head.len(),
                        pending: false,
                        header,
                    },
                ),
            }
        }
    }
}

/// What is known of a header once it was encoded: its bytes are those of
/// the map of its roots and its version, and, where it has roots and is of
/// version 1, they decode to it again.
pub open spec fn header_known(h: HeaderView) -> bool {
    &&& header_bytes(h) == Some(header_cbor(header_value(h)))
    &&& h.wf() ==> header_decoded(header_cbor(header_value(h))) == Ok::<HeaderView, ErrorKind>(h)
}

/// The first write into an empty stream gives an archive that reads back:
/// the header has roots that are written and read back unchanged, the
/// identifier reads back as itself, and neither the header nor the section
/// is longer than a block may be.
pub open spec fn reads_back(w: WriterView, cid: CidView, data: Seq<u8>) -> bool {
    &&& w.data.len() == 0
    &&& w.pos == 0
    &&& w.pending
    &&& w.header.wf()
    &&& w.header.portable()
    &&& header_bytes(w.header) matches Some(bytes) && bytes.len() <= MAX_ALLOWED_SECTION_SIZE
    &&& cid.wf()
    &&& cid.canonical()
    &&& cid_bytes(cid).len() + data.len() <= MAX_ALLOWED_SECTION_SIZE
}

/// The first write into an empty stream gives an archive that reads back,
/// where the bytes of the header decode to the header.
#[verifier::rlimit(50)]
pub proof fn lemma_first_write_reads_back(w: WriterView, cid: CidView, data: Seq<u8>)
    requires
        reads_back(w, cid, data),
        header_decoded(header_bytes(w.header)->Some_0) == Ok::<HeaderView, ErrorKind>(w.header),
    ensures
        w.written(cid, data) is Ok,
        archive_read(w.written(cid, data)->Ok_0.data, 0) is Ok,
        archive_read(w.written(cid, data)->Ok_0.data, 0)->Ok_0.0 == w.header,
        section_payload(
            w.written(cid, data)->Ok_0.data,
            index_of(archive_read(w.written(cid, data)->Ok_0.data, 0)->Ok_0.1),
            cid,
        ) == Some(Some(data)),
{
    let bytes = header_bytes(w.header)->Some_0;
    let head = varint_encode(bytes.len()) + bytes;
    let block = head + section_block(cid, data);
    crate::varint::lemma_varint_encode_fits(bytes.len() as usize);
    crate::varint::lemma_varint_encode_fits((cid_bytes(cid).len() + data.len()) as usize);
    crate::cid::lemma_cid_bytes_len(cid);
    lemma_head_block_read(w.header, bytes);
    lemma_first_section_is_read_back(head, cid, data);
    assert(write_at(Seq::<u8>::empty(), 0, block) =~= block);
    assert(w.data =~= Seq::<u8>::empty());
}

/// A writer of the first version of the format. The header is written
/// before the first section. It can be written again over the first one.
pub struct CarWriterV1 {
    inner: ByteCursor,
    header: CarHeader,
    is_header_written: bool,
}

impl CarWriterV1 {
    /// What holds of every writer: its header is of version 1.
    pub closed spec fn wf(&self) -> bool {
        self.header is V1
    }

    /// The bytes of the stream.
    pub closed spec fn data(&self) -> Seq<u8> {
        self.inner.data@
    }

    /// The position in the stream.
    pub closed spec fn pos(&self) -> nat {
        self.inner.pos as nat
    }

    /// The header that is or will be written.
    pub closed spec fn header_view(&self) -> HeaderView {
        self.header.spec_v1()
    }

    /// Whether the header is still to be written.
    pub closed spec fn header_pending(&self) -> bool {
        !self.is_header_written
    }

    /// The writer as a mathematical value.
    pub open spec fn state(&self) -> WriterView {
        WriterView {
            data: self.data(),
            pos: self.pos(),
            pending: self.header_pending(),
            header: self.header_view(),
        }
    }

    /// What goes before the next section: the header where it is still to be
    /// written, else nothing. There is none where the header has no bytes.
    pub open spec fn pending_head(&self) -> Option<Seq<u8>> {
        if self.header_pending() {
            head_block(self.header_view())
        } else {
            Some(Seq::empty())
        }
    }

    /// A writer on `inner` that will write `header` before the first
    /// section.
    pub fn new(inner: ByteCursor, header: CarHeader) -> (w: Self)
        requires
            header is V1,
        ensures
            w.wf(),
            w.data() == inner.data@,
            w.pos() == inner.pos,
            w.header_view() == header.spec_v1(),
            w.header_pending(),
    {
        CarWriterV1 { inner, header, is_header_written: false }
    }

    /// The stream, with all that was written.
    pub fn into_inner(self) -> (inner: ByteCursor)
        ensures
            inner.data@ == self.data(),
            inner.pos == self.pos(),
    {
        self.inner
    }

    /// The bytes of the header in an archive, or a parsing error where the
    /// header has no bytes.
    fn head_bytes(&self) -> (r: Result<Vec<u8>, CarError>)
        requires
            self.wf(),
        ensures
            match head_block(self.header_view()) {
                Some(block) => r is Ok && r->Ok_0@ == block,
                None => r is Err && r->Err_0 is Parsing,
            },
            self.header_view().portable() ==> r is Ok && header_known(self.header_view()),
            self.header_view().portable() && self.header_view().wf() ==> header_decoded(
                header_bytes(self.header_view())->Some_0,
            ) == Ok::<HeaderView, ErrorKind>(self.header_view()),
    {
        let head = self.header.encode()?;
        let mut block = varint_bytes(head.len());
        append_bytes(&mut block, head.as_slice());
        Ok(block)
    }

    /// What goes before the next section, as bytes.
    fn pending_bytes(&self) -> (r: Result<Vec<u8>, CarError>)
        requires
            self.wf(),
        ensures
            match self.pending_head() {
                Some(block) => r is Ok && r->Ok_0@ == block,
                None => r is Err && r->Err_0 is Parsing,
            },
            self.header_pending() && self.header_view().portable() ==> r is Ok && header_known(
                self.header_view(),
            ),
            self.header_pending() && self.header_view().portable() && self.header_view().wf()
                ==> header_decoded(header_bytes(self.header_view())->Some_0) == Ok::<
                HeaderView,
                ErrorKind,
            >(self.header_view()),
    {
        if !self.is_header_written {
            self.head_bytes()
        } else {
            Ok(Vec::new())
        }
    }

    /// Writes one section at the position: the header first, if it is still
    /// to be written, then the length of the section, the identifier and
    /// the block.
    ///
    /// Fails with a parsing error where the header has no bytes, and with
    /// `InvalidInput` where the stream would grow beyond what a `usize`
    /// counts. A write that fails leaves the stream as it was.
    ///
    /// What the first write puts into an empty stream is an archive that
    /// reads back: under the header of the writer it holds the block under
    /// its identifier. For that the header must have roots that are written
    /// and read back unchanged, the identifier must read back as itself,
    /// and neither the header nor the section may be longer than a block
    /// may be.
    #[verifier::rlimit(50)]
    pub fn write(&mut self, cid: Cid, data: &[u8]) -> (r: Result<(), CarError>)
        requires
            old(self).wf(),
        ensures
            final(self).wf(),
            final(self).header_view() == old(self).header_view(),
            old(self).header_view().portable() ==> old(self).pending_head() is Some,
            old(self).header_pending() && old(self).header_view().portable() ==> header_known(
                old(self).header_view(),
            ),
            reads_back(old(self).state(), cid@, data@) ==> r is Ok && archive_read(
                final(self).data(),
                0,
            ) is Ok && archive_read(final(self).data(), 0)->Ok_0.0 == old(self).header_view()
                && section_payload(
                final(self).data(),
                index_of(archive_read(final(self).data(), 0)->Ok_0.1),
                cid@,
            ) == Some(Some(data@)),
            match old(self).state().written(cid@, data@) {
                Ok(w) => r is Ok && final(self).state() == w,
                Err(k) => r is Err && r->Err_0.kind() == k && final(self).state() == old(
                    self,
                ).state(),
            },
            match old(self).pending_head() {
                Some(head) => {
                    let block = head + section_block(cid@, data@);
                    if old(self).pos() + block.len() <= usize::MAX {
                        &&& r is Ok
                        &&& final(self).data() == write_at(old(self).data(), old(self).pos(), block)
                        &&& final(self).pos() == old(self).pos() + block.len()
                        &&& !final(self).header_pending()
                    } else {
                        &&& r is Err
                        &&& r->Err_0 == CarError::IO(IoErrorKind::InvalidInput)
                        &&& final(self).data() == old(self).data()
                        &&& final(self).pos() == old(self).pos()
                        &&& final(self).header_pending() == old(self).header_pending()
                    }
                },
                None => {
                    &&& r is Err
                    &&& r->Err_0 is Parsing
                    &&& final(self).data() == old(self).data()
                    &&& final(self).pos() == old(self).pos()
                    &&& final(self).header_pending() == old(self).header_pending()
                },
            },
    {
        let mut block = self.pending_bytes()?;
        let mut body = cid.to_bytes();
        append_bytes(&mut body, data);
        let prefix = varint_bytes(body.len());
        append_bytes(&mut block, prefix.as_slice());
        append_bytes(&mut block, body.as_slice());
        proof {
            let head = old(self).pending_head()->Some_0;
            assert(block@ =~= head + section_block(cid@, data@));
            if reads_back(old(self).state(), cid@, data@) {
                lemma_first_write_reads_back(old(self).state(), cid@, data@);
            }
        }
        match self.inner.write_all(block.as_slice()) {
            Ok(()) => {
                self.is_header_written = true;
                Ok(())
            },
            Err(kind) => Err(CarError::IO(kind)),
        }
    }

    /// Hands what was written on to the stream. A stream in memory holds it
    /// already, so this always succeeds and changes nothing.
    pub fn flush(&mut self) -> (r: Result<(), CarError>)
        ensures
            *final(self) == *old(self),
            r is Ok,
    {
        Ok(())
    }

    /// Writes `header` over the first header, from the start of the stream,
    /// and leaves the position behind it.
    ///
    /// Fails with an invalid section error, and changes nothing, where
    /// `header` has not as many roots as the first one. Fails with a parsing
    /// error where `header` has no bytes.
    pub fn rewrite_header(&mut self, header: CarHeader) -> (r: Result<(), CarError>)
        requires
            old(self).wf(),
            header is V1,
        ensures
            final(self).wf(),
            match old(self).state().rewritten(header.spec_v1()) {
                Ok(w) => r is Ok && final(self).state() == w,
                Err(k) => r is Err && r->Err_0.kind() == k,
            },
            header.spec_v1().portable() && header.spec_v1().roots.len() == old(
                self,
            ).header_view().roots.len() ==> r is Ok && header_known(header.spec_v1()),
            if header.spec_v1().roots.len() != old(self).header_view().roots.len() {
                &&& r is Err
                &&& r->Err_0 is InvalidSection
                &&& final(self).header_view() == old(self).header_view()
                &&& final(self).data() == old(self).data()
                &&& final(self).pos() == old(self).pos()
                &&& final(self).header_pending() == old(self).header_pending()
            } else {
                &&& final(self).header_view() == header.spec_v1()
                &&& match head_block(header.spec_v1()) {
                    Some(head) => {
                        &&& r is Ok
                        &&& final(self).data() == write_at(old(self).data(), 0, head)
                        &&& final(self).pos() == head.len()
                        &&& !final(self).header_pending()
                    },
                    None => {
                        &&& r is Err
                        &&& r->Err_0 is Parsing
                        &&& final(self).data() == old(self).data()
                        &&& final(self).pos() == 0
                        &&& final(self).header_pending() == old(self).header_pending()
                    },
                }
            },
    {
        let new_roots = match &header {
            CarHeader::V1(v1) => v1.roots.len(),
            CarHeader::V2() => 0,
        };
        let old_roots = match &self.header {
            CarHeader::V1(v1) => v1.roots.len(),
            CarHeader::V2() => 0,
        };
        assert(header.spec_v1().roots.len() == new_roots);
        assert(self.header_view().roots.len() == old_roots);
        if new_roots != old_roots {
            return Err(CarError::InvalidSection("the root cid is not match.".to_string()));
        }
        self.header = header;
        self.inner.rewind();
        let block = self.head_bytes()?;
        assert(block@.len() <= usize::MAX) by {
            vstd::std_specs::vec::axiom_spec_len(&block);
        }
        match self.inner.write_all(block.as_slice()) {
            Ok(()) => {
                self.is_header_written = true;
                Ok(())
            },
            Err(kind) => Err(CarError::IO(kind)),
        }
    }

    /// Opens a streamed section with a block of `stream_len` bytes: writes
    /// the header, if it is still to be written, the length of the section,
    /// and the identifier of the protobuf block without bytes, which holds
    /// the place of the real one. Returns the position of that place. An
    /// opening that fails leaves the writer as it was.
    pub fn begin_stream(&mut self, stream_len: usize) -> (r: Result<u64, CarError>)
        requires
            old(self).wf(),
        ensures
            final(self).wf(),
            old(self).header_view().portable() ==> old(self).pending_head() is Some,
            old(self).header_pending() && old(self).header_view().portable() ==> header_known(
                old(self).header_view(),
            ),
            match old(self).state().stream_opened(stream_len) {
                Ok(w) => r is Ok && final(self).state() == w && r->Ok_0 == old(
                    self,
                ).state().stream_slot(stream_len),
                Err(k) => r is Err && r->Err_0.kind() == k && final(self).state() == old(
                    self,
                ).state(),
            },
    {
        let head = self.pending_bytes()?;
        let holder = empty_pb_cid().to_bytes();
        if stream_len > usize::MAX - holder.len() {
            return Err(CarError::IO(IoErrorKind::InvalidInput));
        }
        let sec_len = stream_len + holder.len();
        let mut first: Vec<u8> = Vec::new();
        append_bytes(&mut first, head.as_slice());
        let prefix = varint_bytes(sec_len);
        append_bytes(&mut first, prefix.as_slice());
        let slot: usize = first.len();
        append_bytes(&mut first, holder.as_slice());
        let start = self.inner.stream_position();
        proof {
            assert(first@ =~= old(self).state().stream_head(stream_len)->Some_0);
        }
        match self.inner.write_all(first.as_slice()) {
            Ok(()) => {
                self.is_header_written = true;
                Ok(start + slot as u64)
            },
            Err(kind) => Err(CarError::IO(kind)),
        }
    }

    /// Writes bytes of a streamed block at the position. A write that fails
    /// leaves the writer as it was.
    pub fn stream_bytes(&mut self, bytes: &[u8]) -> (r: Result<(), CarError>)
        requires
            old(self).wf(),
        ensures
            final(self).wf(),
            match old(self).state().put(bytes@) {
                Ok(w) => r is Ok && final(self).state() == w,
                Err(k) => r is Err && r->Err_0.kind() == k && final(self).state() == old(
                    self,
                ).state(),
            },
    {
        match self.inner.write_all(bytes) {
            Ok(()) => Ok(()),
            Err(kind) => Err(CarError::IO(kind)),
        }
    }

    /// Closes a streamed section: writes `cid` at `slot`, over the
    /// identifier that held its place, and leaves the position `stream_len`
    /// bytes behind it. A closing that fails leaves the writer as it was.
    pub fn finish_stream(&mut self, slot: u64, cid: &Cid, stream_len: usize) -> (r: Result<
        (),
        CarError,
    >)
        requires
            old(self).wf(),
        ensures
            final(self).wf(),
            match old(self).state().stream_closed(slot as nat, cid@, stream_len) {
                Ok(w) => r is Ok && final(self).state() == w,
                Err(k) => r is Err && r->Err_0.kind() == k && final(self).state() == old(
                    self,
                ).state(),
            },
    {
        let cid_buff = cid.to_bytes();
        if slot > (usize::MAX - cid_buff.len()) as u64 {
            return Err(CarError::IO(IoErrorKind::InvalidInput));
        }
        let end = slot + cid_buff.len() as u64;
        if stream_len as u64 > u64::MAX - end {
            return Err(CarError::IO(IoErrorKind::InvalidInput));
        }
        self.inner.seek_from_start(slot);
        match self.inner.write_all(cid_buff.as_slice()) {
            Ok(()) => {},
            Err(kind) => {
                return Err(CarError::IO(kind));
            },
        }
        match self.inner.seek_forward(stream_len as u64) {
            Ok(_) => Ok(()),
            Err(kind) => Err(CarError::IO(kind)),
        }
    }

    /// Writes one section whose identifier is only known when all of its
    /// block was seen.
    ///
    /// The header goes first, if it is still to be written. Then the length
    /// of the section is written, for a block of `stream_len` bytes, and the
    /// identifier of the protobuf block without bytes, to hold the place of
    /// the real one. The bytes of `source` follow, and each run of them is
    /// handed to `cid_f`; at the end `cid_f` is asked for the identifier,
    /// which is written over the place that was held, and the position is
    /// left `stream_len` bytes behind it.
    ///
    /// Fails with the error that `cid_f` returns, with a parsing error where
    /// the header has no bytes, and with `InvalidInput` where the stream
    /// would grow beyond what a `usize` counts. A failure leaves the writer
    /// as it was, or with the section opened and some of the first bytes of
    /// `source` written.
    #[verifier::rlimit(50)]
    pub fn write_stream<F>(&mut self, cid_f: F, stream_len: usize, source: &[u8]) -> (r: Result<
        Cid,
        CarError,
    >) where F: Fn(WriteStream) -> Option<Result<Cid, CarError>>
        requires
            old(self).wf(),
            forall|w: WriteStream| call_requires(cid_f, (w,)),
            forall|out: Option<Result<Cid, CarError>>|
                call_ensures(cid_f, (WriteStream::End,), out) ==> out is Some,
        ensures
            final(self).wf(),
            final(self).header_view() == old(self).header_view(),
            r is Ok ==> {
                &&& call_ensures(cid_f, (WriteStream::End,), Some(r))
                &&& old(self).state().streamed(stream_len, source@, r->Ok_0@) == Ok::<
                    WriterView,
                    ErrorKind,
                >(final(self).state())
            },
            old(self).pending_head() is None ==> r is Err && r->Err_0 is Parsing,
            (old(self).pending_head() is Some && stream_fits(
                old(self).pos(),
                old(self).pending_head()->Some_0.len(),
                stream_len,
                source@.len(),
            ) && forall|w: WriteStream, out: Option<Result<Cid, CarError>>|
                call_ensures(cid_f, (w,), out) ==> !(out matches Some(Err(_)))) ==> r is Ok,
            r is Err ==> final(self).state() == old(self).state() || stream_left(
                old(self).state(),
                stream_len,
                source@,
                final(self).state(),
            ),
    {
        let ghost w0 = self.state();
        let ghost fits = self.pending_head() is Some && stream_fits(
            self.pos(),
            self.pending_head()->Some_0.len(),
            stream_len,
            source@.len(),
        );
        let holder = empty_pb_cid();
        proof {
            use_type_invariant(&holder);
            crate::cid::lemma_cid_bytes_len(holder@);
            if fits {
                crate::varint::lemma_varint_encode_fits(
                    (stream_len + holder_bytes().len()) as usize,
                );
            }
        }
        let slot = self.begin_stream(stream_len)?;
        let ghost opened = self.state();
        let total = source.len();
        let mut done: usize = 0;
        proof {
            assert(source@.take(0) =~= Seq::<u8>::empty());
            assert(write_at(opened.data, opened.pos, Seq::empty()) =~= opened.data);
        }
        while done < total
            invariant
                done <= total == source@.len(),
                self.wf(),
                self.header_view() == old(self).header_view(),
                opened.put(source@.take(done as int)) == Ok::<WriterView, ErrorKind>(self.state()),
                old(self).state().stream_opened(stream_len) == Ok::<WriterView, ErrorKind>(opened),
                forall|w: WriteStream| call_requires(cid_f, (w,)),
                old(self).pending_head() is Some,
                fits ==> opened.pos + total + 104 + stream_len <= usize::MAX,
                fits == (old(self).pending_head() is Some && stream_fits(
                    old(self).pos(),
                    old(self).pending_head()->Some_0.len(),
                    stream_len,
                    source@.len(),
                )),
            decreases total - done,
        {
            let step: usize = if total - done > 10240 {
                10240
            } else {
                total - done
            };
            let bs = vstd::slice::slice_subrange(source, done, done + step);
            proof {
                lemma_write_at_twice(opened.data, opened.pos, source@.take(done as int), bs@);
                assert(source@.take(done as int) + bs@ =~= source@.take(done + step));
            }
            self.stream_bytes(bs)?;
            if let Some(Err(e)) = cid_f(WriteStream::Bytes(bs)) {
                return Err(e);
            }
            done = done + step;
        }
        proof {
            assert(source@.take(total as int) =~= source@);
        }
        let answer = cid_f(WriteStream::End);
        let cid = match answer {
            Some(Ok(cid)) => cid,
            Some(Err(e)) => {
                return Err(e);
            },
            None => {
                return Err(CarError::NotFound("the identifier of the stream".to_string()));
            },
        };
        proof {
            use_type_invariant(&cid);
            crate::cid::lemma_cid_bytes_len(cid@);
        }
        self.finish_stream(slot, &cid, stream_len)?;
        Ok(cid)
    }

    /// Writes a value as one section and returns the identifier of its
    /// block. Bytes are written as they are, under the identifier of a
    /// block of plain bytes. A map is written in the protobuf form of a
    /// node with links. Any other value is a parsing error, and so is a map
    /// that is no such node. Bytes and maps in the shape of a node are
    /// always written, where the header has bytes and the stream has room.
    pub fn write_ipld(&mut self, ipld: TreeValue) -> (r: Result<Cid, CarError>)
        requires
            old(self).wf(),
        ensures
            final(self).wf(),
            final(self).header_view() == old(self).header_view(),
            ipld@ is Bytes || node_shaped(ipld@) ==> ipld_block(ipld@) is Some,
            old(self).header_view().portable() && ipld_block(ipld@) is Some ==> old(
                self,
            ).pending_head() is Some,
            match ipld_block(ipld@) {
                Some((cid, bytes)) => match old(self).pending_head() {
                    Some(head) => {
                        let block = head + section_block(cid, bytes);
                        if old(self).pos() + block.len() <= usize::MAX {
                            &&& r is Ok
                            &&& r->Ok_0@ == cid
                            &&& final(self).data() == write_at(
                                old(self).data(),
                                old(self).pos(),
                                block,
                            )
                            &&& final(self).pos() == old(self).pos() + block.len()
                            &&& !final(self).header_pending()
                        } else {
                            r is Err && r->Err_0 == CarError::IO(IoErrorKind::InvalidInput)
                        }
                    },
                    None => r is Err && r->Err_0 is Parsing,
                },
                None => r is Err && r->Err_0 is Parsing,
            },
            r is Err ==> final(self).data() == old(self).data() && final(self).pos() == old(
                self,
            ).pos() && final(self).header_pending() == old(self).header_pending(),
    {
        match ipld {
            TreeValue::Bytes(buf) => {
                let file_cid = raw_cid(buf.as_slice());
                self.write(file_cid.clone(), buf.as_slice())?;
                Ok(file_cid)
            },
            TreeValue::StringMap(m) => {
                let node = TreeValue::StringMap(m);
                let bs = match dag_pb_encode(&node) {
                    Ok(bs) => bs,
                    Err(text) => {
                        return Err(CarError::Parsing(text));
                    },
                };
                let cid = pb_cid(bs.as_slice());
                self.write(cid.clone(), bs.as_slice())?;
                Ok(cid)
            },
            _ => Err(CarError::Parsing("not support write ipld.".to_string())),
        }
    }
}

/// A writer of an archive.
pub trait CarWriter {
    /// What holds of a writer that was made with a header.
    spec fn ready(&self) -> bool;

    /// Writes one section: the identifier, then the block.
    fn write(&mut self, cid: Cid, data: &[u8]) -> (r: Result<(), CarError>)
        requires
            old(self).ready(),
        ensures
            final(self).ready(),
    ;

    /// Writes one section whose identifier `cid_f` gives when it has seen
    /// all of the block.
    fn write_stream<F>(&mut self, cid_f: F, stream_len: usize, source: &[u8]) -> (r: Result<
        Cid,
        CarError,
    >) where F: Fn(WriteStream) -> Option<Result<Cid, CarError>>
        requires
            old(self).ready(),
            forall|w: WriteStream| call_requires(cid_f, (w,)),
            forall|out: Option<Result<Cid, CarError>>|
                call_ensures(cid_f, (WriteStream::End,), out) ==> out is Some,
        ensures
            final(self).ready(),
    ;

    /// Writes a value as one section and returns the identifier of its
    /// block.
    fn write_ipld(&mut self, ipld: TreeValue) -> (r: Result<Cid, CarError>)
        requires
            old(self).ready(),
        ensures
            final(self).ready(),
    ;

    /// Writes `header` over the first header.
    fn rewrite_header(&mut self, header: CarHeader) -> (r: Result<(), CarError>)
        requires
            old(self).ready(),
            header is V1,
        ensures
            final(self).ready(),
    ;

    /// Hands what was written on to the stream.
    fn flush(&mut self) -> (r: Result<(), CarError>)
        requires
            old(self).ready(),
        ensures
            final(self).ready(),
    ;
}

impl CarWriter for CarWriterV1 {
    open spec fn ready(&self) -> bool {
        self.wf()
    }

    fn write(&mut self, cid: Cid, data: &[u8]) -> (r: Result<(), CarError>)
        ensures
            final(self).header_view() == old(self).header_view(),
            old(self).header_view().portable() ==> old(self).pending_head() is Some,
            old(self).header_pending() && old(self).header_view().portable() ==> header_known(
                old(self).header_view(),
            ),
            reads_back(old(self).state(), cid@, data@) ==> r is Ok && archive_read(
                final(self).data(),
                0,
            ) is Ok && archive_read(final(self).data(), 0)->Ok_0.0 == old(self).header_view()
                && section_payload(
                final(self).data(),
                index_of(archive_read(final(self).data(), 0)->Ok_0.1),
                cid@,
            ) == Some(Some(data@)),
            match old(self).state().written(cid@, data@) {
                Ok(w) => r is Ok && final(self).state() == w,
                Err(k) => r is Err && r->Err_0.kind() == k && final(self).state() == old(
                    self,
                ).state(),
            },
            match old(self).pending_head() {
                Some(head) => {
                    let block = head + section_block(cid@, data@);
                    if old(self).pos() + block.len() <= usize::MAX {
                        &&& r is Ok
                        &&& final(self).data() == write_at(old(self).data(), old(self).pos(), block)
                        &&& final(self).pos() == old(self).pos() + block.len()
                        &&& !final(self).header_pending()
                    } else {
                        &&& r is Err
                        &&& r->Err_0 == CarError::IO(IoErrorKind::InvalidInput)
                        &&& final(self).data() == old(self).data()
                        &&& final(self).pos() == old(self).pos()
                        &&& final(self).header_pending() == old(self).header_pending()
                    }
                },
                None => {
                    &&& r is Err
                    &&& r->Err_0 is Parsing
                    &&& final(self).data() == old(self).data()
                    &&& final(self).pos() == old(self).pos()
                    &&& final(self).header_pending() == old(self).header_pending()
                },
            },
    {
        CarWriterV1::write(self, cid, data)
    }

    fn write_stream<F>(&mut self, cid_f: F, stream_len: usize, source: &[u8]) -> (r: Result<
        Cid,
        CarError,
    >) where F: Fn(WriteStream) -> Option<Result<Cid, CarError>>
        ensures
            final(self).header_view() == old(self).header_view(),
            r is Ok ==> {
                &&& call_ensures(cid_f, (WriteStream::End,), Some(r))
                &&& old(self).state().streamed(stream_len, source@, r->Ok_0@) == Ok::<
                    WriterView,
                    ErrorKind,
                >(final(self).state())
            },
            old(self).pending_head() is None ==> r is Err && r->Err_0 is Parsing,
            (old(self).pending_head() is Some && stream_fits(
                old(self).pos(),
                old(self).pending_head()->Some_0.len(),
                stream_len,
                source@.len(),
            ) && forall|w: WriteStream, out: Option<Result<Cid, CarError>>|
                call_ensures(cid_f, (w,), out) ==> !(out matches Some(Err(_)))) ==> r is Ok,
            r is Err ==> final(self).state() == old(self).state() || stream_left(
                old(self).state(),
                stream_len,
                source@,
                final(self).state(),
            ),
    {
        CarWriterV1::write_stream(self, cid_f, stream_len, source)
    }

    fn write_ipld(&mut self, ipld: TreeValue) -> (r: Result<Cid, CarError>)
        ensures
            final(self).header_view() == old(self).header_view(),
            ipld@ is Bytes || node_shaped(ipld@) ==> ipld_block(ipld@) is Some,
            old(self).header_view().portable() && ipld_block(ipld@) is Some ==> old(
                self,
            ).pending_head() is Some,
            match ipld_block(ipld@) {
                Some((cid, bytes)) => match old(self).pending_head() {
                    Some(head) => {
                        let block = head + section_block(cid, bytes);
                        if old(self).pos() + block.len() <= usize::MAX {
                            &&& r is Ok
                            &&& r->Ok_0@ == cid
                            &&& final(self).data() == write_at(
                                old(self).data(),
                                old(self).pos(),
                                block,
                            )
                            &&& final(self).pos() == old(self).pos() + block.len()
                            &&& !final(self).header_pending()
                        } else {
                            r is Err && r->Err_0 == CarError::IO(IoErrorKind::InvalidInput)
                        }
                    },
                    None => r is Err && r->Err_0 is Parsing,
                },
                None => r is Err && r->Err_0 is Parsing,
            },
            r is Err ==> final(self).data() == old(self).data() && final(self).pos() == old(
                self,
            ).pos() && final(self).header_pending() == old(self).header_pending(),
    {
        CarWriterV1::write_ipld(self, ipld)
    }

    fn rewrite_header(&mut self, header: CarHeader) -> (r: Result<(), CarError>)
        ensures
            match old(self).state().rewritten(header.spec_v1()) {
                Ok(w) => r is Ok && final(self).state() == w,
                Err(k) => r is Err && r->Err_0.kind() == k,
            },
            header.spec_v1().portable() && header.spec_v1().roots.len() == old(
                self,
            ).header_view().roots.len() ==> r is Ok && header_known(header.spec_v1()),
            if header.spec_v1().roots.len() != old(self).header_view().roots.len() {
                &&& r is Err
                &&& r->Err_0 is InvalidSection
                &&& final(self).header_view() == old(self).header_view()
                &&& final(self).data() == old(self).data()
                &&& final(self).pos() == old(self).pos()
                &&& final(self).header_pending() == old(self).header_pending()
            } else {
                &&& final(self).header_view() == header.spec_v1()
                &&& match head_block(header.spec_v1()) {
                    Some(head) => {
                        &&& r is Ok
                        &&& final(self).data() == write_at(old(self).data(), 0, head)
                        &&& final(self).pos() == head.len()
                        &&& !final(self).header_pending()
                    },
                    None => {
                        &&& r is Err
                        &&& r->Err_0 is Parsing
                        &&& final(self).data() == old(self).data()
                        &&& final(self).pos() == 0
                        &&& final(self).header_pending() == old(self).header_pending()
                    },
                }
            },
    {
        CarWriterV1::rewrite_header(self, header)
    }

    fn flush(&mut self) -> (r: Result<(), CarError>)
        ensures
            *final(self) == *old(self),
            r is Ok,
    {
        CarWriterV1::flush(self)
    }
}

/// The writer `left` is what a streamed section that was given up leaves
/// of the writer `w`: the section was opened, and some of the first bytes
/// of `source` were written.
pub open spec fn stream_left(w: WriterView, stream_len: usize, source: Seq<u8>, left: WriterView)
    -> bool {
    w.stream_opened(stream_len) matches Ok(opened) && exists|n: int|
        0 <= n <= source.len() && opened.put(#[trigger] source.take(n)) == Ok::<
            WriterView,
            ErrorKind,
        >(left)
}

/// The stream has room for a streamed section, whatever identifier the
/// block turns out to have.
pub open spec fn stream_fits(pos: nat, head_len: nat, stream_len: usize, source_len: nat) -> bool {
    pos + head_len + stream_len + source_len + 256 <= usize::MAX
}

/// The block that a value is written as, with its identifier: bytes as they
/// are, a map in the protobuf form of a node with links, and nothing else.
pub open spec fn ipld_block(v: TreeView) -> Option<(CidView, Seq<u8>)> {
    match v {
        TreeView::Bytes(b) => Some((crate::cid::raw_cid_of(b), b)),
        TreeView::StringMap(_) => match dag_pb_bytes(v) {
            Some(bytes) => Some((crate::cid::pb_cid_of(bytes), bytes)),
            None => None,
        },
        _ => None,
    }
}

/// A writer on `inner` that will write `header` before the first section.
pub fn new_v1(inner: ByteCursor, header: CarHeader) -> (r: Result<CarWriterV1, CarError>)
    requires
        header is V1,
    ensures
        r is Ok,
        r->Ok_0.wf(),
        r->Ok_0.data() == inner.data@,
        r->Ok_0.pos() == inner.pos,
        r->Ok_0.header_view() == header.spec_v1(),
        r->Ok_0.header_pending(),
{
    Ok(CarWriterV1::new(inner, header))
}

/// A writer on `inner` whose header names one root: the identifier of the
/// protobuf block without bytes, to be replaced when the real root is known.
pub fn new_v1_default_roots(inner: ByteCursor) -> (r: Result<CarWriterV1, CarError>)
    ensures
        r is Ok,
        r->Ok_0.wf(),
        r->Ok_0.data() == inner.data@,
        r->Ok_0.pos() == inner.pos,
        r->Ok_0.header_view() == (HeaderView {
            roots: seq![crate::cid::pb_cid_of(Seq::empty())],
            version: 1,
        }),
        r->Ok_0.header_pending(),
{
    let mut roots: Vec<Cid> = Vec::new();
    roots.push(empty_pb_cid());
    let header = CarHeader::new_v1(roots);
    proof {
        assert(header.spec_v1().roots =~= seq![crate::cid::pb_cid_of(Seq::empty())]);
    }
    Ok(CarWriterV1::new(inner, header))
}

} // verus!
