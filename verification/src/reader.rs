//! Reading an archive: the header first, then one section after another,
//! of which only the place is kept.

use crate::cid::{cid_parse, Cid, CidView};
use crate::error::{CarError, ErrorKind, IoErrorKind};
use crate::header::{header_read, CarHeader, HeaderView};
use crate::ipld::TreeValue;
use crate::section::{block_value, payload_at, Section, SectionView};
use crate::unixfs::{LinkView, UnixFs, UnixFsView};
use crate::unixfs_codec::unixfs_of_value;
use vstd::string::StringExecFns;
use crate::stream::{bytes_from, ByteCursor};
use crate::varint::{varint_consumed, varint_read, VarintRead};
use vstd::prelude::*;

verus! {

/// The most bytes that a header or a section may announce: 32 MiB.
pub const MAX_ALLOWED_SECTION_SIZE: usize = 33554432;

/// What reading one block at the start of `s` comes to.
pub enum BlockRead {
    /// The bytes of the block, and how many bytes it took with its prefix.
    Block { data: Seq<u8>, len: nat },
    /// The stream ended before a length prefix was complete.
    End,
    /// The prefix announces more bytes than a block may have.
    TooLarge(usize),
    /// The stream failed.
    Io(IoErrorKind),
}

/// Reading one block at the start of `s`: a length prefix, then that many
/// bytes.
pub open spec fn block_read(s: Seq<u8>) -> BlockRead {
    match varint_read(s) {
        VarintRead::Eof => BlockRead::End,
        VarintRead::Unterminated => BlockRead::Io(IoErrorKind::InvalidData),
        VarintRead::Value { value, len } => {
            if value > MAX_ALLOWED_SECTION_SIZE {
                BlockRead::TooLarge(value)
            } else if len + value > s.len() {
                BlockRead::Io(IoErrorKind::UnexpectedEof)
            } else {
                BlockRead::Block {
                    data: s.subrange(len as int, len + value),
                    len: (len + value) as nat,
                }
            }
        },
    }
}

/// Where the stream `data` stands after one block was read, or not, from
/// offset `at`: behind the block; behind the prefix, where that announces
/// more than a block may have; at the end of the stream, where the stream
/// ends before the block does; else behind what was read of the prefix.
pub open spec fn block_read_end(data: Seq<u8>, at: nat) -> nat {
    let s = bytes_from(data, at);
    match varint_read(s) {
        VarintRead::Value { value, len } => if value > MAX_ALLOWED_SECTION_SIZE {
            at + len
        } else if len + value > s.len() {
            data.len()
        } else {
            (at + len + value) as nat
        },
        _ => at + varint_consumed(s),
    }
}

/// Reads one block at the position of `stream`: a length prefix, then that
/// many bytes. Returns nothing where the stream ends before a prefix is
/// complete. Fails where the prefix announces more than 32 MiB, before any
/// of the block is read, and where the stream ends before the block does.
pub fn read_block(stream: &mut ByteCursor) -> (r: Result<Option<Vec<u8>>, CarError>)
    ensures
        final(stream).data == old(stream).data,
        final(stream).pos == block_read_end(old(stream).data@, old(stream).pos as nat),
        match block_read(old(stream).remaining()) {
            BlockRead::Block { data, len } => r is Ok && r->Ok_0 is Some && r->Ok_0->Some_0@
                == data && final(stream).pos == old(stream).pos + len,
            BlockRead::End => r is Ok && r->Ok_0 is None,
            BlockRead::TooLarge(l) => r is Err && r->Err_0 == CarError::TooLargeSection(l),
            BlockRead::Io(k) => r is Err && r->Err_0 == CarError::IO(k),
        },
{
    let l: usize = match stream.read_varint() {
        Ok(i) => i,
        Err(kind) => {
            if let IoErrorKind::UnexpectedEof = kind {
                return Ok(None);
            }
            return Err(CarError::IO(kind));
        },
    };
    if l > MAX_ALLOWED_SECTION_SIZE {
        return Err(CarError::TooLargeSection(l));
    }
    let ghost before = old(stream).remaining();
    let ghost n = varint_read(before)->len;
    proof {
        lemma_varint_read_len(before);
        assert(stream.remaining() =~= before.skip(n as int));
    }
    match stream.read_exact(l) {
        Ok(data) => {
            proof {
                assert(before.skip(n as int).take(l as int) =~= before.subrange(n as int, n + l));
            }
            Ok(Some(data))
        },
        Err(kind) => Err(CarError::IO(kind)),
    }
}

/// A prefix that was read lies within the bytes it was read from.
pub proof fn lemma_varint_read_len(s: Seq<u8>)
    ensures
        varint_read(s) is Value ==> 1 <= varint_read(s)->len <= s.len(),
{
}

/// What reading one section of the stream `data` at offset `at` comes to.
pub enum SectionRead {
    /// The section found, and the offset behind its last byte.
    Section { section: SectionView, next: nat },
    /// The stream ended before a length prefix was complete.
    End,
    /// The kind of the error.
    Failed(ErrorKind),
}

/// Reading one section of the stream `data` at offset `at`: a length prefix,
/// then an identifier; what is left of the announced length is the block,
/// which is skipped, whether or not the stream reaches that far.
#[verifier::opaque]
pub open spec fn section_read(data: Seq<u8>, at: nat) -> SectionRead {
    match varint_read(bytes_from(data, at)) {
        VarintRead::Eof => SectionRead::End,
        VarintRead::Unterminated => SectionRead::Failed(ErrorKind::IO),
        VarintRead::Value { value, len } => {
            let start = at + len;
            if value > MAX_ALLOWED_SECTION_SIZE {
                SectionRead::Failed(ErrorKind::TooLargeSection)
            } else {
                match cid_parse(bytes_from(data, start)) {
                    None => SectionRead::Failed(ErrorKind::Parsing),
                    Some((c, n)) => if !c.wf() || n > value {
                        SectionRead::Failed(ErrorKind::Parsing)
                    } else if start + value > u64::MAX {
                        SectionRead::Failed(ErrorKind::IO)
                    } else {
                        SectionRead::Section {
                            section: SectionView {
                                cid: c,
                                pos: (start + n) as u64,
                                len: (value - n) as usize,
                            },
                            next: (start + value) as nat,
                        }
                    },
                }
            }
        },
    }
}

/// Reads one section at the position of `stream` and moves behind it,
/// without reading its block. Returns nothing where the stream ends before
/// a prefix is complete. Fails where the prefix announces more than 32 MiB,
/// where no identifier follows it, and where the identifier is longer than
/// what the prefix announces.
#[verifier::rlimit(50)]
pub fn read_section(stream: &mut ByteCursor) -> (r: Result<Option<Section>, CarError>)
    ensures
        final(stream).data == old(stream).data,
        match section_read(old(stream).data@, old(stream).pos as nat) {
            SectionRead::Section { section, next } => r is Ok && r->Ok_0 is Some
                && r->Ok_0->Some_0@ == section && final(stream).pos == next,
            SectionRead::End => r is Ok && r->Ok_0 is None,
            SectionRead::Failed(k) => r is Err && r->Err_0.kind() == k,
        },
{
    proof {
        reveal(section_read);
    }
    let len: usize = match stream.read_varint() {
        Ok(i) => i,
        Err(kind) => {
            if let IoErrorKind::UnexpectedEof = kind {
                return Ok(None);
            }
            return Err(CarError::IO(kind));
        },
    };
    let start = stream.stream_position();
    if len > MAX_ALLOWED_SECTION_SIZE {
        return Err(CarError::TooLargeSection(len));
    }
    let cid = Cid::read_bytes(stream)?;
    let pos = stream.stream_position();
    let used = pos - start;
    if used > len as u64 {
        return Err(CarError::Parsing("section shorter than its identifier".to_string()));
    }
    let l = len - (used as usize);
    match stream.seek_forward(l as u64) {
        Ok(_) => Ok(Some(Section::new(cid, pos, l))),
        Err(kind) => Err(CarError::IO(kind)),
    }
}

/// The sections of the stream `data` from offset `at` to its end, in the
/// order in which they lie, or the kind of the first error.
pub open spec fn sections_from(data: Seq<u8>, at: nat) -> Result<Seq<SectionView>, ErrorKind>
    decreases
            (if at < data.len() {
                data.len() - at
            } else {
                0
            }),
{
    match section_read(data, at) {
        SectionRead::End => Ok(Seq::empty()),
        SectionRead::Failed(k) => Err(k),
        SectionRead::Section { section, next } => {
            if at < data.len() && at < next {
                match sections_from(data, next) {
                    Ok(rest) => Ok(seq![section] + rest),
                    Err(k) => Err(k),
                }
            } else {
                Ok(Seq::empty())
            }
        },
    }
}

/// A section that was read starts within the stream and ends behind its
/// start.
pub proof fn lemma_section_read_advances(data: Seq<u8>, at: nat)
    ensures
        section_read(data, at) is Section ==> at < data.len() && at < section_read(
            data,
            at,
        )->next,
{
    reveal(section_read);
    lemma_varint_read_len(bytes_from(data, at));
}

/// The sections from an offset on are the one read there, then those from
/// behind it on.
pub proof fn lemma_sections_from_step(data: Seq<u8>, at: nat)
    ensures
        sections_from(data, at) == match section_read(data, at) {
            SectionRead::End => Ok::<Seq<SectionView>, ErrorKind>(Seq::empty()),
            SectionRead::Failed(k) => Err::<Seq<SectionView>, ErrorKind>(k),
            SectionRead::Section { section, next } => prepend(
                seq![section],
                sections_from(data, next),
            ),
        },
{
    lemma_section_read_advances(data, at);
}

/// The index over a list of sections: each identifier with the last section
/// that names it.
pub open spec fn index_of(s: Seq<SectionView>) -> Map<CidView, SectionView>
    decreases s.len(),
{
    if s.len() == 0 {
        Map::empty()
    } else {
        index_of(s.drop_last()).insert(s.last().cid, s.last())
    }
}

/// The views of a list of sections.
pub open spec fn sections_view(s: Seq<Section>) -> Seq<SectionView> {
    s.map_values(|x: Section| x@)
}

/// No two sections of the list name the same identifier.
pub open spec fn distinct_cids(s: Seq<SectionView>) -> bool {
    forall|i: int, j: int| 0 <= i < j < s.len() ==> s[i].cid != s[j].cid
}

/// In a list without repeated identifiers, the index holds each section
/// under its identifier, and nothing else.
pub proof fn lemma_index_of_distinct(s: Seq<SectionView>)
    requires
        distinct_cids(s),
    ensures
        forall|i: int| 0 <= i < s.len() ==> index_of(s).dom().contains(#[trigger] s[i].cid) && index_of(s)[s[i].cid] == s[i],
        forall|c: CidView| index_of(s).dom().contains(c) ==> exists|i: int| 0 <= i < s.len() && #[trigger] s[i].cid == c,
    decreases s.len(),
{
    if s.len() > 0 {
        let t = s.drop_last();
        lemma_index_of_distinct(t);
        assert forall|i: int| 0 <= i < s.len() implies index_of(s).dom().contains(
            #[trigger] s[i].cid,
        ) && index_of(s)[s[i].cid] == s[i] by {
            if i < s.len() - 1 {
                assert(t[i] == s[i]);
                assert(s[i].cid != s.last().cid);
            }
        }
        assert forall|c: CidView| index_of(s).dom().contains(c) implies exists|i: int|
            0 <= i < s.len() && #[trigger] s[i].cid == c by {
            if c == s.last().cid {
                assert(s[s.len() - 1].cid == c);
            } else {
                assert(index_of(t).dom().contains(c));
                let i = choose|i: int| 0 <= i < t.len() && #[trigger] t[i].cid == c;
                assert(t[i] == s[i]);
                assert(s[i].cid == c);
            }
        }
    }
}

/// Putting a section in the place of the one with the same identifier
/// changes the index as an insertion does.
pub proof fn lemma_index_of_update(s: Seq<SectionView>, k: int, x: SectionView)
    requires
        distinct_cids(s),
        0 <= k < s.len(),
        s[k].cid == x.cid,
    ensures
        distinct_cids(s.update(k, x)),
        index_of(s.update(k, x)) == index_of(s).insert(x.cid, x),
    decreases s.len(),
{
    let u = s.update(k, x);
    if k == s.len() - 1 {
        assert(u.drop_last() =~= s.drop_last());
        assert(index_of(u) =~= index_of(s).insert(x.cid, x));
    } else {
        let t = s.drop_last();
        lemma_index_of_update(t, k, x);
        assert(u.drop_last() =~= t.update(k, x));
        assert(u.last() == s.last());
        assert(s.last().cid != x.cid);
        assert(index_of(u) =~= index_of(s).insert(x.cid, x));
    }
}

/// What opening an archive on the stream `data` at offset `at` comes to: the
/// header and the sections in the order in which they lie, or the kind of
/// the first error.
pub open spec fn archive_read(data: Seq<u8>, at: nat) -> Result<
    (crate::header::HeaderView, Seq<SectionView>),
    ErrorKind,
> {
    match crate::header::header_read(bytes_from(data, at)) {
        Err(k) => Err(k),
        Ok((h, n)) => match sections_from(data, at + n) {
            Err(k) => Err(k),
            Ok(s) => Ok((h, s)),
        },
    }
}

/// A list of sections before what reading the rest came to.
pub open spec fn prepend(acc: Seq<SectionView>, rest: Result<Seq<SectionView>, ErrorKind>) -> Result<
    Seq<SectionView>,
    ErrorKind,
> {
    match rest {
        Ok(s) => Ok(acc + s),
        Err(k) => Err(k),
    }
}

/// The place of the section that names `cid`, if there is one.
fn find_section(sections: &Vec<Section>, cid: &Cid) -> (r: Option<usize>)
    ensures
        match r {
            Some(k) => k < sections@.len() && sections@[k as int]@.cid == cid@,
            None => forall|j: int| 0 <= j < sections@.len() ==> (#[trigger] sections@[j])@.cid != cid@,
        },
{
    let mut i: usize = 0;
    while i < sections.len()
        invariant
            i <= sections@.len(),
            forall|j: int| 0 <= j < i ==> (#[trigger] sections@[j])@.cid != cid@,
        decreases sections@.len() - i,
    {
        if *sections[i].cid_ref() == *cid {
            return Some(i);
        }
        i = i + 1;
    }
    None
}

/// Puts a section into the list: in the place of the one that names the
/// same identifier, or at the end.
fn insert_section(sections: &mut Vec<Section>, section: Section)
    requires
        distinct_cids(sections_view(old(sections)@)),
    ensures
        distinct_cids(sections_view(final(sections)@)),
        index_of(sections_view(final(sections)@)) == index_of(sections_view(old(sections)@)).insert(
            section@.cid,
            section@,
        ),
{
    let ghost before = sections_view(sections@);
    match find_section(sections, section.cid_ref()) {
        Some(k) => {
            proof {
                lemma_index_of_update(before, k as int, section@);
            }
            sections.set(k, section);
            assert(sections_view(sections@) =~= before.update(k as int, section@));
        },
        None => {
            sections.push(section);
            assert(sections_view(sections@) =~= before.push(section@));
            assert(before.push(section@).drop_last() =~= before);
            assert forall|i: int, j: int| 0 <= i < j < before.len() + 1 implies before.push(
                section@,
            )[i].cid != before.push(section@)[j].cid by {
                if j == before.len() {
                    assert(before[i] == old(sections)@[i]@);
                }
            }
        },
    }
}

/// A reader of the first version of the format: the stream, the header and
/// the place of every section.
pub struct CarReaderV1 {
    inner: ByteCursor,
    sections: Vec<Section>,
    header: CarHeader,
}

impl CarReaderV1 {
    /// What holds of every reader that was opened: its header is of
    /// version 1 and no identifier has two sections.
    pub closed spec fn wf(&self) -> bool {
        self.header is V1 && distinct_cids(sections_view(self.sections@))
    }

    /// The bytes of the stream.
    pub closed spec fn data(&self) -> Seq<u8> {
        self.inner.data@
    }

    /// The sections that the reader holds, one for each identifier.
    pub closed spec fn entries(&self) -> Seq<SectionView> {
        sections_view(self.sections@)
    }

    /// The index: each identifier of the archive with its section.
    pub open spec fn index(&self) -> Map<CidView, SectionView> {
        index_of(self.entries())
    }

    /// The header of the archive as a mathematical value.
    pub closed spec fn header_view(&self) -> HeaderView {
        self.header.spec_v1()
    }

    /// Opens the archive that `inner` holds from its position on: reads the
    /// header, then the place of every section up to the end of the stream.
    /// Where an identifier comes twice, the later section is kept.
    #[verifier::rlimit(50)]
    pub fn new(inner: ByteCursor) -> (r: Result<Self, CarError>)
        ensures
            match archive_read(inner.data@, inner.pos as nat) {
                Ok((h, s)) => r is Ok && r->Ok_0.wf() && r->Ok_0.data() == inner.data@
                    && r->Ok_0.header_view() == h && r->Ok_0.index() == index_of(s),
                Err(k) => r is Err && r->Err_0.kind() == k,
            },
    {
        let mut stream = inner;
        let ghost data = inner.data@;
        let ghost at = inner.pos as nat;
        let header = CarHeader::read_header(&mut stream)?;
        let ghost first = stream.pos as nat;
        let mut sections: Vec<Section> = Vec::new();
        let ghost mut acc: Seq<SectionView> = Seq::empty();
        let mut done = false;
        proof {
            assert(acc + sections_from(data, first)->Ok_0 =~= sections_from(data, first)->Ok_0);
        }
        while !done
            invariant
                stream.data@ == data,
                data == inner.data@,
                at == inner.pos as nat,
                header is V1,
                archive_read(data, at) == (match sections_from(data, first) {
                    Ok(s) => Ok::<(HeaderView, Seq<SectionView>), ErrorKind>((header.spec_v1(), s)),
                    Err(k) => Err::<(HeaderView, Seq<SectionView>), ErrorKind>(k),
                }),
                distinct_cids(sections_view(sections@)),
                index_of(sections_view(sections@)) == index_of(acc),
                !done ==> sections_from(data, first) == prepend(
                    acc,
                    sections_from(data, stream.pos as nat),
                ),
                done ==> sections_from(data, first) == Ok::<Seq<SectionView>, ErrorKind>(acc),
            decreases
                    (if done {
                        0
                    } else if stream.pos < data.len() {
                        data.len() - stream.pos + 1
                    } else {
                        1
                    }),
        {
            let ghost pos = stream.pos as nat;
            proof {
                lemma_section_read_advances(data, pos);
                lemma_sections_from_step(data, pos);
            }
            match read_section(&mut stream) {
                Ok(Some(section)) => {
                    proof {
                        let next = stream.pos as nat;
                        let rest = sections_from(data, next);
                        if rest is Ok {
                            assert(acc + (seq![section@] + rest->Ok_0) =~= acc.push(section@)
                                + rest->Ok_0);
                        }
                        assert(acc.push(section@).drop_last() =~= acc);
                        acc = acc.push(section@);
                    }
                    insert_section(&mut sections, section);
                },
                Ok(None) => {
                    proof {
                        assert(acc + Seq::<SectionView>::empty() =~= acc);
                    }
                    done = true;
                },
                Err(e) => {
                    return Err(e);
                },
            }
        }
        Ok(CarReaderV1 { inner: stream, sections, header })
    }

    /// The header of the archive.
    pub fn header(&self) -> (h: &CarHeader)
        requires
            self.wf(),
        ensures
            h is V1,
            h.spec_v1() == self.header_view(),
    {
        &self.header
    }

    /// A copy of the sections that the reader holds: one for each
    /// identifier of the archive.
    pub fn sections(&self) -> (list: Vec<Section>)
        requires
            self.wf(),
        ensures
            sections_view(list@) == self.entries(),
            distinct_cids(self.entries()),
    {
        let mut list: Vec<Section> = Vec::new();
        let mut i: usize = 0;
        while i < self.sections.len()
            invariant
                i <= self.sections@.len(),
                list@.len() == i,
                forall|j: int| 0 <= j < i ==> (#[trigger] list@[j])@ == self.sections@[j]@,
            decreases self.sections@.len() - i,
        {
            list.push(self.sections[i].clone());
            i = i + 1;
        }
        assert(sections_view(list@) =~= sections_view(self.sections@));
        list
    }

    /// The bytes of the block that `cid` names. Fails with an invalid
    /// section error where the archive has no such block, and with
    /// `UnexpectedEof` where the stream ends before the block does.
    pub fn read_section_data(&mut self, cid: &Cid) -> (r: Result<Vec<u8>, CarError>)
        requires
            old(self).wf(),
        ensures
            final(self).wf(),
            final(self).data() == old(self).data(),
            final(self).entries() == old(self).entries(),
            final(self).header_view() == old(self).header_view(),
            match section_payload(old(self).data(), old(self).index(), cid@) {
                Some(Some(bytes)) => r is Ok && r->Ok_0@ == bytes,
                Some(None) => r is Err && r->Err_0 == CarError::IO(IoErrorKind::UnexpectedEof),
                None => r is Err && r->Err_0 is InvalidSection,
            },
    {
        proof {
            lemma_index_of_distinct(self.entries());
        }
        match find_section(&self.sections, cid) {
            Some(k) => {
                assert(self.entries()[k as int] == self.sections@[k as int]@);
                self.sections[k].read_data(&mut self.inner)
            },
            None => {
                proof {
                    if self.index().dom().contains(cid@) {
                        let i = choose|i: int|
                            0 <= i < self.entries().len() && #[trigger] self.entries()[i].cid
                                == cid@;
                        assert(self.entries()[i] == self.sections@[i]@);
                    }
                }
                Err(CarError::InvalidSection("cid not exist".to_string()))
            },
        }
    }

    /// The value that the block named by `cid` decodes to, by the codec of
    /// the identifier.
    pub fn ipld(&mut self, cid: &Cid) -> (r: Result<TreeValue, CarError>)
        requires
            old(self).wf(),
        ensures
            final(self).wf(),
            final(self).data() == old(self).data(),
            final(self).entries() == old(self).entries(),
            final(self).header_view() == old(self).header_view(),
            match section_payload(old(self).data(), old(self).index(), cid@) {
                Some(Some(bytes)) => match block_value(cid@, bytes) {
                    Some(v) => r is Ok && r->Ok_0@ == v,
                    None => r is Err && r->Err_0 is Parsing,
                },
                Some(None) => r is Err && r->Err_0 == CarError::IO(IoErrorKind::UnexpectedEof),
                None => r is Err && r->Err_0 is InvalidSection,
            },
    {
        proof {
            lemma_index_of_distinct(self.entries());
        }
        match find_section(&self.sections, cid) {
            Some(k) => {
                assert(self.entries()[k as int] == self.sections@[k as int]@);
                self.sections[k].ipld(&mut self.inner)
            },
            None => {
                proof {
                    if self.index().dom().contains(cid@) {
                        let i = choose|i: int|
                            0 <= i < self.entries().len() && #[trigger] self.entries()[i].cid
                                == cid@;
                        assert(self.entries()[i] == self.sections@[i]@);
                    }
                }
                Err(CarError::InvalidSection("cid not exist".to_string()))
            },
        }
    }
}

/// The bytes of the block that the index holds under `cid`: nothing where
/// the index has no such identifier, and no bytes where the stream ends
/// before the block does.
pub open spec fn section_payload(
    data: Seq<u8>,
    index: Map<CidView, SectionView>,
    cid: CidView,
) -> Option<Option<Seq<u8>>> {
    if index.dom().contains(cid) {
        Some(payload_at(data, index[cid].pos as nat, index[cid].len as nat))
    } else {
        None
    }
}

/// The value that the block named by `cid` decodes to, or the kind of the
/// error: an invalid section where the index has no such identifier, a
/// failure of the stream where the stream ends before the block does, and a
/// parsing error where the block is not in the form of its codec.
pub open spec fn block_at(data: Seq<u8>, index: Map<CidView, SectionView>, cid: CidView) -> Result<
    crate::ipld::TreeView,
    ErrorKind,
> {
    match section_payload(data, index, cid) {
        None => Err(ErrorKind::InvalidSection),
        Some(None) => Err(ErrorKind::IO),
        Some(Some(bytes)) => match block_value(cid, bytes) {
            None => Err(ErrorKind::Parsing),
            Some(v) => Ok(v),
        },
    }
}

/// The node of a file tree that the block named by `cid` stands for, or the
/// kind of the error: that of reading the block, or a parsing error where
/// the block is no node.
pub open spec fn node_at(data: Seq<u8>, index: Map<CidView, SectionView>, cid: CidView) -> Result<
    UnixFsView,
    ErrorKind,
> {
    match block_at(data, index, cid) {
        Err(k) => Err(k),
        Ok(v) => match unixfs_of_value(v) {
            None => Err(ErrorKind::Parsing),
            Some(u) => Ok(UnixFsView { cid: Some(cid), ..u }),
        },
    }
}

/// The identifier of the first child that goes by `name`.
pub open spec fn find_name(children: Seq<LinkView>, name: Seq<char>) -> Option<CidView>
    decreases children.len(),
{
    if children.len() == 0 {
        None
    } else if children[0].name == Some(name) {
        Some(children[0].hash)
    } else {
        find_name(children.drop_first(), name)
    }
}

/// What looking for `name` among the children of `roots` comes to: the
/// roots are taken in their order, the children of each in theirs, and the
/// first child that goes by the name is the one. A root that is no node
/// ends the search with its error. Where no child goes by the name the
/// file is invalid.
pub open spec fn search_roots(
    data: Seq<u8>,
    index: Map<CidView, SectionView>,
    roots: Seq<CidView>,
    name: Seq<char>,
) -> Result<CidView, ErrorKind>
    decreases roots.len(),
{
    if roots.len() == 0 {
        Err(ErrorKind::InvalidFile)
    } else {
        match node_at(data, index, roots[0]) {
            Err(k) => Err(k),
            Ok(u) => match find_name(u.children, name) {
                Some(c) => Ok(c),
                None => search_roots(data, index, roots.drop_first(), name),
            },
        }
    }
}

/// The identifier of the first child that goes by `name`.
fn find_child(children: &Vec<crate::unixfs::Link>, name: &String) -> (r: Option<Cid>)
    ensures
        match find_name(crate::unixfs::links_view(children@), name@) {
            Some(c) => r is Some && r->Some_0@ == c,
            None => r is None,
        },
{
    let ghost links = crate::unixfs::links_view(children@);
    let mut j: usize = 0;
    proof {
        assert(links.skip(0) =~= links);
    }
    while j < children.len()
        invariant
            j <= children@.len(),
            crate::unixfs::links_view(children@) == links,
            find_name(links, name@) == find_name(links.skip(j as int), name@),
        decreases children@.len() - j,
    {
        proof {
            assert(links.skip(j as int)[0] == children@[j as int]@);
            assert(links.skip(j as int).drop_first() =~= links.skip(j + 1));
        }
        if let Some(file_name) = &children[j].name {
            if *file_name == *name {
                return Some(children[j].hash());
            }
        }
        j = j + 1;
    }
    None
}

impl CarReaderV1 {
    /// The value that the block named by `cid` decodes to.
    pub fn block(&mut self, cid: &Cid) -> (r: Result<TreeValue, CarError>)
        requires
            old(self).wf(),
        ensures
            final(self).wf(),
            final(self).data() == old(self).data(),
            final(self).entries() == old(self).entries(),
            final(self).header_view() == old(self).header_view(),
            match block_at(old(self).data(), old(self).index(), cid@) {
                Ok(v) => r is Ok && r->Ok_0@ == v,
                Err(k) => r is Err && r->Err_0.kind() == k,
            },
    {
        self.ipld(cid)
    }

    /// The node of a file tree that the block named by `cid` stands for,
    /// with `cid` as its identifier.
    pub fn unixfs(&mut self, cid: &Cid) -> (r: Result<UnixFs, CarError>)
        requires
            old(self).wf(),
        ensures
            final(self).wf(),
            final(self).data() == old(self).data(),
            final(self).entries() == old(self).entries(),
            final(self).header_view() == old(self).header_view(),
            match node_at(old(self).data(), old(self).index(), cid@) {
                Ok(u) => r is Ok && r->Ok_0@ == u,
                Err(k) => r is Err && r->Err_0.kind() == k,
            },
    {
        let fs_ipld = self.ipld(cid)?;
        UnixFs::from_cid_ipld(cid.clone(), &fs_ipld)
    }

    /// The identifier of the file that goes by the name `f` among the
    /// children of the roots. Only the roots' own children are looked at.
    pub fn search_file_cid(&mut self, f: &str) -> (r: Result<Cid, CarError>)
        requires
            old(self).wf(),
        ensures
            final(self).wf(),
            final(self).data() == old(self).data(),
            final(self).entries() == old(self).entries(),
            final(self).header_view() == old(self).header_view(),
            match search_roots(
                old(self).data(),
                old(self).index(),
                old(self).header_view().roots,
                f@,
            ) {
                Ok(c) => r is Ok && r->Ok_0@ == c,
                Err(k) => r is Err && r->Err_0.kind() == k,
            },
    {
        let roots = self.header().roots();
        let wanted = String::from_str(f);
        let ghost all = self.header_view().roots;
        let mut i: usize = 0;
        proof {
            assert(all.skip(0) =~= all);
        }
        while i < roots.len()
            invariant
                i <= roots@.len(),
                self.wf(),
                self.data() == old(self).data(),
                self.entries() == old(self).entries(),
                self.header_view() == old(self).header_view(),
                all == old(self).header_view().roots,
                crate::header::cids_view(roots@) == all,
                wanted@ == f@,
                search_roots(self.data(), self.index(), all, f@) == search_roots(
                    self.data(),
                    self.index(),
                    all.skip(i as int),
                    f@,
                ),
            decreases roots@.len() - i,
        {
            proof {
                assert(all.skip(i as int)[0] == roots@[i as int]@);
                assert(all.skip(i as int).drop_first() =~= all.skip(i + 1));
            }
            let unixfs = self.unixfs(&roots[i])?;
            if let Some(found) = find_child(unixfs.children(), &wanted) {
                return Ok(found);
            }
            i = i + 1;
        }
        Err(CarError::InvalidFile(String::from_str("search ").concat(f).concat(" fail.")))
    }
}

/// A reader of an archive.
pub trait CarReader {
    /// What holds of a reader that was opened.
    spec fn opened(&self) -> bool;

    /// The header of the archive.
    fn header(&self) -> &CarHeader
        requires
            self.opened(),
    ;

    /// A copy of the sections, one for each identifier of the archive.
    fn sections(&self) -> Vec<Section>
        requires
            self.opened(),
    ;

    /// The bytes of the block that `cid` names.
    fn read_section_data(&mut self, cid: &Cid) -> (r: Result<Vec<u8>, CarError>)
        requires
            old(self).opened(),
        ensures
            final(self).opened(),
    ;

    /// The value that the block named by `cid` decodes to.
    fn ipld(&mut self, cid: &Cid) -> (r: Result<TreeValue, CarError>)
        requires
            old(self).opened(),
        ensures
            final(self).opened(),
    ;

    /// The node of a file tree that the block named by `cid` stands for.
    fn unixfs(&mut self, cid: &Cid) -> (r: Result<UnixFs, CarError>)
        requires
            old(self).opened(),
        ensures
            final(self).opened(),
    ;

    /// The identifier of the file that goes by the name `f` among the
    /// children of the roots.
    fn search_file_cid(&mut self, f: &str) -> (r: Result<Cid, CarError>)
        requires
            old(self).opened(),
        ensures
            final(self).opened(),
    ;
}

impl CarReader for CarReaderV1 {
    open spec fn opened(&self) -> bool {
        self.wf()
    }

    fn header(&self) -> (h: &CarHeader)
        ensures
            h is V1,
            h.spec_v1() == self.header_view(),
    {
        CarReaderV1::header(self)
    }

    fn sections(&self) -> (list: Vec<Section>)
        ensures
            sections_view(list@) == self.entries(),
            distinct_cids(self.entries()),
    {
        CarReaderV1::sections(self)
    }

    fn read_section_data(&mut self, cid: &Cid) -> (r: Result<Vec<u8>, CarError>)
        ensures
            final(self).data() == old(self).data(),
            final(self).entries() == old(self).entries(),
            final(self).header_view() == old(self).header_view(),
            match section_payload(old(self).data(), old(self).index(), cid@) {
                Some(Some(bytes)) => r is Ok && r->Ok_0@ == bytes,
                Some(None) => r is Err && r->Err_0 == CarError::IO(IoErrorKind::UnexpectedEof),
                None => r is Err && r->Err_0 is InvalidSection,
            },
    {
        CarReaderV1::read_section_data(self, cid)
    }

    fn ipld(&mut self, cid: &Cid) -> (r: Result<TreeValue, CarError>)
        ensures
            final(self).data() == old(self).data(),
            final(self).entries() == old(self).entries(),
            final(self).header_view() == old(self).header_view(),
            match section_payload(old(self).data(), old(self).index(), cid@) {
                Some(Some(bytes)) => match block_value(cid@, bytes) {
                    Some(v) => r is Ok && r->Ok_0@ == v,
                    None => r is Err && r->Err_0 is Parsing,
                },
                Some(None) => r is Err && r->Err_0 == CarError::IO(IoErrorKind::UnexpectedEof),
                None => r is Err && r->Err_0 is InvalidSection,
            },
    {
        CarReaderV1::ipld(self, cid)
    }

    fn unixfs(&mut self, cid: &Cid) -> (r: Result<UnixFs, CarError>)
        ensures
            final(self).data() == old(self).data(),
            final(self).entries() == old(self).entries(),
            final(self).header_view() == old(self).header_view(),
            match node_at(old(self).data(), old(self).index(), cid@) {
                Ok(u) => r is Ok && r->Ok_0@ == u,
                Err(k) => r is Err && r->Err_0.kind() == k,
            },
    {
        CarReaderV1::unixfs(self, cid)
    }

    fn search_file_cid(&mut self, f: &str) -> (r: Result<Cid, CarError>)
        ensures
            final(self).data() == old(self).data(),
            final(self).entries() == old(self).entries(),
            final(self).header_view() == old(self).header_view(),
            match search_roots(
                old(self).data(),
                old(self).index(),
                old(self).header_view().roots,
                f@,
            ) {
                Ok(c) => r is Ok && r->Ok_0@ == c,
                Err(k) => r is Err && r->Err_0.kind() == k,
            },
    {
        CarReaderV1::search_file_cid(self, f)
    }
}

/// Opens the archive that `inner` holds from its position on.
pub fn new_v1(inner: ByteCursor) -> (r: Result<CarReaderV1, CarError>)
    ensures
        match archive_read(inner.data@, inner.pos as nat) {
            Ok((h, s)) => r is Ok && r->Ok_0.wf() && r->Ok_0.data() == inner.data@
                && r->Ok_0.header_view() == h && r->Ok_0.index() == index_of(s),
            Err(k) => r is Err && r->Err_0.kind() == k,
        },
{
    CarReaderV1::new(inner)
}

} // verus!
