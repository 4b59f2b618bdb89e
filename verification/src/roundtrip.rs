//! What is written is read back: a section added behind an archive is found
//! by a reader of the whole, under its identifier and with its bytes.

use crate::cid::{cid_bytes, cid_parse, lemma_cid_parse_prefix, lemma_cid_roundtrip, CidView};
use crate::error::ErrorKind;
use crate::header::{header_decoded, header_read, HeaderView};
use crate::reader::{
    archive_read, block_read, index_of, lemma_section_read_advances, lemma_sections_from_step,
    lemma_varint_read_len, prepend, section_payload, section_read, sections_from, BlockRead,
    SectionRead, MAX_ALLOWED_SECTION_SIZE,
};
use crate::section::{payload_at, SectionView};
use crate::stream::bytes_from;
use crate::varint::{
    lemma_varint_encode_fits, lemma_varint_read_prefix, lemma_varint_roundtrip, varint_encode,
    varint_read, VarintRead,
};
use crate::writer::section_block;
use vstd::prelude::*;

verus! {

/// The sections of the stream `data` from offset `at` on are all read, each
/// ends within the stream, and the last one ends where the stream ends.
pub open spec fn sections_complete(data: Seq<u8>, at: nat) -> bool
    decreases
            (if at < data.len() {
                data.len() - at
            } else {
                0
            }),
{
    match section_read(data, at) {
        SectionRead::End => at == data.len(),
        SectionRead::Failed(_) => false,
        SectionRead::Section { section, next } => at < data.len() && at < next && next
            <= data.len() && sections_complete(data, next),
    }
}

/// The stream `data` holds, from offset `at` on, a header and sections that
/// end where the stream ends.
pub open spec fn archive_complete(data: Seq<u8>, at: nat) -> bool {
    &&& at <= data.len()
    &&& header_read(bytes_from(data, at)) matches Ok((h, n))
    &&& sections_complete(data, at + n)
}

/// The section that `write` adds behind a stream of `end` bytes.
pub open spec fn written_section(end: nat, cid: CidView, block: Seq<u8>) -> SectionView {
    let total = cid_bytes(cid).len() + block.len();
    SectionView {
        cid,
        pos: (end + varint_encode(total).len() + cid_bytes(cid).len()) as u64,
        len: block.len() as usize,
    }
}

/// A block that was read is read again, the same, whatever bytes are added
/// behind the stream.
pub proof fn lemma_block_read_prefix(s: Seq<u8>, t: Seq<u8>)
    requires
        block_read(s) is Block,
    ensures
        block_read(s + t) == block_read(s),
        block_read(s)->len <= s.len(),
{
    lemma_varint_read_prefix(s, t);
    let n = varint_read(s)->len;
    let value = varint_read(s)->value;
    assert((s + t).subrange(n as int, n + value) =~= s.subrange(n as int, n + value));
}

/// A header that was read is read again, the same, whatever bytes are added
/// behind the stream.
pub proof fn lemma_header_read_prefix(s: Seq<u8>, t: Seq<u8>)
    requires
        header_read(s) is Ok,
    ensures
        header_read(s + t) == header_read(s),
        header_read(s)->Ok_0.1 <= s.len(),
{
    lemma_block_read_prefix(s, t);
}

/// A section that ends within the stream is read again, the same, whatever
/// bytes are added behind the stream.
pub proof fn lemma_section_read_prefix(data: Seq<u8>, at: nat, t: Seq<u8>)
    requires
        section_read(data, at) is Section,
        section_read(data, at)->next <= data.len(),
    ensures
        section_read(data + t, at) == section_read(data, at),
{
    reveal(section_read);
    let s = bytes_from(data, at);
    lemma_varint_read_len(s);
    assert(bytes_from(data + t, at) =~= s + t);
    lemma_varint_read_prefix(s, t);
    let start = at + varint_read(s)->len;
    let rest = bytes_from(data, start);
    assert(bytes_from(data + t, start) =~= rest + t);
    lemma_cid_parse_prefix(rest, t);
}

/// The section that `write` adds behind a stream is the one that is read
/// where the stream ended, and it ends where the longer stream ends.
#[verifier::rlimit(50)]
pub proof fn lemma_written_section_read(data: Seq<u8>, cid: CidView, block: Seq<u8>)
    requires
        cid.wf(),
        cid.canonical(),
        cid_bytes(cid).len() + block.len() <= MAX_ALLOWED_SECTION_SIZE,
        data.len() + section_block(cid, block).len() <= u64::MAX,
    ensures
        section_read(data + section_block(cid, block), data.len()) == (SectionRead::Section {
            section: written_section(data.len(), cid, block),
            next: data.len() + section_block(cid, block).len(),
        }),
{
    reveal(section_read);
    let total = (cid_bytes(cid).len() + block.len()) as usize;
    let prefix = varint_encode(total as nat);
    let c = cid_bytes(cid);
    let sec = section_block(cid, block);
    let all = data + sec;
    assert(bytes_from(all, data.len()) =~= prefix + (c + block));
    lemma_varint_roundtrip(total, c + block);
    lemma_varint_encode_fits(total);
    let start = data.len() + prefix.len();
    assert(bytes_from(all, start) =~= c + block);
    lemma_cid_roundtrip(cid, block);
}

/// Behind the last byte of a stream no section is read.
pub proof fn lemma_section_read_at_end(data: Seq<u8>)
    ensures
        section_read(data, data.len()) == SectionRead::End,
{
    reveal(section_read);
    assert(bytes_from(data, data.len()) =~= Seq::<u8>::empty());
}

/// A section added behind complete sections: the longer stream holds the
/// sections of the shorter one, then the added one, and is complete again.
#[verifier::rlimit(50)]
pub proof fn lemma_sections_appended(data: Seq<u8>, at: nat, cid: CidView, block: Seq<u8>)
    requires
        sections_complete(data, at),
        at <= data.len(),
        cid.wf(),
        cid.canonical(),
        cid_bytes(cid).len() + block.len() <= MAX_ALLOWED_SECTION_SIZE,
        data.len() + section_block(cid, block).len() <= u64::MAX,
    ensures
        sections_from(data, at) is Ok,
        sections_from(data + section_block(cid, block), at) == Ok::<Seq<SectionView>, ErrorKind>(
            sections_from(data, at)->Ok_0.push(written_section(data.len(), cid, block)),
        ),
        sections_complete(data + section_block(cid, block), at),
    decreases
            (if at < data.len() {
                data.len() - at
            } else {
                0
            }),
{
    let sec = section_block(cid, block);
    let all = data + sec;
    let added = written_section(data.len(), cid, block);
    lemma_sections_from_step(data, at);
    lemma_sections_from_step(all, at);
    match section_read(data, at) {
        SectionRead::End => {
            lemma_written_section_read(data, cid, block);
            lemma_section_read_at_end(all);
            lemma_sections_from_step(all, all.len());
            assert(crate::varint::varint_encode(
                (cid_bytes(cid).len() + block.len()) as nat,
            ).len() >= 1) by {
                crate::varint::lemma_varint_encode_shape((cid_bytes(cid).len() + block.len()) as nat);
            }
            assert(seq![added] + Seq::<SectionView>::empty() =~= Seq::<SectionView>::empty().push(
                added,
            ));
            assert(sections_complete(all, all.len()));
            assert(sections_complete(all, at));
        },
        SectionRead::Failed(_) => {},
        SectionRead::Section { section, next } => {
            lemma_section_read_prefix(data, at, sec);
            lemma_sections_appended(data, next, cid, block);
            let rest = sections_from(data, next)->Ok_0;
            assert(seq![section] + rest.push(added) =~= (seq![section] + rest).push(added));
        },
    }
}

/// A section added behind a complete archive is found by a reader of the
/// longer stream: the archive has the same header, its index holds the
/// added section under its identifier, and the bytes of that section are
/// the block that was written.
///
/// The identifier must read back as itself, and identifier and block
/// together must not be longer than a section may be.
#[verifier::rlimit(50)]
pub proof fn lemma_written_section_is_read_back(
    data: Seq<u8>,
    at: nat,
    cid: CidView,
    block: Seq<u8>,
)
    requires
        archive_complete(data, at),
        cid.wf(),
        cid.canonical(),
        cid_bytes(cid).len() + block.len() <= MAX_ALLOWED_SECTION_SIZE,
        data.len() + section_block(cid, block).len() <= u64::MAX,
    ensures
        archive_read(data, at) is Ok,
        archive_read(data + section_block(cid, block), at) == Ok::<
            (HeaderView, Seq<SectionView>),
            ErrorKind,
        >(
            (
                archive_read(data, at)->Ok_0.0,
                archive_read(data, at)->Ok_0.1.push(written_section(data.len(), cid, block)),
            ),
        ),
        archive_complete(data + section_block(cid, block), at),
        section_payload(
            data + section_block(cid, block),
            index_of(archive_read(data + section_block(cid, block), at)->Ok_0.1),
            cid,
        ) == Some(Some(block)),
{
    let sec = section_block(cid, block);
    let all = data + sec;
    let head = bytes_from(data, at);
    assert(bytes_from(all, at) =~= head + sec);
    lemma_header_read_prefix(head, sec);
    let n = header_read(head)->Ok_0.1;
    lemma_sections_appended(data, at + n, cid, block);
    let added = written_section(data.len(), cid, block);
    let s = sections_from(data, at + n)->Ok_0;
    assert(s.push(added).drop_last() =~= s);
    let total = cid_bytes(cid).len() + block.len();
    let start = data.len() + varint_encode(total).len() + cid_bytes(cid).len();
    assert(bytes_from(all, start as nat).take(block.len() as int) =~= block);
}

/// The bytes of a header behind their length are read as that header, all of
/// them, where they are no more than a block may be.
pub proof fn lemma_head_block_read(h: HeaderView, bytes: Seq<u8>)
    requires
        header_decoded(bytes) == Ok::<HeaderView, ErrorKind>(h),
        bytes.len() <= MAX_ALLOWED_SECTION_SIZE,
    ensures
        header_read(varint_encode(bytes.len()) + bytes) == Ok::<(HeaderView, nat), ErrorKind>(
            (h, (varint_encode(bytes.len()) + bytes).len()),
        ),
{
    let n = bytes.len() as usize;
    let prefix = varint_encode(n as nat);
    let all = prefix + bytes;
    lemma_varint_roundtrip(n, bytes);
    assert(all.subrange(prefix.len() as int, prefix.len() + n) =~= bytes);
}

/// A header block followed by nothing is a complete archive, so the first
/// section written behind a header is read back.
pub proof fn lemma_first_section_is_read_back(head: Seq<u8>, cid: CidView, block: Seq<u8>)
    requires
        header_read(head) matches Ok((h, n)) && n == head.len(),
        cid.wf(),
        cid.canonical(),
        cid_bytes(cid).len() + block.len() <= MAX_ALLOWED_SECTION_SIZE,
        head.len() + section_block(cid, block).len() <= u64::MAX,
    ensures
        archive_read(head + section_block(cid, block), 0) == Ok::<
            (HeaderView, Seq<SectionView>),
            ErrorKind,
        >((header_read(head)->Ok_0.0, seq![written_section(head.len(), cid, block)])),
        section_payload(
            head + section_block(cid, block),
            index_of(seq![written_section(head.len(), cid, block)]),
            cid,
        ) == Some(Some(block)),
{
    assert(bytes_from(head, 0) =~= head);
    lemma_section_read_at_end(head);
    lemma_sections_from_step(head, head.len());
    lemma_written_section_is_read_back(head, 0, cid, block);
    assert(Seq::<SectionView>::empty().push(written_section(head.len(), cid, block)) =~= seq![
        written_section(head.len(), cid, block),
    ]);
}

} // verus!
