//! What a packed archive holds: behind its header, sections that end where
//! the stream ends, each with bytes that hash to its identifier.

use crate::cid::{cid_bytes, lemma_blake_cid, pb_cid_of, raw_cid_of, CidView, DAG_PB, RAW};
use crate::error::ErrorKind;
use crate::reader::{
    index_of, lemma_sections_from_step, section_payload, section_read, sections_from, SectionRead,
    MAX_ALLOWED_SECTION_SIZE,
};
use crate::roundtrip::{
    lemma_section_read_at_end, lemma_section_read_prefix, lemma_sections_appended,
    lemma_written_section_read, sections_complete, written_section,
};
use crate::section::SectionView;
use crate::stream::{bytes_from, write_at};
use crate::varint::{lemma_varint_encode_shape, varint_encode};
use crate::writer::{head_block, holder_bytes, section_block, WriterView};
use vstd::prelude::*;

verus! {

/// The identifier is the one that packing gives a block with these bytes:
/// that of plain bytes, or that of a node.
pub open spec fn blake_names(c: CidView, d: Seq<u8>) -> bool {
    c == raw_cid_of(d) || c == pb_cid_of(d)
}

/// The bytes of the section lie in the stream and hash to its identifier.
pub open spec fn section_true(data: Seq<u8>, s: SectionView) -> bool {
    &&& s.pos + s.len <= data.len()
    &&& blake_names(s.cid, data.subrange(s.pos as int, s.pos + s.len))
}

/// Every section of the stream from offset `at` on has bytes that lie in
/// the stream and hash to its identifier.
pub open spec fn sections_true(data: Seq<u8>, at: nat) -> bool
    decreases
            (if at < data.len() {
                data.len() - at
            } else {
                0
            }),
{
    match section_read(data, at) {
        SectionRead::End => true,
        SectionRead::Failed(_) => false,
        SectionRead::Section { section, next } => at < data.len() && at < next && section_true(
            data,
            section,
        ) && sections_true(data, next),
    }
}

/// The stream holds, behind its first `h` bytes, sections that end where it
/// ends, each with bytes that hash to its identifier.
pub open spec fn packed(data: Seq<u8>, h: nat) -> bool {
    h <= data.len() && sections_complete(data, h) && sections_true(data, h)
}

/// The stream holds, behind its first `h` bytes, a section with the
/// identifier `c`.
pub open spec fn packs(data: Seq<u8>, h: nat, c: CidView) -> bool {
    sections_from(data, h) matches Ok(s) && exists|i: int|
        0 <= i < s.len() && (#[trigger] s[i]).cid == c
}

/// Reading the sections of the stream from offset `at` on ends at a
/// section that announces more than a block may have, behind sections that
/// all lie within the stream.
pub open spec fn oversize(data: Seq<u8>, at: nat) -> bool
    decreases
            (if at < data.len() {
                data.len() - at
            } else {
                0
            }),
{
    match section_read(data, at) {
        SectionRead::End => false,
        SectionRead::Failed(k) => k == ErrorKind::TooLargeSection,
        SectionRead::Section { section, next } => at < data.len() && at < next && next
            <= data.len() && oversize(data, next),
    }
}

/// The stream is longer than a block may be, and behind its first `h`
/// bytes one of its sections announces more than a block may have.
pub open spec fn spoiled(data: Seq<u8>, h: nat) -> bool {
    data.len() > MAX_ALLOWED_SECTION_SIZE && oversize(data, h)
}

/// A stream without a section that is too large is packed.
pub open spec fn packed_if(data: Seq<u8>, h: nat) -> bool {
    !spoiled(data, h) ==> packed(data, h)
}

/// A stream without a section that is too large holds a section with the
/// identifier `c`.
pub open spec fn packs_if(data: Seq<u8>, h: nat, c: CidView) -> bool {
    !spoiled(data, h) ==> packs(data, h, c)
}

/// The sections of a stream with a section that is too large cannot all
/// be read.
pub proof fn lemma_oversize_fails(data: Seq<u8>, at: nat)
    requires
        oversize(data, at),
    ensures
        sections_from(data, at) is Err,
    decreases
            (if at < data.len() {
                data.len() - at
            } else {
                0
            }),
{
    lemma_sections_from_step(data, at);
    match section_read(data, at) {
        SectionRead::Section { section, next } => {
            lemma_oversize_fails(data, next);
        },
        _ => {},
    }
}

/// A section that is too large stays so, whatever bytes are added behind
/// the stream.
pub proof fn lemma_oversize_kept(data: Seq<u8>, at: nat, t: Seq<u8>)
    requires
        oversize(data, at),
    ensures
        oversize(data + t, at),
    decreases
            (if at < data.len() {
                data.len() - at
            } else {
                0
            }),
{
    match section_read(data, at) {
        SectionRead::Section { section, next } => {
            lemma_section_read_prefix(data, at, t);
            lemma_oversize_kept(data, next, t);
        },
        SectionRead::Failed(k) => {
            reveal(section_read);
            let s = bytes_from(data, at);
            if at <= data.len() {
                assert(bytes_from(data + t, at) =~= s + t);
                crate::varint::lemma_varint_read_prefix(s, t);
            }
        },
        SectionRead::End => {},
    }
}

/// A section that announces more than a block may have, added behind
/// complete sections, is too large where it is read.
pub proof fn lemma_oversize_appended(data: Seq<u8>, at: nat, c: CidView, d: Seq<u8>)
    requires
        at <= data.len(),
        sections_complete(data, at),
        cid_bytes(c).len() + d.len() > MAX_ALLOWED_SECTION_SIZE,
        data.len() + section_block(c, d).len() <= usize::MAX,
    ensures
        oversize(data + section_block(c, d), at),
    decreases
            (if at < data.len() {
                data.len() - at
            } else {
                0
            }),
{
    let sec = section_block(c, d);
    let all = data + sec;
    match section_read(data, at) {
        SectionRead::Section { section, next } => {
            lemma_section_read_prefix(data, at, sec);
            lemma_oversize_appended(data, next, c, d);
        },
        SectionRead::End => {
            reveal(section_read);
            let total = (cid_bytes(c).len() + d.len()) as usize;
            let rest = cid_bytes(c) + d;
            assert(bytes_from(all, at) =~= varint_encode(total as nat) + rest);
            crate::varint::lemma_varint_roundtrip(total, rest);
        },
        SectionRead::Failed(_) => {},
    }
}

/// The section has the identifier `c` and, behind the first `h` bytes of
/// the stream, the bytes `d`.
pub open spec fn holds_at(data: Seq<u8>, h: nat, sec: SectionView, c: CidView, d: Seq<u8>) -> bool {
    sec.cid == c && h <= sec.pos && sec.pos + sec.len <= data.len() && data.subrange(
        sec.pos as int,
        sec.pos + sec.len,
    ) == d
}

/// The stream holds, behind its first `h` bytes, a section with the
/// identifier `c` and the bytes `d`.
pub open spec fn holds(data: Seq<u8>, h: nat, c: CidView, d: Seq<u8>) -> bool {
    sections_from(data, h) matches Ok(s) && exists|i: int|
        0 <= i < s.len() && holds_at(data, h, #[trigger] s[i], c, d)
}

/// A stream without a section that is too large holds a section with the
/// identifier `c` and the bytes `d`.
pub open spec fn holds_if(data: Seq<u8>, h: nat, c: CidView, d: Seq<u8>) -> bool {
    !spoiled(data, h) ==> holds(data, h, c, d)
}

/// A stream that holds a section with an identifier and bytes holds a
/// section with that identifier.
pub proof fn lemma_holds_packs(data: Seq<u8>, h: nat, c: CidView, d: Seq<u8>)
    ensures
        holds(data, h, c, d) ==> packs(data, h, c),
        holds_if(data, h, c, d) ==> packs_if(data, h, c),
{
    if holds(data, h, c, d) {
        let s = sections_from(data, h)->Ok_0;
        let i = choose|i: int| 0 <= i < s.len() && holds_at(data, h, #[trigger] s[i], c, d);
        assert(0 <= i < s.len() && s[i].cid == c);
    }
}

/// A stream that ends behind its first `h` bytes is packed: it holds no
/// section.
pub proof fn lemma_packed_empty(data: Seq<u8>)
    ensures
        packed(data, data.len()),
{
    lemma_section_read_at_end(data);
}

/// Complete and true sections stay so when a true section is added behind
/// them.
#[verifier::rlimit(50)]
pub proof fn lemma_sections_true_appended(data: Seq<u8>, at: nat, c: CidView, d: Seq<u8>)
    requires
        at <= data.len(),
        sections_complete(data, at),
        sections_true(data, at),
        blake_names(c, d),
        cid_bytes(c).len() + d.len() <= MAX_ALLOWED_SECTION_SIZE,
        data.len() + section_block(c, d).len() <= u64::MAX,
    ensures
        sections_true(data + section_block(c, d), at),
    decreases
            (if at < data.len() {
                data.len() - at
            } else {
                0
            }),
{
    let sec = section_block(c, d);
    let all = data + sec;
    lemma_blake_cid(RAW, d);
    lemma_blake_cid(DAG_PB, d);
    match section_read(data, at) {
        SectionRead::End => {
            lemma_written_section_read(data, c, d);
            lemma_section_read_at_end(all);
            let total = (cid_bytes(c).len() + d.len()) as nat;
            lemma_varint_encode_shape(total);
            let added = written_section(data.len(), c, d);
            assert(all.subrange(added.pos as int, added.pos + added.len) =~= d);
            assert(sections_true(all, all.len()));
            assert(sections_true(all, at));
        },
        SectionRead::Failed(_) => {},
        SectionRead::Section { section, next } => {
            lemma_section_read_prefix(data, at, sec);
            lemma_sections_true_appended(data, next, c, d);
            assert(all.subrange(section.pos as int, section.pos + section.len) =~= data.subrange(
                section.pos as int,
                section.pos + section.len,
            ));
        },
    }
}

/// A true section added behind a packed stream gives a packed stream that
/// holds the section, and every section that the shorter stream held.
pub proof fn lemma_packed_append(data: Seq<u8>, h: nat, c: CidView, d: Seq<u8>)
    requires
        packed(data, h),
        blake_names(c, d),
        cid_bytes(c).len() + d.len() <= MAX_ALLOWED_SECTION_SIZE,
        data.len() + section_block(c, d).len() <= usize::MAX,
    ensures
        packed(data + section_block(c, d), h),
        packs(data + section_block(c, d), h, c),
        forall|c0: CidView| packs(data, h, c0) ==> packs(data + section_block(c, d), h, c0),
        holds(data + section_block(c, d), h, c, d),
        forall|c0: CidView, d0: Seq<u8>| #[trigger]
            holds(data, h, c0, d0) ==> holds(data + section_block(c, d), h, c0, d0),
{
    let all = data + section_block(c, d);
    lemma_blake_cid(RAW, d);
    lemma_blake_cid(DAG_PB, d);
    lemma_sections_appended(data, h, c, d);
    lemma_sections_true_appended(data, h, c, d);
    let s = sections_from(data, h)->Ok_0;
    let added = written_section(data.len(), c, d);
    let s2 = sections_from(all, h)->Ok_0;
    assert(s2 == s.push(added));
    assert(s2.len() == s.len() + 1);
    assert(s2[s.len() as int] == added);
    assert(0 <= s.len() < s2.len() && s2[s.len() as int].cid == c);
    assert forall|c0: CidView| packs(data, h, c0) implies packs(all, h, c0) by {
        let i = choose|i: int| 0 <= i < s.len() && (#[trigger] s[i]).cid == c0;
        assert(s2[i] == s[i]);
        assert(0 <= i < s2.len() && s2[i].cid == c0);
    }
    let total = (cid_bytes(c).len() + d.len()) as nat;
    lemma_varint_encode_shape(total);
    assert(all.subrange(added.pos as int, added.pos + added.len) =~= d);
    assert(holds_at(all, h, s2[s.len() as int], c, d));
    assert forall|c0: CidView, d0: Seq<u8>| #[trigger] holds(data, h, c0, d0) implies holds(
        all,
        h,
        c0,
        d0,
    ) by {
        let i = choose|i: int| 0 <= i < s.len() && holds_at(data, h, #[trigger] s[i], c0, d0);
        assert(s2[i] == s[i]);
        assert(all.subrange(s[i].pos as int, s[i].pos + s[i].len) =~= data.subrange(
            s[i].pos as int,
            s[i].pos + s[i].len,
        ));
        assert(holds_at(all, h, s2[i], c0, d0));
    }
}

/// What a stream holds from an offset on depends on nothing before that
/// offset: two streams of one length that agree from `p` on hold the same
/// sections there.
pub proof fn lemma_tail_section_read(d1: Seq<u8>, d2: Seq<u8>, p: nat, at: nat)
    requires
        d1.len() == d2.len(),
        p <= at,
        forall|i: int| p <= i < d1.len() ==> d1[i] == d2[i],
    ensures
        section_read(d1, at) == section_read(d2, at),
        section_read(d1, at) matches SectionRead::Section { section, next } ==> section.pos >= at,
{
    reveal(section_read);
    assert(bytes_from(d1, at) =~= bytes_from(d2, at));
    let s = bytes_from(d1, at);
    match crate::varint::varint_read(s) {
        crate::varint::VarintRead::Value { value, len } => {
            let start = at + len;
            assert(bytes_from(d1, start) =~= bytes_from(d2, start));
        },
        _ => {},
    }
}

/// Two streams of one length that agree from `p` on are packed alike from
/// there on.
pub proof fn lemma_tail_sections(d1: Seq<u8>, d2: Seq<u8>, p: nat, at: nat)
    requires
        d1.len() == d2.len(),
        p <= at,
        forall|i: int| p <= i < d1.len() ==> d1[i] == d2[i],
    ensures
        sections_from(d1, at) == sections_from(d2, at),
        sections_complete(d1, at) == sections_complete(d2, at),
        sections_true(d1, at) == sections_true(d2, at),
    decreases
            (if at < d1.len() {
                d1.len() - at
            } else {
                0
            }),
{
    lemma_tail_section_read(d1, d2, p, at);
    lemma_sections_from_step(d1, at);
    lemma_sections_from_step(d2, at);
    match section_read(d1, at) {
        SectionRead::Section { section, next } => {
            if at < d1.len() && at < next {
                lemma_tail_sections(d1, d2, p, next);
                if section.pos + section.len <= d1.len() {
                    assert(d1.subrange(section.pos as int, section.pos + section.len)
                        =~= d2.subrange(section.pos as int, section.pos + section.len));
                }
            }
        },
        _ => {},
    }
}

/// A packed stream stays packed when its first bytes are written over with
/// as many others, and holds the sections that it held.
pub proof fn lemma_packed_rehead(data: Seq<u8>, head: Seq<u8>)
    requires
        head.len() <= data.len(),
    ensures
        write_at(data, 0, head) == head + data.skip(head.len() as int),
        packed(data, head.len()) == packed(write_at(data, 0, head), head.len()),
        sections_from(data, head.len()) == sections_from(write_at(data, 0, head), head.len()),
        forall|c: CidView, d: Seq<u8>| #[trigger]
            holds(data, head.len(), c, d) ==> holds(write_at(data, 0, head), head.len(), c, d),
{
    let d2 = write_at(data, 0, head);
    assert(d2 =~= head + data.skip(head.len() as int));
    lemma_tail_sections(data, d2, head.len(), head.len());
    assert forall|c: CidView, d: Seq<u8>| #[trigger] holds(data, head.len(), c, d) implies holds(
        d2,
        head.len(),
        c,
        d,
    ) by {
        let s = sections_from(data, head.len())->Ok_0;
        let i = choose|i: int|
            0 <= i < s.len() && holds_at(data, head.len(), #[trigger] s[i], c, d);
        assert(d2.subrange(s[i].pos as int, s[i].pos + s[i].len) =~= data.subrange(
            s[i].pos as int,
            s[i].pos + s[i].len,
        ));
        assert(holds_at(d2, head.len(), s[i], c, d));
    }
}

/// Every section of a list is in the index under its identifier, and what
/// the index holds under an identifier is a section of the list with that
/// identifier.
pub proof fn lemma_index_of(s: Seq<SectionView>)
    ensures
        forall|i: int| 0 <= i < s.len() ==> index_of(s).dom().contains((#[trigger] s[i]).cid),
        forall|c: CidView|
            index_of(s).dom().contains(c) ==> exists|i: int|
                0 <= i < s.len() && #[trigger] s[i] == index_of(s)[c] && s[i].cid == c,
    decreases s.len(),
{
    if s.len() > 0 {
        let t = s.drop_last();
        lemma_index_of(t);
        assert forall|i: int| 0 <= i < s.len() implies index_of(s).dom().contains(
            (#[trigger] s[i]).cid,
        ) by {
            if i < t.len() {
                assert(t[i] == s[i]);
            }
        }
        assert forall|c: CidView| index_of(s).dom().contains(c) implies exists|i: int|
            0 <= i < s.len() && #[trigger] s[i] == index_of(s)[c] && s[i].cid == c by {
            if c == s.last().cid {
                assert(s[s.len() - 1] == index_of(s)[c]);
            } else {
                let i = choose|i: int| 0 <= i < t.len() && #[trigger] t[i] == index_of(t)[c] && t[i].cid == c;
                assert(s[i] == t[i]);
            }
        }
    }
}

/// The sections of a stream whose sections are all true are true, one by
/// one.
pub proof fn lemma_sections_true_each(data: Seq<u8>, at: nat)
    requires
        sections_true(data, at),
        sections_from(data, at) is Ok,
    ensures
        forall|i: int|
            0 <= i < sections_from(data, at)->Ok_0.len() ==> section_true(
                data,
                #[trigger] sections_from(data, at)->Ok_0[i],
            ),
    decreases
            (if at < data.len() {
                data.len() - at
            } else {
                0
            }),
{
    lemma_sections_from_step(data, at);
    match section_read(data, at) {
        SectionRead::Section { section, next } => {
            lemma_sections_true_each(data, next);
            let rest = sections_from(data, next)->Ok_0;
            let all = sections_from(data, at)->Ok_0;
            assert(all =~= seq![section] + rest);
            assert forall|i: int| 0 <= i < all.len() implies section_true(data, #[trigger] all[i]) by {
                if i > 0 {
                    assert(all[i] == rest[i - 1]);
                }
            }
        },
        _ => {},
    }
}

/// In a packed stream, the bytes that the index holds under an identifier
/// lie in the stream and hash to that identifier.
pub proof fn lemma_indexed_block(data: Seq<u8>, h: nat, c: CidView)
    requires
        packed(data, h),
        sections_from(data, h) is Ok,
        index_of(sections_from(data, h)->Ok_0).dom().contains(c),
    ensures
        section_payload(data, index_of(sections_from(data, h)->Ok_0), c) matches Some(Some(d))
            && blake_names(c, d),
{
    let s = sections_from(data, h)->Ok_0;
    lemma_index_of(s);
    lemma_sections_true_each(data, h);
    let i = choose|i: int| 0 <= i < s.len() && #[trigger] s[i] == index_of(s)[c] && s[i].cid == c;
    let sec = s[i];
    assert(section_true(data, sec));
    assert(bytes_from(data, sec.pos as nat).take(sec.len as int) =~= data.subrange(
        sec.pos as int,
        sec.pos + sec.len,
    ));
}

/// A packed stream that holds a section with an identifier has that
/// identifier in its index.
pub proof fn lemma_packs_indexed(data: Seq<u8>, h: nat, c: CidView)
    requires
        packs(data, h, c),
    ensures
        index_of(sections_from(data, h)->Ok_0).dom().contains(c),
{
    lemma_index_of(sections_from(data, h)->Ok_0);
}

/// What holds of the writer while a tree is packed: nothing is written yet
/// into an empty stream, or the writer stands at the end of a stream that
/// is packed behind a header of `h` bytes.
pub open spec fn archive_inv(w: WriterView, h: nat) -> bool {
    if w.pending {
        w.data.len() == 0 && w.pos == 0 && head_block(w.header) is Some && head_block(
            w.header,
        )->Some_0.len() == h
    } else {
        w.pos == w.data.len() && h <= w.data.len() && packed_if(w.data, h)
    }
}

/// Nothing is packed in a stream without bytes.
pub proof fn lemma_packs_nothing(h: nat, c: CidView)
    ensures
        !packs(Seq::<u8>::empty(), h, c),
{
    reveal(section_read);
    let data = Seq::<u8>::empty();
    assert(bytes_from(data, h) =~= Seq::<u8>::empty());
    lemma_sections_from_step(data, h);
}

/// The writer after a block was appended under its identifier: it stands at
/// the end of a packed stream that holds the block, and all that it held.
pub proof fn lemma_appended_packed(w: WriterView, h: nat, c: CidView, d: Seq<u8>, w2: WriterView)
    requires
        archive_inv(w, h),
        blake_names(c, d),
        !w2.pending,
        w2.pos == w2.data.len(),
        w2.data.len() <= usize::MAX,
        w2.data == w.data + (if w.pending {
            head_block(w.header)->Some_0
        } else {
            Seq::empty()
        }) + section_block(c, d),
    ensures
        archive_inv(w2, h),
        packs_if(w2.data, h, c),
        forall|c0: CidView| packs_if(w.data, h, c0) ==> packs_if(w2.data, h, c0),
        holds_if(w2.data, h, c, d),
        forall|c0: CidView, d0: Seq<u8>| #[trigger]
            holds_if(w.data, h, c0, d0) ==> holds_if(w2.data, h, c0, d0),
{
    let sec = section_block(c, d);
    let base = if w.pending {
        head_block(w.header)->Some_0
    } else {
        w.data
    };
    assert(w2.data =~= base + sec);
    if !spoiled(w2.data, h) {
        if w.pending {
            lemma_packed_empty(base);
        } else {
            if spoiled(w.data, h) {
                lemma_oversize_kept(w.data, h, sec);
            }
        }
        assert(packed(base, h));
        if cid_bytes(c).len() + d.len() > MAX_ALLOWED_SECTION_SIZE {
            lemma_oversize_appended(base, h, c, d);
        }
        lemma_packed_append(base, h, c, d);
        assert forall|c0: CidView| packs_if(w.data, h, c0) implies packs_if(w2.data, h, c0) by {
            if w.pending {
                lemma_packs_nothing(h, c0);
                assert(w.data =~= Seq::<u8>::empty());
            }
        }
        assert forall|c0: CidView, d0: Seq<u8>| #[trigger]
            holds_if(w.data, h, c0, d0) implies holds_if(w2.data, h, c0, d0) by {
            if w.pending {
                lemma_packs_nothing(h, c0);
                lemma_holds_packs(w.data, h, c0, d0);
                assert(w.data =~= Seq::<u8>::empty());
            }
        }
    }
}

/// Writing a block at the end of a packed stream appends its section.
pub proof fn lemma_written_packed(w: WriterView, h: nat, c: CidView, d: Seq<u8>)
    requires
        archive_inv(w, h),
        blake_names(c, d),
        w.written(c, d) is Ok,
    ensures
        archive_inv(w.written(c, d)->Ok_0, h),
        packs_if(w.written(c, d)->Ok_0.data, h, c),
        forall|c0: CidView|
            packs_if(w.data, h, c0) ==> packs_if(w.written(c, d)->Ok_0.data, h, c0),
        holds_if(w.written(c, d)->Ok_0.data, h, c, d),
        forall|c0: CidView, d0: Seq<u8>| #[trigger]
            holds_if(w.data, h, c0, d0) ==> holds_if(w.written(c, d)->Ok_0.data, h, c0, d0),
        w.written(c, d)->Ok_0.header == w.header,
{
    let w2 = w.written(c, d)->Ok_0;
    let base = w.pending_head()->Some_0;
    let blk = base + section_block(c, d);
    assert(write_at(w.data, w.pos, blk) =~= w.data + blk);
    assert(w.data + blk =~= w.data + base + section_block(c, d));
    lemma_appended_packed(w, h, c, d, w2);
}

/// Streaming a file of as many bytes as were announced, at the end of a
/// packed stream, appends the section of its bytes under their identifier.
#[verifier::rlimit(50)]
pub proof fn lemma_streamed_packed(w: WriterView, h: nat, stream_len: usize, source: Seq<u8>)
    requires
        archive_inv(w, h),
        stream_len == source.len(),
        w.streamed(stream_len, source, raw_cid_of(source)) is Ok,
    ensures
        archive_inv(w.streamed(stream_len, source, raw_cid_of(source))->Ok_0, h),
        packs_if(w.streamed(stream_len, source, raw_cid_of(source))->Ok_0.data, h, raw_cid_of(source)),
        forall|c0: CidView|
            packs_if(w.data, h, c0) ==> packs_if(
                w.streamed(stream_len, source, raw_cid_of(source))->Ok_0.data,
                h,
                c0,
            ),
        holds_if(
            w.streamed(stream_len, source, raw_cid_of(source))->Ok_0.data,
            h,
            raw_cid_of(source),
            source,
        ),
        forall|c0: CidView, d0: Seq<u8>| #[trigger]
            holds_if(w.data, h, c0, d0) ==> holds_if(
                w.streamed(stream_len, source, raw_cid_of(source))->Ok_0.data,
                h,
                c0,
                d0,
            ),
        w.streamed(stream_len, source, raw_cid_of(source))->Ok_0.header == w.header,
{
    let c = raw_cid_of(source);
    let w2 = w.streamed(stream_len, source, c)->Ok_0;
    lemma_blake_cid(RAW, source);
    lemma_blake_cid(DAG_PB, Seq::empty());
    let base = w.pending_head()->Some_0;
    let holder = holder_bytes();
    let prefix = varint_encode((stream_len + holder.len()) as nat);
    let first = base + prefix + holder;
    let opened = w.stream_opened(stream_len)->Ok_0;
    let filled = opened.put(source)->Ok_0;
    let slot = w.stream_slot(stream_len);
    assert(opened.data =~= w.data + first);
    assert(filled.data =~= w.data + first + source);
    assert(slot == w.data.len() + base.len() + prefix.len());
    let cb = cid_bytes(c);
    assert(w2.data == write_at(filled.data, slot, cb));
    assert(w2.data =~= w.data + base + (prefix + cb + source));
    assert(prefix + cb + source == section_block(c, source));
    assert(w2.data =~= w.data + base + section_block(c, source));
    lemma_appended_packed(w, h, c, source, w2);
}

} // verus!
