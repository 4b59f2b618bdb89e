//! A packed tree reads back: the stream that packing leaves is an archive
//! that names the identifier of the tree as its root, whose index holds
//! the identifier of every directory and of every file of the tree, and
//! that holds the bytes of every file under their identifier.

use crate::cid::{lemma_blake_cid, pb_cid_of, raw_cid_of, CidView, DAG_PB};
use crate::error::ErrorKind;
use crate::header::{header_of_root, header_value, lemma_root_header, HeaderView};
use crate::ipld::header_cbor;
use crate::reader::{
    archive_read, index_of, section_payload, sections_from, MAX_ALLOWED_SECTION_SIZE,
};
use crate::roundtrip::{lemma_head_block_read, lemma_header_read_prefix};
use crate::section::{payload_at, SectionView};
use crate::stream::{bytes_from, write_at};
use crate::unixfs::{FileType, LinkView, UnixFsView};
use crate::utils::archive_local::{
    all_resolved, archive_outcome, arena_of, below, dir_resolved, discover, file_resolved,
    files_resolved, kids, link_sources, node_block, patched, pending_links, pending_of,
    placeholder_cid, FsEntryView, PendingView,
};
use crate::utils::merkle::{
    dir_cid, dir_node, dirs_in, entry_cid, lemma_files_resolved, lemma_link_is_entry_cid,
    lemma_links_len, lemma_root_is_dir_cid, tree_fits,
};
use crate::utils::packed::{
    archive_inv, blake_names, holds, holds_at, holds_if, lemma_holds_packs, lemma_index_of,
    lemma_indexed_block, lemma_oversize_fails, lemma_packed_rehead, lemma_packs_indexed,
    lemma_streamed_packed, lemma_written_packed, packed, packs_if, spoiled,
};
use crate::varint::varint_encode;
use crate::writer::{header_known, WriterView};
use vstd::prelude::*;

verus! {

/// The link at place `j` is to a file whose bytes are at hand.
pub open spec fn file_link(links: Seq<LinkView>, sources: Seq<Option<Seq<u8>>>, j: int) -> bool {
    0 <= j < links.len() && j < sources.len() && links[j].guess_type == FileType::File
        && sources[j] is Some
}

/// The link at place `j`, where it is to a file, announces as many bytes as
/// the file has.
pub open spec fn size_true(links: Seq<LinkView>, sources: Seq<Option<Seq<u8>>>, j: int) -> bool {
    file_link(links, sources, j) ==> links[j].size == Some(sources[j]->Some_0.len() as u64)
        && sources[j]->Some_0.len() <= u64::MAX
}

/// Every link to a file announces as many bytes as the file has.
pub open spec fn dir_sizes_true(p: PendingView) -> bool {
    forall|j: int| #[trigger] size_true(p.node.children, p.sources, j)
}

/// Every file of every waiting directory is as long as the walk through
/// the file system said.
pub open spec fn sizes_true(arena: Seq<PendingView>) -> bool {
    forall|k: int| 0 <= k < arena.len() ==> dir_sizes_true(#[trigger] arena[k])
}

/// The longer stream holds every section that the shorter one holds.
pub open spec fn grows(data: Seq<u8>, data2: Seq<u8>, h: nat) -> bool {
    &&& forall|c: CidView| #[trigger] packs_if(data, h, c) ==> packs_if(data2, h, c)
    &&& forall|c: CidView, d: Seq<u8>| #[trigger]
        holds_if(data, h, c, d) ==> holds_if(data2, h, c, d)
}

/// The link holds the identifier that holds a place, or one of a section of
/// the stream.
pub open spec fn link_packed(l: LinkView, data: Seq<u8>, h: nat) -> bool {
    l.hash == placeholder_cid() || packs_if(data, h, l.hash)
}

/// Every link holds the identifier that holds a place, or one of a section
/// of the stream.
pub open spec fn links_packed(links: Seq<LinkView>, data: Seq<u8>, h: nat) -> bool {
    forall|j: int| 0 <= j < links.len() ==> link_packed(#[trigger] links[j], data, h)
}

/// Every link of every waiting directory holds the identifier that holds a
/// place, or one of a section of the stream.
pub open spec fn arena_packed(a: Seq<PendingView>, data: Seq<u8>, h: nat) -> bool {
    forall|i: int| 0 <= i < a.len() ==> links_packed((#[trigger] a[i]).node.children, data, h)
}

/// The bytes of every file of the directory are a section of the stream,
/// under their identifier.
pub open spec fn files_packed(p: PendingView, data: Seq<u8>, h: nat) -> bool {
    forall|j: int| #[trigger]
        file_link(p.node.children, p.sources, j) ==> holds_if(
            data,
            h,
            raw_cid_of(p.sources[j]->Some_0),
            p.sources[j]->Some_0,
        )
}

/// Two waiting directories differ in nothing but the identifiers that their
/// links and they themselves hold.
pub open spec fn same_shape(p: PendingView, q: PendingView) -> bool {
    &&& p.sources == q.sources
    &&& p.parent == q.parent
    &&& p.node.file_type == q.node.file_type
    &&& p.node.children.len() == q.node.children.len()
    &&& forall|j: int|
        0 <= j < p.node.children.len() ==> (#[trigger] p.node.children[j]).guess_type
            == q.node.children[j].guess_type && p.node.children[j].size == q.node.children[j].size
}

/// Resolving one link keeps the stream packed, and packs the file.
pub proof fn lemma_file_packed(
    w: WriterView,
    links: Seq<LinkView>,
    sources: Seq<Option<Seq<u8>>>,
    j: int,
    h: nat,
)
    requires
        archive_inv(w, h),
        0 <= j < links.len(),
        size_true(links, sources, j),
        file_resolved(w, links, sources, j) is Ok,
    ensures
        ({
            let w2 = file_resolved(w, links, sources, j)->Ok_0.0;
            &&& archive_inv(w2, h)
            &&& w2.header == w.header
            &&& grows(w.data, w2.data, h)
            &&& file_link(links, sources, j) ==> holds_if(
                w2.data,
                h,
                raw_cid_of(sources[j]->Some_0),
                sources[j]->Some_0,
            )
        }),
{
    reveal(file_resolved);
    if file_link(links, sources, j) {
        let content = sources[j]->Some_0;
        lemma_streamed_packed(w, h, content.len() as usize, content);
    }
}

/// Resolving the first `n` links keeps the stream packed, and packs their
/// files.
pub proof fn lemma_files_packed(
    w: WriterView,
    links: Seq<LinkView>,
    sources: Seq<Option<Seq<u8>>>,
    n: nat,
    h: nat,
)
    requires
        archive_inv(w, h),
        n <= links.len(),
        forall|j: int| #[trigger] size_true(links, sources, j),
        files_resolved(w, links, sources, n) is Ok,
    ensures
        ({
            let w2 = files_resolved(w, links, sources, n)->Ok_0.0;
            &&& archive_inv(w2, h)
            &&& w2.header == w.header
            &&& grows(w.data, w2.data, h)
            &&& forall|j: int|
                0 <= j < n && #[trigger] file_link(links, sources, j) ==> holds_if(
                    w2.data,
                    h,
                    raw_cid_of(sources[j]->Some_0),
                    sources[j]->Some_0,
                )
        }),
    decreases n,
{
    if n > 0 {
        let m = (n - 1) as nat;
        lemma_files_packed(w, links, sources, m, h);
        lemma_files_resolved(w, links, sources, m);
        let w1 = files_resolved(w, links, sources, m)->Ok_0.0;
        let l1 = files_resolved(w, links, sources, m)->Ok_0.1;
        assert(l1[m as int] == links[m as int]);
        assert(size_true(links, sources, m as int));
        assert(size_true(l1, sources, m as int));
        lemma_file_packed(w1, l1, sources, m as int, h);
        let w2 = files_resolved(w, links, sources, n)->Ok_0.0;
        assert forall|j: int| 0 <= j < n && #[trigger] file_link(links, sources, j) implies holds_if(
            w2.data,
            h,
            raw_cid_of(sources[j]->Some_0),
            sources[j]->Some_0,
        ) by {
            if j < m {
                assert(holds_if(w1.data, h, raw_cid_of(sources[j]->Some_0), sources[j]->Some_0));
            } else {
                assert(file_link(l1, sources, m as int));
            }
        }
    }
}

/// Resolving a directory keeps the stream packed, packs its files and its
/// own block, and gives no link an identifier that is not packed.
#[verifier::rlimit(80)]
pub proof fn lemma_dir_packed(a: Seq<PendingView>, w: WriterView, k: int, h: nat)
    requires
        0 <= k < a.len(),
        archive_inv(w, h),
        dir_sizes_true(a[k]),
        arena_packed(a, w.data, h),
        dir_resolved(a, w, k) is Ok,
    ensures
        ({
            let a2 = dir_resolved(a, w, k)->Ok_0.0;
            let w2 = dir_resolved(a, w, k)->Ok_0.1;
            &&& archive_inv(w2, h)
            &&& w2.header == w.header
            &&& grows(w.data, w2.data, h)
            &&& a2.len() == a.len()
            &&& arena_packed(a2, w2.data, h)
            &&& files_packed(a[k], w2.data, h)
            &&& a2[k].node.cid is Some
            &&& packs_if(w2.data, h, a2[k].node.cid->Some_0)
            &&& forall|i: int| 0 <= i < a.len() ==> same_shape(#[trigger] a2[i], a[i])
            &&& forall|i: int| 0 <= i < a.len() && i != k ==> (#[trigger] a2[i]).node.cid == a[i].node.cid
        }),
{
    let p = a[k];
    let links = p.node.children;
    let w1 = files_resolved(w, links, p.sources, links.len())->Ok_0.0;
    let l1 = files_resolved(w, links, p.sources, links.len())->Ok_0.1;
    lemma_files_packed(w, links, p.sources, links.len(), h);
    lemma_files_resolved(w, links, p.sources, links.len());
    let node = UnixFsView { children: l1, ..p.node };
    let bs = node_block(node)->Some_0;
    let cid = pb_cid_of(bs);
    lemma_written_packed(w1, h, cid, bs);
    let w2 = w1.written(cid, bs)->Ok_0;
    let done = PendingView { node: UnixFsView { cid: Some(cid), ..node }, ..p };
    let mid = a.update(k, done);
    let a2 = patched(mid, p.parent, cid);
    assert(a2 == dir_resolved(a, w, k)->Ok_0.0);
    assert forall|j: int| 0 <= j < l1.len() implies link_packed(#[trigger] l1[j], w2.data, h) by {
        if file_link(links, p.sources, j) {
            assert(holds_if(w1.data, h, raw_cid_of(p.sources[j]->Some_0), p.sources[j]->Some_0));
            lemma_holds_packs(w1.data, h, raw_cid_of(p.sources[j]->Some_0), p.sources[j]->Some_0);
        } else {
            assert(l1[j] == links[j]);
            assert(link_packed(links[j], w.data, h));
        }
    }
    assert forall|i: int| 0 <= i < a.len() implies links_packed(
        (#[trigger] mid[i]).node.children,
        w2.data,
        h,
    ) by {
        if i != k {
            assert(mid[i] == a[i]);
            let li = a[i].node.children;
            assert(links_packed(li, w.data, h));
            assert forall|j: int| 0 <= j < li.len() implies link_packed(#[trigger] li[j], w2.data, h) by {
                assert(link_packed(li[j], w.data, h));
            }
        }
    }
    assert forall|i: int| 0 <= i < a.len() implies same_shape(#[trigger] mid[i], a[i]) by {
        if i != k {
            assert(mid[i] == a[i]);
        }
    }
    assert forall|i: int| 0 <= i < a.len() implies links_packed(
        (#[trigger] a2[i]).node.children,
        w2.data,
        h,
    ) && same_shape(a2[i], a[i]) && (i != k ==> a2[i].node.cid == a[i].node.cid) && a2[k].node.cid
        == Some(cid) by {
        assert(links_packed(mid[i].node.children, w2.data, h));
        assert(same_shape(mid[i], a[i]));
        match p.parent {
            Some((pi, idx)) => {
                if pi < mid.len() && idx < mid[pi as int].node.children.len() && i == pi {
                    let li = mid[i].node.children;
                    let lj = a2[i].node.children;
                    assert forall|j: int| 0 <= j < lj.len() implies link_packed(
                        #[trigger] lj[j],
                        w2.data,
                        h,
                    ) by {
                        if j != idx {
                            assert(lj[j] == li[j]);
                            assert(link_packed(li[j], w2.data, h));
                        }
                    }
                    assert forall|j: int| 0 <= j < lj.len() implies (#[trigger] lj[j]).guess_type
                        == a[i].node.children[j].guess_type && lj[j].size
                        == a[i].node.children[j].size by {
                        assert(li[j].guess_type == a[i].node.children[j].guess_type);
                    }
                }
            },
            None => {},
        }
    }
    assert forall|j: int| #[trigger] file_link(p.node.children, p.sources, j) implies holds_if(
        w2.data,
        h,
        raw_cid_of(p.sources[j]->Some_0),
        p.sources[j]->Some_0,
    ) by {
        assert(holds_if(w1.data, h, raw_cid_of(p.sources[j]->Some_0), p.sources[j]->Some_0));
    }
}

/// The waiting directory is a directory, and every link of it holds the
/// identifier that holds a place.
pub open spec fn fresh(p: PendingView) -> bool {
    &&& p.node.file_type == FileType::Directory
    &&& forall|j: int|
        0 <= j < p.node.children.len() ==> (#[trigger] p.node.children[j]).hash
            == placeholder_cid()
}

/// The links of a waiting directory hold the identifier that holds a place
/// until the directory is resolved.
pub proof fn lemma_pending_fresh(entries: Seq<FsEntryView>, n: nat)
    ensures
        forall|j: int|
            0 <= j < pending_links(entries, n).len() ==> (#[trigger] pending_links(
                entries,
                n,
            )[j]).hash == placeholder_cid(),
    decreases n,
{
    if n > 0 && n <= entries.len() {
        lemma_pending_fresh(entries, (n - 1) as nat);
    }
}

/// The directories among the entries of a directory wait with links that
/// hold the identifier that holds a place.
pub proof fn lemma_kids_fresh(entries: Seq<FsEntryView>, n: nat, k: usize)
    ensures
        forall|i: int| 0 <= i < kids(entries, n, k).len() ==> fresh(#[trigger] kids(entries, n, k)[i]),
    decreases n,
{
    if n > 0 && n <= entries.len() {
        let before = kids(entries, (n - 1) as nat, k);
        lemma_kids_fresh(entries, (n - 1) as nat, k);
        match entries[n - 1] {
            FsEntryView::Directory { name, size, entries: sub } => {
                lemma_pending_fresh(sub, sub.len());
                let all = kids(entries, n, k);
                assert forall|i: int| 0 <= i < all.len() implies fresh(#[trigger] all[i]) by {
                    if i < before.len() {
                        assert(all[i] == before[i]);
                    }
                }
            },
            _ => {},
        }
    }
}

/// All that is found below a directory waits with links that hold the
/// identifier that holds a place.
pub proof fn lemma_discover_fresh(entries: Seq<FsEntryView>, k: usize, next: int)
    ensures
        forall|i: int|
            0 <= i < discover(entries, k, next).len() ==> fresh(
                #[trigger] discover(entries, k, next)[i],
            ),
    decreases entries, entries.len() + 1,
{
    let found = kids(entries, entries.len(), k);
    let deep = below(entries, entries.len(), k, next, next + found.len());
    lemma_kids_fresh(entries, entries.len(), k);
    lemma_below_fresh(entries, entries.len(), k, next, next + found.len());
    let all = discover(entries, k, next);
    assert forall|i: int| 0 <= i < all.len() implies fresh(#[trigger] all[i]) by {
        if i < found.len() {
            assert(all[i] == found[i]);
        } else {
            assert(all[i] == deep[i - found.len()]);
        }
    }
}

/// All that is found below the directories among the first `n` entries
/// waits with links that hold the identifier that holds a place.
pub proof fn lemma_below_fresh(entries: Seq<FsEntryView>, n: nat, k: usize, first: int, next: int)
    ensures
        forall|i: int|
            0 <= i < below(entries, n, k, first, next).len() ==> fresh(
                #[trigger] below(entries, n, k, first, next)[i],
            ),
    decreases entries, n,
{
    if n > 0 && n <= entries.len() {
        match entries[n - 1] {
            FsEntryView::Directory { name, size, entries: sub } => {
                let place = first + kids(entries, (n - 1) as nat, k).len();
                let found = discover(sub, place as usize, next);
                let rest = below(entries, (n - 1) as nat, k, first, next + found.len());
                lemma_discover_fresh(sub, place as usize, next);
                lemma_below_fresh(entries, (n - 1) as nat, k, first, next + found.len());
                let all = below(entries, n, k, first, next);
                assert(all == found + rest);
                assert forall|i: int| 0 <= i < all.len() implies fresh(#[trigger] all[i]) by {
                    if i < found.len() {
                        assert(all[i] == found[i]);
                    } else {
                        assert(all[i] == rest[i - found.len()]);
                    }
                }
            },
            _ => {
                lemma_below_fresh(entries, (n - 1) as nat, k, first, next);
                assert(below(entries, n, k, first, next) == below(
                    entries,
                    (n - 1) as nat,
                    k,
                    first,
                    next,
                ));
            },
        }
    }
}

/// Before anything is resolved, no link of a tree holds an identifier that
/// is not packed.
pub proof fn lemma_arena_fresh(root: Seq<FsEntryView>, data: Seq<u8>, h: nat)
    ensures
        arena_packed(arena_of(root), data, h),
        forall|i: int| 0 <= i < arena_of(root).len() ==> fresh(#[trigger] arena_of(root)[i]),
{
    let arena = arena_of(root);
    lemma_pending_fresh(root, root.len());
    lemma_discover_fresh(root, 0, 1);
    assert forall|i: int| 0 <= i < arena.len() implies links_packed(
        (#[trigger] arena[i]).node.children,
        data,
        h,
    ) by {
        if i > 0 {
            assert(arena[i] == discover(root, 0, 1)[i - 1]);
        }
        assert(fresh(arena[i]));
    }
}

/// Resolving the last `m` directories keeps the stream packed, packs their
/// files and their own blocks, and gives no link an identifier that is not
/// packed.
#[verifier::rlimit(80)]
pub proof fn lemma_all_packed(arena: Seq<PendingView>, w0: WriterView, m: nat, h: nat)
    requires
        m <= arena.len(),
        archive_inv(w0, h),
        sizes_true(arena),
        arena_packed(arena, w0.data, h),
        all_resolved(arena, w0, m) is Ok,
    ensures
        ({
            let a = all_resolved(arena, w0, m)->Ok_0.0;
            let w = all_resolved(arena, w0, m)->Ok_0.1;
            &&& archive_inv(w, h)
            &&& w.header == w0.header
            &&& m > 0 ==> !w.pending
            &&& grows(w0.data, w.data, h)
            &&& a.len() == arena.len()
            &&& arena_packed(a, w.data, h)
            &&& forall|i: int| 0 <= i < arena.len() ==> same_shape(#[trigger] a[i], arena[i])
            &&& forall|i: int|
                arena.len() - m <= i < arena.len() ==> files_packed(#[trigger] arena[i], w.data, h)
            &&& forall|i: int|
                arena.len() - m <= i < arena.len() ==> (#[trigger] a[i]).node.cid is Some
                    && packs_if(w.data, h, a[i].node.cid->Some_0)
        }),
    decreases m,
{
    if m > 0 {
        let m1 = (m - 1) as nat;
        lemma_all_packed(arena, w0, m1, h);
        let a1 = all_resolved(arena, w0, m1)->Ok_0.0;
        let w1 = all_resolved(arena, w0, m1)->Ok_0.1;
        let k = arena.len() - m;
        assert(same_shape(a1[k], arena[k]));
        assert(dir_sizes_true(arena[k]));
        assert forall|j: int| #[trigger] size_true(a1[k].node.children, a1[k].sources, j) by {
            assert(size_true(arena[k].node.children, arena[k].sources, j));
        }
        lemma_dir_packed(a1, w1, k, h);
        let a = dir_resolved(a1, w1, k)->Ok_0.0;
        let w = dir_resolved(a1, w1, k)->Ok_0.1;
        reveal(file_resolved);
        assert(!w.pending);
        assert forall|i: int| 0 <= i < arena.len() implies same_shape(#[trigger] a[i], arena[i]) by {
            assert(same_shape(a[i], a1[i]));
            assert(same_shape(a1[i], arena[i]));
            assert forall|j: int| 0 <= j < a[i].node.children.len() implies (#[trigger] a[i].node.children[j]).guess_type
                == arena[i].node.children[j].guess_type && a[i].node.children[j].size
                == arena[i].node.children[j].size by {
                assert(a1[i].node.children[j].guess_type == arena[i].node.children[j].guess_type);
            }
        }
        assert forall|i: int| arena.len() - m <= i < arena.len() implies files_packed(
            #[trigger] arena[i],
            w.data,
            h,
        ) by {
            let p = arena[i];
            assert forall|j: int| #[trigger] file_link(p.node.children, p.sources, j) implies holds_if(
                w.data,
                h,
                raw_cid_of(p.sources[j]->Some_0),
                p.sources[j]->Some_0,
            ) by {
                if i == k {
                    assert(file_link(a1[k].node.children, a1[k].sources, j));
                    assert(files_packed(a1[k], w.data, h));
                } else {
                    assert(files_packed(p, w1.data, h));
                    assert(holds_if(
                        w1.data,
                        h,
                        raw_cid_of(p.sources[j]->Some_0),
                        p.sources[j]->Some_0,
                    ));
                }
            }
        }
        assert forall|i: int| arena.len() - m <= i < arena.len() implies (#[trigger] a[i]).node.cid is Some
            && packs_if(w.data, h, a[i].node.cid->Some_0) by {
            if i != k {
                assert(a[i].node.cid == a1[i].node.cid);
                assert(packs_if(w1.data, h, a1[i].node.cid->Some_0));
            }
        }
        assert forall|c: CidView| #[trigger] packs_if(w0.data, h, c) implies packs_if(w.data, h, c) by {
            assert(packs_if(w1.data, h, c));
        }
        assert forall|c: CidView, d: Seq<u8>| #[trigger] holds_if(w0.data, h, c, d) implies holds_if(
            w.data,
            h,
            c,
            d,
        ) by {
            assert(holds_if(w1.data, h, c, d));
        }
    }
}

/// Every file among the first `n` entries, and every file below them, has
/// as many bytes as its entry says.
pub open spec fn sizes_match(entries: Seq<FsEntryView>, n: nat) -> bool
    decreases entries, n,
{
    if n == 0 || n > entries.len() {
        true
    } else {
        sizes_match(entries, (n - 1) as nat) && match entries[n - 1] {
            FsEntryView::File { name, size, content } => size == content.len(),
            FsEntryView::Directory { name, size, entries: sub } => sizes_match(sub, sub.len()),
            FsEntryView::Other { name } => true,
        }
    }
}

/// The links of a directory whose files are as long as their entries say
/// announce as many bytes as the files have.
pub proof fn lemma_pending_sizes(entries: Seq<FsEntryView>, n: nat)
    requires
        sizes_match(entries, n),
    ensures
        pending_links(entries, n).len() == link_sources(entries, n).len(),
        forall|j: int| #[trigger] size_true(pending_links(entries, n), link_sources(entries, n), j),
    decreases n,
{
    if n > 0 && n <= entries.len() {
        let m = (n - 1) as nat;
        lemma_pending_sizes(entries, m);
        let l0 = pending_links(entries, m);
        let s0 = link_sources(entries, m);
        let l1 = pending_links(entries, n);
        let s1 = link_sources(entries, n);
        assert forall|j: int| #[trigger] size_true(l1, s1, j) by {
            assert(size_true(l0, s0, j));
            if 0 <= j < l0.len() {
                assert(l1[j] == l0[j]);
                assert(s1[j] == s0[j]);
            }
        }
    }
}

/// The directories among the entries of a directory whose files are as
/// long as their entries say wait with links that announce as many bytes as
/// the files have.
pub proof fn lemma_kids_sizes(entries: Seq<FsEntryView>, n: nat, k: usize)
    requires
        sizes_match(entries, n),
    ensures
        forall|i: int|
            0 <= i < kids(entries, n, k).len() ==> dir_sizes_true(#[trigger] kids(entries, n, k)[i]),
    decreases n,
{
    if n > 0 && n <= entries.len() {
        let before = kids(entries, (n - 1) as nat, k);
        lemma_kids_sizes(entries, (n - 1) as nat, k);
        match entries[n - 1] {
            FsEntryView::Directory { name, size, entries: sub } => {
                lemma_pending_sizes(sub, sub.len());
                let all = kids(entries, n, k);
                assert forall|i: int| 0 <= i < all.len() implies dir_sizes_true(#[trigger] all[i]) by {
                    if i < before.len() {
                        assert(all[i] == before[i]);
                    }
                }
            },
            _ => {},
        }
    }
}

/// All that is found below a directory whose files are as long as their
/// entries say waits with links that announce as many bytes as the files
/// have.
pub proof fn lemma_discover_sizes(entries: Seq<FsEntryView>, k: usize, next: int)
    requires
        sizes_match(entries, entries.len()),
    ensures
        forall|i: int|
            0 <= i < discover(entries, k, next).len() ==> dir_sizes_true(
                #[trigger] discover(entries, k, next)[i],
            ),
    decreases entries, entries.len() + 1,
{
    let found = kids(entries, entries.len(), k);
    let deep = below(entries, entries.len(), k, next, next + found.len());
    lemma_kids_sizes(entries, entries.len(), k);
    lemma_below_sizes(entries, entries.len(), k, next, next + found.len());
    let all = discover(entries, k, next);
    assert forall|i: int| 0 <= i < all.len() implies dir_sizes_true(#[trigger] all[i]) by {
        if i < found.len() {
            assert(all[i] == found[i]);
        } else {
            assert(all[i] == deep[i - found.len()]);
        }
    }
}

/// All that is found below the directories among the first `n` entries,
/// where the files are as long as their entries say, waits with links that
/// announce as many bytes as the files have.
pub proof fn lemma_below_sizes(entries: Seq<FsEntryView>, n: nat, k: usize, first: int, next: int)
    requires
        sizes_match(entries, n),
    ensures
        forall|i: int|
            0 <= i < below(entries, n, k, first, next).len() ==> dir_sizes_true(
                #[trigger] below(entries, n, k, first, next)[i],
            ),
    decreases entries, n,
{
    if n > 0 && n <= entries.len() {
        match entries[n - 1] {
            FsEntryView::Directory { name, size, entries: sub } => {
                let place = first + kids(entries, (n - 1) as nat, k).len();
                let found = discover(sub, place as usize, next);
                let rest = below(entries, (n - 1) as nat, k, first, next + found.len());
                lemma_discover_sizes(sub, place as usize, next);
                lemma_below_sizes(entries, (n - 1) as nat, k, first, next + found.len());
                let all = below(entries, n, k, first, next);
                assert(all == found + rest);
                assert forall|i: int| 0 <= i < all.len() implies dir_sizes_true(#[trigger] all[i]) by {
                    if i < found.len() {
                        assert(all[i] == found[i]);
                    } else {
                        assert(all[i] == rest[i - found.len()]);
                    }
                }
            },
            _ => {
                lemma_below_sizes(entries, (n - 1) as nat, k, first, next);
                assert(below(entries, n, k, first, next) == below(
                    entries,
                    (n - 1) as nat,
                    k,
                    first,
                    next,
                ));
            },
        }
    }
}

/// In a tree whose files are as long as their entries say, every link to a
/// file announces as many bytes as the file has.
pub proof fn lemma_arena_sizes(root: Seq<FsEntryView>)
    requires
        sizes_match(root, root.len()),
    ensures
        sizes_true(arena_of(root)),
{
    let arena = arena_of(root);
    lemma_pending_sizes(root, root.len());
    lemma_discover_sizes(root, 0, 1);
    assert forall|i: int| 0 <= i < arena.len() implies dir_sizes_true(#[trigger] arena[i]) by {
        if i > 0 {
            assert(arena[i] == discover(root, 0, 1)[i - 1]);
        }
    }
}

/// The index holds the identifier of every directory among the first `n`
/// entries and of every directory below them.
pub open spec fn dirs_indexed(idx: Set<CidView>, entries: Seq<FsEntryView>, n: nat) -> bool
    decreases entries, n,
{
    if n == 0 || n > entries.len() {
        true
    } else {
        dirs_indexed(idx, entries, (n - 1) as nat) && match entries[n - 1] {
            FsEntryView::Directory { name, size, entries: sub } => idx.contains(dir_cid(sub))
                && dirs_indexed(idx, sub, sub.len()),
            _ => true,
        }
    }
}

/// Where the index holds the identifier of every directory that was
/// resolved, it holds that of every directory of the tree.
pub proof fn lemma_dirs_indexed(
    a: Seq<PendingView>,
    lo: int,
    hi: int,
    idx: Set<CidView>,
    entries: Seq<FsEntryView>,
    n: nat,
)
    requires
        dirs_in(a, lo, hi, entries, n),
        forall|i: int|
            0 <= i < a.len() && (#[trigger] a[i]).node.cid is Some ==> idx.contains(
                a[i].node.cid->Some_0,
            ),
    ensures
        dirs_indexed(idx, entries, n),
    decreases entries, n,
{
    if n > 0 && n <= entries.len() {
        lemma_dirs_indexed(a, lo, hi, idx, entries, (n - 1) as nat);
        match entries[n - 1] {
            FsEntryView::Directory { name, size, entries: sub } => {
                let i = choose|i: int|
                    lo <= i < hi && 0 <= i < a.len() && (#[trigger] a[i]).node.cid == Some(
                        dir_cid(sub),
                    );
                assert(a[i].node.cid is Some);
                lemma_dirs_indexed(a, lo, hi, idx, sub, sub.len());
            },
            _ => {},
        }
    }
}

/// One of the waiting directories has the links and the files of a
/// directory with these entries.
pub open spec fn waits(arena: Seq<PendingView>, entries: Seq<FsEntryView>) -> bool {
    exists|k: int|
        0 <= k < arena.len() && (#[trigger] arena[k]).node.children == pending_links(
            entries,
            entries.len(),
        ) && arena[k].sources == link_sources(entries, entries.len())
}

/// Every directory among the first `n` entries, and every directory below
/// them, is among the waiting directories.
pub open spec fn dirs_wait(arena: Seq<PendingView>, entries: Seq<FsEntryView>, n: nat) -> bool
    decreases entries, n,
{
    if n == 0 || n > entries.len() {
        true
    } else {
        dirs_wait(arena, entries, (n - 1) as nat) && match entries[n - 1] {
            FsEntryView::Directory { name, size, entries: sub } => waits(arena, sub) && dirs_wait(
                arena,
                sub,
                sub.len(),
            ),
            _ => true,
        }
    }
}

/// A directory that waits in one of two lists waits in the two of them
/// joined.
pub proof fn lemma_waits_joined(x: Seq<PendingView>, y: Seq<PendingView>, entries: Seq<FsEntryView>)
    ensures
        waits(x, entries) ==> waits(x + y, entries),
        waits(y, entries) ==> waits(x + y, entries),
{
    let links = pending_links(entries, entries.len());
    let sources = link_sources(entries, entries.len());
    if waits(x, entries) {
        let k = choose|k: int|
            0 <= k < x.len() && (#[trigger] x[k]).node.children == links && x[k].sources == sources;
        assert((x + y)[k] == x[k]);
    }
    if waits(y, entries) {
        let k = choose|k: int|
            0 <= k < y.len() && (#[trigger] y[k]).node.children == links && y[k].sources == sources;
        assert((x + y)[k + x.len()] == y[k]);
    }
}

/// Directories that wait in one of two lists wait in the two of them
/// joined.
pub proof fn lemma_dirs_wait_joined(
    x: Seq<PendingView>,
    y: Seq<PendingView>,
    entries: Seq<FsEntryView>,
    n: nat,
)
    ensures
        dirs_wait(x, entries, n) ==> dirs_wait(x + y, entries, n),
        dirs_wait(y, entries, n) ==> dirs_wait(x + y, entries, n),
    decreases entries, n,
{
    if n > 0 && n <= entries.len() {
        lemma_dirs_wait_joined(x, y, entries, (n - 1) as nat);
        match entries[n - 1] {
            FsEntryView::Directory { name, size, entries: sub } => {
                lemma_waits_joined(x, y, sub);
                lemma_dirs_wait_joined(x, y, sub, sub.len());
            },
            _ => {},
        }
    }
}

/// Where each directory among the first `n` entries waits, with all that
/// is below it, every directory among and below those entries waits.
pub proof fn lemma_dirs_wait_all(arena: Seq<PendingView>, entries: Seq<FsEntryView>, n: nat)
    requires
        n <= entries.len(),
        forall|e: int|
            0 <= e < n && #[trigger] entries[e] is Directory ==> waits(arena, entries[e]->entries)
                && dirs_wait(arena, entries[e]->entries, entries[e]->entries.len()),
    ensures
        dirs_wait(arena, entries, n),
    decreases n,
{
    if n > 0 {
        lemma_dirs_wait_all(arena, entries, (n - 1) as nat);
        match entries[n - 1] {
            FsEntryView::Directory { name, size, entries: sub } => {
                assert(entries[n - 1] is Directory);
            },
            _ => {},
        }
    }
}

/// Each directory among the first `n` entries is among the directories
/// that were found there.
pub proof fn lemma_kids_wait(entries: Seq<FsEntryView>, n: nat, k: usize)
    requires
        n <= entries.len(),
    ensures
        forall|e: int|
            0 <= e < n && #[trigger] entries[e] is Directory ==> waits(
                kids(entries, n, k),
                entries[e]->entries,
            ),
    decreases n,
{
    if n > 0 {
        let m = (n - 1) as nat;
        let before = kids(entries, m, k);
        let all = kids(entries, n, k);
        lemma_kids_wait(entries, m, k);
        assert forall|e: int| 0 <= e < n && #[trigger] entries[e] is Directory implies waits(
            all,
            entries[e]->entries,
        ) by {
            let sub = entries[e]->entries;
            match entries[m as int] {
                FsEntryView::Directory { name, size, entries: last } => {
                    let p = pending_of(
                        last,
                        Some((k, pending_links(entries, m).len() as usize)),
                    );
                    assert(all == before.push(p));
                    assert(all =~= before + seq![p]);
                    if e < m {
                        lemma_waits_joined(before, seq![p], sub);
                    } else {
                        assert(seq![p][0] == p);
                        assert(waits(seq![p], sub));
                        lemma_waits_joined(before, seq![p], sub);
                    }
                },
                _ => {
                    assert(all == before);
                },
            }
        }
    }
}

/// Every directory below a directory is among the directories that were
/// found below it.
pub proof fn lemma_discover_waits(entries: Seq<FsEntryView>, k: usize, next: int)
    ensures
        dirs_wait(discover(entries, k, next), entries, entries.len()),
    decreases entries, entries.len() + 1,
{
    let found = kids(entries, entries.len(), k);
    let deep = below(entries, entries.len(), k, next, next + found.len());
    let all = discover(entries, k, next);
    lemma_kids_wait(entries, entries.len(), k);
    lemma_below_waits(entries, entries.len(), k, next, next + found.len());
    assert forall|e: int| 0 <= e < entries.len() && #[trigger] entries[e] is Directory implies waits(
        all,
        entries[e]->entries,
    ) && dirs_wait(all, entries[e]->entries, entries[e]->entries.len()) by {
        let sub = entries[e]->entries;
        lemma_waits_joined(found, deep, sub);
        lemma_dirs_wait_joined(found, deep, sub, sub.len());
    }
    lemma_dirs_wait_all(all, entries, entries.len());
}

/// All that is below a directory among the first `n` entries is among the
/// directories that were found below those entries.
pub proof fn lemma_below_waits(entries: Seq<FsEntryView>, n: nat, k: usize, first: int, next: int)
    requires
        n <= entries.len(),
    ensures
        forall|e: int|
            0 <= e < n && #[trigger] entries[e] is Directory ==> dirs_wait(
                below(entries, n, k, first, next),
                entries[e]->entries,
                entries[e]->entries.len(),
            ),
    decreases entries, n,
{
    if n > 0 {
        let m = (n - 1) as nat;
        let all = below(entries, n, k, first, next);
        match entries[m as int] {
            FsEntryView::Directory { name, size, entries: last } => {
                let place = first + kids(entries, m, k).len();
                let found = discover(last, place as usize, next);
                let rest = below(entries, m, k, first, next + found.len());
                assert(all == found + rest);
                lemma_discover_waits(last, place as usize, next);
                lemma_below_waits(entries, m, k, first, next + found.len());
                assert forall|e: int| 0 <= e < n && #[trigger] entries[e] is Directory implies dirs_wait(
                    all,
                    entries[e]->entries,
                    entries[e]->entries.len(),
                ) by {
                    let sub = entries[e]->entries;
                    lemma_dirs_wait_joined(found, rest, sub, sub.len());
                }
            },
            _ => {
                lemma_below_waits(entries, m, k, first, next);
                assert(all == below(entries, m, k, first, next));
            },
        }
    }
}

/// The root directory and every directory below it are among the waiting
/// directories of the tree.
pub proof fn lemma_arena_waits(root: Seq<FsEntryView>)
    ensures
        waits(arena_of(root), root),
        dirs_wait(arena_of(root), root, root.len()),
{
    let first = seq![pending_of(root, None)];
    let rest = discover(root, 0, 1);
    assert(first[0] == pending_of(root, None));
    assert(waits(first, root));
    lemma_waits_joined(first, rest, root);
    lemma_discover_waits(root, 0, 1);
    lemma_dirs_wait_joined(first, rest, root, root.len());
}

/// The link of a file among the first `n` entries is a link to a file, and
/// the bytes that go with it are the bytes of the file.
pub proof fn lemma_file_entry_link(entries: Seq<FsEntryView>, n: nat, e: int)
    requires
        0 <= e < n <= entries.len(),
        entries[e] is File,
    ensures
        pending_links(entries, n).len() == link_sources(entries, n).len(),
        pending_links(entries, e as nat).len() < pending_links(entries, n).len(),
        file_link(
            pending_links(entries, n),
            link_sources(entries, n),
            pending_links(entries, e as nat).len() as int,
        ),
        link_sources(entries, n)[pending_links(entries, e as nat).len() as int] == Some(
            entries[e]->content,
        ),
    decreases n,
{
    let m = (n - 1) as nat;
    lemma_links_len(entries, m, false, 0);
    lemma_links_len(entries, n, false, 0);
    if e < m {
        lemma_file_entry_link(entries, m, e);
        let j = pending_links(entries, e as nat).len() as int;
        assert(pending_links(entries, n)[j] == pending_links(entries, m)[j]);
        assert(link_sources(entries, n)[j] == link_sources(entries, m)[j]);
    }
}

/// Every file among the first `n` entries, and every file below them, has
/// the identifier of its bytes in the index, and one of the sections has
/// that identifier and those bytes.
pub open spec fn files_held(
    data: Seq<u8>,
    s: Seq<SectionView>,
    entries: Seq<FsEntryView>,
    n: nat,
) -> bool
    decreases entries, n,
{
    if n == 0 || n > entries.len() {
        true
    } else {
        files_held(data, s, entries, (n - 1) as nat) && match entries[n - 1] {
            FsEntryView::File { name, size, content } => index_of(s).dom().contains(
                raw_cid_of(content),
            ) && section_with(data, s, raw_cid_of(content), content),
            FsEntryView::Directory { name, size, entries: sub } => files_held(
                data,
                s,
                sub,
                sub.len(),
            ),
            FsEntryView::Other { name } => true,
        }
    }
}

/// Where the files of every waiting directory are held, every file of the
/// tree is.
pub proof fn lemma_files_held(
    arena: Seq<PendingView>,
    data: Seq<u8>,
    s: Seq<SectionView>,
    entries: Seq<FsEntryView>,
    n: nat,
)
    requires
        n <= entries.len(),
        waits(arena, entries),
        dirs_wait(arena, entries, n),
        forall|k: int, j: int|
            0 <= k < arena.len() && #[trigger] file_link(
                arena[k].node.children,
                arena[k].sources,
                j,
            ) ==> index_of(s).dom().contains(raw_cid_of(arena[k].sources[j]->Some_0))
                && section_with(
                data,
                s,
                raw_cid_of(arena[k].sources[j]->Some_0),
                arena[k].sources[j]->Some_0,
            ),
    ensures
        files_held(data, s, entries, n),
    decreases entries, n,
{
    if n > 0 {
        let m = (n - 1) as nat;
        lemma_files_held(arena, data, s, entries, m);
        match entries[m as int] {
            FsEntryView::File { name, size, content } => {
                let links = pending_links(entries, entries.len());
                let sources = link_sources(entries, entries.len());
                let k = choose|k: int|
                    0 <= k < arena.len() && (#[trigger] arena[k]).node.children == links
                        && arena[k].sources == sources;
                lemma_file_entry_link(entries, entries.len(), m as int);
                let j = pending_links(entries, m).len() as int;
                assert(file_link(arena[k].node.children, arena[k].sources, j));
            },
            FsEntryView::Directory { name, size, entries: sub } => {
                lemma_files_held(arena, data, s, sub, sub.len());
            },
            FsEntryView::Other { name } => {},
        }
    }
}

/// One of the sections has the identifier `c`, and its bytes in the stream
/// are `d`.
pub open spec fn section_with(data: Seq<u8>, s: Seq<SectionView>, c: CidView, d: Seq<u8>) -> bool {
    exists|i: int|
        0 <= i < s.len() && (#[trigger] s[i]).cid == c && payload_at(
            data,
            s[i].pos as nat,
            s[i].len as nat,
        ) == Some(d)
}

/// No two sections with one identifier have different bytes.
pub open spec fn unambiguous(data: Seq<u8>, s: Seq<SectionView>) -> bool {
    forall|i: int, j: int|
        0 <= i < s.len() && 0 <= j < s.len() && (#[trigger] s[i]).cid == (#[trigger] s[j]).cid
            ==> payload_at(data, s[i].pos as nat, s[i].len as nat) == payload_at(
            data,
            s[j].pos as nat,
            s[j].len as nat,
        )
}

/// Where no two sections with one identifier have different bytes, the
/// index gives under the identifier of a section the bytes of that
/// section.
pub proof fn lemma_indexed_bytes(data: Seq<u8>, s: Seq<SectionView>, c: CidView, d: Seq<u8>)
    requires
        section_with(data, s, c, d),
        unambiguous(data, s),
    ensures
        section_payload(data, index_of(s), c) == Some(Some(d)),
{
    lemma_index_of(s);
    let j = choose|j: int|
        0 <= j < s.len() && (#[trigger] s[j]).cid == c && payload_at(
            data,
            s[j].pos as nat,
            s[j].len as nat,
        ) == Some(d);
    assert(index_of(s).dom().contains(s[j].cid));
    let i = choose|i: int| 0 <= i < s.len() && #[trigger] s[i] == index_of(s)[c] && s[i].cid == c;
    assert(s[i].cid == s[j].cid);
}

/// The stream is an archive of the tree. Its header names the identifier
/// of the tree as its one root. Its index holds that identifier, the
/// identifier of every entry of the root directory, the identifier of
/// every directory and the identifier of the bytes of every file, however
/// deep they lie. For every file there is a section with the identifier of
/// its bytes and with those bytes. Under every identifier of the index lie
/// bytes that hash to it.
pub open spec fn holds_tree(data: Seq<u8>, root: Seq<FsEntryView>) -> bool {
    &&& archive_read(data, 0) matches Ok((hd, s))
    &&& hd == header_of_root(dir_cid(root))
    &&& index_of(s).dom().contains(dir_cid(root))
    &&& forall|e: int|
        0 <= e < root.len() && !(#[trigger] root[e] is Other) ==> index_of(s).dom().contains(
            entry_cid(root[e]),
        )
    &&& dirs_indexed(index_of(s).dom(), root, root.len())
    &&& files_held(data, s, root, root.len())
    &&& forall|c: CidView| #[trigger]
        index_of(s).dom().contains(c) ==> (section_payload(data, index_of(s), c) matches Some(
            Some(d),
        ) && blake_names(c, d))
}

/// A tree that was packed into an empty stream reads back, where every
/// file is as long as its entry says. An archive that is no longer than a
/// block may be opens, names the identifier of the tree as its root, and
/// holds the tree; and so does a longer one, if it opens: it does unless
/// one of its blocks is longer than a block may be.
#[verifier::rlimit(80)]
pub proof fn lemma_archive_holds_tree(root: Seq<FsEntryView>)
    requires
        tree_fits(root),
        arena_of(root).len() <= usize::MAX,
        sizes_match(root, root.len()),
        header_known(header_of_root(pb_cid_of(Seq::empty()))),
        header_known(header_of_root(dir_cid(root))),
        archive_outcome(root, Seq::empty(), 0) is Ok,
        archive_outcome(root, Seq::empty(), 0)->Ok_0.data.len() <= MAX_ALLOWED_SECTION_SIZE
            || archive_read(archive_outcome(root, Seq::empty(), 0)->Ok_0.data, 0) is Ok,
    ensures
        holds_tree(archive_outcome(root, Seq::empty(), 0)->Ok_0.data, root),
{
    let h0 = header_of_root(pb_cid_of(Seq::empty()));
    let c = dir_cid(root);
    let h1 = header_of_root(c);
    let w0 = WriterView { data: Seq::empty(), pos: 0, pending: true, header: h0 };
    let arena = arena_of(root);
    let h: nat = 61;
    lemma_blake_cid(DAG_PB, Seq::empty());
    lemma_root_header(pb_cid_of(Seq::empty()));
    assert(varint_encode(60) =~= seq![60u8]);
    assert(archive_inv(w0, h));
    lemma_arena_fresh(root, w0.data, h);
    lemma_arena_sizes(root);
    lemma_all_packed(arena, w0, arena.len(), h);
    lemma_root_is_dir_cid(root, w0);
    let a = all_resolved(arena, w0, arena.len())->Ok_0.0;
    let w = all_resolved(arena, w0, arena.len())->Ok_0.1;
    let block = match node_block(dir_node(root)) {
        Some(bytes) => bytes,
        None => Seq::empty(),
    };
    lemma_blake_cid(DAG_PB, block);
    lemma_root_header(c);
    let hb = header_cbor(header_value(h1));
    let head = varint_encode(60) + hb;
    let out = archive_outcome(root, Seq::empty(), 0)->Ok_0;
    assert(out.data == write_at(w.data, 0, head));
    lemma_packed_rehead(w.data, head);
    assert(out.data.len() == w.data.len());
    lemma_head_block_read(h1, hb);
    lemma_header_read_prefix(head, w.data.skip(61));
    assert(bytes_from(out.data, 0) =~= head + w.data.skip(61));
    if spoiled(w.data, h) {
        lemma_oversize_fails(w.data, h);
    }
    assert(packed(w.data, h));
    assert(packs_if(w.data, h, a[0].node.cid->Some_0));
    let s = sections_from(w.data, h)->Ok_0;
    assert(archive_read(out.data, 0) == Ok::<(HeaderView, Seq<SectionView>), ErrorKind>((h1, s)));
    lemma_packs_indexed(w.data, h, c);
    assert forall|e: int| 0 <= e < root.len() && !(#[trigger] root[e] is Other) implies index_of(
        s,
    ).dom().contains(entry_cid(root[e])) by {
        lemma_link_is_entry_cid(root, root.len(), e);
        let l = pending_links(root, e as nat).len() as int;
        let links = a[0].node.children;
        assert(links_packed(links, w.data, h));
        assert(link_packed(links[l], w.data, h));
        lemma_packs_indexed(w.data, h, entry_cid(root[e]));
    }
    assert forall|i: int| 0 <= i < a.len() && (#[trigger] a[i]).node.cid is Some implies index_of(
        s,
    ).dom().contains(a[i].node.cid->Some_0) by {
        assert(packs_if(w.data, h, a[i].node.cid->Some_0));
        lemma_packs_indexed(w.data, h, a[i].node.cid->Some_0);
    }
    lemma_dirs_indexed(a, 1, arena.len() as int, index_of(s).dom(), root, root.len());
    assert forall|k: int, j: int|
        0 <= k < arena.len() && #[trigger] file_link(
            arena[k].node.children,
            arena[k].sources,
            j,
        ) implies index_of(s).dom().contains(raw_cid_of(arena[k].sources[j]->Some_0))
        && section_with(
        out.data,
        s,
        raw_cid_of(arena[k].sources[j]->Some_0),
        arena[k].sources[j]->Some_0,
    ) by {
        let d = arena[k].sources[j]->Some_0;
        let c0 = raw_cid_of(d);
        assert(files_packed(arena[k], w.data, h));
        assert(holds_if(w.data, h, c0, d));
        lemma_holds_packs(w.data, h, c0, d);
        lemma_packs_indexed(w.data, h, c0);
        assert(holds(out.data, h, c0, d));
        let i = choose|i: int| 0 <= i < s.len() && holds_at(out.data, h, #[trigger] s[i], c0, d);
        assert(bytes_from(out.data, s[i].pos as nat).take(s[i].len as int) =~= out.data.subrange(
            s[i].pos as int,
            s[i].pos + s[i].len,
        ));
        assert(0 <= i < s.len() && s[i].cid == c0 && payload_at(
            out.data,
            s[i].pos as nat,
            s[i].len as nat,
        ) == Some(d));
    }
    lemma_arena_waits(root);
    lemma_files_held(arena, out.data, s, root, root.len());
    assert forall|c0: CidView| #[trigger] index_of(s).dom().contains(c0) implies (section_payload(
        out.data,
        index_of(s),
        c0,
    ) matches Some(Some(d)) && blake_names(c0, d)) by {
        lemma_indexed_block(out.data, h, c0);
    }
}

} // verus!
