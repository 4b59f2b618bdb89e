//! The root of a packed tree is the hash of the tree: the identifier of
//! each directory depends on nothing but the names, sizes and identifiers
//! of its entries, and so on down to the bytes of the files.

use crate::cid::{pb_cid_of, raw_cid_of, CidView};
use crate::error::ErrorKind;
use crate::header::header_of_root;
use crate::unixfs::{FileType, LinkView, UnixFsView};
use crate::utils::archive_local::{
    all_resolved, archive_outcome, arena_of, below, dir_resolved, discover, entries_view,
    file_resolved, files_resolved, kids, lemma_entries_view, link_sources,
    node_block, patched, pending_links, pending_of, placeholder_cid, FsEntry, FsEntryView,
    PendingView,
};
use crate::writer::WriterView;
use vstd::prelude::*;

verus! {

/// The links of a directory with the first `n` of these entries, where the
/// links to files hold the identifiers of the files' bytes if `files` says
/// so, and the links to the directories from entry `dirs_from` on hold the
/// identifiers of those directories. All other links hold the identifier
/// that holds a place.
pub open spec fn links_with(entries: Seq<FsEntryView>, n: nat, files: bool, dirs_from: int) -> Seq<
    LinkView,
>
    decreases entries, n,
{
    if n == 0 || n > entries.len() {
        Seq::empty()
    } else {
        match entries[n - 1] {
            FsEntryView::File { name, size, content } => links_with(
                entries,
                (n - 1) as nat,
                files,
                dirs_from,
            ).push(
                LinkView {
                    hash: if files {
                        raw_cid_of(content)
                    } else {
                        placeholder_cid()
                    },
                    name: Some(name),
                    size: Some(size),
                    guess_type: FileType::File,
                },
            ),
            FsEntryView::Directory { name, size, entries: sub } => links_with(
                entries,
                (n - 1) as nat,
                files,
                dirs_from,
            ).push(
                LinkView {
                    hash: if n - 1 >= dirs_from {
                        dir_cid(sub)
                    } else {
                        placeholder_cid()
                    },
                    name: Some(name),
                    size: Some(size),
                    guess_type: FileType::Directory,
                },
            ),
            FsEntryView::Other { name } => links_with(entries, (n - 1) as nat, files, dirs_from),
        }
    }
}

/// The node of a directory with these entries: each link holds the
/// identifier of the entry's block.
pub open spec fn dir_node(entries: Seq<FsEntryView>) -> UnixFsView
    decreases entries, entries.len() + 1,
{
    UnixFsView {
        file_type: FileType::Directory,
        children: links_with(entries, entries.len(), true, 0),
        ..UnixFsView::empty()
    }
}

/// The identifier of a directory with these entries: that of the block of
/// its node.
pub open spec fn dir_cid(entries: Seq<FsEntryView>) -> CidView
    decreases entries, entries.len() + 2,
{
    pb_cid_of(
        match node_block(dir_node(entries)) {
            Some(bytes) => bytes,
            None => Seq::empty(),
        },
    )
}

/// The links as they are after the bytes of the files were hashed: each link
/// to a file that has bytes holds their identifier.
pub open spec fn with_file_hashes(links: Seq<LinkView>, sources: Seq<Option<Seq<u8>>>) -> Seq<
    LinkView,
> {
    Seq::new(
        links.len(),
        |j: int|
            if j < sources.len() && links[j].guess_type == FileType::File && sources[j] is Some {
                LinkView { hash: raw_cid_of(sources[j]->Some_0), ..links[j] }
            } else {
                links[j]
            },
    )
}

/// The links after the files of the first `n` were resolved: those links
/// hold the identifiers of their files, the others are as they were.
pub proof fn lemma_files_resolved(
    w: WriterView,
    links: Seq<LinkView>,
    sources: Seq<Option<Seq<u8>>>,
    n: nat,
)
    requires
        n <= links.len(),
        files_resolved(w, links, sources, n) is Ok,
    ensures
        files_resolved(w, links, sources, n)->Ok_0.1.len() == links.len(),
        forall|j: int|
            0 <= j < links.len() ==> #[trigger] files_resolved(w, links, sources, n)->Ok_0.1[j]
                == (if j < n {
                with_file_hashes(links, sources)[j]
            } else {
                links[j]
            }),
    decreases n,
{
    reveal(file_resolved);
    if n > 0 {
        lemma_files_resolved(w, links, sources, (n - 1) as nat);
    }
}

/// The links and the sources of a directory go together: there are as many
/// of one as of the other, whatever the links hold.
pub proof fn lemma_links_len(entries: Seq<FsEntryView>, n: nat, files: bool, dirs_from: int)
    requires
        n <= entries.len(),
    ensures
        links_with(entries, n, files, dirs_from).len() == pending_links(entries, n).len(),
        link_sources(entries, n).len() == pending_links(entries, n).len(),
        pending_links(entries, n).len() <= n,
    decreases n,
{
    if n > 0 {
        lemma_links_len(entries, (n - 1) as nat, files, dirs_from);
    }
}

/// Links that hold no identifier yet are the links of a waiting directory.
pub proof fn lemma_links_pending(entries: Seq<FsEntryView>, n: nat, dirs_from: int)
    requires
        n <= entries.len(),
        dirs_from >= n,
    ensures
        links_with(entries, n, false, dirs_from) == pending_links(entries, n),
    decreases n,
{
    if n > 0 {
        lemma_links_pending(entries, (n - 1) as nat, dirs_from);
    }
}

/// Hashing the files of links turns the links without file identifiers into
/// those with them.
#[verifier::rlimit(50)]
pub proof fn lemma_links_hashed(entries: Seq<FsEntryView>, n: nat, dirs_from: int)
    requires
        n <= entries.len(),
    ensures
        with_file_hashes(links_with(entries, n, false, dirs_from), link_sources(entries, n))
            == links_with(entries, n, true, dirs_from),
    decreases n,
{
    let plain = links_with(entries, n, false, dirs_from);
    let sources = link_sources(entries, n);
    let hashed = links_with(entries, n, true, dirs_from);
    lemma_links_len(entries, n, false, dirs_from);
    lemma_links_len(entries, n, true, dirs_from);
    if n > 0 {
        let m = (n - 1) as nat;
        lemma_links_hashed(entries, m, dirs_from);
        lemma_links_len(entries, m, false, dirs_from);
        lemma_links_len(entries, m, true, dirs_from);
        let plain0 = links_with(entries, m, false, dirs_from);
        let sources0 = link_sources(entries, m);
        assert forall|j: int| 0 <= j < plain.len() implies with_file_hashes(plain, sources)[j]
            == hashed[j] by {
            if j < plain0.len() {
                assert(plain[j] == plain0[j]);
                assert(sources[j] == sources0[j]);
                assert(with_file_hashes(plain0, sources0)[j] == links_with(
                    entries,
                    m,
                    true,
                    dirs_from,
                )[j]);
            }
        }
    }
    assert(with_file_hashes(plain, sources) =~= hashed);
}

/// Resolving the directory one entry earlier changes one link: the one of
/// that entry, which then holds the identifier of the directory.
#[verifier::rlimit(50)]
pub proof fn lemma_links_step(entries: Seq<FsEntryView>, n: nat, files: bool, e: int)
    requires
        0 <= e < entries.len(),
        n <= entries.len(),
    ensures
        entries[e] is Directory && e < n ==> links_with(entries, n, files, e) == links_with(
            entries,
            n,
            files,
            e + 1,
        ).update(
            pending_links(entries, e as nat).len() as int,
            LinkView {
                hash: dir_cid(entries[e]->Directory_entries),
                ..links_with(entries, n, files, e + 1)[pending_links(entries, e as nat).len() as int]
            },
        ),
        !(entries[e] is Directory) || e >= n ==> links_with(entries, n, files, e) == links_with(
            entries,
            n,
            files,
            e + 1,
        ),
    decreases n,
{
    if n > 0 {
        let m = (n - 1) as nat;
        lemma_links_step(entries, m, files, e);
        lemma_links_len(entries, m, files, e);
        lemma_links_len(entries, m, files, e + 1);
        lemma_links_len(entries, e as nat, files, e);
        if e < m {
            lemma_links_mono(entries, (e + 1) as nat, m);
        }
        let a = links_with(entries, n, files, e);
        let b = links_with(entries, n, files, e + 1);
        let at = pending_links(entries, e as nat).len() as int;
        if entries[e] is Directory && e < n {
            assert(a =~= b.update(
                at,
                LinkView { hash: dir_cid(entries[e]->Directory_entries), ..b[at] },
            ));
        } else {
            assert(a =~= b);
        }
    }
}

/// A directory with more entries has no fewer links, and one more where the
/// entry that comes in is a file or a directory.
pub proof fn lemma_links_mono(entries: Seq<FsEntryView>, a: nat, b: nat)
    requires
        a <= b <= entries.len(),
    ensures
        pending_links(entries, a).len() <= pending_links(entries, b).len(),
        a < b && !(entries[a as int] is Other) ==> pending_links(entries, a).len()
            < pending_links(entries, b).len(),
    decreases b - a,
{
    if a < b {
        lemma_links_mono(entries, a, (b - 1) as nat);
        if a < b - 1 {
        }
    }
}

/// A waiting directory whose links to the directories from entry
/// `dirs_from` on hold the identifiers of those directories.
pub open spec fn part_of(entries: Seq<FsEntryView>, dirs_from: int, parent: Option<(usize, usize)>)
    -> PendingView {
    PendingView {
        node: UnixFsView {
            file_type: FileType::Directory,
            children: links_with(entries, entries.len(), false, dirs_from),
            ..UnixFsView::empty()
        },
        sources: link_sources(entries, entries.len()),
        parent,
    }
}

/// A directory that was resolved: its node holds the identifier of every
/// entry, and its own.
pub open spec fn done_of(entries: Seq<FsEntryView>, parent: Option<(usize, usize)>) -> PendingView {
    PendingView {
        node: UnixFsView { cid: Some(dir_cid(entries)), ..dir_node(entries) },
        sources: link_sources(entries, entries.len()),
        parent,
    }
}

/// The waiting directories for the directories among the first `n` of these
/// entries, each with the identifiers of its own directories in its links.
pub open spec fn ready_kids(entries: Seq<FsEntryView>, n: nat, k: usize) -> Seq<PendingView>
    decreases n,
{
    if n == 0 || n > entries.len() {
        Seq::empty()
    } else {
        match entries[n - 1] {
            FsEntryView::Directory { name, size, entries: sub } => ready_kids(
                entries,
                (n - 1) as nat,
                k,
            ).push(
                part_of(
                    sub,
                    0,
                    Some((k, pending_links(entries, (n - 1) as nat).len() as usize)),
                ),
            ),
            _ => ready_kids(entries, (n - 1) as nat, k),
        }
    }
}

/// There are as many waiting directories with identifiers as without.
pub proof fn lemma_ready_kids_len(entries: Seq<FsEntryView>, n: nat, k: usize)
    ensures
        ready_kids(entries, n, k).len() == kids(entries, n, k).len(),
        kids(entries, n, k).len() <= n,
    decreases n,
{
    if n > 0 && n <= entries.len() {
        lemma_ready_kids_len(entries, (n - 1) as nat, k);
    }
}

/// The directories from place `lo` up to place `hi` are resolved, the last
/// one first.
pub open spec fn range_resolved(arena: Seq<PendingView>, w: WriterView, lo: int, hi: int) -> Result<
    (Seq<PendingView>, WriterView),
    ErrorKind,
>
    decreases hi - lo,
{
    if hi <= lo {
        Ok((arena, w))
    } else {
        match dir_resolved(arena, w, hi - 1) {
            Err(e) => Err(e),
            Ok((a1, w1)) => range_resolved(a1, w1, lo, hi - 1),
        }
    }
}

/// Resolving a directory leaves as many directories as there were.
pub proof fn lemma_dir_len(a: Seq<PendingView>, w: WriterView, j: int)
    requires
        0 <= j < a.len(),
    ensures
        dir_resolved(a, w, j) matches Ok((a2, w2)) ==> a2.len() == a.len(),
{
}

/// Resolving a range of directories leaves as many as there were.
pub proof fn lemma_range_len(a: Seq<PendingView>, w: WriterView, lo: int, hi: int)
    requires
        0 <= lo,
        hi <= a.len(),
    ensures
        range_resolved(a, w, lo, hi) matches Ok((a2, w2)) ==> a2.len() == a.len(),
    decreases hi - lo,
{
    if hi > lo {
        lemma_dir_len(a, w, hi - 1);
        match dir_resolved(a, w, hi - 1) {
            Ok((a1, w1)) => {
                lemma_range_len(a1, w1, lo, hi - 1);
            },
            Err(e) => {},
        }
    }
}

/// Resolving a range is resolving its upper part, then its lower part.
pub proof fn lemma_range_split(a: Seq<PendingView>, w: WriterView, lo: int, mid: int, hi: int)
    requires
        0 <= lo <= mid <= hi <= a.len(),
    ensures
        range_resolved(a, w, lo, hi) == (match range_resolved(a, w, mid, hi) {
            Err(e) => Err(e),
            Ok((a1, w1)) => range_resolved(a1, w1, lo, mid),
        }),
    decreases hi - mid,
{
    if hi > mid {
        lemma_dir_len(a, w, hi - 1);
        match dir_resolved(a, w, hi - 1) {
            Ok((a1, w1)) => {
                lemma_range_split(a1, w1, lo, mid, hi - 1);
            },
            Err(e) => {},
        }
    }
}

/// Resolving the last directories, the last one first, is resolving the
/// range that they make.
pub proof fn lemma_all_is_range(a: Seq<PendingView>, w: WriterView, m: nat)
    requires
        m <= a.len(),
    ensures
        all_resolved(a, w, m) == range_resolved(a, w, a.len() - m, a.len() as int),
    decreases m,
{
    if m > 0 {
        let lo = a.len() - m;
        lemma_all_is_range(a, w, (m - 1) as nat);
        lemma_range_split(a, w, lo, lo + 1, a.len() as int);
        lemma_range_len(a, w, lo + 1, a.len() as int);
        match range_resolved(a, w, lo + 1, a.len() as int) {
            Ok((a1, w1)) => {
                lemma_range_one(a1, w1, lo);
            },
            Err(e) => {},
        }
    }
}

/// Resolving a range of one directory is resolving that directory.
pub proof fn lemma_range_one(a: Seq<PendingView>, w: WriterView, j: int)
    ensures
        range_resolved(a, w, j, j + 1) == dir_resolved(a, w, j),
{
    match dir_resolved(a, w, j) {
        Ok((a1, w1)) => {
            assert(range_resolved(a1, w1, j, j) == Ok::<(Seq<PendingView>, WriterView), ErrorKind>(
                (a1, w1),
            ));
        },
        Err(e) => {},
    }
}

/// Resolving a directory whose links hold the identifiers of its own
/// directories gives it the identifier of its tree, and gives that
/// identifier to the link by which it hangs.
pub proof fn lemma_dir(a: Seq<PendingView>, w: WriterView, j: int, entries: Seq<FsEntryView>)
    requires
        0 <= j < a.len(),
        a[j] == part_of(entries, 0, a[j].parent),
        dir_resolved(a, w, j) is Ok,
    ensures
        dir_resolved(a, w, j)->Ok_0.0 == patched(
            a.update(j, done_of(entries, a[j].parent)),
            a[j].parent,
            dir_cid(entries),
        ),
{
    let p = a[j];
    let links = p.node.children;
    lemma_links_len(entries, entries.len(), false, 0);
    lemma_files_resolved(w, links, p.sources, links.len());
    lemma_links_hashed(entries, entries.len(), 0);
    let hashed = files_resolved(w, links, p.sources, links.len())->Ok_0.1;
    assert(hashed =~= links_with(entries, entries.len(), true, 0));
}

/// No directory of the tree has more entries than a `usize` counts.
pub open spec fn tree_fits(entries: Seq<FsEntryView>) -> bool
    decreases entries, entries.len() + 1,
{
    entries.len() <= usize::MAX && dirs_fit(entries, entries.len())
}

/// No directory below the first `n` of these entries has more entries than
/// a `usize` counts.
pub open spec fn dirs_fit(entries: Seq<FsEntryView>, n: nat) -> bool
    decreases entries, n,
{
    if n == 0 || n > entries.len() {
        true
    } else {
        match entries[n - 1] {
            FsEntryView::Directory { name, size, entries: sub } => tree_fits(sub) && dirs_fit(
                entries,
                (n - 1) as nat,
            ),
            _ => dirs_fit(entries, (n - 1) as nat),
        }
    }
}

/// Where the directories below many entries fit, those below fewer do.
pub proof fn lemma_dirs_fit(entries: Seq<FsEntryView>, m: nat, n: nat)
    requires
        m <= n <= entries.len(),
        dirs_fit(entries, n),
    ensures
        dirs_fit(entries, m),
        m < n && entries[m as int] is Directory ==> tree_fits(
            entries[m as int]->Directory_entries,
        ),
    decreases n - m,
{
    if m < n {
        lemma_dirs_fit(entries, m, (n - 1) as nat);
        if m < n - 1 {
        }
    }
}

/// Every directory among the first `n` entries, and every directory below
/// them, has its identifier at a place from `lo` up to `hi`.
pub open spec fn dirs_in(a: Seq<PendingView>, lo: int, hi: int, entries: Seq<FsEntryView>, n: nat)
    -> bool
    decreases entries, n,
{
    if n == 0 || n > entries.len() {
        true
    } else {
        dirs_in(a, lo, hi, entries, (n - 1) as nat) && match entries[n - 1] {
            FsEntryView::Directory { name, size, entries: sub } => dir_at(a, lo, hi, dir_cid(sub))
                && dirs_in(a, lo, hi, sub, sub.len()),
            _ => true,
        }
    }
}

/// A directory at a place from `lo` up to `hi` has the identifier `c`.
pub open spec fn dir_at(a: Seq<PendingView>, lo: int, hi: int, c: CidView) -> bool {
    exists|i: int| lo <= i < hi && 0 <= i < a.len() && (#[trigger] a[i]).node.cid == Some(c)
}

/// The directories keep their places where the identifiers at those places
/// stay, and where more places are looked at.
pub proof fn lemma_dirs_in_kept(
    a: Seq<PendingView>,
    b: Seq<PendingView>,
    lo: int,
    hi: int,
    lo2: int,
    hi2: int,
    entries: Seq<FsEntryView>,
    n: nat,
)
    requires
        lo2 <= lo,
        hi <= hi2,
        forall|i: int|
            lo <= i < hi && 0 <= i < a.len() ==> i < b.len() && (#[trigger] b[i]).node.cid
                == a[i].node.cid,
        dirs_in(a, lo, hi, entries, n),
    ensures
        dirs_in(b, lo2, hi2, entries, n),
    decreases entries, n,
{
    if n > 0 && n <= entries.len() {
        lemma_dirs_in_kept(a, b, lo, hi, lo2, hi2, entries, (n - 1) as nat);
        match entries[n - 1] {
            FsEntryView::Directory { name, size, entries: sub } => {
                let i = choose|i: int|
                    lo <= i < hi && 0 <= i < a.len() && (#[trigger] a[i]).node.cid == Some(
                        dir_cid(sub),
                    );
                assert(lo2 <= i < hi2 && 0 <= i < b.len() && b[i].node.cid == Some(dir_cid(sub)));
                lemma_dirs_in_kept(a, b, lo, hi, lo2, hi2, sub, sub.len());
            },
            _ => {},
        }
    }
}

/// The directory at entry `e` comes before the directories that follow it.
pub proof fn lemma_kids_before(entries: Seq<FsEntryView>, e: int, n: nat, k: usize)
    requires
        0 <= e < n <= entries.len(),
        entries[e] is Directory,
    ensures
        kids(entries, e as nat, k).len() < kids(entries, n, k).len(),
    decreases n,
{
    if e < n - 1 {
        lemma_kids_before(entries, e, (n - 1) as nat, k);
    }
}

/// Where every directory among the first `n` entries has its identifier at
/// its place, and all that is below it at places of the same range, every
/// directory among and below those entries has its identifier in that
/// range.
pub proof fn lemma_dirs_in_all(
    a: Seq<PendingView>,
    lo: int,
    hi: int,
    entries: Seq<FsEntryView>,
    n: nat,
    k: usize,
)
    requires
        n <= entries.len(),
        0 <= lo,
        lo + kids(entries, n, k).len() <= hi <= a.len(),
        forall|e: int|
            0 <= e < n && #[trigger] entries[e] is Directory ==> a[lo + kids(
                entries,
                e as nat,
                k,
            ).len()].node.cid == Some(dir_cid(entries[e]->entries)) && dirs_in(
                a,
                lo,
                hi,
                entries[e]->entries,
                entries[e]->entries.len(),
            ),
    ensures
        dirs_in(a, lo, hi, entries, n),
    decreases n,
{
    if n > 0 {
        let m = (n - 1) as nat;
        lemma_ready_kids_len(entries, m, k);
        lemma_dirs_in_all(a, lo, hi, entries, m, k);
        match entries[m as int] {
            FsEntryView::Directory { name, size, entries: sub } => {
                assert(entries[m as int] is Directory);
                lemma_kids_before(entries, m as int, n, k);
                let i = lo + kids(entries, m, k).len();
                assert(lo <= i < hi && 0 <= i < a.len() && a[i].node.cid == Some(dir_cid(sub)));
            },
            _ => {},
        }
    }
}

/// Resolving the directories among the first `n` entries of a directory,
/// each of which holds the identifiers of its own directories, gives the
/// links to them their identifiers, and changes nothing else.
#[verifier::rlimit(50)]
pub proof fn lemma_kids(
    entries: Seq<FsEntryView>,
    n: nat,
    k: usize,
    next: int,
    a: Seq<PendingView>,
    w: WriterView,
)
    requires
        n <= entries.len() <= usize::MAX,
        0 <= k < next,
        next + kids(entries, n, k).len() <= a.len(),
        forall|i: int|
            next <= i < next + kids(entries, n, k).len() ==> #[trigger] a[i] == ready_kids(
                entries,
                n,
                k,
            )[i - next],
        a[k as int] == part_of(entries, n as int, a[k as int].parent),
        range_resolved(a, w, next, next + kids(entries, n, k).len()) is Ok,
    ensures
        ({
            let a2 = range_resolved(a, w, next, next + kids(entries, n, k).len())->Ok_0.0;
            &&& a2.len() == a.len()
            &&& a2[k as int] == part_of(entries, 0, a[k as int].parent)
            &&& forall|i: int|
                0 <= i < a.len() && i != k && !(next <= i < next + kids(entries, n, k).len())
                    ==> #[trigger] a2[i] == a[i]
        }),
    decreases n,
{
    lemma_ready_kids_len(entries, n, k);
    if n > 0 {
        let m = (n - 1) as nat;
        lemma_ready_kids_len(entries, m, k);
        lemma_links_step(entries, entries.len(), false, m as int);
        match entries[m as int] {
            FsEntryView::Directory { name, size, entries: sub } => {
                let c = next + kids(entries, m, k).len();
                let l = pending_links(entries, m).len() as usize;
                lemma_links_len(entries, m, false, 0);
                lemma_links_len(entries, entries.len(), false, n as int);
                lemma_links_mono(entries, m, entries.len());
                assert(a[c] == ready_kids(entries, n, k)[c - next]);
                assert(a[c] == part_of(sub, 0, Some((k, l))));
                lemma_dir(a, w, c, sub);
                let a1 = dir_resolved(a, w, c)->Ok_0.0;
                let w1 = dir_resolved(a, w, c)->Ok_0.1;
                let mid = a.update(c, done_of(sub, Some((k, l))));
                assert(mid[k as int] == a[k as int]);
                assert(a1 == patched(mid, Some((k, l)), dir_cid(sub)));
                assert(a1[k as int] == part_of(entries, m as int, a[k as int].parent));
                assert forall|i: int|
                    next <= i < next + kids(entries, m, k).len() implies #[trigger] a1[i]
                    == ready_kids(entries, m, k)[i - next] by {
                    assert(a[i] == ready_kids(entries, n, k)[i - next]);
                }
                lemma_kids(entries, m, k, next, a1, w1);
            },
            _ => {
                lemma_kids(entries, m, k, next, a, w);
            },
        }
    }
}

/// Resolving directories gives no new identifier to a directory at
/// another place.
pub proof fn lemma_range_keeps_cid(a: Seq<PendingView>, w: WriterView, lo: int, hi: int, i: int)
    requires
        0 <= lo,
        hi <= a.len(),
        0 <= i < a.len(),
        !(lo <= i < hi),
        range_resolved(a, w, lo, hi) is Ok,
    ensures
        range_resolved(a, w, lo, hi)->Ok_0.0.len() == a.len(),
        range_resolved(a, w, lo, hi)->Ok_0.0[i].node.cid == a[i].node.cid,
    decreases hi - lo,
{
    if lo < hi {
        let a1 = dir_resolved(a, w, hi - 1)->Ok_0.0;
        let w1 = dir_resolved(a, w, hi - 1)->Ok_0.1;
        lemma_dir_len(a, w, hi - 1);
        assert(a1[i].node.cid == a[i].node.cid);
        lemma_range_keeps_cid(a1, w1, lo, hi - 1, i);
    }
}

/// Resolving a directory whose links hold the identifiers of its own
/// directories gives it the identifier of its tree and changes no
/// directory but itself and the one that it hangs from.
pub proof fn lemma_kid_done(
    a: Seq<PendingView>,
    w: WriterView,
    c: int,
    sub: Seq<FsEntryView>,
    k: usize,
    l: usize,
)
    requires
        0 <= c < a.len(),
        k != c,
        a[c] == part_of(sub, 0, Some((k, l))),
        dir_resolved(a, w, c) is Ok,
    ensures
        dir_resolved(a, w, c)->Ok_0.0.len() == a.len(),
        dir_resolved(a, w, c)->Ok_0.0[c].node.cid == Some(dir_cid(sub)),
        forall|i: int|
            0 <= i < a.len() && i != c && i != k ==> #[trigger] dir_resolved(a, w, c)->Ok_0.0[i]
                == a[i],
{
    lemma_dir(a, w, c, sub);
    lemma_dir_len(a, w, c);
    let mid = a.update(c, done_of(sub, Some((k, l))));
    assert(dir_resolved(a, w, c)->Ok_0.0 == patched(mid, Some((k, l)), dir_cid(sub)));
}

/// Resolving the directories among the first `n` entries of a directory,
/// each of which holds the identifiers of its own directories, gives the
/// directory at entry `e` the identifier of its tree.
#[verifier::rlimit(100)]
pub proof fn lemma_kid_cid(
    entries: Seq<FsEntryView>,
    n: nat,
    e: int,
    k: usize,
    next: int,
    a: Seq<PendingView>,
    w: WriterView,
)
    requires
        0 <= e < n <= entries.len(),
        entries[e] is Directory,
        0 <= k < next,
        next + kids(entries, n, k).len() <= a.len(),
        forall|i: int|
            next <= i < next + kids(entries, n, k).len() ==> #[trigger] a[i] == ready_kids(
                entries,
                n,
                k,
            )[i - next],
        range_resolved(a, w, next, next + kids(entries, n, k).len()) is Ok,
    ensures
        range_resolved(a, w, next, next + kids(entries, n, k).len())->Ok_0.0[next + kids(
            entries,
            e as nat,
            k,
        ).len()].node.cid == Some(dir_cid(entries[e]->entries)),
    decreases n,
{
    lemma_ready_kids_len(entries, n, k);
    let m = (n - 1) as nat;
    lemma_ready_kids_len(entries, m, k);
    match entries[m as int] {
        FsEntryView::Directory { name, size, entries: sub } => {
            let c = next + kids(entries, m, k).len();
            let l = pending_links(entries, m).len() as usize;
            assert(a[c] == ready_kids(entries, n, k)[c - next]);
            lemma_kid_done(a, w, c, sub, k, l);
            let a1 = dir_resolved(a, w, c)->Ok_0.0;
            let w1 = dir_resolved(a, w, c)->Ok_0.1;
            assert(range_resolved(a, w, next, c + 1) == range_resolved(a1, w1, next, c));
            if e == m {
                lemma_range_keeps_cid(a1, w1, next, c, c);
            } else {
                assert forall|i: int|
                    next <= i < next + kids(entries, m, k).len() implies #[trigger] a1[i]
                    == ready_kids(entries, m, k)[i - next] by {
                    assert(a[i] == ready_kids(entries, n, k)[i - next]);
                }
                lemma_kid_cid(entries, m, e, k, next, a1, w1);
            }
        },
        _ => {
            lemma_kid_cid(entries, m, e, k, next, a, w);
        },
    }
}

/// Resolving all that is below the directories among the first `n` entries
/// of a directory gives each of those directories the identifiers of its
/// own directories, gives every directory below them the identifier of its
/// own tree, and changes nothing else.
#[verifier::rlimit(50)]
pub proof fn lemma_below(
    entries: Seq<FsEntryView>,
    n: nat,
    k: usize,
    first: int,
    next: int,
    a: Seq<PendingView>,
    w: WriterView,
)
    requires
        n <= entries.len(),
        tree_fits(entries),
        0 <= k < first,
        first + kids(entries, n, k).len() <= next,
        next + below(entries, n, k, first, next).len() <= a.len() <= usize::MAX,
        forall|i: int|
            first <= i < first + kids(entries, n, k).len() ==> #[trigger] a[i] == kids(
                entries,
                n,
                k,
            )[i - first],
        forall|i: int|
            next <= i < next + below(entries, n, k, first, next).len() ==> #[trigger] a[i]
                == below(entries, n, k, first, next)[i - next],
        range_resolved(a, w, next, next + below(entries, n, k, first, next).len()) is Ok,
    ensures
        ({
            let a2 = range_resolved(
                a,
                w,
                next,
                next + below(entries, n, k, first, next).len(),
            )->Ok_0.0;
            &&& a2.len() == a.len()
            &&& forall|i: int|
                first <= i < first + kids(entries, n, k).len() ==> #[trigger] a2[i] == ready_kids(
                    entries,
                    n,
                    k,
                )[i - first]
            &&& forall|i: int|
                0 <= i < a.len() && !(first <= i < first + kids(entries, n, k).len()) && !(next <= i
                    < next + below(entries, n, k, first, next).len()) ==> #[trigger] a2[i] == a[i]
            &&& forall|e: int|
                0 <= e < n && #[trigger] entries[e] is Directory ==> dirs_in(
                    a2,
                    next,
                    next + below(entries, n, k, first, next).len(),
                    entries[e]->entries,
                    entries[e]->entries.len(),
                )
        }),
    decreases entries, n,
{
    lemma_ready_kids_len(entries, n, k);
    if n > 0 {
        let m = (n - 1) as nat;
        lemma_ready_kids_len(entries, m, k);
        lemma_dirs_fit(entries, m, entries.len());
        match entries[m as int] {
            FsEntryView::Directory { name, size, entries: sub } => {
                let c = first + kids(entries, m, k).len();
                let l = pending_links(entries, m).len() as usize;
                let seg = discover(sub, c as usize, next);
                let rest = below(entries, m, k, first, next + seg.len());
                let mid = next + seg.len();
                let hi = mid + rest.len();
                assert(below(entries, n, k, first, next) == seg + rest);
                lemma_range_split(a, w, next, mid, hi);
                assert forall|i: int| mid <= i < hi implies #[trigger] a[i] == rest[i - mid] by {
                    assert(a[i] == (seg + rest)[i - next]);
                }
                assert forall|i: int|
                    first <= i < first + kids(entries, m, k).len() implies #[trigger] a[i] == kids(
                    entries,
                    m,
                    k,
                )[i - first] by {
                    assert(a[i] == kids(entries, n, k)[i - first]);
                }
                lemma_below(entries, m, k, first, mid, a, w);
                let a1 = range_resolved(a, w, mid, hi)->Ok_0.0;
                let w1 = range_resolved(a, w, mid, hi)->Ok_0.1;
                assert(a1[c] == a[c]);
                assert(a[c] == kids(entries, n, k)[c - first]);
                assert(a1[c] == pending_of(sub, Some((k, l))));
                assert forall|i: int| next <= i < next + seg.len() implies #[trigger] a1[i]
                    == seg[i - next] by {
                    assert(a1[i] == a[i]);
                    assert(a[i] == (seg + rest)[i - next]);
                }
                lemma_segment(sub, c as usize, next, a1, w1);
                let a2 = range_resolved(a1, w1, next, mid)->Ok_0.0;
                assert forall|i: int|
                    first <= i < first + kids(entries, n, k).len() implies #[trigger] a2[i]
                    == ready_kids(entries, n, k)[i - first] by {
                    if i < c {
                        assert(a2[i] == a1[i]);
                        assert(a1[i] == ready_kids(entries, m, k)[i - first]);
                    }
                }
                assert forall|i: int|
                    0 <= i < a.len() && !(first <= i < first + kids(entries, n, k).len()) && !(next
                        <= i < hi) implies #[trigger] a2[i] == a[i] by {
                    assert(a2[i] == a1[i]);
                    assert(a1[i] == a[i]);
                }
                assert forall|e: int| 0 <= e < n && #[trigger] entries[e] is Directory implies dirs_in(
                    a2,
                    next,
                    hi,
                    entries[e]->entries,
                    entries[e]->entries.len(),
                ) by {
                    let se = entries[e]->entries;
                    if e < m {
                        assert forall|i: int| mid <= i < hi && 0 <= i < a1.len() implies i
                            < a2.len() && (#[trigger] a2[i]).node.cid == a1[i].node.cid by {
                            assert(a2[i] == a1[i]);
                        }
                        lemma_dirs_in_kept(a1, a2, mid, hi, next, hi, se, se.len());
                    } else {
                        lemma_dirs_in_kept(a2, a2, next, mid, next, hi, se, se.len());
                    }
                }
            },
            _ => {
                lemma_below(entries, m, k, first, next, a, w);
            },
        }
    } else {
        assert(range_resolved(a, w, next, next) == Ok::<(Seq<PendingView>, WriterView), ErrorKind>(
            (a, w),
        ));
    }
}

/// Resolving all that is below a directory gives the links to its
/// directories their identifiers, gives every directory below it the
/// identifier of its own tree, and changes nothing above it.
#[verifier::rlimit(50)]
pub proof fn lemma_segment(
    entries: Seq<FsEntryView>,
    k: usize,
    next: int,
    a: Seq<PendingView>,
    w: WriterView,
)
    requires
        tree_fits(entries),
        0 <= k < next,
        next + discover(entries, k, next).len() <= a.len() <= usize::MAX,
        a[k as int] == pending_of(entries, a[k as int].parent),
        forall|i: int|
            next <= i < next + discover(entries, k, next).len() ==> #[trigger] a[i] == discover(
                entries,
                k,
                next,
            )[i - next],
        range_resolved(a, w, next, next + discover(entries, k, next).len()) is Ok,
    ensures
        ({
            let a2 = range_resolved(a, w, next, next + discover(entries, k, next).len())->Ok_0.0;
            &&& a2.len() == a.len()
            &&& a2[k as int] == part_of(entries, 0, a[k as int].parent)
            &&& forall|i: int|
                0 <= i < a.len() && i != k && !(next <= i < next + discover(
                    entries,
                    k,
                    next,
                ).len()) ==> #[trigger] a2[i] == a[i]
            &&& dirs_in(
                a2,
                next,
                next + discover(entries, k, next).len(),
                entries,
                entries.len(),
            )
        }),
    decreases entries, entries.len() + 1,
{
    let found = kids(entries, entries.len(), k);
    let deep = below(entries, entries.len(), k, next, next + found.len());
    let mid = next + found.len();
    let hi = mid + deep.len();
    assert(discover(entries, k, next) == found + deep);
    lemma_ready_kids_len(entries, entries.len(), k);
    lemma_range_split(a, w, next, mid, hi);
    assert forall|i: int| next <= i < mid implies #[trigger] a[i] == found[i - next] by {
        assert(a[i] == (found + deep)[i - next]);
    }
    assert forall|i: int| mid <= i < hi implies #[trigger] a[i] == deep[i - mid] by {
        assert(a[i] == (found + deep)[i - next]);
    }
    lemma_below(entries, entries.len(), k, next, mid, a, w);
    let a1 = range_resolved(a, w, mid, hi)->Ok_0.0;
    let w1 = range_resolved(a, w, mid, hi)->Ok_0.1;
    assert(a1[k as int] == a[k as int]);
    lemma_links_pending(entries, entries.len(), entries.len() as int);
    assert(a1[k as int] == part_of(entries, entries.len() as int, a1[k as int].parent));
    lemma_kids(entries, entries.len(), k, next, a1, w1);
    let a2 = range_resolved(a1, w1, next, mid)->Ok_0.0;
    assert forall|i: int| 0 <= i < a.len() && i != k && !(next <= i < hi) implies #[trigger] a2[i]
        == a[i] by {
        assert(a2[i] == a1[i]);
        assert(a1[i] == a[i]);
    }
    assert forall|e: int| 0 <= e < entries.len() && #[trigger] entries[e] is Directory implies dirs_in(
        a2,
        next,
        hi,
        entries[e]->entries,
        entries[e]->entries.len(),
    ) by {
        let se = entries[e]->entries;
        assert forall|i: int| mid <= i < hi && 0 <= i < a1.len() implies i < a2.len() && (
        #[trigger] a2[i]).node.cid == a1[i].node.cid by {
            assert(a2[i] == a1[i]);
        }
        lemma_dirs_in_kept(a1, a2, mid, hi, next, hi, se, se.len());
    }
    assert forall|e: int| 0 <= e < entries.len() && #[trigger] entries[e] is Directory implies a2[next
        + kids(entries, e as nat, k).len()].node.cid == Some(dir_cid(entries[e]->entries)) by {
        lemma_kid_cid(entries, entries.len(), e, k, next, a1, w1);
    }
    lemma_dirs_in_all(a2, next, hi, entries, entries.len(), k);
}

/// The root of a packed tree is the identifier of the tree: that of the
/// node of the root directory, whose links hold the identifiers of the
/// entries' own trees. Every directory below the root has the identifier
/// of its own tree, at a place behind that of the root.
pub proof fn lemma_root_is_dir_cid(root: Seq<FsEntryView>, w: WriterView)
    requires
        tree_fits(root),
        arena_of(root).len() <= usize::MAX,
        all_resolved(arena_of(root), w, arena_of(root).len()) is Ok,
    ensures
        all_resolved(arena_of(root), w, arena_of(root).len())->Ok_0.0[0].node.cid == Some(
            dir_cid(root),
        ),
        all_resolved(arena_of(root), w, arena_of(root).len())->Ok_0.0[0].node.children
            == dir_node(root).children,
        dirs_in(
            all_resolved(arena_of(root), w, arena_of(root).len())->Ok_0.0,
            1,
            arena_of(root).len() as int,
            root,
            root.len(),
        ),
{
    let arena = arena_of(root);
    let below_root = discover(root, 0, 1);
    let hi = arena.len() as int;
    lemma_all_is_range(arena, w, arena.len());
    lemma_range_split(arena, w, 0, 1, hi);
    assert forall|i: int| 1 <= i < 1 + below_root.len() implies #[trigger] arena[i] == below_root[i
        - 1] by {}
    lemma_segment(root, 0, 1, arena, w);
    let a1 = range_resolved(arena, w, 1, hi)->Ok_0.0;
    let w1 = range_resolved(arena, w, 1, hi)->Ok_0.1;
    lemma_range_one(a1, w1, 0);
    lemma_dir(a1, w1, 0, root);
    let a2 = dir_resolved(a1, w1, 0)->Ok_0.0;
    assert forall|i: int| 1 <= i < hi && 0 <= i < a1.len() implies i < a2.len() && (
    #[trigger] a2[i]).node.cid == a1[i].node.cid by {}
    lemma_dirs_in_kept(a1, a2, 1, hi, 1, hi, root, root.len());
}

/// The root that a packed tree is given in the header is the identifier of
/// the tree.
pub proof fn lemma_archive_root(root: Seq<FsEntryView>, data: Seq<u8>, pos: nat)
    requires
        tree_fits(root),
        arena_of(root).len() <= usize::MAX,
    ensures
        archive_outcome(root, data, pos) matches Ok(w) ==> w.header == header_of_root(
            dir_cid(root),
        ),
{
    let w0 = WriterView {
        data,
        pos,
        pending: true,
        header: header_of_root(pb_cid_of(Seq::empty())),
    };
    if all_resolved(arena_of(root), w0, arena_of(root).len()) is Ok {
        lemma_root_is_dir_cid(root, w0);
    }
}

/// The identifier of an entry's own tree: of a file, that of its bytes; of
/// a directory, that of its node.
pub open spec fn entry_cid(e: FsEntryView) -> CidView {
    match e {
        FsEntryView::File { name, size, content } => raw_cid_of(content),
        FsEntryView::Directory { name, size, entries } => dir_cid(entries),
        FsEntryView::Other { name } => placeholder_cid(),
    }
}

/// The link that a directory's node holds for an entry holds the identifier
/// of that entry's own tree, whatever the other entries are: what changes
/// in one entry changes no link to another.
pub proof fn lemma_link_is_entry_cid(entries: Seq<FsEntryView>, n: nat, e: int)
    requires
        0 <= e < n <= entries.len(),
        !(entries[e] is Other),
    ensures
        pending_links(entries, e as nat).len() < links_with(entries, n, true, 0).len(),
        links_with(entries, n, true, 0)[pending_links(entries, e as nat).len() as int].hash
            == entry_cid(entries[e]),
    decreases n,
{
    let m = (n - 1) as nat;
    lemma_links_len(entries, m, true, 0);
    lemma_links_len(entries, n, true, 0);
    lemma_links_mono(entries, e as nat, n);
    if e < m {
        lemma_link_is_entry_cid(entries, m, e);
    }
}

/// Two entries are of one kind: both files, both directories, or both
/// neither.
pub open spec fn same_kind(x: FsEntryView, y: FsEntryView) -> bool {
    (x is File <==> y is File) && (x is Directory <==> y is Directory)
}

/// Two directories whose first `n` entries are of the same kinds, one by
/// one, have as many links for them.
pub proof fn lemma_links_count(a: Seq<FsEntryView>, b: Seq<FsEntryView>, n: nat)
    requires
        a.len() == b.len(),
        n <= a.len(),
        forall|i: int| 0 <= i < n ==> same_kind(#[trigger] a[i], b[i]),
    ensures
        pending_links(a, n).len() == pending_links(b, n).len(),
    decreases n,
{
    if n > 0 {
        lemma_links_count(a, b, (n - 1) as nat);
        assert(same_kind(a[n - 1], b[n - 1]));
    }
}

/// Where two directories differ in one entry and nothing else, their nodes
/// have as many links, each link holds the identifier of its entry's own
/// tree, and so every link but the one to that entry is the same in both:
/// what changes below one entry changes the link to it and leaves the
/// links to its siblings as they are.
pub proof fn lemma_one_entry_changed(a: Seq<FsEntryView>, b: Seq<FsEntryView>, e: int)
    requires
        a.len() == b.len(),
        0 <= e < a.len(),
        same_kind(a[e], b[e]),
        forall|i: int| 0 <= i < a.len() && i != e ==> #[trigger] a[i] == b[i],
    ensures
        dir_node(a).children.len() == dir_node(b).children.len(),
        forall|i: int|
            0 <= i < a.len() && !(#[trigger] a[i] is Other) ==> {
                let l = pending_links(a, i as nat).len() as int;
                &&& l < dir_node(a).children.len()
                &&& dir_node(a).children[l].hash == entry_cid(a[i])
                &&& dir_node(b).children[l].hash == entry_cid(b[i])
                &&& i != e ==> dir_node(a).children[l].hash == dir_node(b).children[l].hash
            },
{
    assert forall|i: int| 0 <= i < a.len() implies same_kind(#[trigger] a[i], b[i]) by {}
    lemma_links_count(a, b, a.len());
    lemma_links_len(a, a.len(), true, 0);
    lemma_links_len(b, b.len(), true, 0);
    assert forall|i: int| 0 <= i < a.len() && !(#[trigger] a[i] is Other) implies {
        let l = pending_links(a, i as nat).len() as int;
        &&& l < dir_node(a).children.len()
        &&& dir_node(a).children[l].hash == entry_cid(a[i])
        &&& dir_node(b).children[l].hash == entry_cid(b[i])
        &&& i != e ==> dir_node(a).children[l].hash == dir_node(b).children[l].hash
    } by {
        assert(same_kind(a[i], b[i]));
        lemma_links_count(a, b, i as nat);
        lemma_link_is_entry_cid(a, a.len(), i);
        lemma_link_is_entry_cid(b, b.len(), i);
    }
}

/// Every tree that a program holds has directories of no more entries than
/// a `usize` counts.
pub proof fn lemma_tree_fits(entries: Seq<FsEntry>, n: nat)
    requires
        n <= entries.len(),
    ensures
        dirs_fit(entries_view(entries), n),
    decreases entries, n,
{
    lemma_entries_view(entries);
    if n > 0 {
        lemma_tree_fits(entries, (n - 1) as nat);
        let ev = entries_view(entries);
        assert(ev[n - 1] == entries[n - 1]@);
        match entries[n - 1] {
            FsEntry::Directory { name, size, entries: sub } => {
                vstd::std_specs::vec::axiom_spec_len(&sub);
                lemma_tree_fits(sub@, sub@.len());
                lemma_entries_view(sub@);
                assert(ev[n - 1]->Directory_entries == entries_view(sub@));
                assert(tree_fits(entries_view(sub@)));
            },
            _ => {},
        }
    }
}

} // verus!
