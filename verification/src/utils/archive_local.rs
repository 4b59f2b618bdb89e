//! Packing a directory into an archive: every file as a block of plain
//! bytes, every directory as a node that links to its entries, and the
//! root directory as the root of the archive.

use crate::cid::{lemma_blake_cid, pb_cid, pb_cid_of, raw_cid, raw_cid_of, Cid, CidView, DAG_PB};
use crate::codec::Encoder;
use crate::error::{CarError, ErrorKind, IoErrorKind};
use crate::header::{header_of_root, lemma_root_header, CarHeader};
use crate::ipld::{dag_pb_bytes, dag_pb_encode};
use crate::reader::{archive_read, MAX_ALLOWED_SECTION_SIZE};
use crate::stream::{write_at, ByteCursor};
use crate::unixfs::{FileType, Link, LinkView, UnixFs, UnixFsView};
use crate::unixfs_codec::unixfs_value;
use crate::utils::readback::{holds_tree, lemma_archive_holds_tree, sizes_match};
use crate::writer::{header_known, new_v1_default_roots, CarWriterV1, WriterView};
use vstd::prelude::*;

verus! {

/// An entry of a directory, as the walk through the file system found it: a
/// file with its bytes, a directory with its entries, or something else,
/// which is not packed. The size is the one that the file system reports.
#[derive(Debug)]
pub enum FsEntry {
    File { name: String, size: u64, content: Vec<u8> },
    Directory { name: String, size: u64, entries: Vec<FsEntry> },
    Other { name: String },
}

/// An entry as a mathematical value.
pub enum FsEntryView {
    File { name: Seq<char>, size: u64, content: Seq<u8> },
    Directory { name: Seq<char>, size: u64, entries: Seq<FsEntryView> },
    Other { name: Seq<char> },
}

/// The entries of a directory as mathematical values.
pub open spec fn entries_view(l: Seq<FsEntry>) -> Seq<FsEntryView>
    decreases l,
{
    if l.len() == 0 {
        Seq::empty()
    } else {
        entries_view(l.drop_last()).push(entry_view(l.last()))
    }
}

/// An entry as a mathematical value.
pub open spec fn entry_view(e: FsEntry) -> FsEntryView
    decreases e,
{
    match e {
        FsEntry::File { name, size, content } => FsEntryView::File {
            name: name@,
            size,
            content: content@,
        },
        FsEntry::Directory { name, size, entries } => FsEntryView::Directory {
            name: name@,
            size,
            entries: entries_view(entries@),
        },
        FsEntry::Other { name } => FsEntryView::Other { name: name@ },
    }
}

impl View for FsEntry {
    type V = FsEntryView;

    open spec fn view(&self) -> FsEntryView {
        entry_view(*self)
    }
}

/// The view of a list of entries has the view of each entry in its place.
pub proof fn lemma_entries_view(l: Seq<FsEntry>)
    ensures
        entries_view(l).len() == l.len(),
        forall|j: int| 0 <= j < l.len() ==> #[trigger] entries_view(l)[j] == l[j]@,
    decreases l.len(),
{
    if l.len() > 0 {
        lemma_entries_view(l.drop_last());
    }
}

/// The link that a directory holds for an entry until the entry's block is
/// known: under the entry's name, with its size, to the identifier that
/// holds a place. What is neither file nor directory gets no link.
pub open spec fn entry_link(e: FsEntryView) -> Option<LinkView> {
    match e {
        FsEntryView::File { name, size, content } => Some(
            LinkView {
                hash: placeholder_cid(),
                name: Some(name),
                size: Some(size),
                guess_type: FileType::File,
            },
        ),
        FsEntryView::Directory { name, size, entries } => Some(
            LinkView {
                hash: placeholder_cid(),
                name: Some(name),
                size: Some(size),
                guess_type: FileType::Directory,
            },
        ),
        FsEntryView::Other { name } => None,
    }
}

/// The identifier that holds a place in a link.
pub open spec fn placeholder_cid() -> CidView {
    CidView { version: 1, codec: 0, hash_code: 0, digest: Seq::empty() }
}

/// The links of a directory with the first `n` of these entries, in the
/// order of the entries.
pub open spec fn pending_links(entries: Seq<FsEntryView>, n: nat) -> Seq<LinkView>
    decreases n,
{
    if n == 0 || n > entries.len() {
        Seq::empty()
    } else {
        match entry_link(entries[n - 1]) {
            Some(l) => pending_links(entries, (n - 1) as nat).push(l),
            None => pending_links(entries, (n - 1) as nat),
        }
    }
}

/// For each link of a directory with the first `n` of these entries, the
/// bytes of the file that it links to, or nothing for a directory.
pub open spec fn link_sources(entries: Seq<FsEntryView>, n: nat) -> Seq<Option<Seq<u8>>>
    decreases n,
{
    if n == 0 || n > entries.len() {
        Seq::empty()
    } else {
        match entries[n - 1] {
            FsEntryView::File { name, size, content } => link_sources(
                entries,
                (n - 1) as nat,
            ).push(Some(content)),
            FsEntryView::Directory { name, size, entries: sub } => link_sources(
                entries,
                (n - 1) as nat,
            ).push(None),
            FsEntryView::Other { name } => link_sources(entries, (n - 1) as nat),
        }
    }
}

/// A directory that waits for the blocks of its entries: its node, the
/// bytes of its files, one for each link, and where it hangs, as the
/// place of its parent among the waiting directories and the place of its
/// link there.
pub struct PendingView {
    pub node: UnixFsView,
    pub sources: Seq<Option<Seq<u8>>>,
    pub parent: Option<(usize, usize)>,
}

/// The waiting directory with these entries.
pub open spec fn pending_of(entries: Seq<FsEntryView>, parent: Option<(usize, usize)>)
    -> PendingView {
    PendingView {
        node: UnixFsView {
            file_type: FileType::Directory,
            children: pending_links(entries, entries.len()),
            ..UnixFsView::empty()
        },
        sources: link_sources(entries, entries.len()),
        parent,
    }
}

/// The waiting directories for the directories among the first `n` of these
/// entries, in the order of the entries. Their parent has the place `k`.
pub open spec fn kids(entries: Seq<FsEntryView>, n: nat, k: usize) -> Seq<PendingView>
    decreases n,
{
    if n == 0 || n > entries.len() {
        Seq::empty()
    } else {
        match entries[n - 1] {
            FsEntryView::Directory { name, size, entries: sub } => kids(
                entries,
                (n - 1) as nat,
                k,
            ).push(
                pending_of(sub, Some((k, pending_links(entries, (n - 1) as nat).len() as usize))),
            ),
            _ => kids(entries, (n - 1) as nat, k),
        }
    }
}

/// The directories below the directory at place `k`, in the order in which
/// they are found: first the directories among the entries, then what is
/// below the last of them, then what is below the one before, and so on.
/// The first of them gets the place `next`.
pub open spec fn discover(entries: Seq<FsEntryView>, k: usize, next: int) -> Seq<PendingView>
    decreases entries, entries.len() + 1,
{
    let found = kids(entries, entries.len(), k);
    found + below(entries, entries.len(), k, next, next + found.len())
}

/// What is below the directories among the first `n` of these entries, the
/// last of them first. `first` is the place of the first directory among
/// the entries, and `next` the first place that is free.
pub open spec fn below(entries: Seq<FsEntryView>, n: nat, k: usize, first: int, next: int) -> Seq<
    PendingView,
>
    decreases entries, n,
{
    if n == 0 || n > entries.len() {
        Seq::empty()
    } else {
        match entries[n - 1] {
            FsEntryView::Directory { name, size, entries: sub } => {
                let place = first + kids(entries, (n - 1) as nat, k).len();
                let found = discover(sub, place as usize, next);
                found + below(entries, (n - 1) as nat, k, first, next + found.len())
            },
            _ => below(entries, (n - 1) as nat, k, first, next),
        }
    }
}

/// The waiting directories of a tree: the root first, then all that is
/// below it.
pub open spec fn arena_of(root: Seq<FsEntryView>) -> Seq<PendingView> {
    seq![pending_of(root, None)] + discover(root, 0, 1)
}

/// A directory that waits for the blocks of its entries.
pub struct Pending<'a> {
    pub node: UnixFs,
    pub sources: Vec<Option<&'a [u8]>>,
    pub parent: Option<(usize, usize)>,
}

/// The bytes that may be missing, as a mathematical value.
pub open spec fn source_view(s: Option<&[u8]>) -> Option<Seq<u8>> {
    match s {
        Some(b) => Some(b@),
        None => None,
    }
}

/// The bytes of the files of a directory as mathematical values.
pub open spec fn sources_view(s: Seq<Option<&[u8]>>) -> Seq<Option<Seq<u8>>> {
    s.map_values(|x: Option<&[u8]>| source_view(x))
}

impl<'a> View for Pending<'a> {
    type V = PendingView;

    open spec fn view(&self) -> PendingView {
        PendingView { node: self.node@, sources: sources_view(self.sources@), parent: self.parent }
    }
}

/// The waiting directories of a list as mathematical values.
pub open spec fn arena_view(s: Seq<Pending>) -> Seq<PendingView> {
    s.map_values(|x: Pending| x@)
}

impl<'a> Pending<'a> {
    /// The waiting directory with these entries: a link for each file and
    /// each directory among them, in their order.
    pub fn new(entries: &'a Vec<FsEntry>, parent: Option<(usize, usize)>) -> (p: Self)
        ensures
            p@ == pending_of(entries_view(entries@), parent),
    {
        let ghost ev = entries_view(entries@);
        let mut node = UnixFs::default();
        node.file_type = FileType::Directory;
        let mut sources: Vec<Option<&'a [u8]>> = Vec::new();
        let mut i: usize = 0;
        proof {
            lemma_entries_view(entries@);
            assert(sources_view(sources@) =~= Seq::<Option<Seq<u8>>>::empty());
        }
        while i < entries.len()
            invariant
                i <= entries@.len(),
                ev == entries_view(entries@),
                ev.len() == entries@.len(),
                forall|j: int| 0 <= j < entries@.len() ==> #[trigger] ev[j] == entries@[j]@,
                node@ == (UnixFsView {
                    file_type: FileType::Directory,
                    children: pending_links(ev, i as nat),
                    ..UnixFsView::empty()
                }),
                sources_view(sources@) == link_sources(ev, i as nat),
            decreases entries@.len() - i,
        {
            let ghost before = sources_view(sources@);
            match &entries[i] {
                FsEntry::File { name, size, content } => {
                    let link = Link {
                        hash: Cid::placeholder(),
                        name: Some(name.clone()),
                        size: Some(*size),
                        guess_type: FileType::File,
                    };
                    node.add_child(link);
                    sources.push(Some(content.as_slice()));
                    proof {
                        assert(sources_view(sources@) =~= before.push(Some(content@)));
                    }
                },
                FsEntry::Directory { name, size, entries: sub } => {
                    let link = Link {
                        hash: Cid::placeholder(),
                        name: Some(name.clone()),
                        size: Some(*size),
                        guess_type: FileType::Directory,
                    };
                    node.add_child(link);
                    sources.push(None);
                    proof {
                        assert(sources_view(sources@) =~= before.push(None));
                    }
                },
                FsEntry::Other { name } => {},
            }
            i = i + 1;
        }
        Pending { node, sources, parent }
    }
}

/// Finds the directories below the directory at place `k`, whose entries
/// these are, and puts them behind the waiting ones: first the directories
/// among the entries, each with the place of its link, then what is below
/// the last of them, then what is below the one before, and so on.
#[verifier::rlimit(50)]
pub fn walk_inner<'a>(entries: &'a Vec<FsEntry>, k: usize, arena: &mut Vec<Pending<'a>>)
    ensures
        arena_view(final(arena)@) == arena_view(old(arena)@) + discover(
            entries_view(entries@),
            k,
            old(arena)@.len() as int,
        ),
    decreases entries,
{
    let ghost ev = entries_view(entries@);
    let ghost start = arena_view(arena@);
    let first = arena.len();
    let mut link_idx: usize = 0;
    let mut i: usize = 0;
    proof {
        lemma_entries_view(entries@);
        assert(start + kids(ev, 0, k) =~= start);
    }
    while i < entries.len()
        invariant
            i <= entries@.len(),
            ev == entries_view(entries@),
            ev.len() == entries@.len(),
            forall|j: int| 0 <= j < entries@.len() ==> #[trigger] ev[j] == entries@[j]@,
            link_idx == pending_links(ev, i as nat).len(),
            link_idx <= i,
            arena_view(arena@) == start + kids(ev, i as nat, k),
            kids(ev, i as nat, k).len() <= i,
        decreases entries@.len() - i,
    {
        let ghost before = arena_view(arena@);
        match &entries[i] {
            FsEntry::File { name, size, content } => {
                link_idx = link_idx + 1;
            },
            FsEntry::Directory { name, size, entries: sub } => {
                let child = Pending::new(sub, Some((k, link_idx)));
                arena.push(child);
                proof {
                    assert(arena_view(arena@) =~= before.push(child@));
                    assert(start + kids(ev, i as nat, k).push(child@) =~= (start + kids(
                        ev,
                        i as nat,
                        k,
                    )).push(child@));
                }
                link_idx = link_idx + 1;
            },
            FsEntry::Other { name } => {},
        }
        i = i + 1;
    }
    let ghost found = kids(ev, ev.len(), k);
    let mut rank: usize = arena.len() - first;
    let mut n: usize = entries.len();
    proof {
        assert(start + found + below(ev, 0, k, first as int, arena@.len() as int) =~= start + found);
    }
    while n > 0
        invariant
            n <= entries@.len(),
            ev == entries_view(entries@),
            ev.len() == entries@.len(),
            forall|j: int| 0 <= j < entries@.len() ==> #[trigger] ev[j] == entries@[j]@,
            found == kids(ev, ev.len(), k),
            start == arena_view(old(arena)@),
            first == start.len(),
            rank == kids(ev, n as nat, k).len(),
            first + rank <= arena@.len(),
            exists|done: Seq<PendingView>|
                #![trigger start + found + done]
                arena_view(arena@) == start + found + done && below(
                    ev,
                    ev.len(),
                    k,
                    first as int,
                    first + found.len(),
                ) == done + below(ev, n as nat, k, first as int, first + found.len() + done.len()),
        decreases n,
    {
        let ghost done = choose|done: Seq<PendingView>|
            #![trigger start + found + done]
            arena_view(arena@) == start + found + done && below(
                ev,
                ev.len(),
                k,
                first as int,
                first + found.len(),
            ) == done + below(ev, n as nat, k, first as int, first + found.len() + done.len());
        n = n - 1;
        match &entries[n] {
            FsEntry::Directory { name, size, entries: sub } => {
                rank = rank - 1;
                let total = arena.len();
                assert(first + rank < total);
                let ghost before = arena_view(arena@);
                let ghost next = arena@.len() as int;
                walk_inner(sub, first + rank, arena);
                proof {
                    let sv = entries_view(sub@);
                    let more = discover(sv, (first + rank) as usize, next);
                    assert(next == first + found.len() + done.len());
                    assert(arena_view(arena@) == before + more);
                    assert(start + found + (done + more) =~= before + more);
                    let rest = below(
                        ev,
                        n as nat,
                        k,
                        first as int,
                        first + found.len() + done.len() + more.len(),
                    );
                    assert(done + (more + rest) =~= (done + more) + rest);
                    assert((done + more).len() == done.len() + more.len());
                }
            },
            _ => {},
        }
    }
    proof {
        let done = choose|done: Seq<PendingView>|
            #![trigger start + found + done]
            arena_view(arena@) == start + found + done && below(
                ev,
                ev.len(),
                k,
                first as int,
                first + found.len(),
            ) == done + below(ev, 0, k, first as int, first + found.len() + done.len());
        assert(done + Seq::<PendingView>::empty() =~= done);
        assert(start + found + done =~= start + (found + done));
    }
}

/// The waiting directories of a tree, in the order in which they are found:
/// the root first. Each is resolved after all that come behind it.
pub fn walk_dir<'a>(root: &'a Vec<FsEntry>) -> (arena: Vec<Pending<'a>>)
    ensures
        arena_view(arena@) == arena_of(entries_view(root@)),
{
    let mut arena: Vec<Pending<'a>> = Vec::new();
    arena.push(Pending::new(root, None));
    proof {
        assert(arena_view(arena@) =~= seq![pending_of(entries_view(root@), None)]);
    }
    walk_inner(root, 0, &mut arena);
    arena
}

/// The link `j` after the file that it links to was streamed into the
/// archive: it holds the identifier of the file's bytes. A link to a
/// directory stays as it is.
#[verifier::opaque]
pub open spec fn file_resolved(
    w: WriterView,
    links: Seq<LinkView>,
    sources: Seq<Option<Seq<u8>>>,
    j: int,
) -> Result<(WriterView, Seq<LinkView>), ErrorKind> {
    if 0 <= j < links.len() && j < sources.len() && links[j].guess_type == FileType::File
        && sources[j] is Some {
        let content = sources[j]->Some_0;
        let size = match links[j].size {
            Some(n) => n,
            None => 0,
        };
        if size > usize::MAX {
            Err(ErrorKind::IO)
        } else {
            match w.streamed(size as usize, content, raw_cid_of(content)) {
                Err(k) => Err(k),
                Ok(w2) => Ok(
                    (w2, links.update(j, LinkView { hash: raw_cid_of(content), ..links[j] })),
                ),
            }
        }
    } else {
        Ok((w, links))
    }
}

/// The writer and the links after the files of the first `n` links were
/// streamed into the archive, one after another.
pub open spec fn files_resolved(
    w: WriterView,
    links: Seq<LinkView>,
    sources: Seq<Option<Seq<u8>>>,
    n: nat,
) -> Result<(WriterView, Seq<LinkView>), ErrorKind>
    decreases n,
{
    if n == 0 {
        Ok((w, links))
    } else {
        match files_resolved(w, links, sources, (n - 1) as nat) {
            Err(k) => Err(k),
            Ok((w1, l1)) => file_resolved(w1, l1, sources, n - 1),
        }
    }
}

/// The waiting directories after the link by which a directory hangs was
/// given the identifier of the directory's block.
pub open spec fn patched(arena: Seq<PendingView>, parent: Option<(usize, usize)>, cid: CidView)
    -> Seq<PendingView> {
    match parent {
        Some((p, idx)) => if p < arena.len() && idx < arena[p as int].node.children.len() {
            let links = arena[p as int].node.children;
            arena.update(
                p as int,
                PendingView {
                    node: UnixFsView {
                        children: links.update(
                            idx as int,
                            LinkView { hash: cid, ..links[idx as int] },
                        ),
                        ..arena[p as int].node
                    },
                    ..arena[p as int]
                },
            )
        } else {
            arena
        },
        None => arena,
    }
}

/// The block of a node in an archive: its structured value in the protobuf
/// form.
pub open spec fn node_block(node: UnixFsView) -> Option<Seq<u8>> {
    match unixfs_value(node) {
        None => None,
        Some(v) => dag_pb_bytes(v),
    }
}

/// The waiting directories and the writer after the directory at place `k`
/// was resolved: its files were streamed into the archive, its node was
/// written as a block, and the link by which it hangs was given the
/// identifier of that block.
pub open spec fn dir_resolved(arena: Seq<PendingView>, w: WriterView, k: int) -> Result<
    (Seq<PendingView>, WriterView),
    ErrorKind,
> {
    let p = arena[k];
    match files_resolved(w, p.node.children, p.sources, p.node.children.len()) {
        Err(e) => Err(e),
        Ok((w1, links)) => {
            let node = UnixFsView { children: links, ..p.node };
            match node_block(node) {
                None => Err(ErrorKind::Parsing),
                Some(bs) => {
                    let cid = pb_cid_of(bs);
                    match w1.written(cid, bs) {
                        Err(e) => Err(e),
                        Ok(w2) => Ok(
                            (
                                patched(
                                    arena.update(
                                        k,
                                        PendingView {
                                            node: UnixFsView { cid: Some(cid), ..node },
                                            ..p
                                        },
                                    ),
                                    p.parent,
                                    cid,
                                ),
                                w2,
                            ),
                        ),
                    }
                },
            }
        },
    }
}

/// The waiting directories and the writer after the last `m` directories
/// were resolved, the last one first.
pub open spec fn all_resolved(arena: Seq<PendingView>, w: WriterView, m: nat) -> Result<
    (Seq<PendingView>, WriterView),
    ErrorKind,
>
    decreases m,
{
    if m == 0 {
        Ok((arena, w))
    } else {
        match all_resolved(arena, w, (m - 1) as nat) {
            Err(e) => Err(e),
            Ok((a, w1)) => dir_resolved(a, w1, a.len() - m),
        }
    }
}

/// What packing a tree into the stream `data` at position `pos` comes to:
/// the writer at the end, or the kind of the error.
///
/// The header is written with an identifier that holds the place of the
/// root. The directories are resolved, the one found last first, so that
/// each comes after all that is below it. Then the header is written again
/// with the identifier of the root directory.
pub open spec fn archive_outcome(root: Seq<FsEntryView>, data: Seq<u8>, pos: nat) -> Result<
    WriterView,
    ErrorKind,
> {
    let w0 = WriterView {
        data,
        pos,
        pending: true,
        header: header_of_root(pb_cid_of(Seq::empty())),
    };
    let arena = arena_of(root);
    match all_resolved(arena, w0, arena.len()) {
        Err(e) => Err(e),
        Ok((a, w)) => match a[0].node.cid {
            None => Err(ErrorKind::NotFound),
            Some(c) => w.rewritten(header_of_root(c)),
        },
    }
}

/// Streams the file of the link `j` into the archive and gives the link
/// the identifier of the file's bytes; leaves a link to a directory as it
/// is.
#[verifier::rlimit(50)]
pub fn resolve_file(
    writer: &mut CarWriterV1,
    node: &mut UnixFs,
    sources: &Vec<Option<&[u8]>>,
    j: usize,
) -> (r: Result<(), CarError>)
    requires
        old(writer).wf(),
        j < old(node)@.children.len(),
    ensures
        final(writer).wf(),
        match file_resolved(
            old(writer).state(),
            old(node)@.children,
            sources_view(sources@),
            j as int,
        ) {
            Ok((w, links)) => r is Ok && final(writer).state() == w && final(node)@ == (UnixFsView {
                children: links,
                ..old(node)@
            }),
            Err(k) => r is Err && r->Err_0.kind() == k,
        },
        r is Ok ==> final(writer).state().header == old(writer).state().header,
        r is Ok && old(writer).state().pending && !final(writer).state().pending
            && old(writer).state().header.portable() ==> header_known(
            old(writer).state().header,
        ),
        r is Err && old(writer).state().header.portable() ==> r->Err_0 is IO,
{
    proof {
        reveal(file_resolved);
    }
    let ghost before = node@.children;
    if let FileType::File = node.children[j].guess_type {
        if j < sources.len() {
            if let Some(content) = sources[j] {
                let size: u64 = match node.children[j].size {
                    Some(s) => s,
                    None => 0,
                };
                if size > usize::MAX as u64 {
                    return Err(CarError::IO(IoErrorKind::InvalidInput));
                }
                let stream_len = size as usize;
                let slot = writer.begin_stream(stream_len)?;
                writer.stream_bytes(content)?;
                let file_cid = raw_cid(content);
                writer.finish_stream(slot, &file_cid, stream_len)?;
                node.children[j].hash = file_cid;
                proof {
                    assert(node@.children =~= before.update(
                        j as int,
                        LinkView { hash: raw_cid_of(content@), ..before[j as int] },
                    ));
                }
                return Ok(());
            }
        }
    }
    proof {
        assert(node@.children =~= before);
    }
    Ok(())
}

/// Streams the files of a waiting directory into the archive, one after
/// another in the order of the links, and gives each link the identifier
/// of its file's bytes.
pub fn resolve_files(writer: &mut CarWriterV1, node: &mut UnixFs, sources: &Vec<Option<&[u8]>>)
    -> (r: Result<(), CarError>)
    requires
        old(writer).wf(),
    ensures
        final(writer).wf(),
        match files_resolved(
            old(writer).state(),
            old(node)@.children,
            sources_view(sources@),
            old(node)@.children.len(),
        ) {
            Ok((w, links)) => r is Ok && final(writer).state() == w && final(node)@ == (UnixFsView {
                children: links,
                ..old(node)@
            }),
            Err(k) => r is Err && r->Err_0.kind() == k,
        },
        r is Ok ==> final(writer).state().header == old(writer).state().header,
        r is Ok && old(writer).state().pending && !final(writer).state().pending
            && old(writer).state().header.portable() ==> header_known(
            old(writer).state().header,
        ),
        r is Err && old(writer).state().header.portable() ==> r->Err_0 is IO,
{
    let ghost w0 = writer.state();
    let ghost links0 = node@.children;
    let ghost sv = sources_view(sources@);
    let n = node.children.len();
    let mut j: usize = 0;
    while j < n
        invariant
            j <= n,
            n == links0.len(),
            w0 == old(writer).state(),
            links0 == old(node)@.children,
            writer.wf(),
            sv == sources_view(sources@),
            node@.children.len() == n,
            node@ == (UnixFsView { children: node@.children, ..old(node)@ }),
            writer.state().header == w0.header,
            w0.pending && !writer.state().pending && w0.header.portable() ==> header_known(
                w0.header,
            ),
            files_resolved(w0, links0, sv, j as nat) == Ok::<
                (WriterView, Seq<LinkView>),
                ErrorKind,
            >((writer.state(), node@.children)),
        decreases n - j,
    {
        proof {
            lemma_files_resolved_fails(w0, links0, sv, (j + 1) as nat, n as nat);
            lemma_file_resolved_len(writer.state(), node@.children, sv, j as int);
        }
        resolve_file(writer, node, sources, j)?;
        j = j + 1;
    }
    Ok(())
}

/// Resolving a file leaves as many links as there were.
pub proof fn lemma_file_resolved_len(
    w: WriterView,
    links: Seq<LinkView>,
    sources: Seq<Option<Seq<u8>>>,
    j: int,
)
    ensures
        file_resolved(w, links, sources, j) matches Ok((w2, l2)) ==> l2.len() == links.len(),
{
    reveal(file_resolved);
}

/// Where the files of the first links fail, those of all the links fail
/// the same way.
pub proof fn lemma_files_resolved_fails(
    w: WriterView,
    links: Seq<LinkView>,
    sources: Seq<Option<Seq<u8>>>,
    j: nat,
    n: nat,
)
    requires
        j <= n,
    ensures
        files_resolved(w, links, sources, j) is Err ==> files_resolved(w, links, sources, n)
            == files_resolved(w, links, sources, j),
    decreases n - j,
{
    if j < n {
        lemma_files_resolved_fails(w, links, sources, j + 1, n);
    }
}

/// Resolves the waiting directory at place `k`: streams its files into the
/// archive, writes its node as a block, and gives the link by which it
/// hangs the identifier of that block.
#[verifier::rlimit(50)]
pub fn resolve_dir(writer: &mut CarWriterV1, arena: &mut Vec<Pending>, k: usize) -> (r: Result<
    (),
    CarError,
>)
    requires
        old(writer).wf(),
        k < old(arena)@.len(),
    ensures
        final(writer).wf(),
        final(arena)@.len() == old(arena)@.len(),
        match dir_resolved(arena_view(old(arena)@), old(writer).state(), k as int) {
            Ok((a, w)) => r is Ok && final(writer).state() == w && arena_view(final(arena)@) == a,
            Err(e) => r is Err && r->Err_0.kind() == e,
        },
        r is Ok ==> final(writer).state().header == old(writer).state().header,
        r is Ok ==> !final(writer).state().pending,
        r is Ok && old(writer).state().pending && old(writer).state().header.portable()
            ==> header_known(old(writer).state().header),
        r is Ok ==> forall|i: int|
            0 <= i < old(arena)@.len() ==> (#[trigger] arena_view(final(arena)@)[i]).node.file_type
                == arena_view(old(arena)@)[i].node.file_type,
        r is Err && old(writer).state().header.portable() && arena_view(
            old(arena)@,
        )[k as int].node.file_type == FileType::Directory ==> r->Err_0 is IO,
{
    proof {
        reveal(dir_resolved);
    }
    let ghost a0 = arena_view(arena@);
    let ghost p0 = a0[k as int];
    {
        let p = &mut arena[k];
        resolve_files(writer, &mut p.node, &p.sources)?;
    }
    let ghost node = arena@[k as int]@.node;
    proof {
        crate::unixfs_codec::lemma_unixfs_value_shaped(node);
    }
    let fs_ipld = arena[k].node.encode()?;
    let bs = match dag_pb_encode(&fs_ipld) {
        Ok(bs) => bs,
        Err(text) => {
            return Err(CarError::Parsing(text));
        },
    };
    let cid = pb_cid(bs.as_slice());
    writer.write(cid.clone(), bs.as_slice())?;
    arena[k].node.cid = Some(cid.clone());
    let parent = arena[k].parent;
    proof {
        assert(arena_view(arena@) =~= a0.update(
            k as int,
            PendingView { node: UnixFsView { cid: Some(cid@), ..node }, ..p0 },
        ));
    }
    if let Some((pi, idx)) = parent {
        if pi < arena.len() {
            if idx < arena[pi].node.children.len() {
                let ghost before = arena_view(arena@);
                arena[pi].node.children[idx].hash = cid;
                proof {
                    let links = before[pi as int].node.children;
                    assert(arena@[pi as int]@.node.children =~= links.update(
                        idx as int,
                        LinkView { hash: cid@, ..links[idx as int] },
                    ));
                    assert(arena_view(arena@) =~= patched(before, parent, cid@));
                }
            }
        }
    }
    Ok(())
}

/// Packs a tree of files and directories into an archive on `to_carfile`,
/// from its position on, and returns the stream.
///
/// Every file becomes a block of plain bytes and every directory a node
/// that links to the blocks of its entries; a directory is written after
/// all that is below it. The root of the archive is the root directory.
/// Entries that are neither files nor directories are left out.
///
/// Packing fails only as a stream fails: where the archive would grow
/// beyond what a `usize` counts, or a file is said to be that long.
/// An archive that was packed into an empty stream, from files as long as
/// their entries say, holds the tree where it opens again; and it does
/// open where it is no longer than a block may be.
#[verifier::rlimit(50)]
pub fn archive_local(root: &Vec<FsEntry>, to_carfile: ByteCursor) -> (r: Result<
    ByteCursor,
    CarError,
>)
    ensures
        match archive_outcome(entries_view(root@), to_carfile.data@, to_carfile.pos as nat) {
            Ok(w) => r is Ok && r->Ok_0.data@ == w.data && r->Ok_0.pos == w.pos && w.header
                == header_of_root(crate::utils::merkle::dir_cid(entries_view(root@))),
            Err(e) => r is Err && r->Err_0.kind() == e,
        },
        r is Err ==> r->Err_0 is IO,
        to_carfile.data@.len() == 0 && to_carfile.pos == 0 && sizes_match(
            entries_view(root@),
            root@.len(),
        ) && r is Ok && (r->Ok_0.data@.len() <= MAX_ALLOWED_SECTION_SIZE || archive_read(
            r->Ok_0.data@,
            0,
        ) is Ok) ==> holds_tree(r->Ok_0.data@, entries_view(root@)),
{
    proof {
        vstd::std_specs::vec::axiom_spec_len(root);
        crate::utils::merkle::lemma_tree_fits(root@, root@.len());
        lemma_entries_view(root@);
    }
    let mut writer = match new_v1_default_roots(to_carfile) {
        Ok(w) => w,
        Err(e) => {
            return Err(e);
        },
    };
    let ghost w0 = writer.state();
    let mut arena = walk_dir(root);
    let ghost a0 = arena_view(arena@);
    let total = arena.len();
    proof {
        crate::utils::merkle::lemma_archive_root(
            entries_view(root@),
            to_carfile.data@,
            to_carfile.pos as nat,
        );
    }
    proof {
        lemma_blake_cid(DAG_PB, Seq::empty());
        lemma_root_header(pb_cid_of(Seq::empty()));
        crate::utils::readback::lemma_arena_fresh(entries_view(root@), Seq::empty(), 0);
    }
    let mut k: usize = total;
    while k > 0
        invariant
            k <= total,
            w0.header.portable(),
            w0.pending,
            total == arena@.len(),
            total == a0.len(),
            total > 0,
            writer.wf(),
            a0 == arena_of(entries_view(root@)),
            w0 == (WriterView {
                data: to_carfile.data@,
                pos: to_carfile.pos as nat,
                pending: true,
                header: header_of_root(pb_cid_of(Seq::empty())),
            }),
            all_resolved(a0, w0, (total - k) as nat) == Ok::<
                (Seq<PendingView>, WriterView),
                ErrorKind,
            >((arena_view(arena@), writer.state())),
            writer.state().header == w0.header,
            k < total ==> !writer.state().pending && header_known(w0.header),
            forall|i: int|
                0 <= i < total ==> (#[trigger] arena_view(arena@)[i]).node.file_type
                    == FileType::Directory,
        decreases k,
    {
        proof {
            lemma_all_resolved_fails(a0, w0, (total - k + 1) as nat, total as nat);
        }
        k = k - 1;
        resolve_dir(&mut writer, &mut arena, k)?;
    }
    proof {
        crate::utils::merkle::lemma_root_is_dir_cid(entries_view(root@), w0);
    }
    let root_cid = match &arena[0].node.cid {
        Some(c) => c.clone(),
        None => {
            return Err(CarError::NotFound("root cid not found.".to_string()));
        },
    };
    let mut roots: Vec<Cid> = Vec::new();
    roots.push(root_cid);
    let header = CarHeader::new_v1(roots);
    let ghost ev = entries_view(root@);
    proof {
        assert(header.spec_v1().roots =~= seq![arena_view(arena@)[0].node.cid->Some_0]);
        crate::utils::merkle::lemma_root_is_dir_cid(ev, w0);
        let block = match node_block(crate::utils::merkle::dir_node(ev)) {
            Some(bytes) => bytes,
            None => Seq::empty(),
        };
        lemma_blake_cid(DAG_PB, block);
        lemma_root_header(crate::utils::merkle::dir_cid(ev));
        assert(header.spec_v1() == header_of_root(crate::utils::merkle::dir_cid(ev)));
    }
    writer.rewrite_header(header)?;
    proof {
        if to_carfile.data@.len() == 0 && to_carfile.pos == 0 && sizes_match(ev, ev.len())
            && (writer.state().data.len() <= MAX_ALLOWED_SECTION_SIZE || archive_read(
            writer.state().data,
            0,
        ) is Ok) {
            assert(to_carfile.data@ =~= Seq::<u8>::empty());
            lemma_archive_holds_tree(ev);
        }
    }
    Ok(writer.into_inner())
}

/// Packing depends on nothing but what the tree holds and where the stream
/// stands: two trees with the same names, sizes and bytes in the same order
/// are packed into the same bytes, with the same root.
pub proof fn lemma_archive_deterministic(
    first: Seq<FsEntry>,
    second: Seq<FsEntry>,
    data: Seq<u8>,
    pos: nat,
)
    requires
        entries_view(first) == entries_view(second),
    ensures
        archive_outcome(entries_view(first), data, pos) == archive_outcome(
            entries_view(second),
            data,
            pos,
        ),
{
}

/// Copies what is left of `r` to `w` and returns the identifier of what was
/// copied, as that of a block of plain bytes. Fails, and copies nothing,
/// where `w` would grow beyond what a `usize` counts.
pub fn pipe_raw_cid(r: &mut ByteCursor, w: &mut ByteCursor) -> (c: Result<Cid, CarError>)
    ensures
        final(r).data == old(r).data,
        old(w).pos + old(r).remaining().len() <= usize::MAX ==> c is Ok && c->Ok_0@ == raw_cid_of(
            old(r).remaining(),
        ) && final(w).data@ == write_at(old(w).data@, old(w).pos as nat, old(r).remaining())
            && final(w).pos == old(w).pos + old(r).remaining().len() && final(r).pos == old(r).pos
            + old(r).remaining().len(),
        old(w).pos + old(r).remaining().len() > usize::MAX ==> c is Err && c->Err_0 == CarError::IO(
            IoErrorKind::InvalidInput,
        ) && *final(w) == *old(w),
{
    let len = r.data.len();
    let left: usize = if r.pos > len as u64 {
        0
    } else {
        len - (r.pos as usize)
    };
    let start = r.pos;
    let bs = match r.read_exact(left) {
        Ok(bs) => bs,
        Err(kind) => {
            return Err(CarError::IO(kind));
        },
    };
    proof {
        assert(bs@ =~= old(r).remaining());
    }
    match w.write_all(bs.as_slice()) {
        Ok(()) => Ok(raw_cid(bs.as_slice())),
        Err(kind) => {
            r.pos = start;
            Err(CarError::IO(kind))
        },
    }
}

/// Where resolving the last directories fails, resolving all of them fails
/// the same way.
pub proof fn lemma_all_resolved_fails(arena: Seq<PendingView>, w: WriterView, m: nat, n: nat)
    requires
        m <= n,
    ensures
        all_resolved(arena, w, m) is Err ==> all_resolved(arena, w, n) == all_resolved(
            arena,
            w,
            m,
        ),
    decreases n - m,
{
    if m < n {
        lemma_all_resolved_fails(arena, w, m + 1, n);
    }
}

} // verus!
