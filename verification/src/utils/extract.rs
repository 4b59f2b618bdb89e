//! Unpacking an archive: the directories to make and the files to write, in
//! the order in which to do so.

use crate::cid::{cid_text, Cid, CidView};
use crate::error::{CarError, ErrorKind};
use crate::header::cids_view;
use crate::ipld::{TreeValue, TreeView};
use crate::reader::{block_at, CarReaderV1};
use crate::section::SectionView;
use crate::stream::append_bytes;
use crate::unixfs::{links_view, FileType, Link, LinkView, UnixFs};
use crate::unixfs_codec::unixfs_of_value;
use crate::utils::cat_file::{link_hashes, push_links, MAX_STEPS};
use std::collections::VecDeque;
use vstd::prelude::*;
use vstd::string::StringExecFns;

verus! {

/// One thing to do when unpacking: make a directory, or write a file.
#[derive(Debug, PartialEq, Eq)]
pub enum ExtractStep {
    Directory { path: String },
    File { path: String, data: Vec<u8> },
}

/// A step as a mathematical value.
pub enum ExtractStepView {
    Directory { path: Seq<char> },
    File { path: Seq<char>, data: Seq<u8> },
}

impl View for ExtractStep {
    type V = ExtractStepView;

    open spec fn view(&self) -> ExtractStepView {
        match self {
            ExtractStep::Directory { path } => ExtractStepView::Directory { path: path@ },
            ExtractStep::File { path, data } => ExtractStepView::File { path: path@, data: data@ },
        }
    }
}

/// The steps of a list as mathematical values.
pub open spec fn steps_view(s: Seq<ExtractStep>) -> Seq<ExtractStepView> {
    s.map_values(|x: ExtractStep| x@)
}

/// Where a block hangs: it is the child at place `index` of `parent`.
pub struct Relation {
    pub child: Cid,
    pub parent: Cid,
    pub index: usize,
}

/// A relation as a mathematical value.
pub struct RelationView {
    pub child: CidView,
    pub parent: CidView,
    pub index: usize,
}

impl View for Relation {
    type V = RelationView;

    open spec fn view(&self) -> RelationView {
        RelationView { child: self.child@, parent: self.parent@, index: self.index }
    }
}

/// A directory that was unpacked: its identifier, its links and its path.
pub struct Unpacked {
    pub cid: Cid,
    pub links: Vec<Link>,
    pub path: String,
}

/// An unpacked directory as a mathematical value.
pub struct UnpackedView {
    pub cid: CidView,
    pub links: Seq<LinkView>,
    pub path: Seq<char>,
}

impl View for Unpacked {
    type V = UnpackedView;

    open spec fn view(&self) -> UnpackedView {
        UnpackedView { cid: self.cid@, links: links_view(self.links@), path: self.path@ }
    }
}

/// The relations of a list as mathematical values.
pub open spec fn relations_view(s: Seq<Relation>) -> Seq<RelationView> {
    s.map_values(|x: Relation| x@)
}

/// The unpacked directories of a list as mathematical values.
pub open spec fn unpacked_view(s: Seq<Unpacked>) -> Seq<UnpackedView> {
    s.map_values(|x: Unpacked| x@)
}

/// The relation that was noted last for `child`.
pub open spec fn last_relation(rels: Seq<RelationView>, child: CidView) -> Option<RelationView>
    decreases rels.len(),
{
    if rels.len() == 0 {
        None
    } else if rels.last().child == child {
        Some(rels.last())
    } else {
        last_relation(rels.drop_last(), child)
    }
}

/// The directory that was unpacked last under the identifier `cid`.
pub open spec fn last_unpacked(dirs: Seq<UnpackedView>, cid: CidView) -> Option<UnpackedView>
    decreases dirs.len(),
{
    if dirs.len() == 0 {
        None
    } else if dirs.last().cid == cid {
        Some(dirs.last())
    } else {
        last_unpacked(dirs.drop_last(), cid)
    }
}

/// A path and a name below it: the path, a stroke, the name.
pub open spec fn join(path: Seq<char>, name: Seq<char>) -> Seq<char> {
    path + "/"@ + name
}

/// The name of a link, empty where it has none.
pub open spec fn link_name(l: LinkView) -> Seq<char> {
    match l.name {
        Some(s) => s,
        None => Seq::empty(),
    }
}

/// The path of a block that hangs by `rel`: the path of its parent, which
/// must have been unpacked, and the name of the link at its place.
pub open spec fn full_path(rel: Option<RelationView>, dirs: Seq<UnpackedView>) -> Option<Seq<char>> {
    match rel {
        None => None,
        Some(r) => match last_unpacked(dirs, r.parent) {
            None => None,
            Some(p) => if r.index < p.links.len() {
                Some(join(p.path, link_name(p.links[r.index as int])))
            } else {
                None
            },
        },
    }
}

/// The relations of the children of `parent`, one for each link.
pub open spec fn child_relations(parent: CidView, links: Seq<LinkView>) -> Seq<RelationView> {
    Seq::new(
        links.len(),
        |i: int| RelationView { child: links[i].hash, parent, index: i as usize },
    )
}

/// The bytes of a file with chunks: the blocks that the links name, one
/// after another, each of which must be plain bytes.
pub open spec fn chunk_bytes(
    data: Seq<u8>,
    index: Map<CidView, SectionView>,
    links: Seq<LinkView>,
) -> Result<Seq<u8>, ErrorKind>
    decreases links.len(),
{
    if links.len() == 0 {
        Ok(Seq::empty())
    } else {
        match chunk_bytes(data, index, links.drop_last()) {
            Err(k) => Err(k),
            Ok(before) => match block_at(data, index, links.last().hash) {
                Err(k) => Err(k),
                Ok(TreeView::Bytes(b)) => Ok(before + b),
                Ok(_) => Err(ErrorKind::Parsing),
            },
        }
    }
}

/// One more step before what a walk came to.
pub open spec fn step_first(x: ExtractStepView, after: (Seq<ExtractStepView>, Option<ErrorKind>))
    -> (Seq<ExtractStepView>, Option<ErrorKind>) {
    (seq![x] + after.0, after.1)
}

/// What unpacking the blocks of a queue comes to: the steps, and the kind
/// of the error that ended the unpacking, if one did.
///
/// The first block of the queue is taken. Its path is that of its parent
/// with the name of its link, or `root_path` where no parent is noted.
/// Plain bytes are a file. A node that is a file is a file of the bytes of
/// its chunks. Any other node is a directory: its children go to the end
/// of the queue, each noted as its child, and it is noted as unpacked.
pub open spec fn extract_walk(
    data: Seq<u8>,
    index: Map<CidView, SectionView>,
    queue: Seq<CidView>,
    rels: Seq<RelationView>,
    dirs: Seq<UnpackedView>,
    root_path: Seq<char>,
    fuel: nat,
) -> (Seq<ExtractStepView>, Option<ErrorKind>)
    decreases fuel,
{
    if queue.len() == 0 {
        (Seq::empty(), None)
    } else if fuel == 0 {
        (Seq::empty(), Some(ErrorKind::InvalidFile))
    } else {
        let c = queue[0];
        let rest = queue.drop_first();
        let path = match full_path(last_relation(rels, c), dirs) {
            Some(p) => p,
            None => root_path,
        };
        match block_at(data, index, c) {
            Err(k) => (Seq::empty(), Some(k)),
            Ok(TreeView::Bytes(b)) => step_first(
                ExtractStepView::File { path, data: b },
                extract_walk(data, index, rest, rels, dirs, root_path, (fuel - 1) as nat),
            ),
            Ok(TreeView::StringMap(m)) => match unixfs_of_value(TreeView::StringMap(m)) {
                None => (Seq::empty(), Some(ErrorKind::Parsing)),
                Some(u) => if u.file_type == FileType::File {
                    match chunk_bytes(data, index, u.children) {
                        Err(k) => (Seq::empty(), Some(k)),
                        Ok(bytes) => step_first(
                            ExtractStepView::File { path, data: bytes },
                            extract_walk(
                                data,
                                index,
                                rest,
                                rels,
                                dirs,
                                root_path,
                                (fuel - 1) as nat,
                            ),
                        ),
                    }
                } else {
                    let rels2 = rels + child_relations(c, u.children);
                    let own = match full_path(last_relation(rels2, c), dirs) {
                        Some(p) => p,
                        None => cid_text(c),
                    };
                    step_first(
                        ExtractStepView::Directory { path },
                        extract_walk(
                            data,
                            index,
                            rest + link_hashes(u.children),
                            rels2,
                            dirs.push(UnpackedView { cid: c, links: u.children, path: own }),
                            root_path,
                            (fuel - 1) as nat,
                        ),
                    )
                },
            },
            Ok(_) => (Seq::empty(), Some(ErrorKind::Parsing)),
        }
    }
}

/// The path under which the block `cid` is unpacked: the text of its
/// identifier, below `parent` where there is one.
pub open spec fn root_path_of(parent: Option<Seq<char>>, cid: CidView) -> Seq<char> {
    match parent {
        Some(p) => join(p, cid_text(cid)),
        None => cid_text(cid),
    }
}

/// A copy of a list of links.
pub fn clone_links(links: &Vec<Link>) -> (copy: Vec<Link>)
    ensures
        links_view(copy@) == links_view(links@),
{
    let mut copy: Vec<Link> = Vec::new();
    let mut i: usize = 0;
    while i < links.len()
        invariant
            i <= links@.len(),
            copy@.len() == i,
            forall|j: int| 0 <= j < i ==> (#[trigger] copy@[j])@ == links@[j]@,
        decreases links@.len() - i,
    {
        copy.push(links[i].clone());
        i = i + 1;
    }
    assert(links_view(copy@) =~= links_view(links@));
    copy
}

fn find_relation(rels: &Vec<Relation>, child: &Cid) -> (r: Option<usize>)
    ensures
        match last_relation(relations_view(rels@), child@) {
            Some(x) => r is Some && r->Some_0 < rels@.len() && rels@[r->Some_0 as int]@ == x,
            None => r is None,
        },
{
    let ghost all = relations_view(rels@);
    let mut i: usize = rels.len();
    proof {
        assert(all.take(i as int) =~= all);
    }
    while i > 0
        invariant
            i <= rels@.len(),
            all == relations_view(rels@),
            last_relation(all, child@) == last_relation(all.take(i as int), child@),
        decreases i,
    {
        proof {
            assert(all.take(i as int).last() == rels@[i - 1]@);
            assert(all.take(i as int).drop_last() =~= all.take(i - 1));
        }
        i = i - 1;
        if rels[i].child == *child {
            return Some(i);
        }
    }
    None
}

fn find_unpacked(dirs: &Vec<Unpacked>, cid: &Cid) -> (r: Option<usize>)
    ensures
        match last_unpacked(unpacked_view(dirs@), cid@) {
            Some(x) => r is Some && r->Some_0 < dirs@.len() && dirs@[r->Some_0 as int]@ == x,
            None => r is None,
        },
{
    let ghost all = unpacked_view(dirs@);
    let mut i: usize = dirs.len();
    proof {
        assert(all.take(i as int) =~= all);
    }
    while i > 0
        invariant
            i <= dirs@.len(),
            all == unpacked_view(dirs@),
            last_unpacked(all, cid@) == last_unpacked(all.take(i as int), cid@),
        decreases i,
    {
        proof {
            assert(all.take(i as int).last() == dirs@[i - 1]@);
            assert(all.take(i as int).drop_last() =~= all.take(i - 1));
        }
        i = i - 1;
        if dirs[i].cid == *cid {
            return Some(i);
        }
    }
    None
}

/// The path of the block `cid`, where a parent is noted for it and that
/// parent was unpacked.
fn path_of(rels: &Vec<Relation>, dirs: &Vec<Unpacked>, cid: &Cid) -> (r: Option<String>)
    ensures
        match full_path(last_relation(relations_view(rels@), cid@), unpacked_view(dirs@)) {
            Some(p) => r is Some && r->Some_0@ == p,
            None => r is None,
        },
{
    let k = match find_relation(rels, cid) {
        Some(k) => k,
        None => {
            return None;
        },
    };
    let rel = &rels[k];
    let d = match find_unpacked(dirs, &rel.parent) {
        Some(d) => d,
        None => {
            return None;
        },
    };
    let parent = &dirs[d];
    if rel.index < parent.links.len() {
        let name = parent.links[rel.index].name_ref();
        Some(parent.path.clone().concat("/").concat(name))
    } else {
        None
    }
}

/// Notes each child of `parent` as its child.
fn note_relations(rels: &mut Vec<Relation>, parent: &Cid, links: &Vec<Link>)
    ensures
        relations_view(final(rels)@) == relations_view(old(rels)@) + child_relations(
            parent@,
            links_view(links@),
        ),
{
    let ghost all = child_relations(parent@, links_view(links@));
    let mut i: usize = 0;
    proof {
        assert(relations_view(rels@) + all.take(0) =~= relations_view(rels@));
    }
    while i < links.len()
        invariant
            i <= links@.len(),
            all == child_relations(parent@, links_view(links@)),
            relations_view(rels@) == relations_view(old(rels)@) + all.take(i as int),
        decreases links@.len() - i,
    {
        let ghost before = relations_view(rels@);
        let rel = Relation { child: links[i].hash(), parent: parent.clone(), index: i };
        proof {
            assert(rel@ == all[i as int]);
            assert(all.take(i + 1) =~= all.take(i as int).push(all[i as int]));
        }
        rels.push(rel);
        proof {
            assert(relations_view(rels@) =~= before.push(all[i as int]));
            assert(relations_view(old(rels)@) + all.take(i as int).push(all[i as int]) =~= (
                relations_view(old(rels)@) + all.take(i as int)).push(all[i as int]));
        }
        i = i + 1;
    }
    proof {
        assert(all.take(links@.len() as int) =~= all);
    }
}

/// The bytes of a file with chunks.
fn read_chunks(reader: &mut CarReaderV1, links: &Vec<Link>) -> (r: Result<Vec<u8>, CarError>)
    requires
        old(reader).wf(),
    ensures
        final(reader).wf(),
        final(reader).data() == old(reader).data(),
        final(reader).entries() == old(reader).entries(),
        final(reader).header_view() == old(reader).header_view(),
        match chunk_bytes(old(reader).data(), old(reader).index(), links_view(links@)) {
            Ok(bytes) => r is Ok && r->Ok_0@ == bytes,
            Err(k) => r is Err && r->Err_0.kind() == k,
        },
{
    let ghost data = reader.data();
    let ghost index = reader.index();
    let ghost all = links_view(links@);
    let mut out: Vec<u8> = Vec::new();
    let mut i: usize = 0;
    proof {
        assert(all.take(0) =~= Seq::<LinkView>::empty());
    }
    while i < links.len()
        invariant
            i <= links@.len(),
            reader.wf(),
            reader.data() == data,
            reader.index() == index,
            data == old(reader).data(),
            index == old(reader).index(),
            reader.entries() == old(reader).entries(),
            reader.header_view() == old(reader).header_view(),
            all == links_view(links@),
            chunk_bytes(data, index, all.take(i as int)) == Ok::<Seq<u8>, ErrorKind>(out@),
        decreases links@.len() - i,
    {
        proof {
            assert(all.take(i + 1).drop_last() =~= all.take(i as int));
            assert(all.take(i + 1).last() == links@[i as int]@);
            if chunk_bytes(data, index, all.take(i + 1)) is Err {
                lemma_chunk_bytes_fails(data, index, all, i + 1);
            }
        }
        let c = links[i].hash();
        match reader.block(&c) {
            Ok(TreeValue::Bytes(b)) => {
                append_bytes(&mut out, b.as_slice());
            },
            Ok(_) => {
                return Err(CarError::Parsing("a chunk that is no bytes".to_string()));
            },
            Err(e) => {
                return Err(e);
            },
        }
        i = i + 1;
    }
    proof {
        assert(all.take(links@.len() as int) =~= all);
    }
    Ok(out)
}

/// Where the chunks up to some place fail, all the chunks fail the same
/// way.
pub proof fn lemma_chunk_bytes_fails(
    data: Seq<u8>,
    index: Map<CidView, SectionView>,
    links: Seq<LinkView>,
    n: int,
)
    requires
        0 <= n <= links.len(),
        chunk_bytes(data, index, links.take(n)) is Err,
    ensures
        chunk_bytes(data, index, links) == chunk_bytes(data, index, links.take(n)),
    decreases links.len() - n,
{
    if n < links.len() {
        assert(links.take(n + 1).drop_last() =~= links.take(n));
        lemma_chunk_bytes_fails(data, index, links, n + 1);
    } else {
        assert(links.take(n) =~= links);
    }
}

/// The steps that unpack the block `cid` and all below it, under the path
/// `root_path`, and the error that ended the unpacking, if one did.
#[verifier::rlimit(50)]
pub fn extract_ipld_inner(reader: &mut CarReaderV1, cid: Cid, root_path: String) -> (r: (
    Vec<ExtractStep>,
    Result<(), CarError>,
))
    requires
        old(reader).wf(),
    ensures
        final(reader).wf(),
        final(reader).data() == old(reader).data(),
        final(reader).entries() == old(reader).entries(),
        final(reader).header_view() == old(reader).header_view(),
        ({
            let walk = extract_walk(
                old(reader).data(),
                old(reader).index(),
                seq![cid@],
                Seq::empty(),
                Seq::empty(),
                root_path@,
                MAX_STEPS as nat,
            );
            &&& steps_view(r.0@) == walk.0
            &&& match walk.1 {
                None => r.1 is Ok,
                Some(k) => r.1 is Err && r.1->Err_0.kind() == k,
            }
        }),
{
    let ghost data = reader.data();
    let ghost index = reader.index();
    let ghost goal = extract_walk(
        data,
        index,
        seq![cid@],
        Seq::empty(),
        Seq::empty(),
        root_path@,
        MAX_STEPS as nat,
    );
    let mut queue: VecDeque<Cid> = VecDeque::new();
    let mut unixfs_cache: Vec<Unpacked> = Vec::new();
    let mut relations: Vec<Relation> = Vec::new();
    let mut steps: Vec<ExtractStep> = Vec::new();
    let mut fuel: usize = MAX_STEPS;
    queue.push_back(cid);
    proof {
        assert(cids_view(queue@) =~= seq![cid@]);
        assert(relations_view(relations@) =~= Seq::<RelationView>::empty());
        assert(unpacked_view(unixfs_cache@) =~= Seq::<UnpackedView>::empty());
        assert(steps_view(steps@) + goal.0 =~= goal.0);
    }
    loop
        invariant
            reader.wf(),
            reader.data() == data,
            reader.index() == index,
            data == old(reader).data(),
            index == old(reader).index(),
            reader.entries() == old(reader).entries(),
            reader.header_view() == old(reader).header_view(),
            goal == extract_walk(
                data,
                index,
                seq![cid@],
                Seq::empty(),
                Seq::empty(),
                root_path@,
                MAX_STEPS as nat,
            ),
            goal.0 == steps_view(steps@) + extract_walk(
                data,
                index,
                cids_view(queue@),
                relations_view(relations@),
                unpacked_view(unixfs_cache@),
                root_path@,
                fuel as nat,
            ).0,
            goal.1 == extract_walk(
                data,
                index,
                cids_view(queue@),
                relations_view(relations@),
                unpacked_view(unixfs_cache@),
                root_path@,
                fuel as nat,
            ).1,
        decreases fuel,
    {
        let ghost q = cids_view(queue@);
        let ghost done = steps_view(steps@);
        let cid = match queue.pop_front() {
            Some(c) => c,
            None => {
                proof {
                    assert(done + Seq::<ExtractStepView>::empty() =~= done);
                }
                return (steps, Ok(()));
            },
        };
        proof {
            assert(q[0] == cid@);
            assert(cids_view(queue@) =~= q.drop_first());
            assert(done + Seq::<ExtractStepView>::empty() =~= done);
        }
        if fuel == 0 {
            return (steps, Err(CarError::InvalidFile("too many blocks".to_string())));
        }
        fuel = fuel - 1;
        let full_path = match path_of(&relations, &unixfs_cache, &cid) {
            Some(f) => f,
            None => root_path.clone(),
        };
        let file_ipld = match reader.block(&cid) {
            Ok(v) => v,
            Err(e) => {
                return (steps, Err(e));
            },
        };
        match file_ipld {
            TreeValue::Bytes(b) => {
                let step = ExtractStep::File { path: full_path, data: b };
                proof {
                    assert(forall|after: Seq<ExtractStepView>|
                        #![trigger done + (seq![step@] + after)]
                        done + (seq![step@] + after) =~= done.push(step@) + after);
                }
                steps.push(step);
                proof {
                    assert(steps_view(steps@) =~= done.push(step@));
                }
            },
            TreeValue::StringMap(m) => {
                let node = TreeValue::StringMap(m);
                let unixfs = match UnixFs::from_cid_ipld(cid.clone(), &node) {
                    Ok(u) => u,
                    Err(e) => {
                        return (steps, Err(e));
                    },
                };
                match unixfs.file_type() {
                    FileType::File => {
                        let bytes = match read_chunks(reader, unixfs.children()) {
                            Ok(b) => b,
                            Err(e) => {
                                return (steps, Err(e));
                            },
                        };
                        let step = ExtractStep::File { path: full_path, data: bytes };
                        proof {
                            assert(forall|after: Seq<ExtractStepView>|
                                #![trigger done + (seq![step@] + after)]
                                done + (seq![step@] + after) =~= done.push(step@) + after);
                        }
                        steps.push(step);
                        proof {
                            assert(steps_view(steps@) =~= done.push(step@));
                        }
                    },
                    _ => {
                        let ghost dirs = unpacked_view(unixfs_cache@);
                        push_links(&mut queue, unixfs.children());
                        note_relations(&mut relations, &cid, unixfs.children());
                        let path = match path_of(&relations, &unixfs_cache, &cid) {
                            Some(p) => p,
                            None => cid.to_string(),
                        };
                        let entry = Unpacked {
                            cid: cid.clone(),
                            links: clone_links(unixfs.children()),
                            path,
                        };
                        unixfs_cache.push(entry);
                        proof {
                            assert(unpacked_view(unixfs_cache@) =~= dirs.push(entry@));
                        }
                        let step = ExtractStep::Directory { path: full_path };
                        proof {
                            assert(forall|after: Seq<ExtractStepView>|
                                #![trigger done + (seq![step@] + after)]
                                done + (seq![step@] + after) =~= done.push(step@) + after);
                        }
                        steps.push(step);
                        proof {
                            assert(steps_view(steps@) =~= done.push(step@));
                        }
                    },
                }
            },
            _ => {
                return (steps, Err(CarError::Parsing("not implement".to_string())));
            },
        }
    }
}

/// The steps that unpack the block `cid` and all below it under a
/// directory named by the text of `cid`, below `parent` where there is one.
pub fn extract_ipld(reader: &mut CarReaderV1, cid: Cid, parent: Option<&str>) -> (r: (
    Vec<ExtractStep>,
    Result<(), CarError>,
))
    requires
        old(reader).wf(),
    ensures
        final(reader).wf(),
        final(reader).data() == old(reader).data(),
        final(reader).entries() == old(reader).entries(),
        final(reader).header_view() == old(reader).header_view(),
        ({
            let walk = extract_walk(
                old(reader).data(),
                old(reader).index(),
                seq![cid@],
                Seq::empty(),
                Seq::empty(),
                root_path_of(
                    match parent {
                        Some(p) => Some(p@),
                        None => None,
                    },
                    cid@,
                ),
                MAX_STEPS as nat,
            );
            &&& steps_view(r.0@) == walk.0
            &&& match walk.1 {
                None => r.1 is Ok,
                Some(k) => r.1 is Err && r.1->Err_0.kind() == k,
            }
        }),
{
    let text = cid.to_string();
    let root_path = match parent {
        Some(p) => String::from_str(p).concat("/").concat(text.as_str()),
        None => text,
    };
    extract_ipld_inner(reader, cid, root_path)
}

/// The steps that unpack the block `cid` and all below it under a
/// directory named by the text of `cid`.
pub fn extract_ipld_to_current_path(reader: &mut CarReaderV1, cid: Cid) -> (r: (
    Vec<ExtractStep>,
    Result<(), CarError>,
))
    requires
        old(reader).wf(),
    ensures
        final(reader).wf(),
        final(reader).data() == old(reader).data(),
        final(reader).entries() == old(reader).entries(),
        final(reader).header_view() == old(reader).header_view(),
        ({
            let walk = extract_walk(
                old(reader).data(),
                old(reader).index(),
                seq![cid@],
                Seq::empty(),
                Seq::empty(),
                cid_text(cid@),
                MAX_STEPS as nat,
            );
            &&& steps_view(r.0@) == walk.0
            &&& match walk.1 {
                None => r.1 is Ok,
                Some(k) => r.1 is Err && r.1->Err_0.kind() == k,
            }
        }),
{
    extract_ipld(reader, cid, None)
}

} // verus!
