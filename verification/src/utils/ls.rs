//! The names under which an archive holds its blocks.

use crate::cid::{cid_text, Cid, CidView, RAW};
use crate::error::{CarError, ErrorKind};
use crate::header::cids_view;
use crate::ipld::{TreeValue, TreeView};
use crate::reader::{block_at, CarReaderV1};
use crate::section::SectionView;
use crate::unixfs::{links_view, FileType, Link, LinkView, UnixFs};
use crate::unixfs_codec::unixfs_of_value;
use crate::utils::cat_file::{link_hashes, push_links, MAX_STEPS};
use std::collections::VecDeque;
use vstd::prelude::*;
use vstd::string::StringExecFns;

verus! {

/// A block of an archive with the name under which it is listed.
#[derive(Debug, PartialEq, Eq)]
pub struct Listed {
    pub cid: Cid,
    pub name: String,
}

/// A listed block as a mathematical value.
pub struct ListedView {
    pub cid: CidView,
    pub name: Seq<char>,
}

impl View for Listed {
    type V = ListedView;

    open spec fn view(&self) -> ListedView {
        ListedView { cid: self.cid@, name: self.name@ }
    }
}

/// The listed blocks of a list as mathematical values.
pub open spec fn listed_view(s: Seq<Listed>) -> Seq<ListedView> {
    s.map_values(|x: Listed| x@)
}

/// The name that was noted last for `cid`.
pub open spec fn noted_name(notes: Seq<ListedView>, cid: CidView) -> Option<Seq<char>>
    decreases notes.len(),
{
    if notes.len() == 0 {
        None
    } else if notes.last().cid == cid {
        Some(notes.last().name)
    } else {
        noted_name(notes.drop_last(), cid)
    }
}

/// The name of a child: the name of its parent, a stroke, and the name of
/// the link.
pub open spec fn child_name(parent: Seq<char>, link: LinkView) -> Seq<char> {
    parent + "/"@ + (match link.name {
        Some(s) => s,
        None => Seq::empty(),
    })
}

/// The names of the children of a directory that goes by `parent`.
pub open spec fn child_notes(parent: Seq<char>, links: Seq<LinkView>) -> Seq<ListedView> {
    links.map_values(|l: LinkView| ListedView { cid: l.hash, name: child_name(parent, l) })
}

/// One more listed block before what a walk came to.
pub open spec fn listed_first(x: ListedView, after: (Seq<ListedView>, Option<ErrorKind>)) -> (
    Seq<ListedView>,
    Option<ErrorKind>,
) {
    (seq![x] + after.0, after.1)
}

/// What listing the blocks of a queue comes to: the blocks listed, each with
/// its name, and the kind of the error that ended the listing, if one did.
///
/// The first block of the queue is taken and listed under the name noted
/// for it, or under the text of its identifier. A block of plain bytes is
/// not read. A directory puts its children at the end of the queue and
/// notes their names. After `fuel` blocks the walk gives up with an
/// invalid file.
pub open spec fn ls_walk(
    data: Seq<u8>,
    index: Map<CidView, SectionView>,
    queue: Seq<CidView>,
    notes: Seq<ListedView>,
    fuel: nat,
) -> (Seq<ListedView>, Option<ErrorKind>)
    decreases fuel,
{
    if queue.len() == 0 {
        (Seq::empty(), None)
    } else if fuel == 0 {
        (Seq::empty(), Some(ErrorKind::InvalidFile))
    } else {
        let c = queue[0];
        let rest = queue.drop_first();
        let name = match noted_name(notes, c) {
            Some(n) => n,
            None => cid_text(c),
        };
        let entry = ListedView { cid: c, name };
        if c.codec == RAW {
            listed_first(entry, ls_walk(data, index, rest, notes, (fuel - 1) as nat))
        } else {
            match block_at(data, index, c) {
                Err(k) => (seq![entry], Some(k)),
                Ok(TreeView::StringMap(m)) => match unixfs_of_value(TreeView::StringMap(m)) {
                    None => (seq![entry], Some(ErrorKind::Parsing)),
                    Some(u) => if u.file_type == FileType::Directory {
                        listed_first(
                            entry,
                            ls_walk(
                                data,
                                index,
                                rest + link_hashes(u.children),
                                notes + child_notes(name, u.children),
                                (fuel - 1) as nat,
                            ),
                        )
                    } else {
                        listed_first(entry, ls_walk(data, index, rest, notes, (fuel - 1) as nat))
                    },
                },
                Ok(_) => listed_first(entry, ls_walk(data, index, rest, notes, (fuel - 1) as nat)),
            }
        }
    }
}

/// What listing an archive comes to: the blocks below each root, one root
/// after another, up to the first error.
pub open spec fn ls_roots(data: Seq<u8>, index: Map<CidView, SectionView>, roots: Seq<CidView>) -> (
    Seq<ListedView>,
    Option<ErrorKind>,
)
    decreases roots.len(),
{
    if roots.len() == 0 {
        (Seq::empty(), None)
    } else {
        let first = ls_walk(data, index, seq![roots[0]], Seq::empty(), MAX_STEPS as nat);
        match first.1 {
            Some(k) => first,
            None => {
                let after = ls_roots(data, index, roots.drop_first());
                (first.0 + after.0, after.1)
            },
        }
    }
}

/// The name that was noted last for `cid`.
fn find_note(notes: &Vec<Listed>, cid: &Cid) -> (r: Option<String>)
    ensures
        match noted_name(listed_view(notes@), cid@) {
            Some(n) => r is Some && r->Some_0@ == n,
            None => r is None,
        },
{
    let ghost all = listed_view(notes@);
    let mut i: usize = notes.len();
    proof {
        assert(all.take(i as int) =~= all);
    }
    while i > 0
        invariant
            i <= notes@.len(),
            all == listed_view(notes@),
            noted_name(all, cid@) == noted_name(all.take(i as int), cid@),
        decreases i,
    {
        proof {
            assert(all.take(i as int).last() == notes@[i - 1]@);
            assert(all.take(i as int).drop_last() =~= all.take(i - 1));
        }
        i = i - 1;
        if notes[i].cid == *cid {
            return Some(notes[i].name.clone());
        }
    }
    None
}

/// Notes the names of the children of a directory that goes by `parent`.
fn note_children(notes: &mut Vec<Listed>, parent: &String, links: &Vec<Link>)
    ensures
        listed_view(final(notes)@) == listed_view(old(notes)@) + child_notes(
            parent@,
            links_view(links@),
        ),
{
    let ghost all = child_notes(parent@, links_view(links@));
    let mut i: usize = 0;
    proof {
        assert(listed_view(notes@) + all.take(0) =~= listed_view(notes@));
    }
    while i < links.len()
        invariant
            i <= links@.len(),
            all == child_notes(parent@, links_view(links@)),
            listed_view(notes@) == listed_view(old(notes)@) + all.take(i as int),
        decreases links@.len() - i,
    {
        let ghost before = listed_view(notes@);
        let name = parent.clone().concat("/").concat(links[i].name_ref());
        let entry = Listed { cid: links[i].hash(), name };
        proof {
            assert(entry@ == all[i as int]);
            assert(all.take(i + 1) =~= all.take(i as int).push(all[i as int]));
        }
        notes.push(entry);
        proof {
            assert(listed_view(notes@) =~= before.push(all[i as int]));
            assert(listed_view(old(notes)@) + all.take(i as int).push(all[i as int]) =~= (
                listed_view(old(notes)@) + all.take(i as int)).push(all[i as int]));
        }
        i = i + 1;
    }
    proof {
        assert(all.take(links@.len() as int) =~= all);
    }
}

/// Lists the blocks of the queue into `out`, one after another, until the
/// queue is empty; the children of a directory go to the end of the queue.
#[verifier::rlimit(50)]
pub fn walk(vecq: &mut VecDeque<Cid>, reader: &mut CarReaderV1, out: &mut Vec<Listed>) -> (r: Result<
    (),
    CarError,
>)
    requires
        old(reader).wf(),
    ensures
        final(reader).wf(),
        final(reader).data() == old(reader).data(),
        final(reader).entries() == old(reader).entries(),
        final(reader).header_view() == old(reader).header_view(),
        ({
            let listing = ls_walk(
                old(reader).data(),
                old(reader).index(),
                cids_view(old(vecq)@),
                Seq::empty(),
                MAX_STEPS as nat,
            );
            &&& listed_view(final(out)@) == listed_view(old(out)@) + listing.0
            &&& match listing.1 {
                None => r is Ok && final(vecq)@.len() == 0,
                Some(k) => r is Err && r->Err_0.kind() == k,
            }
        }),
{
    let ghost data = reader.data();
    let ghost index = reader.index();
    let ghost goal = ls_walk(data, index, cids_view(vecq@), Seq::empty(), MAX_STEPS as nat);
    let ghost start = listed_view(out@);
    let mut cache: Vec<Listed> = Vec::new();
    let mut fuel: usize = MAX_STEPS;
    proof {
        assert(listed_view(cache@) =~= Seq::<ListedView>::empty());
    }
    loop
        invariant
            reader.wf(),
            reader.data() == data,
            reader.index() == index,
            reader.entries() == old(reader).entries(),
            reader.header_view() == old(reader).header_view(),
            data == old(reader).data(),
            index == old(reader).index(),
            start == listed_view(old(out)@),
            goal == ls_walk(data, index, cids_view(old(vecq)@), Seq::empty(), MAX_STEPS as nat),
            start + goal.0 == listed_view(out@) + ls_walk(
                data,
                index,
                cids_view(vecq@),
                listed_view(cache@),
                fuel as nat,
            ).0,
            goal.1 == ls_walk(data, index, cids_view(vecq@), listed_view(cache@), fuel as nat).1,
        decreases fuel,
    {
        let ghost queue = cids_view(vecq@);
        let ghost notes = listed_view(cache@);
        let ghost listed = listed_view(out@);
        let file_cid = match vecq.pop_front() {
            Some(c) => c,
            None => {
                proof {
                    assert(listed + Seq::<ListedView>::empty() =~= listed);
                }
                return Ok(());
            },
        };
        proof {
            assert(queue[0] == file_cid@);
            assert(cids_view(vecq@) =~= queue.drop_first());
        }
        if fuel == 0 {
            proof {
                assert(listed + Seq::<ListedView>::empty() =~= listed);
            }
            return Err(CarError::InvalidFile("too many blocks".to_string()));
        }
        fuel = fuel - 1;
        let file_n = match find_note(&cache, &file_cid) {
            Some(n) => n,
            None => file_cid.to_string(),
        };
        let codec = file_cid.codec();
        let ghost entry = ListedView { cid: file_cid@, name: file_n@ };
        out.push(Listed { cid: file_cid.clone(), name: file_n.clone() });
        proof {
            assert(listed_view(out@) =~= listed.push(entry));
            assert(forall|after: Seq<ListedView>|
                #![trigger listed + (seq![entry] + after)]
                listed + (seq![entry] + after) =~= listed.push(entry) + after);
            assert(listed + seq![entry] =~= listed.push(entry) + Seq::<ListedView>::empty());
        }
        if codec == RAW {
            continue ;
        }
        let file_ipld = match reader.block(&file_cid) {
            Ok(v) => v,
            Err(e) => {
                return Err(e);
            },
        };
        match file_ipld {
            TreeValue::StringMap(m) => {
                let node = TreeValue::StringMap(m);
                let unixfs = match UnixFs::from_ipld(&node) {
                    Ok(u) => u,
                    Err(e) => {
                        return Err(e);
                    },
                };
                match unixfs.file_type() {
                    FileType::Directory => {
                        note_children(&mut cache, &file_n, unixfs.children());
                        push_links(vecq, unixfs.children());
                    },
                    _ => {},
                }
            },
            _ => {},
        }
    }
}

/// Lists the blocks of an archive: those below each root, one root after
/// another. Returns what was listed, and the error that ended the listing,
/// if one did.
pub fn list_entries(reader: &mut CarReaderV1) -> (r: (Vec<Listed>, Result<(), CarError>))
    requires
        old(reader).wf(),
    ensures
        final(reader).wf(),
        final(reader).data() == old(reader).data(),
        final(reader).entries() == old(reader).entries(),
        final(reader).header_view() == old(reader).header_view(),
        ({
            let listing = ls_roots(
                old(reader).data(),
                old(reader).index(),
                old(reader).header_view().roots,
            );
            &&& listed_view(r.0@) == listing.0
            &&& match listing.1 {
                None => r.1 is Ok,
                Some(k) => r.1 is Err && r.1->Err_0.kind() == k,
            }
        }),
{
    let roots = reader.header().roots();
    let ghost all = reader.header_view().roots;
    let ghost data = reader.data();
    let ghost index = reader.index();
    let mut out: Vec<Listed> = Vec::new();
    let mut queue: VecDeque<Cid> = VecDeque::new();
    let mut i: usize = 0;
    proof {
        assert(all.skip(0) =~= all);
        assert(listed_view(out@) + ls_roots(data, index, all).0 =~= ls_roots(data, index, all).0);
    }
    while i < roots.len()
        invariant
            i <= roots@.len(),
            reader.wf(),
            reader.data() == data,
            reader.index() == index,
            data == old(reader).data(),
            index == old(reader).index(),
            reader.entries() == old(reader).entries(),
            reader.header_view() == old(reader).header_view(),
            all == old(reader).header_view().roots,
            cids_view(roots@) == all,
            queue@.len() == 0,
            ls_roots(data, index, all).0 == listed_view(out@) + ls_roots(
                data,
                index,
                all.skip(i as int),
            ).0,
            ls_roots(data, index, all).1 == ls_roots(data, index, all.skip(i as int)).1,
        decreases roots@.len() - i,
    {
        let ghost before = listed_view(out@);
        proof {
            assert(all.skip(i as int)[0] == roots@[i as int]@);
            assert(all.skip(i as int).drop_first() =~= all.skip(i + 1));
        }
        queue.push_front(roots[i].clone());
        proof {
            assert(cids_view(queue@) =~= seq![roots@[i as int]@]);
        }
        match walk(&mut queue, reader, &mut out) {
            Ok(()) => {
                proof {
                    let first = ls_walk(
                        data,
                        index,
                        seq![roots@[i as int]@],
                        Seq::empty(),
                        MAX_STEPS as nat,
                    );
                    let after = ls_roots(data, index, all.skip(i + 1));
                    assert(before + (first.0 + after.0) =~= (before + first.0) + after.0);
                }
            },
            Err(e) => {
                return (out, Err(e));
            },
        }
        i = i + 1;
    }
    proof {
        assert(listed_view(out@) + Seq::<ListedView>::empty() =~= listed_view(out@));
    }
    (out, Ok(()))
}

/// Calls `list_f` with the identifier and the name of each block of the
/// archive, in the order of the listing, and returns the error that ended
/// the listing, if one did.
pub fn list_call<F>(reader: &mut CarReaderV1, list_f: F) -> (r: Result<(), CarError>) where
    F: Fn(&Cid, &str),

    requires
        old(reader).wf(),
        forall|c: &Cid, n: &str| call_requires(list_f, (c, n)),
    ensures
        final(reader).wf(),
        final(reader).data() == old(reader).data(),
        final(reader).entries() == old(reader).entries(),
        final(reader).header_view() == old(reader).header_view(),
        match ls_roots(old(reader).data(), old(reader).index(), old(reader).header_view().roots).1 {
            None => r is Ok,
            Some(k) => r is Err && r->Err_0.kind() == k,
        },
{
    let (entries, result) = list_entries(reader);
    let mut i: usize = 0;
    while i < entries.len()
        invariant
            i <= entries@.len(),
            forall|c: &Cid, n: &str| call_requires(list_f, (c, n)),
        decreases entries@.len() - i,
    {
        list_f(&entries[i].cid, entries[i].name.as_str());
        i = i + 1;
    }
    result
}

/// The names of the blocks of an archive, in the order of the listing.
pub fn list(reader: &mut CarReaderV1) -> (r: Result<Vec<String>, CarError>)
    requires
        old(reader).wf(),
    ensures
        final(reader).wf(),
        ({
            let listing = ls_roots(
                old(reader).data(),
                old(reader).index(),
                old(reader).header_view().roots,
            );
            match listing.1 {
                None => r is Ok && r->Ok_0@.len() == listing.0.len() && forall|i: int|
                    0 <= i < listing.0.len() ==> (#[trigger] r->Ok_0@[i])@ == listing.0[i].name,
                Some(k) => r is Err && r->Err_0.kind() == k,
            }
        }),
{
    let (entries, result) = list_entries(reader);
    match result {
        Ok(()) => {},
        Err(e) => {
            return Err(e);
        },
    }
    let mut lines: Vec<String> = Vec::new();
    let mut i: usize = 0;
    while i < entries.len()
        invariant
            i <= entries@.len(),
            lines@.len() == i,
            forall|j: int| 0 <= j < i ==> (#[trigger] lines@[j])@ == entries@[j]@.name,
        decreases entries@.len() - i,
    {
        lines.push(entries[i].name.clone());
        i = i + 1;
    }
    Ok(lines)
}

/// The texts of the identifiers of the blocks of an archive, in the order
/// of the listing.
pub fn list_cid(reader: &mut CarReaderV1) -> (r: Result<Vec<String>, CarError>)
    requires
        old(reader).wf(),
    ensures
        final(reader).wf(),
        ({
            let listing = ls_roots(
                old(reader).data(),
                old(reader).index(),
                old(reader).header_view().roots,
            );
            match listing.1 {
                None => r is Ok && r->Ok_0@.len() == listing.0.len() && forall|i: int|
                    0 <= i < listing.0.len() ==> (#[trigger] r->Ok_0@[i])@ == cid_text(
                        listing.0[i].cid,
                    ),
                Some(k) => r is Err && r->Err_0.kind() == k,
            }
        }),
{
    let (entries, result) = list_entries(reader);
    match result {
        Ok(()) => {},
        Err(e) => {
            return Err(e);
        },
    }
    let mut lines: Vec<String> = Vec::new();
    let mut i: usize = 0;
    while i < entries.len()
        invariant
            i <= entries@.len(),
            lines@.len() == i,
            forall|j: int| 0 <= j < i ==> (#[trigger] lines@[j])@ == cid_text(entries@[j]@.cid),
        decreases entries@.len() - i,
    {
        lines.push(entries[i].cid.to_string());
        i = i + 1;
    }
    Ok(lines)
}

} // verus!
