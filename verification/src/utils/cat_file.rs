//! The bytes of a file: its block, or the blocks of its chunks one after
//! another.

use crate::cid::{Cid, CidView};
use crate::error::{CarError, ErrorKind};
use crate::header::cids_view;
use crate::ipld::{TreeValue, TreeView};
use crate::reader::{block_at, CarReaderV1};
use crate::section::SectionView;
use crate::stream::append_bytes;
use crate::unixfs::{links_view, Link, LinkView, UnixFs};
use crate::unixfs_codec::unixfs_of_value;
use std::collections::VecDeque;
use vstd::prelude::*;

verus! {

/// How many blocks a walk through an archive visits before it gives up.
pub const MAX_STEPS: usize = usize::MAX;

/// The identifiers that a list of links points to.
pub open spec fn link_hashes(links: Seq<LinkView>) -> Seq<CidView> {
    links.map_values(|l: LinkView| l.hash)
}

/// What writing out the blocks of a queue comes to: the bytes written, and
/// the kind of the error that ended the writing, if one did.
///
/// The first block of the queue is taken. Bytes are written. A node puts
/// its children at the end of the queue. Any other value is passed over.
/// After `fuel` blocks the walk gives up with an invalid file.
pub open spec fn cat_walk(
    data: Seq<u8>,
    index: Map<CidView, SectionView>,
    queue: Seq<CidView>,
    fuel: nat,
) -> (Seq<u8>, Option<ErrorKind>)
    decreases fuel,
{
    if queue.len() == 0 {
        (Seq::empty(), None)
    } else if fuel == 0 {
        (Seq::empty(), Some(ErrorKind::InvalidFile))
    } else {
        let rest = queue.drop_first();
        match block_at(data, index, queue[0]) {
            Err(k) => (Seq::empty(), Some(k)),
            Ok(TreeView::Bytes(b)) => {
                let after = cat_walk(data, index, rest, (fuel - 1) as nat);
                (b + after.0, after.1)
            },
            Ok(TreeView::StringMap(m)) => match unixfs_of_value(TreeView::StringMap(m)) {
                None => (Seq::empty(), Some(ErrorKind::Parsing)),
                Some(u) => cat_walk(
                    data,
                    index,
                    rest + link_hashes(u.children),
                    (fuel - 1) as nat,
                ),
            },
            Ok(_) => cat_walk(data, index, rest, (fuel - 1) as nat),
        }
    }
}

/// The bytes of some chunks one after another.
pub open spec fn concat(chunks: Seq<Seq<u8>>) -> Seq<u8>
    decreases chunks.len(),
{
    if chunks.len() == 0 {
        Seq::empty()
    } else {
        chunks[0] + concat(chunks.drop_first())
    }
}

/// A queue of blocks of plain bytes is written out as those bytes, one
/// block after another in the order of the queue.
pub proof fn lemma_cat_chunks(
    data: Seq<u8>,
    index: Map<CidView, SectionView>,
    queue: Seq<CidView>,
    chunks: Seq<Seq<u8>>,
    fuel: nat,
)
    requires
        queue.len() == chunks.len(),
        fuel >= queue.len(),
        forall|i: int|
            0 <= i < queue.len() ==> block_at(data, index, #[trigger] queue[i]) == Ok::<
                TreeView,
                ErrorKind,
            >(TreeView::Bytes(chunks[i])),
    ensures
        cat_walk(data, index, queue, fuel) == (concat(chunks), None::<ErrorKind>),
    decreases queue.len(),
{
    if queue.len() > 0 {
        assert(block_at(data, index, queue[0]) == Ok::<TreeView, ErrorKind>(
            TreeView::Bytes(chunks[0]),
        ));
        assert forall|i: int| 0 <= i < queue.drop_first().len() implies block_at(
            data,
            index,
            #[trigger] queue.drop_first()[i],
        ) == Ok::<TreeView, ErrorKind>(TreeView::Bytes(chunks.drop_first()[i])) by {
            assert(queue.drop_first()[i] == queue[i + 1]);
        }
        lemma_cat_chunks(data, index, queue.drop_first(), chunks.drop_first(), (fuel - 1) as nat);
    }
}

/// A file whose chunks are blocks of plain bytes is written out as the
/// bytes of its chunks, one after another in the order of its links.
pub proof fn lemma_cat_file(
    data: Seq<u8>,
    index: Map<CidView, SectionView>,
    root: CidView,
    chunks: Seq<Seq<u8>>,
    fuel: nat,
)
    requires
        block_at(data, index, root) matches Ok(TreeView::StringMap(m)),
        unixfs_of_value(block_at(data, index, root)->Ok_0) matches Some(u) && u.children.len()
            == chunks.len() && forall|i: int|
            0 <= i < chunks.len() ==> block_at(data, index, (#[trigger] u.children[i]).hash) == Ok::<
                TreeView,
                ErrorKind,
            >(TreeView::Bytes(chunks[i])),
        fuel > chunks.len(),
    ensures
        cat_walk(data, index, seq![root], fuel) == (concat(chunks), None::<ErrorKind>),
{
    let u = unixfs_of_value(block_at(data, index, root)->Ok_0)->Some_0;
    let queue = link_hashes(u.children);
    assert(seq![root].drop_first() + queue =~= queue);
    assert forall|i: int| 0 <= i < queue.len() implies block_at(data, index, #[trigger] queue[i])
        == Ok::<TreeView, ErrorKind>(TreeView::Bytes(chunks[i])) by {
        assert(queue[i] == u.children[i].hash);
    }
    lemma_cat_chunks(data, index, queue, chunks, (fuel - 1) as nat);
}

/// Writes the blocks of the queue to `output`, one after another, until the
/// queue is empty: bytes as they are; of a node, the blocks of its
/// children, which go to the end of the queue.
#[verifier::rlimit(50)]
pub fn ipld_write(reader: &mut CarReaderV1, vecq: &mut VecDeque<Cid>, output: &mut Vec<u8>) -> (r:
    Result<(), CarError>)
    requires
        old(reader).wf(),
    ensures
        final(reader).wf(),
        final(reader).data() == old(reader).data(),
        final(reader).entries() == old(reader).entries(),
        final(reader).header_view() == old(reader).header_view(),
        ({
            let walk = cat_walk(
                old(reader).data(),
                old(reader).index(),
                cids_view(old(vecq)@),
                MAX_STEPS as nat,
            );
            &&& final(output)@ == old(output)@ + walk.0
            &&& match walk.1 {
                None => r is Ok && final(vecq)@.len() == 0,
                Some(k) => r is Err && r->Err_0.kind() == k,
            }
        }),
{
    let ghost data = reader.data();
    let ghost index = reader.index();
    let ghost goal = cat_walk(data, index, cids_view(vecq@), MAX_STEPS as nat);
    let mut fuel: usize = MAX_STEPS;
    proof {
        assert(old(output)@ + Seq::<u8>::empty() =~= old(output)@);
    }
    loop
        invariant
            reader.wf(),
            reader.data() == data,
            reader.index() == index,
            reader.entries() == old(reader).entries(),
            reader.header_view() == old(reader).header_view(),
            data == old(reader).data(),
            index == old(reader).index(),
            goal == cat_walk(data, index, cids_view(old(vecq)@), MAX_STEPS as nat),
            old(output)@ + goal.0 == output@ + cat_walk(data, index, cids_view(vecq@), fuel as nat).0,
            goal.1 == cat_walk(data, index, cids_view(vecq@), fuel as nat).1,
        decreases fuel,
    {
        let ghost queue = cids_view(vecq@);
        let file_cid = match vecq.pop_front() {
            Some(c) => c,
            None => {
                proof {
                    assert(output@ + Seq::<u8>::empty() =~= output@);
                }
                return Ok(());
            },
        };
        proof {
            assert(queue[0] == file_cid@);
            assert(cids_view(vecq@) =~= queue.drop_first());
        }
        if fuel == 0 {
            proof {
                assert(output@ + Seq::<u8>::empty() =~= output@);
            }
            return Err(CarError::InvalidFile("too many blocks".to_string()));
        }
        fuel = fuel - 1;
        let file_ipld = match reader.block(&file_cid) {
            Ok(v) => v,
            Err(e) => {
                proof {
                    assert(output@ + Seq::<u8>::empty() =~= output@);
                }
                return Err(e);
            },
        };
        match file_ipld {
            TreeValue::Bytes(b) => {
                let ghost before = output@;
                append_bytes(output, b.as_slice());
                proof {
                    let after = cat_walk(data, index, cids_view(vecq@), fuel as nat);
                    assert(before + (b@ + after.0) =~= output@ + after.0);
                }
            },
            TreeValue::StringMap(m) => {
                let node = TreeValue::StringMap(m);
                let ufs = match UnixFs::from_cid_ipld(file_cid, &node) {
                    Ok(u) => u,
                    Err(e) => {
                        proof {
                            assert(output@ + Seq::<u8>::empty() =~= output@);
                        }
                        return Err(e);
                    },
                };
                push_links(vecq, ufs.children());
            },
            _ => {},
        }
    }
}

/// Puts the identifiers that the links point to at the end of the queue.
pub fn push_links(vecq: &mut VecDeque<Cid>, links: &Vec<Link>)
    ensures
        cids_view(final(vecq)@) == cids_view(old(vecq)@) + link_hashes(links_view(links@)),
{
    let mut i: usize = 0;
    proof {
        assert(link_hashes(links_view(links@)).take(0) =~= Seq::<CidView>::empty());
        assert(cids_view(vecq@) + Seq::<CidView>::empty() =~= cids_view(vecq@));
    }
    while i < links.len()
        invariant
            i <= links@.len(),
            cids_view(vecq@) == cids_view(old(vecq)@) + link_hashes(links_view(links@)).take(
                i as int,
            ),
        decreases links@.len() - i,
    {
        let ghost before = cids_view(vecq@);
        let c = links[i].hash();
        vecq.push_back(c);
        proof {
            let all = link_hashes(links_view(links@));
            assert(cids_view(vecq@) =~= before.push(c@));
            assert(all.take(i + 1) =~= all.take(i as int).push(all[i as int]));
            assert(all[i as int] == c@);
            assert(cids_view(old(vecq)@) + all.take(i as int).push(c@) =~= (cids_view(
                old(vecq)@,
            ) + all.take(i as int)).push(c@));
        }
        i = i + 1;
    }
    proof {
        let all = link_hashes(links_view(links@));
        assert(all.take(links@.len() as int) =~= all);
    }
}

/// The bytes of the file that `file_cid` names: of its own block, if that
/// is plain bytes, or of the blocks of its chunks, one after another.
pub fn cat_ipld(reader: &mut CarReaderV1, file_cid: Cid) -> (r: Result<Vec<u8>, CarError>)
    requires
        old(reader).wf(),
    ensures
        final(reader).wf(),
        final(reader).data() == old(reader).data(),
        final(reader).entries() == old(reader).entries(),
        final(reader).header_view() == old(reader).header_view(),
        ({
            let walk = cat_walk(
                old(reader).data(),
                old(reader).index(),
                seq![file_cid@],
                MAX_STEPS as nat,
            );
            match walk.1 {
                None => r is Ok && r->Ok_0@ == walk.0,
                Some(k) => r is Err && r->Err_0.kind() == k,
            }
        }),
{
    let mut output: Vec<u8> = Vec::new();
    let mut vecq: VecDeque<Cid> = VecDeque::new();
    vecq.push_back(file_cid);
    proof {
        assert(cids_view(vecq@) =~= seq![file_cid@]);
    }
    let ghost walk = cat_walk(reader.data(), reader.index(), seq![file_cid@], MAX_STEPS as nat);
    match ipld_write(reader, &mut vecq, &mut output) {
        Ok(()) => {
            proof {
                assert(Seq::<u8>::empty() + walk.0 =~= walk.0);
            }
            Ok(output)
        },
        Err(e) => Err(e),
    }
}

} // verus!
