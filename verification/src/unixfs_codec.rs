//! Nodes of a file tree as structured values: a map with the node's message
//! under `Data` and its children under `Links`.

use crate::cid::{Cid, CidView};
use crate::codec::{Decoder, Encoder};
use crate::error::CarError;
use crate::ipld::{
    lemma_entries_view, lemma_list_view, list_view, map_get, node_shaped, pb_link_shaped,
    TreeValue, TreeView,
};
use crate::pb::{data_bytes, data_parse, PbData, PbDataView};
use crate::unixfs::{
    clone_name, links_view, opt_text, FileType, Link, LinkView, UnixFs, UnixFsView,
};
use vstd::prelude::*;
use vstd::string::StringExecFns;

verus! {

/// The number of 64 bits without sign that is left of a whole number when
/// the bits above are dropped.
pub open spec fn low64(i: int) -> u64 {
    (i % 0x1_0000_0000_0000_0000) as u64
}

/// The low 64 bits of a number.
pub fn truncate(i: i128) -> (r: u64)
    ensures
        r == low64(i as int),
{
    if i >= 0 {
        (i % 0x1_0000_0000_0000_0000i128) as u64
    } else {
        let k: i128 = -(i + 1);
        let m: i128 = k % 0x1_0000_0000_0000_0000i128;
        (0xffff_ffff_ffff_ffffi128 - m) as u64
    }
}

/// The link that an item of `Links` stands for: the item is a map that
/// holds a link under `Hash`; the name is what it holds under `Name`, if
/// that is a text, and the size what it holds under `Tsize`, if that is a
/// number. Any other item stands for no link.
pub open spec fn link_of_value(v: TreeView) -> Option<LinkView> {
    match v {
        TreeView::StringMap(m) => match map_get(m, "Hash"@) {
            Some(TreeView::Link(c)) => Some(
                LinkView {
                    hash: c,
                    name: match map_get(m, "Name"@) {
                        Some(TreeView::String(s)) => Some(s),
                        _ => None,
                    },
                    size: match map_get(m, "Tsize"@) {
                        Some(TreeView::Integer(i)) => Some(low64(i)),
                        _ => None,
                    },
                    guess_type: FileType::Raw,
                },
            ),
            _ => None,
        },
        _ => None,
    }
}

/// The links that the items of a list stand for, in the order of the items;
/// an item that stands for no link is left out.
pub open spec fn links_of_list(l: Seq<TreeView>) -> Seq<LinkView>
    decreases l.len(),
{
    if l.len() == 0 {
        Seq::empty()
    } else {
        match link_of_value(l.last()) {
            Some(x) => links_of_list(l.drop_last()).push(x),
            None => links_of_list(l.drop_last()),
        }
    }
}

/// The children that a map names under `Links`: none where it holds no list
/// there.
pub open spec fn children_of_value(v: TreeView) -> Seq<LinkView> {
    match v.get("Links"@) {
        Some(TreeView::List(l)) => links_of_list(l),
        _ => Seq::empty(),
    }
}

/// The node that a message and a list of children make.
pub open spec fn node_of(d: PbDataView, children: Seq<LinkView>) -> UnixFsView {
    UnixFsView {
        cid: None,
        mode: d.mode,
        file_type: d.file_type,
        fanout: d.fanout,
        block_sizes: d.block_sizes,
        file_size: d.file_size,
        hash_type: d.hash_type,
        children,
        mtime: d.mtime,
        file_name: None,
    }
}

/// The message of a node.
pub open spec fn message_of(u: UnixFsView) -> PbDataView {
    PbDataView {
        file_type: u.file_type,
        file_size: u.file_size,
        block_sizes: u.block_sizes,
        hash_type: u.hash_type,
        fanout: u.fanout,
        mode: u.mode,
        mtime: u.mtime,
    }
}

/// The node that a structured value stands for: the value is a map that
/// holds, under `Data`, bytes that are a node's message.
pub open spec fn unixfs_of_value(v: TreeView) -> Option<UnixFsView> {
    match v.get("Data"@) {
        Some(TreeView::Bytes(data)) => match data_parse(data) {
            Some(d) => Some(node_of(d, children_of_value(v))),
            None => None,
        },
        _ => None,
    }
}

/// The structured value that stands for a link: a map of the identifier
/// under `Hash`, the name under `Name`, empty where there is none, and the
/// size under `Tsize`, zero where there is none.
pub open spec fn link_value(l: LinkView) -> TreeView {
    TreeView::StringMap(
        seq![
            ("Hash"@, TreeView::Link(l.hash)),
            (
                "Name"@,
                TreeView::String(
                    match l.name {
                        Some(s) => s,
                        None => Seq::empty(),
                    },
                ),
            ),
            (
                "Tsize"@,
                TreeView::Integer(
                    match l.size {
                        Some(n) => n as int,
                        None => 0,
                    },
                ),
            ),
        ],
    )
}

/// The structured value that stands for a node: a map of the node's message
/// under `Data` and the list of its links under `Links`. Only files and
/// directories have one.
pub open spec fn unixfs_value(u: UnixFsView) -> Option<TreeView> {
    if u.file_type == FileType::Directory || u.file_type == FileType::File {
        Some(
            TreeView::StringMap(
                seq![
                    ("Data"@, TreeView::Bytes(data_bytes(message_of(u)))),
                    ("Links"@, TreeView::List(u.children.map_values(|l: LinkView| link_value(l)))),
                ],
            ),
        )
    } else {
        None
    }
}

/// The structured value of a link is in the shape that the protobuf form
/// takes for a link.
pub proof fn lemma_link_value_shaped(l: LinkView)
    ensures
        pb_link_shaped(link_value(l)),
{
    let m = link_value(l)->StringMap_0;
    reveal_strlit("Hash");
    reveal_strlit("Name");
    reveal_strlit("Tsize");
    assert("Hash"@[0] != "Name"@[0]);
    assert("Hash"@.len() != "Tsize"@.len());
    assert("Name"@.len() != "Tsize"@.len());
    assert(m.drop_last().last() == m[1]);
    assert(m.drop_last().drop_last().last() == m[0]);
    assert(map_get(m, "Tsize"@) == Some(m[2].1));
    assert(map_get(m.drop_last(), "Name"@) == Some(m[1].1));
    assert(map_get(m, "Name"@) == Some(m[1].1));
    assert(map_get(m.drop_last().drop_last(), "Hash"@) == Some(m[0].1));
    assert(map_get(m.drop_last(), "Hash"@) == Some(m[0].1));
    assert(map_get(m, "Hash"@) == Some(m[0].1));
}

/// The structured value of a file or a directory is in the shape that the
/// protobuf form takes for a node: it always has bytes in that form.
pub proof fn lemma_unixfs_value_shaped(u: UnixFsView)
    ensures
        unixfs_value(u) matches Some(v) ==> node_shaped(v),
{
    if unixfs_value(u) is Some {
        let v = unixfs_value(u)->Some_0;
        let m = v->StringMap_0;
        reveal_strlit("Data");
        reveal_strlit("Links");
        assert("Data"@.len() != "Links"@.len());
        assert(m.drop_last().last() == m[0]);
        assert(map_get(m, "Links"@) == Some(m[1].1));
        assert(map_get(m.drop_last(), "Data"@) == Some(m[0].1));
        assert(map_get(m, "Data"@) == Some(m[0].1));
        let links = u.children.map_values(|l: LinkView| link_value(l));
        assert forall|i: int| 0 <= i < links.len() implies pb_link_shaped(#[trigger] links[i]) by {
            lemma_link_value_shaped(u.children[i]);
        }
    }
}

/// The link that an item of `Links` stands for, if it stands for one.
fn decode_link(v: &TreeValue) -> (r: Option<Link>)
    ensures
        match link_of_value(v@) {
            Some(l) => r is Some && r->Some_0@ == l,
            None => r is None,
        },
{
    let cid = match v.get("Hash") {
        Some(TreeValue::Link(c)) => c.clone(),
        _ => {
            return None;
        },
    };
    let name = match v.get("Name") {
        Some(TreeValue::String(s)) => Some(s.clone()),
        _ => None,
    };
    let size = match v.get("Tsize") {
        Some(TreeValue::Integer(i)) => Some(truncate(*i)),
        _ => None,
    };
    Some(Link { hash: cid, name, size, guess_type: FileType::Raw })
}

/// The children that a map names under `Links`.
fn decode_children(v: &TreeValue) -> (children: Vec<Link>)
    ensures
        links_view(children@) == children_of_value(v@),
{
    let mut children: Vec<Link> = Vec::new();
    match v.get("Links") {
        Some(TreeValue::List(links)) => {
            let ghost lv = list_view(links@);
            proof {
                lemma_list_view(links@);
                assert(lv.take(0) =~= Seq::<TreeView>::empty());
            }
            let mut i: usize = 0;
            while i < links.len()
                invariant
                    i <= links@.len(),
                    lv == list_view(links@),
                    lv.len() == links@.len(),
                    forall|j: int| 0 <= j < links@.len() ==> #[trigger] lv[j] == links@[j]@,
                    links_view(children@) == links_of_list(lv.take(i as int)),
                decreases links@.len() - i,
            {
                let ghost before = links_view(children@);
                proof {
                    assert(lv.take(i + 1).drop_last() =~= lv.take(i as int));
                    assert(lv.take(i + 1).last() == lv[i as int]);
                }
                match decode_link(&links[i]) {
                    Some(link) => {
                        children.push(link);
                        assert(links_view(children@) =~= before.push(link@));
                    },
                    None => {},
                }
                i = i + 1;
            }
            proof {
                assert(lv.take(i as int) =~= lv);
            }
        },
        _ => {
            assert(links_view(children@) =~= Seq::<LinkView>::empty());
        },
    }
    children
}

/// The structured value that stands for a link.
fn convert_to_ipld(value: &Link) -> (v: TreeValue)
    ensures
        v@ == link_value(value@),
{
    let file_name = match &value.name {
        Some(s) => s.clone(),
        None => String::new(),
    };
    let tsize: u64 = match value.size {
        Some(n) => n,
        None => 0,
    };
    let mut map: Vec<(String, TreeValue)> = Vec::new();
    map.push((String::from_str("Hash"), TreeValue::Link(value.hash.clone())));
    map.push((String::from_str("Name"), TreeValue::String(file_name)));
    map.push((String::from_str("Tsize"), TreeValue::Integer(tsize as i128)));
    let v = TreeValue::StringMap(map);
    proof {
        lemma_entries_view(map@);
        assert(v@->StringMap_0 =~= link_value(value@)->StringMap_0);
    }
    v
}

impl Decoder<UnixFs> for TreeValue {
    /// Reads a node from the structured value. Fails with a parsing error
    /// where the value is no map, holds no bytes under `Data`, or those
    /// bytes are no message of a node.
    fn decode(&self) -> (r: Result<UnixFs, CarError>)
        ensures
            match unixfs_of_value(self@) {
                Some(u) => r is Ok && r->Ok_0@ == u,
                None => r is Err && r->Err_0 is Parsing,
            },
    {
        let message = match self.get("Data") {
            Some(TreeValue::Bytes(data)) => PbData::from_bytes(data.as_slice())?,
            _ => {
                return Err(CarError::Parsing("ipld format error".to_string()));
            },
        };
        let children = decode_children(self);
        Ok(
            UnixFs {
                cid: None,
                mode: message.mode,
                file_type: message.file_type,
                fanout: message.fanout,
                block_sizes: message.block_sizes,
                file_size: message.file_size,
                hash_type: message.hash_type,
                children,
                mtime: message.mtime,
                file_name: None,
            },
        )
    }
}

impl Encoder<TreeValue> for UnixFs {
    /// Writes the node as a structured value. Fails with a parsing error for
    /// a node that is neither a file nor a directory.
    fn encode(&self) -> (r: Result<TreeValue, CarError>)
        ensures
            match unixfs_value(self@) {
                Some(v) => r is Ok && r->Ok_0@ == v,
                None => r is Err && r->Err_0 is Parsing,
            },
    {
        match self.file_type {
            FileType::Directory | FileType::File => {
                let message = PbData {
                    file_type: self.file_type,
                    file_size: self.file_size,
                    block_sizes: self.block_sizes.clone(),
                    hash_type: self.hash_type,
                    fanout: self.fanout,
                    mode: self.mode,
                    mtime: self.mtime,
                };
                let buf = message.to_bytes();
                let mut children_ipld: Vec<TreeValue> = Vec::new();
                let mut i: usize = 0;
                while i < self.children.len()
                    invariant
                        i <= self.children@.len(),
                        children_ipld@.len() == i,
                        forall|j: int|
                            0 <= j < i ==> (#[trigger] children_ipld@[j])@ == link_value(
                                self.children@[j]@,
                            ),
                    decreases self.children@.len() - i,
                {
                    children_ipld.push(convert_to_ipld(&self.children[i]));
                    i = i + 1;
                }
                let ghost items = children_ipld@;
                let mut map: Vec<(String, TreeValue)> = Vec::new();
                map.push((String::from_str("Data"), TreeValue::Bytes(buf)));
                map.push((String::from_str("Links"), TreeValue::List(children_ipld)));
                let v = TreeValue::StringMap(map);
                proof {
                    lemma_entries_view(map@);
                    lemma_list_view(items);
                    assert(list_view(items) =~= self@.children.map_values(
                        |l: LinkView| link_value(l),
                    ));
                    assert(v@->StringMap_0 =~= unixfs_value(self@)->Some_0->StringMap_0);
                }
                Ok(v)
            },
            _ => Err(CarError::Parsing("Not support unixfs format".to_string())),
        }
    }
}

impl UnixFs {
    /// Reads a node from a structured value.
    pub fn from_ipld(value: &TreeValue) -> (r: Result<UnixFs, CarError>)
        ensures
            match unixfs_of_value(value@) {
                Some(u) => r is Ok && r->Ok_0@ == u,
                None => r is Err && r->Err_0 is Parsing,
            },
    {
        value.decode()
    }

    /// Reads the node of the block `cid` from the structured value of that
    /// block.
    pub fn from_cid_ipld(cid: Cid, value: &TreeValue) -> (r: Result<UnixFs, CarError>)
        ensures
            match unixfs_of_value(value@) {
                Some(u) => r is Ok && r->Ok_0@ == (UnixFsView { cid: Some(cid@), ..u }),
                None => r is Err && r->Err_0 is Parsing,
            },
    {
        let mut node: UnixFs = value.decode()?;
        node.cid = Some(cid);
        Ok(node)
    }

    /// Writes the node as a structured value.
    pub fn to_ipld(&self) -> (r: Result<TreeValue, CarError>)
        ensures
            match unixfs_value(self@) {
                Some(v) => r is Ok && r->Ok_0@ == v,
                None => r is Err && r->Err_0 is Parsing,
            },
    {
        self.encode()
    }
}

} // verus!
