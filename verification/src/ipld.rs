//! The tree of values that a structured block decodes to.

use crate::cbor::{framed, well_framed};
use crate::cid::{cid_bytes, Cid, CidView};
use crate::error::CarError;
use libipld::codec::Codec;
use libipld::Ipld as Outside;
use vstd::prelude::*;
use vstd::string::StringExecFns;

verus! {

/// A decoded block: a scalar, a list, a map from names to values, or a link
/// to another block.
#[derive(Debug, PartialEq, Eq)]
pub enum TreeValue {
    Null,
    Bool(bool),
    Integer(i128),
    /// A number in floating point of 64 bits, held as its bit pattern.
    Float(u64),
    String(String),
    Bytes(Vec<u8>),
    List(Vec<TreeValue>),
    /// The entries of a map, each a name and a value.
    StringMap(Vec<(String, TreeValue)>),
    Link(Cid),
}

/// A decoded block as a mathematical value.
pub enum TreeView {
    Null,
    Bool(bool),
    Integer(int),
    Float(u64),
    String(Seq<char>),
    Bytes(Seq<u8>),
    List(Seq<TreeView>),
    StringMap(Seq<(Seq<char>, TreeView)>),
    Link(CidView),
}

/// The views of the items of a list.
pub open spec fn list_view(l: Seq<TreeValue>) -> Seq<TreeView>
    decreases l,
{
    if l.len() == 0 {
        Seq::empty()
    } else {
        list_view(l.drop_last()).push(tree_view(l.last()))
    }
}

/// The views of the entries of a map.
pub open spec fn entries_view(m: Seq<(String, TreeValue)>) -> Seq<(Seq<char>, TreeView)>
    decreases m,
{
    if m.len() == 0 {
        Seq::empty()
    } else {
        entries_view(m.drop_last()).push((m.last().0@, tree_view(m.last().1)))
    }
}

/// The mathematical value of a decoded block.
pub open spec fn tree_view(v: TreeValue) -> TreeView
    decreases v,
{
    match v {
        TreeValue::Null => TreeView::Null,
        TreeValue::Bool(b) => TreeView::Bool(b),
        TreeValue::Integer(i) => TreeView::Integer(i as int),
        TreeValue::Float(f) => TreeView::Float(f),
        TreeValue::String(s) => TreeView::String(s@),
        TreeValue::Bytes(b) => TreeView::Bytes(b@),
        TreeValue::List(l) => TreeView::List(list_view(l@)),
        TreeValue::StringMap(m) => TreeView::StringMap(entries_view(m@)),
        TreeValue::Link(c) => TreeView::Link(c@),
    }
}

impl View for TreeValue {
    type V = TreeView;

    open spec fn view(&self) -> TreeView {
        tree_view(*self)
    }
}

/// The view of a list has the view of each item in its place.
pub proof fn lemma_list_view(l: Seq<TreeValue>)
    ensures
        list_view(l).len() == l.len(),
        forall|j: int| 0 <= j < l.len() ==> #[trigger] list_view(l)[j] == l[j]@,
    decreases l.len(),
{
    if l.len() > 0 {
        lemma_list_view(l.drop_last());
    }
}

/// The view of a map has the view of each entry in its place.
pub proof fn lemma_entries_view(m: Seq<(String, TreeValue)>)
    ensures
        entries_view(m).len() == m.len(),
        forall|j: int| 0 <= j < m.len() ==> #[trigger] entries_view(m)[j] == (m[j].0@, m[j].1@),
    decreases m.len(),
{
    if m.len() > 0 {
        lemma_entries_view(m.drop_last());
    }
}

/// The value under the last entry of `m` named `key`: of two entries with
/// one name the later one counts, as in a map that is filled entry by
/// entry.
pub open spec fn map_get(m: Seq<(Seq<char>, TreeView)>, key: Seq<char>) -> Option<TreeView>
    decreases m.len(),
{
    if m.len() == 0 {
        None
    } else if m.last().0 == key {
        Some(m.last().1)
    } else {
        map_get(m.drop_last(), key)
    }
}

impl TreeView {
    /// The value that a map holds under `key`; nothing for what is no map.
    pub open spec fn get(self, key: Seq<char>) -> Option<TreeView> {
        match self {
            TreeView::StringMap(m) => map_get(m, key),
            _ => None,
        }
    }
}

impl TreeValue {
    /// The bytes of the value in the CBOR form, or a parsing error where
    /// that form has none for it.
    pub fn to_dag_cbor(&self) -> (r: Result<Vec<u8>, CarError>)
        ensures
            match dag_cbor_bytes(self@) {
                Some(bytes) => r is Ok && r->Ok_0@ == bytes,
                None => r is Err && r->Err_0 is Parsing,
            },
    {
        match dag_cbor_encode(self) {
            Ok(bytes) => Ok(bytes),
            Err(text) => Err(CarError::Parsing(text)),
        }
    }

    /// The value that bytes in the CBOR form stand for, or a parsing error
    /// where they stand for none, announce a length beyond their end, or
    /// are nested too deep.
    pub fn from_dag_cbor(bytes: &[u8]) -> (r: Result<TreeValue, CarError>)
        ensures
            match dag_cbor_read(bytes@) {
                Some(v) => r is Ok && r->Ok_0@ == v,
                None => r is Err && r->Err_0 is Parsing,
            },
    {
        if !well_framed(bytes) {
            return Err(CarError::Parsing("a length beyond the end of the bytes".to_string()));
        }
        match dag_cbor_decode(bytes) {
            Ok(v) => Ok(v),
            Err(text) => Err(CarError::Parsing(text)),
        }
    }

    /// The bytes of the node in the protobuf form, or a parsing error where
    /// the value is no node with links. A value in the shape of a node
    /// always has such bytes.
    pub fn to_dag_pb(&self) -> (r: Result<Vec<u8>, CarError>)
        ensures
            match dag_pb_bytes(self@) {
                Some(bytes) => r is Ok && r->Ok_0@ == bytes,
                None => r is Err && r->Err_0 is Parsing,
            },
            node_shaped(self@) ==> r is Ok,
    {
        match dag_pb_encode(self) {
            Ok(bytes) => Ok(bytes),
            Err(text) => Err(CarError::Parsing(text)),
        }
    }

    /// The node that bytes in the protobuf form stand for, or a parsing
    /// error where they stand for none.
    pub fn from_dag_pb(bytes: &[u8]) -> (r: Result<TreeValue, CarError>)
        ensures
            match dag_pb_value(bytes@) {
                Some(v) => r is Ok && r->Ok_0@ == v,
                None => r is Err && r->Err_0 is Parsing,
            },
    {
        match dag_pb_decode(bytes) {
            Ok(v) => Ok(v),
            Err(text) => Err(CarError::Parsing(text)),
        }
    }

    /// The value that a map holds under `key`, the last one where the name
    /// comes twice; nothing for what is no map or has no such entry.
    pub fn get(&self, key: &str) -> (r: Option<&TreeValue>)
        ensures
            match self@.get(key@) {
                Some(v) => r is Some && r->Some_0@ == v,
                None => r is None,
            },
    {
        match self {
            TreeValue::StringMap(m) => {
                let wanted = String::from_str(key);
                let n = m.len();
                let mut i: usize = n;
                proof {
                    lemma_entries_view(m@);
                    assert(self@->StringMap_0.take(n as int) == self@->StringMap_0);
                }
                while i > 0
                    invariant
                        i <= n,
                        n == m@.len(),
                        wanted@ == key@,
                        self@ is StringMap,
                        self@->StringMap_0.len() == n,
                        forall|j: int|
                            0 <= j < n ==> #[trigger] self@->StringMap_0[j] == (
                                m@[j].0@,
                                m@[j].1@,
                            ),
                        map_get(self@->StringMap_0, key@) == map_get(
                            self@->StringMap_0.take(i as int),
                            key@,
                        ),
                    decreases i,
                {
                    let ghost rest = self@->StringMap_0.take(i as int);
                    assert(rest.last() == self@->StringMap_0[i - 1]);
                    assert(rest.drop_last() == self@->StringMap_0.take(i - 1));
                    i = i - 1;
                    if m[i].0 == wanted {
                        return Some(&m[i].1);
                    }
                }
                None
            },
            _ => None,
        }
    }
}

/// The bytes of a value in the CBOR form, where it has one.
pub uninterp spec fn dag_cbor_bytes(v: TreeView) -> Option<Seq<u8>>;

/// The value that bytes in the CBOR form stand for, where they stand for one.
pub uninterp spec fn dag_cbor_value(bytes: Seq<u8>) -> Option<TreeView>;

/// The value that bytes in the CBOR form are read as: the value that they
/// stand for, where every length that they announce lies within them and
/// their lists and maps are not nested too deep.
pub open spec fn dag_cbor_read(bytes: Seq<u8>) -> Option<TreeView> {
    if framed(bytes) {
        dag_cbor_value(bytes)
    } else {
        None
    }
}

/// The bytes of a node with links in the protobuf form, where the value is
/// such a node.
pub uninterp spec fn dag_pb_bytes(v: TreeView) -> Option<Seq<u8>>;

/// The node with links that bytes in the protobuf form stand for, where they
/// stand for one.
pub uninterp spec fn dag_pb_value(bytes: Seq<u8>) -> Option<TreeView>;

/// An item of `Links` as the protobuf form takes it: a map that holds a link
/// under `Hash`, a text under `Name` and a number under `Tsize`.
pub open spec fn pb_link_shaped(v: TreeView) -> bool {
    &&& v.get("Hash"@) matches Some(TreeView::Link(c))
    &&& v.get("Name"@) matches Some(TreeView::String(name))
    &&& v.get("Tsize"@) matches Some(TreeView::Integer(size))
}

/// A node as the protobuf form takes it: a map that holds bytes under
/// `Data` and, under `Links`, a list of items in the shape of a link.
pub open spec fn node_shaped(v: TreeView) -> bool {
    &&& v.get("Data"@) matches Some(TreeView::Bytes(data))
    &&& v.get("Links"@) matches Some(TreeView::List(links))
    &&& forall|i: int| 0 <= i < links.len() ==> pb_link_shaped(#[trigger] links[i])
}

/// A link as the CBOR form both writes and reads it. The form reads a link
/// only behind a length of one byte, which it writes from 24 bytes on: the
/// identifier's bytes and one more.
pub open spec fn cbor_link(v: TreeView) -> bool {
    &&& v matches TreeView::Link(c)
    &&& c.wf()
    &&& c.canonical()
    &&& cid_bytes(c).len() >= 23
}

/// A map of a list of links, named `roots`, and an unsigned number of 64
/// bits, named `version`: the shape of an archive's header.
pub open spec fn header_shaped(v: TreeView) -> bool {
    &&& v matches TreeView::StringMap(m)
    &&& m.len() == 2
    &&& m[0].0 == "roots"@
    &&& m[0].1 matches TreeView::List(roots)
    &&& forall|i: int| 0 <= i < roots.len() ==> cbor_link(#[trigger] roots[i])
    &&& m[1].0 == "version"@
    &&& m[1].1 matches TreeView::Integer(n)
    &&& 0 <= n <= u64::MAX
}

/// `libipld::Ipld`, the crate's own tree of values, which the codecs take
/// and give.
/// The bytes with which the CBOR form starts an item of the kind `major`
/// that goes with the number `n`: the number itself below 24, else the
/// number in one, two, four or eight bytes, the highest first.
pub open spec fn cbor_head(major: int, n: nat) -> Seq<u8> {
    if n < 24 {
        seq![(major * 32 + n) as u8]
    } else if n < 0x100 {
        seq![(major * 32 + 24) as u8, n as u8]
    } else if n < 0x1_0000 {
        seq![(major * 32 + 25) as u8, (n / 0x100) as u8, (n % 0x100) as u8]
    } else if n < 0x1_0000_0000 {
        seq![
            (major * 32 + 26) as u8,
            (n / 0x100_0000) as u8,
            ((n / 0x1_0000) % 0x100) as u8,
            ((n / 0x100) % 0x100) as u8,
            (n % 0x100) as u8,
        ]
    } else {
        seq![
            (major * 32 + 27) as u8,
            ((n / 0x100_0000_0000_0000) % 0x100) as u8,
            ((n / 0x1_0000_0000_0000) % 0x100) as u8,
            ((n / 0x100_0000_0000) % 0x100) as u8,
            ((n / 0x1_0000_0000) % 0x100) as u8,
            ((n / 0x100_0000) % 0x100) as u8,
            ((n / 0x1_0000) % 0x100) as u8,
            ((n / 0x100) % 0x100) as u8,
            (n % 0x100) as u8,
        ]
    }
}

/// The bytes of a link in the CBOR form: the tag 42, then, as bytes, a zero
/// and the bytes of the identifier.
pub open spec fn cbor_link_bytes(c: CidView) -> Seq<u8> {
    seq![0xd8u8, 0x2au8] + cbor_head(2, cid_bytes(c).len() + 1) + seq![0u8] + cid_bytes(c)
}

/// The bytes of some links in the CBOR form, one after another.
pub open spec fn cbor_links(l: Seq<TreeView>) -> Seq<u8>
    decreases l.len(),
{
    if l.len() == 0 {
        Seq::empty()
    } else {
        cbor_links(l.drop_last()) + cbor_link_bytes(l.last()->Link_0)
    }
}

/// The bytes of a value in the shape of a header in the CBOR form: a map of
/// two entries, the text `roots` with the list of the links, and the text
/// `version` with the number.
pub open spec fn header_cbor(v: TreeView) -> Seq<u8> {
    let m = v->StringMap_0;
    let roots = m[0].1->List_0;
    let version = m[1].1->Integer_0;
    seq![0xa2u8, 0x65u8, 0x72u8, 0x6fu8, 0x6fu8, 0x74u8, 0x73u8] + cbor_head(4, roots.len())
        + cbor_links(roots) + seq![
        0x67u8,
        0x76u8,
        0x65u8,
        0x72u8,
        0x73u8,
        0x69u8,
        0x6fu8,
        0x6eu8,
    ] + cbor_head(0, version as nat)
}

/// `libipld::Ipld`, the crate's own tree of values, which the codecs take
/// and give.
#[verifier::external_type_specification]
#[verifier::external_body]
pub struct ExOutsideIpld(libipld::Ipld);

/// A value as `libipld::Ipld`, part for part.
#[verifier::external_body]
fn to_outside(v: &TreeValue) -> libipld::Ipld {
    match v {
        TreeValue::Null => Outside::Null,
        TreeValue::Bool(b) => Outside::Bool(*b),
        TreeValue::Integer(i) => Outside::Integer(*i),
        TreeValue::Float(f) => outside_float(*f),
        TreeValue::String(s) => Outside::String(s.clone()),
        TreeValue::Bytes(b) => Outside::Bytes(b.clone()),
        TreeValue::List(l) => Outside::List(l.iter().map(to_outside).collect()),
        TreeValue::StringMap(m) => Outside::StringMap(m.iter().map(|e| (e.0.clone(), to_outside(&e.1))).collect()),
        TreeValue::Link(c) => outside_link(c),
    }
}

/// `libipld::codec::Codec::decode` of `libipld_cbor::DagCborCodec` on the
/// nine bytes that hold a float of 64 bits: the crate's value for the float
/// with this bit pattern.
#[verifier::external_body]
fn outside_float(bits: u64) -> libipld::Ipld {
    let bytes = [&[0xfbu8][..], &bits.to_be_bytes()[..]].concat();
    libipld_cbor::DagCborCodec.decode(&bytes).unwrap()
}

/// `cid::Cid::new` around `multihash::Multihash::wrap`: the crate's link to
/// the identifier with these parts.
#[verifier::external_body]
fn outside_link(c: &Cid) -> libipld::Ipld {
    let hash = libipld::Multihash::wrap(c.hash_code, &c.digest).unwrap();
    let version = std::convert::TryFrom::try_from(c.version).unwrap();
    Outside::Link(libipld::Cid::new(version, c.codec, hash).unwrap())
}

/// `cid::Cid::version`, `codec` and `hash`: the link in a `libipld::Ipld`
/// as a link of this library, part for part.
#[verifier::external_body]
fn inside_link(v: &libipld::Ipld) -> TreeValue {
    match v {
        Outside::Link(c) => TreeValue::Link(Cid { version: c.version().into(), codec: c.codec(), hash_code: c.hash().code(), digest: c.hash().digest().to_vec() }),
        _ => TreeValue::Null,
    }
}

/// A `libipld::Ipld` as a value of this library, part for part; the entries
/// of a map in the order of their names.
#[verifier::external_body]
fn from_outside(v: libipld::Ipld) -> TreeValue {
    match v {
        Outside::Null => TreeValue::Null,
        Outside::Bool(b) => TreeValue::Bool(b),
        Outside::Integer(i) => TreeValue::Integer(i),
        Outside::Float(f) => TreeValue::Float(f.to_bits()),
        Outside::String(s) => TreeValue::String(s),
        Outside::Bytes(b) => TreeValue::Bytes(b),
        Outside::List(l) => TreeValue::List(l.into_iter().map(from_outside).collect()),
        Outside::StringMap(m) => TreeValue::StringMap(m.into_iter().map(|e| (e.0, from_outside(e.1))).collect()),
        link => inside_link(&link),
    }
}

/// `libipld::codec::Codec::encode` of `libipld_cbor::DagCborCodec`: the bytes
/// of the value in the CBOR form, or the crate's words for its error. A
/// value in the shape of a header is always encoded: to a map of the text
/// `roots` with the list of the links and the text `version` with the
/// number. Those bytes announce no length beyond their end, are nested
/// three deep, and decode to the value again.
#[verifier::external_body]
pub(crate) fn dag_cbor_encode(v: &TreeValue) -> (r: Result<Vec<u8>, String>)
    ensures
        match dag_cbor_bytes(v@) {
            Some(bytes) => r is Ok && r->Ok_0@ == bytes,
            None => r is Err,
        },
        header_shaped(v@) ==> r is Ok && r->Ok_0@ == header_cbor(v@) && framed(r->Ok_0@)
            && dag_cbor_value(r->Ok_0@) == Some(v@),
{
    libipld_cbor::DagCborCodec.encode(&to_outside(v)).map_err(|e| e.to_string())
}

/// `libipld::codec::Codec::decode` of `libipld_cbor::DagCborCodec`: the value
/// that the bytes stand for in the CBOR form, or the crate's words for its
/// error. The crate makes room for every length that the bytes announce
/// before it reads that far, and calls itself for every list and map in
/// them: so the lengths must lie within the bytes, and the nesting must be
/// bounded.
#[verifier::external_body]
pub(crate) fn dag_cbor_decode(bytes: &[u8]) -> (r: Result<TreeValue, String>)
    requires
        framed(bytes@),
    ensures
        match dag_cbor_value(bytes@) {
            Some(v) => r is Ok && r->Ok_0@ == v,
            None => r is Err,
        },
{
    libipld_cbor::DagCborCodec.decode(bytes).map(from_outside).map_err(|e| e.to_string())
}

/// `libipld::codec::Codec::encode` of `libipld::pb::DagPbCodec`: the bytes of
/// the node in the protobuf form, or the crate's words for its error. The
/// crate refuses a value only where it finds no bytes under `Data`, no list
/// under `Links`, or an item there without a link, a text and a number
/// under their names: a value in the shape of a node is always encoded.
#[verifier::external_body]
pub(crate) fn dag_pb_encode(v: &TreeValue) -> (r: Result<Vec<u8>, String>)
    ensures
        match dag_pb_bytes(v@) {
            Some(bytes) => r is Ok && r->Ok_0@ == bytes,
            None => r is Err,
        },
        node_shaped(v@) ==> r is Ok,
{
    libipld::pb::DagPbCodec.encode(&to_outside(v)).map_err(|e| e.to_string())
}

/// `libipld::codec::Codec::decode` of `libipld::pb::DagPbCodec`: the node
/// that the bytes stand for in the protobuf form, or the crate's words for
/// its error.
#[verifier::external_body]
pub(crate) fn dag_pb_decode(bytes: &[u8]) -> (r: Result<TreeValue, String>)
    ensures
        match dag_pb_value(bytes@) {
            Some(v) => r is Ok && r->Ok_0@ == v,
            None => r is Err,
        },
{
    libipld::pb::DagPbCodec.decode(bytes).map(from_outside).map_err(|e| e.to_string())
}

} // verus!
