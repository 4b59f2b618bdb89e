//! The header of an archive: the identifiers of its roots and the version of
//! the format.

use crate::cid::{cid_bytes, Cid, CidView};
use crate::error::{CarError, ErrorKind};
use crate::ipld::{
    cbor_head, cbor_link, cbor_link_bytes, cbor_links, dag_cbor_bytes, dag_cbor_encode,
    dag_cbor_read, header_cbor, header_shaped,
    lemma_entries_view, lemma_list_view, map_get, TreeValue, TreeView,
};
use crate::reader::{block_read, read_block, BlockRead};
use crate::stream::ByteCursor;
use vstd::prelude::*;
use vstd::string::StringExecFns;

verus! {

/// The header of the first version of the format.
#[derive(Debug, Clone, PartialEq, Eq)]
pub struct CarHeaderV1 {
    pub roots: Vec<Cid>,
    pub version: u64,
}

/// The header of an archive. Only the first version of the format is read
/// and written.
#[derive(Debug, Clone, PartialEq, Eq)]
pub enum CarHeader {
    V1(CarHeaderV1),
    V2(),
}

/// A header as a mathematical value.
pub struct HeaderView {
    pub roots: Seq<CidView>,
    pub version: u64,
}

/// The identifiers of a list as mathematical values.
pub open spec fn cids_view(s: Seq<Cid>) -> Seq<CidView> {
    s.map_values(|c: Cid| c@)
}

impl View for CarHeaderV1 {
    type V = HeaderView;

    open spec fn view(&self) -> HeaderView {
        HeaderView { roots: cids_view(self.roots@), version: self.version }
    }
}

impl HeaderView {
    /// The headers that an archive may have: at least one root, version 1.
    pub open spec fn wf(self) -> bool {
        self.roots.len() > 0 && self.version == 1
    }

    /// The headers that are written and read back unchanged: each root is
    /// an identifier that reads back as itself and takes 23 bytes or more.
    pub open spec fn portable(self) -> bool {
        forall|i: int| 0 <= i < self.roots.len() ==> cbor_link(TreeView::Link(#[trigger] self.roots[i]))
    }
}

/// The links to the identifiers of a list.
pub open spec fn links_of(roots: Seq<CidView>) -> Seq<TreeView> {
    roots.map_values(|c: CidView| TreeView::Link(c))
}

/// The structured value that stands for a header: a map of the list of links
/// to the roots, named `roots`, and the number named `version`.
pub open spec fn header_value(h: HeaderView) -> TreeView {
    TreeView::StringMap(
        seq![
            ("roots"@, TreeView::List(links_of(h.roots))),
            ("version"@, TreeView::Integer(h.version as int)),
        ],
    )
}

/// The bytes of a header, where the structured form gives it some.
pub open spec fn header_bytes(h: HeaderView) -> Option<Seq<u8>> {
    dag_cbor_bytes(header_value(h))
}

/// Whether every item of a list is a link.
pub open spec fn all_links(l: Seq<TreeView>) -> bool {
    forall|i: int| 0 <= i < l.len() ==> #[trigger] l[i] is Link
}

/// The identifiers that the links of a list point to.
pub open spec fn link_targets(l: Seq<TreeView>) -> Seq<CidView> {
    l.map_values(|v: TreeView| v->Link_0)
}

/// The header that a structured value stands for: the value is a map, what
/// it holds under `roots` is a list of links, and what it holds under
/// `version` is a number of 64 bits without sign.
pub open spec fn header_of_value(v: TreeView) -> Option<HeaderView> {
    match (v.get("roots"@), v.get("version"@)) {
        (Some(TreeView::List(l)), Some(TreeView::Integer(n))) => {
            if all_links(l) && 0 <= n <= u64::MAX {
                Some(HeaderView { roots: link_targets(l), version: n as u64 })
            } else {
                None
            }
        },
        _ => None,
    }
}

/// What decoding the bytes of a header comes to: the header, or the kind of
/// the error. Bytes that stand for no header are a parsing error, and so is
/// a header without roots; a version other than 1 is an invalid file.
pub open spec fn header_decoded(bytes: Seq<u8>) -> Result<HeaderView, ErrorKind> {
    match dag_cbor_read(bytes) {
        None => Err(ErrorKind::Parsing),
        Some(v) => match header_of_value(v) {
            None => Err(ErrorKind::Parsing),
            Some(h) => if h.roots.len() == 0 {
                Err(ErrorKind::Parsing)
            } else if h.version != 1 {
                Err(ErrorKind::InvalidFile)
            } else {
                Ok(h)
            },
        },
    }
}

/// What reading a header at the start of `s` comes to: the header and the
/// number of bytes it took, or the kind of the error.
pub open spec fn header_read(s: Seq<u8>) -> Result<(HeaderView, nat), ErrorKind> {
    match block_read(s) {
        BlockRead::Block { data, len } => match header_decoded(data) {
            Ok(h) => Ok((h, len)),
            Err(k) => Err(k),
        },
        BlockRead::End => Err(ErrorKind::Parsing),
        BlockRead::TooLarge(_) => Err(ErrorKind::TooLargeSection),
        BlockRead::Io(_) => Err(ErrorKind::IO),
    }
}

/// The header that a structured value in the shape of a header stands for
/// is the one it was made from.
pub proof fn lemma_header_of_value(h: HeaderView)
    ensures
        header_of_value(header_value(h)) == Some(h),
{
    let m = header_value(h)->StringMap_0;
    reveal_strlit("roots");
    reveal_strlit("version");
    assert("roots"@.len() != "version"@.len());
    assert(m.drop_last().last() == m[0]);
    assert(map_get(m, "version"@) == Some(m[1].1));
    assert(map_get(m.drop_last(), "roots"@) == Some(m[0].1));
    assert(map_get(m, "roots"@) == Some(m[0].1));
    let l = links_of(h.roots);
    assert(all_links(l));
    assert(link_targets(l) =~= h.roots);
}

/// A copy of a list of identifiers.
pub fn clone_roots(roots: &Vec<Cid>) -> (copy: Vec<Cid>)
    ensures
        cids_view(copy@) == cids_view(roots@),
{
    let mut copy: Vec<Cid> = Vec::new();
    let mut i: usize = 0;
    while i < roots.len()
        invariant
            i <= roots.len(),
            copy@.len() == i,
            forall|j: int| 0 <= j < i ==> #[trigger] copy@[j]@ == roots@[j]@,
        decreases roots.len() - i,
    {
        copy.push(roots[i].clone());
        i = i + 1;
    }
    assert(cids_view(copy@) =~= cids_view(roots@));
    copy
}

impl CarHeaderV1 {
    /// A header of version 1 with these roots.
    pub fn new(roots: Vec<Cid>) -> (h: Self)
        ensures
            h.roots == roots,
            h.version == 1,
    {
        CarHeaderV1 { roots, version: 1 }
    }

    /// The structured value that stands for the header.
    pub fn to_value(&self) -> (v: TreeValue)
        ensures
            v@ == header_value(self@),
    {
        let mut links: Vec<TreeValue> = Vec::new();
        let mut i: usize = 0;
        while i < self.roots.len()
            invariant
                i <= self.roots.len(),
                links@.len() == i,
                forall|j: int| 0 <= j < i ==> #[trigger] links@[j]@ == TreeView::Link(self.roots@[j]@),
            decreases self.roots.len() - i,
        {
            links.push(TreeValue::Link(self.roots[i].clone()));
            i = i + 1;
        }
        let ghost items = links@;
        let mut entries: Vec<(String, TreeValue)> = Vec::new();
        entries.push((String::from_str("roots"), TreeValue::List(links)));
        entries.push((String::from_str("version"), TreeValue::Integer(self.version as i128)));
        let v = TreeValue::StringMap(entries);
        proof {
            lemma_entries_view(entries@);
            lemma_list_view(items);
            assert(entries@[0].1@ == TreeView::List(links_of(self@.roots))) by {
                assert(crate::ipld::list_view(items) =~= links_of(self@.roots));
            }
            assert(v@->StringMap_0 =~= header_value(self@)->StringMap_0);
        }
        v
    }

    /// The header that a structured value stands for, if it stands for one.
    pub fn from_value(v: &TreeValue) -> (r: Option<CarHeaderV1>)
        ensures
            match header_of_value(v@) {
                Some(h) => r is Some && r->Some_0@ == h,
                None => r is None,
            },
    {
        let roots_value = v.get("roots");
        let version_value = v.get("version");
        match (roots_value, version_value) {
            (Some(TreeValue::List(l)), Some(TreeValue::Integer(n))) => {
                proof {
                    lemma_list_view(l@);
                }
                if *n < 0 || *n > u64::MAX as i128 {
                    return None;
                }
                let mut roots: Vec<Cid> = Vec::new();
                let mut i: usize = 0;
                while i < l.len()
                    invariant
                        i <= l.len(),
                        roots@.len() == i,
                        forall|j: int| 0 <= j < i ==> #[trigger] l@[j]@ == TreeView::Link(roots@[j]@),
                        v@.get("roots"@) == Some(TreeView::List(crate::ipld::list_view(l@))),
                        v@.get("version"@) == Some(TreeView::Integer(*n as int)),
                        0 <= *n <= u64::MAX,
                    decreases l.len() - i,
                {
                    match &l[i] {
                        TreeValue::Link(c) => {
                            roots.push(c.clone());
                        },
                        _ => {
                            proof {
                                lemma_list_view(l@);
                                let lv = crate::ipld::list_view(l@);
                                assert(lv[i as int] == l@[i as int]@);
                                assert(!(l@[i as int] is Link));
                                assert(!(lv[i as int] is Link));
                            }
                            return None;
                        },
                    }
                    i = i + 1;
                }
                proof {
                    lemma_list_view(l@);
                    let lv = crate::ipld::list_view(l@);
                    assert(all_links(lv));
                    assert(cids_view(roots@) =~= link_targets(lv));
                }
                Some(CarHeaderV1 { roots, version: *n as u64 })
            },
            _ => None,
        }
    }
}

impl CarHeader {
    /// A header of version 1 with these roots.
    pub fn new_v1(roots: Vec<Cid>) -> (h: Self)
        ensures
            h == CarHeader::V1(CarHeaderV1 { roots, version: 1 }),
    {
        CarHeader::V1(CarHeaderV1::new(roots))
    }

    /// The header as a mathematical value.
    pub open spec fn spec_v1(self) -> HeaderView
        recommends
            self is V1,
    {
        self->V1_0@
    }

    /// A copy of the roots.
    pub fn roots(&self) -> (roots: Vec<Cid>)
        requires
            self is V1,
        ensures
            cids_view(roots@) == self.spec_v1().roots,
    {
        match self {
            CarHeader::V1(v1) => clone_roots(&v1.roots),
            CarHeader::V2() => Vec::new(),
        }
    }

    /// Reads the header at the position of `stream`: a length prefix, then
    /// that many bytes in the structured form. Leaves the stream where
    /// reading the block left it, whether or not the bytes are a header.
    pub fn read_header(stream: &mut ByteCursor) -> (r: Result<CarHeader, CarError>)
        ensures
            final(stream).data == old(stream).data,
            final(stream).pos == crate::reader::block_read_end(
                old(stream).data@,
                old(stream).pos as nat,
            ),
            match header_read(old(stream).remaining()) {
                Ok((h, len)) => r is Ok && r->Ok_0 is V1 && r->Ok_0.spec_v1() == h && final(stream).pos == old(stream).pos + len,
                Err(k) => r is Err && r->Err_0.kind() == k,
            },
    {
        let data = match read_block(stream) {
            Ok(Some(d)) => d,
            Ok(None) => {
                return Err(CarError::Parsing("Invalid Header".to_string()));
            },
            Err(e) => {
                return Err(e);
            },
        };
        CarHeader::decode(data.as_slice())
    }

    /// Decodes the bytes of a header. Fails with a parsing error where the
    /// bytes stand for no header or the header has no roots, and with an
    /// invalid file error where its version is not 1.
    pub fn decode(buf: &[u8]) -> (r: Result<CarHeader, CarError>)
        ensures
            match header_decoded(buf@) {
                Ok(h) => r is Ok && r->Ok_0 is V1 && r->Ok_0.spec_v1() == h,
                Err(k) => r is Err && r->Err_0.kind() == k,
            },
    {
        let value = TreeValue::from_dag_cbor(buf)?;
        let header = match CarHeaderV1::from_value(&value) {
            Some(h) => h,
            None => {
                return Err(CarError::Parsing("car header is malformed".to_string()));
            },
        };
        if header.roots.len() == 0 {
            return Err(CarError::Parsing("car roots is empty".to_string()));
        }
        if header.version != 1 {
            return Err(CarError::InvalidFile("Now CAR version 1 is supported only".to_string()));
        }
        Ok(CarHeader::V1(header))
    }

    /// Encodes the header in the structured form. Fails with a parsing
    /// error where that form has no bytes for it.
    ///
    /// A header whose roots are written and read back unchanged is always
    /// encoded: to a map of the text `roots` with the list of the links
    /// and the text `version` with the number. With roots, and of version 1,
    /// it decodes to that header again.
    pub fn encode(&self) -> (r: Result<Vec<u8>, CarError>)
        requires
            self is V1,
        ensures
            match header_bytes(self.spec_v1()) {
                Some(bytes) => r is Ok && r->Ok_0@ == bytes,
                None => r is Err && r->Err_0 is Parsing,
            },
            self.spec_v1().portable() ==> r is Ok && r->Ok_0@ == header_cbor(
                header_value(self.spec_v1()),
            ),
            self.spec_v1().portable() && self.spec_v1().wf() ==> header_decoded(r->Ok_0@) == Ok::<
                HeaderView,
                ErrorKind,
            >(self.spec_v1()),
    {
        match self {
            CarHeader::V1(v1) => {
                let value = v1.to_value();
                proof {
                    if v1@.portable() {
                        assert(header_shaped(value@)) by {
                            let l = links_of(v1@.roots);
                            assert forall|i: int| 0 <= i < l.len() implies cbor_link(
                                #[trigger] l[i],
                            ) by {
                                assert(l[i] == TreeView::Link(v1@.roots[i]));
                            }
                        }
                        lemma_header_of_value(v1@);
                    }
                }
                match dag_cbor_encode(&value) {
                    Ok(data) => Ok(data),
                    Err(text) => Err(CarError::Parsing(text)),
                }
            },
            CarHeader::V2() => Err(CarError::Parsing("unsupported version".to_string())),
        }
    }
}

/// The header that names one root.
pub open spec fn header_of_root(c: CidView) -> HeaderView {
    HeaderView { roots: seq![c], version: 1 }
}

/// A header that names one root whose identifier takes 38 bytes, as one
/// around a Blake2b digest does, is written and read back unchanged, and
/// its bytes are 60.
pub proof fn lemma_root_header(c: CidView)
    requires
        c.wf(),
        c.canonical(),
        cid_bytes(c).len() == 38,
    ensures
        header_of_root(c).wf(),
        header_of_root(c).portable(),
        header_cbor(header_value(header_of_root(c))).len() == 60,
{
    let h = header_of_root(c);
    let roots = links_of(h.roots);
    assert(roots.len() == 1);
    assert(roots[0] == TreeView::Link(c));
    assert(roots.drop_last() =~= Seq::<TreeView>::empty());
    assert(cbor_links(roots.drop_last()).len() == 0);
    assert(cbor_links(roots) == cbor_links(roots.drop_last()) + cbor_link_bytes(c));
    assert(cbor_head(2, 39).len() == 2);
    assert(cbor_head(4, 1).len() == 1);
    assert(cbor_head(0, 1).len() == 1);
}

} // verus!
