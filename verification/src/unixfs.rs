//! Files and directories as nodes with links: what a block of a file tree
//! says of itself and of its children.

use crate::cid::{Cid, CidView};
use vstd::prelude::*;
use vstd::string::StringExecFns;

verus! {

/// What a node of a file tree is.
#[derive(Debug, PartialEq, Eq, Clone, Copy, Structural)]
pub enum FileType {
    Raw,
    Directory,
    File,
    Metadata,
    Symlink,
    HAMTShard,
}

impl Default for FileType {
    fn default() -> (t: Self)
        ensures
            t == FileType::Raw,
    {
        FileType::Raw
    }
}

impl FileType {
    /// The number that stands for the type in a block.
    pub open spec fn spec_number(self) -> u32 {
        match self {
            FileType::Raw => 0,
            FileType::Directory => 1,
            FileType::File => 2,
            FileType::Metadata => 3,
            FileType::Symlink => 4,
            FileType::HAMTShard => 5,
        }
    }

    /// The type that a number stands for. A number that stands for none is
    /// read as the first type.
    pub open spec fn spec_from_number(n: u32) -> FileType {
        if n == 1 {
            FileType::Directory
        } else if n == 2 {
            FileType::File
        } else if n == 3 {
            FileType::Metadata
        } else if n == 4 {
            FileType::Symlink
        } else if n == 5 {
            FileType::HAMTShard
        } else {
            FileType::Raw
        }
    }

    /// The number that stands for the type in a block.
    pub fn number(self) -> (n: u32)
        ensures
            n == self.spec_number(),
    {
        match self {
            FileType::Raw => 0,
            FileType::Directory => 1,
            FileType::File => 2,
            FileType::Metadata => 3,
            FileType::Symlink => 4,
            FileType::HAMTShard => 5,
        }
    }

    /// The type that a number stands for.
    pub fn from_number(n: u32) -> (t: FileType)
        ensures
            t == FileType::spec_from_number(n),
    {
        if n == 1 {
            FileType::Directory
        } else if n == 2 {
            FileType::File
        } else if n == 3 {
            FileType::Metadata
        } else if n == 4 {
            FileType::Symlink
        } else if n == 5 {
            FileType::HAMTShard
        } else {
            FileType::Raw
        }
    }

    /// The word for the type.
    pub open spec fn spec_name(self) -> Seq<char> {
        match self {
            FileType::Raw => "raw"@,
            FileType::Directory => "directory"@,
            FileType::File => "file"@,
            FileType::Metadata => "metadata"@,
            FileType::Symlink => "symlink"@,
            FileType::HAMTShard => "hasmtshard"@,
        }
    }

    /// The word for the type.
    pub fn to_string(&self) -> (s: String)
        ensures
            s@ == self.spec_name(),
    {
        match self {
            FileType::Raw => String::from_str("raw"),
            FileType::Directory => String::from_str("directory"),
            FileType::File => String::from_str("file"),
            FileType::Metadata => String::from_str("metadata"),
            FileType::Symlink => String::from_str("symlink"),
            FileType::HAMTShard => String::from_str("hasmtshard"),
        }
    }
}

/// A point in time: seconds since 1970, and a fraction in nanoseconds.
#[derive(Debug, PartialEq, Eq, Clone, Copy, Structural)]
pub struct UnixTime {
    pub seconds: i64,
    pub fractional_nanoseconds: Option<u32>,
}

impl Default for UnixTime {
    fn default() -> (t: Self)
        ensures
            t == (UnixTime { seconds: 0, fractional_nanoseconds: None }),
    {
        UnixTime { seconds: 0, fractional_nanoseconds: None }
    }
}

/// An edge of the tree: the identifier of a child, the name under which the
/// parent holds it, the number of bytes below it, and what the child is
/// taken to be.
#[derive(Debug, PartialEq, Eq)]
pub struct Link {
    pub hash: Cid,
    pub name: Option<String>,
    pub size: Option<u64>,
    pub guess_type: FileType,
}

/// A link as a mathematical value.
pub struct LinkView {
    pub hash: CidView,
    pub name: Option<Seq<char>>,
    pub size: Option<u64>,
    pub guess_type: FileType,
}

/// The characters of a name that may be missing.
pub open spec fn opt_text(s: Option<String>) -> Option<Seq<char>> {
    match s {
        Some(t) => Some(t@),
        None => None,
    }
}

impl View for Link {
    type V = LinkView;

    open spec fn view(&self) -> LinkView {
        LinkView {
            hash: self.hash@,
            name: opt_text(self.name),
            size: self.size,
            guess_type: self.guess_type,
        }
    }
}

/// A copy of a name that may be missing.
pub fn clone_name(name: &Option<String>) -> (copy: Option<String>)
    ensures
        opt_text(copy) == opt_text(*name),
{
    match name {
        Some(s) => Some(s.clone()),
        None => None,
    }
}

impl Clone for Link {
    fn clone(&self) -> (l: Self)
        ensures
            l@ == self@,
    {
        Link {
            hash: self.hash.clone(),
            name: clone_name(&self.name),
            size: self.size,
            guess_type: self.guess_type,
        }
    }
}

impl Link {
    /// A link to `hash` without name or size, taken to be a raw block.
    pub fn new(hash: Cid) -> (l: Self)
        ensures
            l@ == (LinkView { hash: hash@, name: None, size: None, guess_type: FileType::Raw }),
    {
        Link { hash, name: None, size: None, guess_type: FileType::Raw }
    }

    /// The identifier of the child.
    pub fn hash(&self) -> (c: Cid)
        ensures
            c@ == self@.hash,
    {
        self.hash.clone()
    }

    /// The name of the child, or the empty name where it has none.
    pub fn name_ref(&self) -> (s: &str)
        ensures
            s@ == (match self@.name {
                Some(t) => t,
                None => Seq::empty(),
            }),
    {
        match &self.name {
            Some(s) => s.as_str(),
            None => empty_str(),
        }
    }
}

/// The empty text.
fn empty_str() -> (s: &'static str)
    ensures
        s@ == Seq::<char>::empty(),
{
    let s = "";
    proof {
        reveal_strlit("");
    }
    s
}

/// A node of a file tree: a file, a directory, or one of the forms that are
/// only carried along. A directory's children are its entries, in the order
/// in which they are shown; a file's children are its chunks, in the order
/// in which they make up the file.
#[derive(Debug, PartialEq, Eq)]
pub struct UnixFs {
    pub cid: Option<Cid>,
    pub mode: Option<u32>,
    pub file_type: FileType,
    pub fanout: Option<u64>,
    pub block_sizes: Vec<u64>,
    pub file_size: Option<u64>,
    pub hash_type: Option<u64>,
    pub children: Vec<Link>,
    pub mtime: Option<UnixTime>,
    pub file_name: Option<String>,
}

/// A node as a mathematical value.
pub struct UnixFsView {
    pub cid: Option<CidView>,
    pub mode: Option<u32>,
    pub file_type: FileType,
    pub fanout: Option<u64>,
    pub block_sizes: Seq<u64>,
    pub file_size: Option<u64>,
    pub hash_type: Option<u64>,
    pub children: Seq<LinkView>,
    pub mtime: Option<UnixTime>,
    pub file_name: Option<Seq<char>>,
}

/// The identifier that may be missing, as a mathematical value.
pub open spec fn opt_cid(c: Option<Cid>) -> Option<CidView> {
    match c {
        Some(x) => Some(x@),
        None => None,
    }
}

/// The links of a list as mathematical values.
pub open spec fn links_view(s: Seq<Link>) -> Seq<LinkView> {
    s.map_values(|l: Link| l@)
}

impl View for UnixFs {
    type V = UnixFsView;

    open spec fn view(&self) -> UnixFsView {
        UnixFsView {
            cid: opt_cid(self.cid),
            mode: self.mode,
            file_type: self.file_type,
            fanout: self.fanout,
            block_sizes: self.block_sizes@,
            file_size: self.file_size,
            hash_type: self.hash_type,
            children: links_view(self.children@),
            mtime: self.mtime,
            file_name: opt_text(self.file_name),
        }
    }
}

impl UnixFsView {
    /// The node that says nothing: a raw block without children.
    pub open spec fn empty() -> UnixFsView {
        UnixFsView {
            cid: None,
            mode: None,
            file_type: FileType::Raw,
            fanout: None,
            block_sizes: Seq::empty(),
            file_size: None,
            hash_type: None,
            children: Seq::empty(),
            mtime: None,
            file_name: None,
        }
    }
}

impl Default for UnixFs {
    fn default() -> (u: Self)
        ensures
            u@ == UnixFsView::empty(),
    {
        let u = UnixFs {
            cid: None,
            mode: None,
            file_type: FileType::Raw,
            fanout: None,
            block_sizes: Vec::new(),
            file_size: None,
            hash_type: None,
            children: Vec::new(),
            mtime: None,
            file_name: None,
        };
        assert(u@.children =~= Seq::empty());
        u
    }
}

impl UnixFs {
    /// A node that says nothing but its identifier.
    pub fn new(cid: Cid) -> (u: Self)
        ensures
            u@ == (UnixFsView { cid: Some(cid@), ..UnixFsView::empty() }),
    {
        let mut u = UnixFs::default();
        u.cid = Some(cid);
        u
    }

    /// Adds a child behind the others and returns its place.
    pub fn add_child(&mut self, child: Link) -> (idx: usize)
        ensures
            idx == old(self)@.children.len(),
            final(self)@ == (UnixFsView {
                children: old(self)@.children.push(child@),
                ..old(self)@
            }),
    {
        let idx = self.children.len();
        self.children.push(child);
        assert(links_view(self.children@) =~= links_view(old(self).children@).push(child@));
        idx
    }

    /// The children, in their order.
    pub fn children(&self) -> (list: &Vec<Link>)
        ensures
            links_view(list@) == self@.children,
    {
        &self.children
    }

    /// The time of the last change.
    pub fn mtime(&self) -> (t: Option<&UnixTime>)
        ensures
            match self@.mtime {
                Some(x) => t is Some && *t->Some_0 == x,
                None => t is None,
            },
    {
        self.mtime.as_ref()
    }

    /// The permission bits.
    pub fn mode(&self) -> (m: Option<u32>)
        ensures
            m == self@.mode,
    {
        self.mode
    }

    /// The width of a sharded directory.
    pub fn fanout(&self) -> (f: Option<u64>)
        ensures
            f == self@.fanout,
    {
        self.fanout
    }

    /// The name under which the parent holds the node.
    pub fn file_name(&self) -> (name: Option<&str>)
        ensures
            match self@.file_name {
                Some(s) => name is Some && name->Some_0@ == s,
                None => name is None,
            },
    {
        match &self.file_name {
            Some(s) => Some(s.as_str()),
            None => None,
        }
    }

    /// The hash function of a sharded directory.
    pub fn hash_type(&self) -> (h: Option<u64>)
        ensures
            h == self@.hash_type,
    {
        self.hash_type
    }

    /// The sizes of the chunks of a file, in their order.
    pub fn block_sizes(&self) -> (sizes: Vec<u64>)
        ensures
            sizes@ == self@.block_sizes,
    {
        self.block_sizes.clone()
    }

    /// The number of bytes of the file.
    pub fn file_size(&self) -> (size: Option<u64>)
        ensures
            size == self@.file_size,
    {
        self.file_size
    }

    /// What the node is.
    pub fn file_type(&self) -> (t: FileType)
        ensures
            t == self@.file_type,
    {
        self.file_type
    }

    /// The identifier of the node's block, once it is known.
    pub fn cid(&self) -> (c: Option<Cid>)
        ensures
            opt_cid(c) == self@.cid,
    {
        match &self.cid {
            Some(c) => Some(c.clone()),
            None => None,
        }
    }
}

} // verus!
