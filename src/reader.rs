//! The archive reader: locates the superblock, loads the dictionary and
//! serves nodes and paths out of the archive bytes.
use vstd::prelude::*;
use vstd::slice::{slice_subrange, slice_to_vec};
use vstd::utf8::*;
use vstd::string::*;

use crate::codec::{decompress, zstd_decompressed};
use crate::error::ZupError;
use crate::layout;
use crate::layout::{is_compressed, is_dir, parse_superblock, Range, Superblock, SUPERBLOCK_LEN};
use crate::listing::{bytes_equal, parse_entries, parse_listing, entries_view};

verus! {

broadcast use vstd::utf8::group_utf8_lib;

/// No single range read may be longer than this.
pub const MAX_RANGE_LEN: u64 = 100_000_000;

/// The part of an archive before its superblock.
pub open spec fn body_of(data: Seq<u8>) -> Seq<u8> {
    data.subrange(0, data.len() - SUPERBLOCK_LEN)
}

/// The bytes of a range of the body, or why it cannot be read.
pub open spec fn range_read(body: Seq<u8>, r: Range) -> Result<Seq<u8>, ZupError> {
    if r.len > MAX_RANGE_LEN {
        Err(ZupError::RangeTooLarge)
    } else if r.offset + r.len > body.len() {
        Err(ZupError::RangeOutOfBounds)
    } else {
        Ok(body.subrange(r.offset as int, r.offset + r.len))
    }
}

/// A superblock's dictionary range is absent when it is all zero.
pub open spec fn has_dict(sb: Superblock) -> bool {
    sb.dict != Range { offset: 0, len: 0 }
}

/// What opening an archive gives: its superblock and dictionary (if any),
/// or the first fault met.
pub open spec fn open_archive(data: Seq<u8>) -> Result<(Superblock, Option<Seq<u8>>), ZupError> {
    if data.len() < SUPERBLOCK_LEN {
        Err(ZupError::TruncatedArchive)
    } else {
        match parse_superblock(data.subrange(data.len() - SUPERBLOCK_LEN, data.len() as int)) {
            Err(e) => Err(e),
            Ok(sb) => if has_dict(sb) {
                match range_read(body_of(data), sb.dict) {
                    Ok(d) => Ok((sb, Some(d))),
                    Err(e) => Err(e),
                }
            } else {
                Ok((sb, None))
            },
        }
    }
}

/// The logical payload of a node, or why it cannot be had.
pub open spec fn node_read(body: Seq<u8>, dict: Option<Seq<u8>>, n: layout::Node) -> Result<Seq<u8>, ZupError> {
    match range_read(body, n.range) {
        Err(e) => Err(e),
        Ok(raw) => if is_compressed(n) {
            match dict {
                None => Err(ZupError::MissingDictionary),
                Some(d) => match zstd_decompressed(raw, d) {
                    Some(p) => Ok(p),
                    None => Err(ZupError::BadCompressedData),
                },
            }
        } else {
            Ok(raw)
        },
    }
}

/// The entries of a directory node.
pub open spec fn dir_read(body: Seq<u8>, dict: Option<Seq<u8>>, n: layout::Node) -> Result<Seq<(Seq<char>, layout::Node)>, ZupError> {
    match node_read(body, dict, n) {
        Err(e) => Err(e),
        Ok(p) => parse_listing(p),
    }
}

/// Index of the first entry with the given name.
pub open spec fn first_named(es: Seq<(Seq<char>, layout::Node)>, name: Seq<char>) -> Option<int>
    decreases es.len(),
{
    if es.len() == 0 {
        None
    } else if es[0].0 == name {
        Some(0)
    } else {
        match first_named(es.drop_first(), name) {
            Some(i) => Some(i + 1),
            None => None,
        }
    }
}

/// Where a path leads from a node (`at_dir` says whether it is a directory).
pub open spec fn resolve(
    body: Seq<u8>,
    dict: Option<Seq<u8>>,
    cur: layout::Node,
    at_dir: bool,
    path: Seq<Seq<char>>,
) -> Result<(layout::Node, bool), ZupError>
    decreases path.len(),
{
    if path.len() == 0 {
        Ok((cur, at_dir))
    } else if !at_dir {
        Err(ZupError::NotADirectory)
    } else {
        match dir_read(body, dict, cur) {
            Err(e) => Err(e),
            Ok(es) => match first_named(es, path[0]) {
                None => Err(ZupError::NotFound),
                Some(i) => resolve(body, dict, es[i].1, is_dir(es[i].1), path.drop_first()),
            },
        }
    }
}

/// Reading a file by path: the payload, or why there is none.
pub open spec fn path_read(
    body: Seq<u8>,
    dict: Option<Seq<u8>>,
    root: layout::Node,
    path: Seq<Seq<char>>,
) -> Result<Seq<u8>, ZupError> {
    match resolve(body, dict, root, true, path) {
        Err(e) => Err(e),
        Ok((n, d)) => if d {
            Err(ZupError::IsADirectory)
        } else {
            node_read(body, dict, n)
        },
    }
}

pub struct Reader {
    data: Vec<u8>,
    superblock: Superblock,
    dict: Option<Vec<u8>>,
}

impl Reader {
    pub open spec fn wf(&self) -> bool {
        &&& self.data().len() >= SUPERBLOCK_LEN
        &&& open_archive(self.data()) == Ok::<(Superblock, Option<Seq<u8>>), ZupError>((self.superblock_spec(), self.dict_view()))
    }

    pub closed spec fn data(&self) -> Seq<u8> {
        self.data@
    }

    pub closed spec fn superblock_spec(&self) -> Superblock {
        self.superblock
    }

    pub closed spec fn dict_view(&self) -> Option<Seq<u8>> {
        match self.dict {
            Some(d) => Some(d@),
            None => None,
        }
    }

    /// The archive bytes before the superblock.
    pub open spec fn body(&self) -> Seq<u8> {
        body_of(self.data())
    }

    pub open spec fn root_spec(&self) -> layout::Node {
        self.superblock_spec().root
    }

    /// Opens an archive held in memory.
    pub fn new(data: Vec<u8>) -> (r: Result<Reader, ZupError>)
        ensures
            match r {
                Ok(rd) => rd.wf() && rd.data() == data@,
                Err(e) => open_archive(data@) == Err::<(Superblock, Option<Seq<u8>>), ZupError>(e),
            },
    {
        if data.len() < SUPERBLOCK_LEN {
            return Err(ZupError::TruncatedArchive);
        }
        let end = data.len();
        let sb = Superblock::from_bytes(slice_subrange(data.as_slice(), end - SUPERBLOCK_LEN, end))?;
        let dict = if sb.dict.offset != 0 || sb.dict.len != 0 {
            Some(read_range_of(data.as_slice(), sb.dict)?)
        } else {
            None
        };
        Ok(Reader { data, superblock: sb, dict })
    }

    pub fn superblock(&self) -> (r: Superblock)
        requires
            self.wf(),
        ensures
            r == self.superblock_spec(),
    {
        self.superblock
    }

    /// The bytes of a range of the archive body.
    pub fn read_range(&self, r: Range) -> (res: Result<Vec<u8>, ZupError>)
        requires
            self.wf(),
        ensures
            match res {
                Ok(v) => range_read(self.body(), r) == Ok::<Seq<u8>, ZupError>(v@),
                Err(e) => range_read(self.body(), r) == Err::<Seq<u8>, ZupError>(e),
            },
    {
        read_range_of(self.data.as_slice(), r)
    }

    /// The logical payload of a node.
    pub fn read_node(&self, n: layout::Node) -> (res: Result<Vec<u8>, ZupError>)
        requires
            self.wf(),
        ensures
            match res {
                Ok(v) => node_read(self.body(), self.dict_view(), n) == Ok::<Seq<u8>, ZupError>(v@),
                Err(e) => node_read(self.body(), self.dict_view(), n) == Err::<Seq<u8>, ZupError>(e),
            },
    {
        let raw = self.read_range(n.range)?;
        if n.is_compressed() {
            match &self.dict {
                None => Err(ZupError::MissingDictionary),
                Some(d) => match decompress(raw.as_slice(), d.as_slice()) {
                    Some(p) => Ok(p),
                    None => Err(ZupError::BadCompressedData),
                },
            }
        } else {
            Ok(raw)
        }
    }

    pub fn root_node(&self) -> (r: Node<'_>)
        requires
            self.wf(),
        ensures
            r.node_spec() == self.root_spec(),
            r is Directory,
            r.reader() == self,
    {
        Node::Directory(Directory { reader: self, node: self.superblock.root })
    }

    /// Follows a path of names from the root.
    pub fn open(&self, path: &[&str]) -> (r: Result<Node<'_>, ZupError>)
        requires
            self.wf(),
        ensures
            match r {
                Ok(n) => resolve(self.body(), self.dict_view(), self.root_spec(), true, path_view(path@))
                    == Ok::<(layout::Node, bool), ZupError>((n.node_spec(), n is Directory))
                    && n.reader() == self,
                Err(e) => resolve(self.body(), self.dict_view(), self.root_spec(), true, path_view(path@))
                    == Err::<(layout::Node, bool), ZupError>(e),
            },
    {
        let ghost full = path_view(path@);
        let mut cur = self.root_node();
        assert(full.skip(0) =~= full);
        let mut i: usize = 0;
        while i < path.len()
            invariant
                self.wf(),
                i <= path@.len(),
                full == path_view(path@),
                cur.reader() == self,
                resolve(self.body(), self.dict_view(), self.root_spec(), true, full) == resolve(
                    self.body(),
                    self.dict_view(),
                    cur.node_spec(),
                    cur is Directory,
                    full.skip(i as int),
                ),
            decreases path@.len() - i,
        {
            proof {
                assert(full.skip(i as int)[0] == path@[i as int]@);
                assert(full.skip(i as int).drop_first() =~= full.skip(i + 1));
            }
            match cur {
                Node::File(_) => {
                    return Err(ZupError::NotADirectory);
                },
                Node::Directory(dir) => {
                    let children = dir.children()?;
                    let seg = path[i];
                    let j = find_named(&children, seg);
                    proof {
                        lemma_first_named(children_view(children@), seg@, j as int);
                    }
                    let found: Option<Node<'_>> = if j < children.len() {
                        Some(children[j].1.copy_node())
                    } else {
                        None
                    };
                    match found {
                        None => {
                            return Err(ZupError::NotFound);
                        },
                        Some(n) => {
                            cur = n;
                        },
                    }
                },
            }
            i = i + 1;
        }
        assert(full.skip(i as int) =~= Seq::<Seq<char>>::empty());
        Ok(cur)
    }

    /// Reads the file at a path.
    pub fn read(&self, path: &[&str]) -> (r: Result<Vec<u8>, ZupError>)
        requires
            self.wf(),
        ensures
            match r {
                Ok(v) => path_read(self.body(), self.dict_view(), self.root_spec(), path_view(path@))
                    == Ok::<Seq<u8>, ZupError>(v@),
                Err(e) => path_read(self.body(), self.dict_view(), self.root_spec(), path_view(path@))
                    == Err::<Seq<u8>, ZupError>(e),
            },
    {
        match self.open(path)? {
            Node::Directory(_) => Err(ZupError::IsADirectory),
            Node::File(f) => f.read(),
        }
    }
}

pub open spec fn path_view(p: Seq<&str>) -> Seq<Seq<char>> {
    p.map_values(|s: &str| s@)
}

/// The bytes of a range of the archive body in `data`.
fn read_range_of(data: &[u8], r: Range) -> (res: Result<Vec<u8>, ZupError>)
    requires
        data@.len() >= SUPERBLOCK_LEN,
    ensures
        match res {
            Ok(v) => range_read(body_of(data@), r) == Ok::<Seq<u8>, ZupError>(v@),
            Err(e) => range_read(body_of(data@), r) == Err::<Seq<u8>, ZupError>(e),
        },
{
    if r.len > MAX_RANGE_LEN {
        return Err(ZupError::RangeTooLarge);
    }
    let body_len = (data.len() - SUPERBLOCK_LEN) as u64;
    if r.offset > body_len || r.len > body_len - r.offset {
        return Err(ZupError::RangeOutOfBounds);
    }
    let s = slice_subrange(data, r.offset as usize, (r.offset + r.len) as usize);
    proof {
        assert(s@ =~= body_of(data@).subrange(r.offset as int, r.offset + r.len));
    }
    Ok(slice_to_vec(s))
}

pub open spec fn children_view<'a>(c: Seq<(String, Node<'a>)>) -> Seq<(Seq<char>, layout::Node)> {
    c.map_values(|e: (String, Node<'a>)| (e.0@, e.1.node_spec()))
}

/// Index of the first child named `seg`, or the number of children.
fn find_named<'a>(children: &Vec<(String, Node<'a>)>, seg: &str) -> (r: usize)
    ensures
        r <= children@.len(),
        forall|k: int| 0 <= k < r ==> (#[trigger] children@[k]).0@ != seg@,
        r < children@.len() ==> children@[r as int].0@ == seg@,
{
    let mut j: usize = 0;
    while j < children.len()
        invariant
            j <= children@.len(),
            forall|k: int| 0 <= k < j ==> (#[trigger] children@[k]).0@ != seg@,
        decreases children@.len() - j,
    {
        proof {
            encode_utf8_decode_utf8(children@[j as int].0@);
            encode_utf8_decode_utf8(seg@);
        }
        if bytes_equal(children[j].0.as_str().as_bytes(), seg.as_bytes()) {
            return j;
        }
        j = j + 1;
    }
    j
}

proof fn lemma_first_named(es: Seq<(Seq<char>, layout::Node)>, name: Seq<char>, j: int)
    requires
        0 <= j <= es.len(),
        forall|k: int| 0 <= k < j ==> (#[trigger] es[k]).0 != name,
        j < es.len() ==> es[j].0 == name,
    ensures
        first_named(es, name) == if j < es.len() { Some(j) } else { None::<int> },
    decreases es.len(),
{
    if es.len() > 0 && j > 0 {
        assert forall|k: int| 0 <= k < j - 1 implies (#[trigger] es.drop_first()[k]).0 != name by {
            assert(es.drop_first()[k] == es[k + 1]);
        }
        lemma_first_named(es.drop_first(), name, j - 1);
    }
}

/// A node reached while reading: a file or a directory.
pub enum Node<'a> {
    File(File<'a>),
    Directory(Directory<'a>),
}

impl<'a> Node<'a> {
    pub open spec fn node_spec(&self) -> layout::Node {
        match self {
            Node::File(f) => f.node,
            Node::Directory(d) => d.node,
        }
    }

    pub fn node(&self) -> (r: layout::Node)
        ensures
            r == self.node_spec(),
    {
        match self {
            Node::File(n) => n.node(),
            Node::Directory(n) => n.node(),
        }
    }

    fn copy_node(&self) -> (r: Node<'a>)
        ensures
            r.node_spec() == self.node_spec(),
            (r is Directory) == (self is Directory),
            r.reader() == self.reader(),
    {
        match self {
            Node::File(n) => Node::File(File { reader: n.reader, node: n.node }),
            Node::Directory(n) => Node::Directory(Directory { reader: n.reader, node: n.node }),
        }
    }

    pub open spec fn reader(&self) -> &'a Reader {
        match self {
            Node::File(f) => f.reader,
            Node::Directory(d) => d.reader,
        }
    }
}

pub struct File<'a> {
    pub reader: &'a Reader,
    pub node: layout::Node,
}

impl<'a> File<'a> {
    pub fn node(&self) -> (r: layout::Node)
        ensures
            r == self.node,
    {
        self.node
    }

    pub fn read(&self) -> (res: Result<Vec<u8>, ZupError>)
        requires
            self.reader.wf(),
        ensures
            match res {
                Ok(v) => node_read(self.reader.body(), self.reader.dict_view(), self.node) == Ok::<Seq<u8>, ZupError>(v@),
                Err(e) => node_read(self.reader.body(), self.reader.dict_view(), self.node) == Err::<Seq<u8>, ZupError>(e),
            },
    {
        self.reader.read_node(self.node)
    }
}

pub struct Directory<'a> {
    pub reader: &'a Reader,
    pub node: layout::Node,
}

impl<'a> Directory<'a> {
    pub fn node(&self) -> (r: layout::Node)
        ensures
            r == self.node,
    {
        self.node
    }

    /// The entries of the directory, each as a file or a directory by its flag.
    pub fn children(&self) -> (res: Result<Vec<(String, Node<'a>)>, ZupError>)
        requires
            self.reader.wf(),
        ensures
            match res {
                Ok(v) => dir_read(self.reader.body(), self.reader.dict_view(), self.node)
                    == Ok::<Seq<(Seq<char>, layout::Node)>, ZupError>(children_view(v@))
                    && forall|i: int| 0 <= i < v@.len() ==> ((#[trigger] v@[i]).1 is Directory) == is_dir(v@[i].1.node_spec())
                        && v@[i].1.reader() == self.reader,
                Err(e) => dir_read(self.reader.body(), self.reader.dict_view(), self.node)
                    == Err::<Seq<(Seq<char>, layout::Node)>, ZupError>(e),
            },
    {
        let data = self.reader.read_node(self.node)?;
        let entries = parse_entries(data.as_slice())?;
        let mut res: Vec<(String, Node<'a>)> = Vec::new();
        let mut i: usize = 0;
        while i < entries.len()
            invariant
                i <= entries@.len(),
                res@.len() == i,
                forall|k: int| 0 <= k < i ==> children_view(res@)[k] == entries_view(entries@)[k],
                forall|k: int| 0 <= k < i ==> ((#[trigger] res@[k]).1 is Directory) == is_dir(res@[k].1.node_spec())
                    && res@[k].1.reader() == self.reader,
            decreases entries@.len() - i,
        {
            let e = &entries[i];
            let node = if e.node.is_dir() {
                Node::Directory(Directory { reader: self.reader, node: e.node })
            } else {
                Node::File(File { reader: self.reader, node: e.node })
            };
            res.push((e.name.clone(), node));
            i = i + 1;
        }
        assert(children_view(res@) =~= entries_view(entries@));
        Ok(res)
    }
}

} // verus!
