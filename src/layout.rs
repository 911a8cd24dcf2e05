//! Fixed-width little-endian records of the archive format.
use vstd::bytes::*;
use vstd::prelude::*;
use vstd::slice::slice_subrange;

use crate::error::ZupError;

verus! {

/// Flag bit: the node's bytes are a zstd frame against the archive dictionary.
pub const FLAG_COMPRESSED: u32 = 1;

/// Flag bit: the node's logical payload is a directory listing.
pub const FLAG_DIR: u32 = 2;

/// The archive magic, "Zup!" read as a little-endian `u32`.
pub const MAGIC: u32 = 0x2170755a;

/// The only archive format version.
pub const VERSION: u32 = 1;

/// Encoded size of a `Range`.
pub const RANGE_LEN: usize = 16;

/// Encoded size of a `Node`.
pub const NODE_LEN: usize = 20;

/// Encoded size of a `Superblock`.
pub const SUPERBLOCK_LEN: usize = 44;

/// A contiguous byte extent of an archive file.
#[derive(PartialEq, Eq, Clone, Copy, Debug, Hash, Structural)]
pub struct Range {
    pub offset: u64,
    pub len: u64,
}

/// A reference to a stored, possibly compressed blob.
#[derive(PartialEq, Eq, Clone, Copy, Debug, Hash, Structural)]
pub struct Node {
    pub flags: u32,
    pub range: Range,
}

/// The archive footer.
#[derive(PartialEq, Eq, Clone, Copy, Debug, Structural)]
pub struct Superblock {
    pub dict: Range,
    pub root: Node,
    pub version: u32,
    pub magic: u32,
}

pub open spec fn range_bytes(r: Range) -> Seq<u8> {
    spec_u64_to_le_bytes(r.offset) + spec_u64_to_le_bytes(r.len)
}

pub open spec fn range_of_bytes(b: Seq<u8>) -> Range {
    Range {
        offset: spec_u64_from_le_bytes(b.subrange(0, 8)),
        len: spec_u64_from_le_bytes(b.subrange(8, 16)),
    }
}

pub open spec fn node_bytes(n: Node) -> Seq<u8> {
    spec_u32_to_le_bytes(n.flags) + range_bytes(n.range)
}

pub open spec fn node_of_bytes(b: Seq<u8>) -> Node {
    Node { flags: spec_u32_from_le_bytes(b.subrange(0, 4)), range: range_of_bytes(b.subrange(4, 20)) }
}

pub open spec fn superblock_bytes(s: Superblock) -> Seq<u8> {
    range_bytes(s.dict) + node_bytes(s.root) + spec_u32_to_le_bytes(s.version)
        + spec_u32_to_le_bytes(s.magic)
}

pub open spec fn superblock_of_bytes(b: Seq<u8>) -> Superblock {
    Superblock {
        dict: range_of_bytes(b.subrange(0, 16)),
        root: node_of_bytes(b.subrange(16, 36)),
        version: spec_u32_from_le_bytes(b.subrange(36, 40)),
        magic: spec_u32_from_le_bytes(b.subrange(40, 44)),
    }
}

/// What decoding a superblock gives: the fields, or the first check that fails.
pub open spec fn parse_superblock(b: Seq<u8>) -> Result<Superblock, ZupError> {
    let s = superblock_of_bytes(b);
    if s.magic != MAGIC {
        Err(ZupError::BadMagic)
    } else if s.version != VERSION {
        Err(ZupError::UnsupportedVersion)
    } else {
        Ok(s)
    }
}

pub open spec fn is_compressed(n: Node) -> bool {
    n.flags & FLAG_COMPRESSED != 0
}

pub open spec fn is_dir(n: Node) -> bool {
    n.flags & FLAG_DIR != 0
}

pub proof fn lemma_range_round_trip(r: Range)
    ensures
        range_bytes(r).len() == 16,
        range_of_bytes(range_bytes(r)) == r,
{
    lemma_auto_spec_u64_to_from_le_bytes();
    let b = range_bytes(r);
    assert(b.subrange(0, 8) =~= spec_u64_to_le_bytes(r.offset));
    assert(b.subrange(8, 16) =~= spec_u64_to_le_bytes(r.len));
}

pub proof fn lemma_node_round_trip(n: Node)
    ensures
        node_bytes(n).len() == 20,
        node_of_bytes(node_bytes(n)) == n,
{
    lemma_auto_spec_u32_to_from_le_bytes();
    lemma_range_round_trip(n.range);
    let b = node_bytes(n);
    assert(b.subrange(0, 4) =~= spec_u32_to_le_bytes(n.flags));
    assert(b.subrange(4, 20) =~= range_bytes(n.range));
}

/// Encoding a superblock and decoding the bytes gives the same fields back.
pub proof fn lemma_superblock_round_trip(s: Superblock)
    ensures
        superblock_bytes(s).len() == 44,
        superblock_of_bytes(superblock_bytes(s)) == s,
{
    lemma_auto_spec_u32_to_from_le_bytes();
    lemma_range_round_trip(s.dict);
    lemma_node_round_trip(s.root);
    let b = superblock_bytes(s);
    assert(b.subrange(0, 16) =~= range_bytes(s.dict));
    assert(b.subrange(16, 36) =~= node_bytes(s.root));
    assert(b.subrange(36, 40) =~= spec_u32_to_le_bytes(s.version));
    assert(b.subrange(40, 44) =~= spec_u32_to_le_bytes(s.magic));
}

impl Range {
    pub fn from_bytes(b: &[u8]) -> (r: Range)
        requires
            b@.len() == RANGE_LEN,
        ensures
            r == range_of_bytes(b@),
    {
        let offset = u64_from_le_bytes(slice_subrange(b, 0, 8));
        let len = u64_from_le_bytes(slice_subrange(b, 8, 16));
        Range { offset, len }
    }

    pub fn to_bytes(self) -> (r: Vec<u8>)
        ensures
            r@ == range_bytes(self),
            r@.len() == RANGE_LEN,
    {
        proof {
            lemma_range_round_trip(self);
        }
        let mut res = u64_to_le_bytes(self.offset);
        let mut tail = u64_to_le_bytes(self.len);
        res.append(&mut tail);
        res
    }

    /// The exclusive end of the range, where it fits in a `u64`.
    pub fn end(&self) -> (r: Option<u64>)
        ensures
            r == (if self.offset + self.len <= u64::MAX {
                Some((self.offset + self.len) as u64)
            } else {
                None::<u64>
            }),
    {
        self.offset.checked_add(self.len)
    }
}

impl Node {
    pub fn from_bytes(b: &[u8]) -> (r: Node)
        requires
            b@.len() == NODE_LEN,
        ensures
            r == node_of_bytes(b@),
    {
        let flags = u32_from_le_bytes(slice_subrange(b, 0, 4));
        let range = Range::from_bytes(slice_subrange(b, 4, 20));
        Node { flags, range }
    }

    pub fn to_bytes(self) -> (r: Vec<u8>)
        ensures
            r@ == node_bytes(self),
            r@.len() == NODE_LEN,
    {
        proof {
            lemma_node_round_trip(self);
        }
        let mut res = u32_to_le_bytes(self.flags);
        let mut tail = self.range.to_bytes();
        res.append(&mut tail);
        res
    }

    pub fn is_compressed(&self) -> (r: bool)
        ensures
            r == is_compressed(*self),
    {
        self.flags & FLAG_COMPRESSED != 0
    }

    pub fn is_dir(&self) -> (r: bool)
        ensures
            r == is_dir(*self),
    {
        self.flags & FLAG_DIR != 0
    }
}

impl Superblock {
    /// Decodes a superblock; a wrong magic or version is refused.
    pub fn from_bytes(b: &[u8]) -> (r: Result<Superblock, ZupError>)
        requires
            b@.len() == SUPERBLOCK_LEN,
        ensures
            r == parse_superblock(b@),
    {
        let dict = Range::from_bytes(slice_subrange(b, 0, 16));
        let root = Node::from_bytes(slice_subrange(b, 16, 36));
        let version = u32_from_le_bytes(slice_subrange(b, 36, 40));
        let magic = u32_from_le_bytes(slice_subrange(b, 40, 44));
        if magic != MAGIC {
            Err(ZupError::BadMagic)
        } else if version != VERSION {
            Err(ZupError::UnsupportedVersion)
        } else {
            Ok(Superblock { dict, root, version, magic })
        }
    }

    pub fn to_bytes(self) -> (r: Vec<u8>)
        ensures
            r@ == superblock_bytes(self),
            r@.len() == SUPERBLOCK_LEN,
    {
        proof {
            lemma_superblock_round_trip(self);
        }
        let mut res = self.dict.to_bytes();
        let mut root = self.root.to_bytes();
        let mut version = u32_to_le_bytes(self.version);
        let mut magic = u32_to_le_bytes(self.magic);
        res.append(&mut root);
        res.append(&mut version);
        res.append(&mut magic);
        res
    }
}

/// A superblock written by `to_bytes` decodes to itself, provided it carries
/// the archive's magic and version.
pub proof fn lemma_superblock_codec(s: Superblock)
    requires
        s.magic == MAGIC,
        s.version == VERSION,
    ensures
        parse_superblock(superblock_bytes(s)) == Ok::<Superblock, ZupError>(s),
{
    lemma_superblock_round_trip(s);
}

} // verus!
