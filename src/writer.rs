//! The archive writer: content-addressed, deduplicating, optionally
//! compressing node payloads, terminated by a superblock.
use std::collections::HashMap;
use vstd::bytes::*;
use vstd::prelude::*;
use vstd::slice::slice_subrange;
use vstd::utf8::encode_utf8;

use crate::codec::{compress, sha256, sha256_of, zstd_compressed, zstd_decompressed};
use crate::error::ZupError;
use crate::layout::{
    is_compressed, is_dir, superblock_bytes, Node, Range, Superblock, FLAG_COMPRESSED, FLAG_DIR,
    MAGIC, VERSION,
};
use crate::listing::{
    bytes_equal, encode_entries, has_duplicate_names, entries_view, listing_bytes, listing_fault, name_too_long, name_well_formed,
    names_sorted, sort_entries, DirectoryEntry,
};

verus! {

broadcast use vstd::std_specs::hash::group_hash_axioms;

/// Compression settings of a build.
#[derive(Clone, Copy, Debug, PartialEq, Eq, Structural)]
pub struct CompressConfig {
    pub level: i32,
    pub dict_size: usize,
    pub dict_train_size: usize,
}

/// The dictionary and level that node payloads are compressed with.
pub struct WriterCompress {
    pub dict: Vec<u8>,
    pub level: i32,
}

/// Counters kept while writing; each saturates at `u64::MAX`.
#[derive(Clone, Copy, Debug, PartialEq, Eq, Structural)]
pub struct Stats {
    pub total_files: u64,
    pub total_dirs: u64,
    pub nodes_before_dedup: u64,
    pub nodes_after_dedup: u64,
    pub uncompressed_bytes_before_dedup: u64,
    pub uncompressed_bytes_after_dedup: u64,
    pub compressed_bytes_before_dedup: u64,
    pub compressed_bytes_after_dedup: u64,
}

pub open spec fn sat_add(a: u64, b: int) -> u64 {
    if a + b <= u64::MAX {
        (a + b) as u64
    } else {
        u64::MAX
    }
}

fn saturating(a: u64, b: u64) -> (r: u64)
    ensures
        r == sat_add(a, b as int),
{
    a.saturating_add(b)
}

/// The abstract state of a writer: the bytes written so far, the node
/// stored for each payload digest, and the compression settings.
pub struct WriterView {
    pub out: Seq<u8>,
    pub table: Map<Seq<u8>, Node>,
    pub comp: Option<(Seq<u8>, int)>,
}

pub open spec fn dict_of(comp: Option<(Seq<u8>, int)>) -> Option<Seq<u8>> {
    match comp {
        Some((d, _)) => Some(d),
        None => None,
    }
}

/// The bytes stored for a payload and the flags of its node: the zstd frame
/// where compression is on and the frame is strictly shorter, else the
/// payload itself.
pub open spec fn stored_form(comp: Option<(Seq<u8>, int)>, p: Seq<u8>) -> (Seq<u8>, u32) {
    match comp {
        Some((d, l)) => match zstd_compressed(l, d, p) {
            Some(c) => if c.len() < p.len() {
                (c, FLAG_COMPRESSED)
            } else {
                (p, 0u32)
            },
            None => (p, 0u32),
        },
        None => (p, 0u32),
    }
}

/// One payload written: an earlier node with the same digest is reused;
/// otherwise the stored form is appended and recorded.
pub open spec fn write_step(v: WriterView, p: Seq<u8>) -> (WriterView, Node) {
    let h = sha256_of(p);
    if v.table.contains_key(h) {
        (v, v.table[h])
    } else {
        let (bytes, flags) = stored_form(v.comp, p);
        let n = Node { flags, range: Range { offset: v.out.len() as u64, len: bytes.len() as u64 } };
        (WriterView { out: v.out + bytes, table: v.table.insert(h, n), comp: v.comp }, n)
    }
}

/// The logical payload a node refers to in an archive, given the dictionary
/// (if any); `None` where the range falls outside or the frame does not decode.
pub open spec fn node_payload(archive: Seq<u8>, n: Node, dict: Option<Seq<u8>>) -> Option<Seq<u8>> {
    if n.range.offset + n.range.len > archive.len() {
        None
    } else {
        let raw = archive.subrange(n.range.offset as int, n.range.offset + n.range.len);
        if is_compressed(n) {
            match dict {
                Some(d) => zstd_decompressed(raw, d),
                None => None,
            }
        } else {
            Some(raw)
        }
    }
}

/// Every recorded node stands in the written bytes for a payload with the
/// digest it is recorded under.
pub open spec fn view_wf(v: WriterView) -> bool {
    &&& v.out.len() <= u64::MAX
    &&& table_sound(v.out, v.table, dict_of(v.comp))
}

pub open spec fn table_sound(out: Seq<u8>, table: Map<Seq<u8>, Node>, dict: Option<Seq<u8>>) -> bool {
    forall|h: Seq<u8>|
        #![trigger table[h]]
        table.contains_key(h) ==> !is_dir(table[h]) && exists|p: Seq<u8>|
            sha256_of(p) == h && node_payload(out, table[h], dict) == Some(p)
}

/// A node lies in the written payload region, which precedes the
/// dictionary and the superblock of the sealed archive.
pub open spec fn in_region(v: WriterView, n: Node) -> bool {
    n.range.offset + n.range.len <= v.out.len()
}

pub open spec fn dir_flagged(n: Node) -> Node {
    Node { flags: n.flags | FLAG_DIR, range: n.range }
}

/// The dictionary range recorded in the superblock.
pub open spec fn dict_range(v: WriterView) -> Range {
    match v.comp {
        Some((d, _)) => Range { offset: v.out.len() as u64, len: d.len() as u64 },
        None => Range { offset: 0, len: 0 },
    }
}

/// The archive a writer seals: the payloads, the dictionary if compression
/// is on, and the superblock.
pub open spec fn archive_bytes(v: WriterView, root: Node) -> Seq<u8> {
    let sb = Superblock { dict: dict_range(v), root, version: VERSION, magic: MAGIC };
    match v.comp {
        Some((d, _)) => v.out + d + superblock_bytes(sb),
        None => v.out + superblock_bytes(sb),
    }
}

/// The content address of a logical payload: its SHA-256 digest.
pub fn payload_digest(p: &[u8]) -> (r: Vec<u8>)
    ensures
        r@ == sha256_of(p@),
        r@.len() == 32,
{
    sha256(p)
}

struct DedupEntry {
    hash: Vec<u8>,
    node: Node,
}

spec fn bucket_key(h: Seq<u8>) -> u64 {
    spec_u64_from_le_bytes(h.subrange(0, 8))
}

spec fn buckets_sound(buckets: Map<u64, Vec<DedupEntry>>, table: Map<Seq<u8>, Node>) -> bool {
    forall|k: u64, i: int|
        #![trigger buckets[k][i]]
        buckets.contains_key(k) && 0 <= i < buckets[k]@.len() ==> {
            let e = buckets[k][i];
            &&& e.hash@.len() == 32
            &&& bucket_key(e.hash@) == k
            &&& table.contains_key(e.hash@)
            &&& table[e.hash@] == e.node
        }
}

spec fn buckets_complete(buckets: Map<u64, Vec<DedupEntry>>, table: Map<Seq<u8>, Node>) -> bool {
    forall|h: Seq<u8>|
        #![trigger table[h]]
        table.contains_key(h) ==> {
            &&& h.len() == 32
            &&& buckets.contains_key(bucket_key(h))
            &&& exists|i: int|
                0 <= i < buckets[bucket_key(h)]@.len()
                    && (#[trigger] buckets[bucket_key(h)][i]).hash@ == h
        }
}

#[verifier::opaque]
spec fn writer_inv(
    out: Seq<u8>,
    buckets: Map<u64, Vec<DedupEntry>>,
    table: Map<Seq<u8>, Node>,
    comp: Option<(Seq<u8>, int)>,
) -> bool {
    &&& view_wf(WriterView { out, table, comp })
    &&& buckets_sound(buckets, table)
    &&& buckets_complete(buckets, table)
}

pub struct ArchiveWriter {
    out: Vec<u8>,
    buckets: HashMap<u64, Vec<DedupEntry>>,
    comp: Option<WriterCompress>,
    stats: Stats,
    table: Ghost<Map<Seq<u8>, Node>>,
}

impl ArchiveWriter {
    pub closed spec fn view(&self) -> WriterView {
        WriterView {
            out: self.out@,
            table: self.table@,
            comp: match self.comp {
                Some(c) => Some((c.dict@, c.level as int)),
                None => None,
            },
        }
    }

    pub closed spec fn stats_view(&self) -> Stats {
        self.stats
    }

    pub closed spec fn wf(&self) -> bool {
        writer_inv(self.out@, self.buckets@, self.table@, self.view().comp)
    }

    /// A writer with nothing written; `comp` holds the dictionary and level
    /// when compression is on.
    pub fn new(comp: Option<WriterCompress>) -> (r: ArchiveWriter)
        ensures
            r.wf(),
            r.view().out.len() == 0,
            r.view().table.is_empty(),
            r.view().comp == match comp {
                Some(c) => Some((c.dict@, c.level as int)),
                None => None::<(Seq<u8>, int)>,
            },
            r.stats_view() == (Stats {
                total_files: 0,
                total_dirs: 0,
                nodes_before_dedup: 0,
                nodes_after_dedup: 0,
                uncompressed_bytes_before_dedup: 0,
                uncompressed_bytes_after_dedup: 0,
                compressed_bytes_before_dedup: 0,
                compressed_bytes_after_dedup: 0,
            }),
    {
        proof {
            reveal(writer_inv);
        }
        let w = ArchiveWriter {
            out: Vec::new(),
            buckets: HashMap::new(),
            comp,
            stats: Stats {
                total_files: 0,
                total_dirs: 0,
                nodes_before_dedup: 0,
                nodes_after_dedup: 0,
                uncompressed_bytes_before_dedup: 0,
                uncompressed_bytes_after_dedup: 0,
                compressed_bytes_before_dedup: 0,
                compressed_bytes_after_dedup: 0,
            },
            table: Ghost(Map::empty()),
        };
        w
    }

    pub fn stats(&self) -> (r: Stats)
        ensures
            r == self.stats_view(),
    {
        self.stats
    }

    /// Number of bytes written so far.
    pub fn offset(&self) -> (r: u64)
        requires
            self.wf(),
        ensures
            r == self.view().out.len(),
    {
        self.out.len() as u64
    }

    pub fn compression_enabled(&self) -> (r: bool)
        ensures
            r == self.view().comp is Some,
    {
        self.comp.is_some()
    }

    fn lookup(&self, h: &Vec<u8>) -> (r: Option<Node>)
        requires
            self.wf(),
            h@.len() == 32,
        ensures
            match r {
                Some(n) => self.table@.contains_key(h@) && self.table@[h@] == n,
                None => !self.table@.contains_key(h@),
            },
    {
        proof {
            reveal(writer_inv);
        }
        let key = u64_from_le_bytes(slice_subrange(h.as_slice(), 0, 8));
        match self.buckets.get(&key) {
            Some(b) => {
                let mut i: usize = 0;
                while i < b.len()
                    invariant
                        self.wf(),
                        self.buckets@.contains_key(key),
                        self.buckets@[key] == *b,
                        key == bucket_key(h@),
                        i <= b@.len(),
                        forall|j: int| 0 <= j < i ==> (#[trigger] b@[j]).hash@ != h@,
                    decreases b@.len() - i,
                {
                    proof {
                        reveal(writer_inv);
                    }
                    if bytes_equal(b[i].hash.as_slice(), h.as_slice()) {
                        assert(self.buckets@[key][i as int] == b@[i as int]);
                        return Some(b[i].node);
                    }
                    i = i + 1;
                }
                proof {
                    if self.table@.contains_key(h@) {
                        let _ = self.table@[h@];
                        let i = choose|i: int|
                            0 <= i < self.buckets@[bucket_key(h@)]@.len()
                                && (#[trigger] self.buckets@[bucket_key(h@)][i]).hash@ == h@;
                        assert(b@[i].hash@ == h@);
                    }
                }
                None
            },
            None => {
                proof {
                    if self.table@.contains_key(h@) {
                        let _ = self.table@[h@];
                    }
                }
                None
            },
        }
    }

    /// Stores one logical payload, or reuses the node of an earlier payload
    /// with the same digest.
    pub fn write_node(&mut self, p: &[u8]) -> (r: Node)
        requires
            old(self).wf(),
        ensures
            final(self).wf(),
            (final(self).view(), r) == write_step(old(self).view(), p@),
            !is_dir(r),
            in_region(final(self).view(), r),
            final(self).stats_view().total_files == old(self).stats_view().total_files,
            final(self).stats_view().total_dirs == old(self).stats_view().total_dirs,
            final(self).stats_view().nodes_before_dedup == sat_add(old(self).stats_view().nodes_before_dedup, 1),
            final(self).stats_view().nodes_after_dedup == sat_add(
                old(self).stats_view().nodes_after_dedup,
                if old(self).view().table.contains_key(sha256_of(p@)) { 0 } else { 1 },
            ),
    {
        proof {
            reveal(writer_inv);
        }
        self.stats.nodes_before_dedup = saturating(self.stats.nodes_before_dedup, 1);
        self.stats.uncompressed_bytes_before_dedup = saturating(self.stats.uncompressed_bytes_before_dedup, p.len() as u64);
        let h = payload_digest(p);
        if let Some(n) = self.lookup(&h) {
            self.stats.compressed_bytes_before_dedup = saturating(self.stats.compressed_bytes_before_dedup, n.range.len);
            return n;
        }
        self.stats.nodes_after_dedup = saturating(self.stats.nodes_after_dedup, 1);
        self.stats.uncompressed_bytes_after_dedup = saturating(self.stats.uncompressed_bytes_after_dedup, p.len() as u64);
        let mut flags: u32 = 0;
        let mut frame: Option<Vec<u8>> = None;
        let ghost dict = dict_of(self.view().comp);
        let ghost form = stored_form(self.view().comp, p@);
        match &self.comp {
            Some(c) => {
                match compress(c.level, c.dict.as_slice(), p) {
                    Some(cdata) => {
                        if cdata.len() < p.len() {
                            frame = Some(cdata);
                            flags = FLAG_COMPRESSED;
                        }
                    },
                    None => {},
                }
            },
            None => {},
        }
        assert(frame is Some ==> flags == FLAG_COMPRESSED && dict is Some
            && zstd_decompressed(frame->0@, dict->0) == Some(p@) && form == (frame->0@, FLAG_COMPRESSED));
        assert(frame is None ==> flags == 0 && form == (p@, 0u32));
        let ghost old_out = self.out@;
        let offset = self.out.len() as u64;
        let len: u64;
        match frame {
            Some(mut f) => {
                len = f.len() as u64;
                self.out.append(&mut f);
            },
            None => {
                len = p.len() as u64;
                self.out.extend_from_slice(p);
            },
        }
        self.stats.compressed_bytes_before_dedup = saturating(self.stats.compressed_bytes_before_dedup, len);
        self.stats.compressed_bytes_after_dedup = saturating(self.stats.compressed_bytes_after_dedup, len);
        let node = Node { flags, range: Range { offset, len } };
        proof {
            assert(0u32 & FLAG_DIR == 0) by (bit_vector);
            assert(FLAG_COMPRESSED & FLAG_DIR == 0) by (bit_vector);
        }
        let ghost old_table = self.table@;
        let ghost old_buckets = self.buckets@;
        let key = u64_from_le_bytes(slice_subrange(h.as_slice(), 0, 8));
        let mut bucket = match self.buckets.remove(&key) {
            Some(b) => b,
            None => Vec::new(),
        };
        let ghost old_bucket = bucket@;
        let ghost hv = h@;
        bucket.push(DedupEntry { hash: h, node });
        self.buckets.insert(key, bucket);
        self.table = Ghost(old_table.insert(hv, node));
        let total = self.out.len();
        proof {
            reveal(writer_inv);
            assert(total <= usize::MAX);
            let out = self.out@;
            assert(out =~= old_out + form.0);
            assert(out.subrange(offset as int, offset + len) =~= form.0);
            assert(node.flags == form.1);
            if flags == 0 {
                assert(flags & 1u32 == 0) by (bit_vector)
                    requires
                        flags == 0u32,
                ;
                assert(!is_compressed(node));
            } else {
                assert(flags & 1u32 != 0) by (bit_vector)
                    requires
                        flags == 1u32,
                ;
                assert(is_compressed(node));
            }
            assert(1u32 & 1u32 != 0) by (bit_vector);
            assert(0u32 & 1u32 == 0) by (bit_vector);
            assert(node_payload(out, node, dict) == Some(p@));
            assert forall|h2: Seq<u8>| #![trigger self.table@[h2]] self.table@.contains_key(h2) implies !is_dir(self.table@[h2]) && exists|q: Seq<u8>|
                sha256_of(q) == h2 && node_payload(self.out@, self.table@[h2], dict) == Some(q) by {
                if h2 == hv {
                    assert(sha256_of(p@) == h2);
                } else {
                    let n2 = old_table[h2];
                    let q = choose|q: Seq<u8>| sha256_of(q) == h2 && node_payload(old_out, n2, dict) == Some(q);
                    assert(out.subrange(n2.range.offset as int, n2.range.offset + n2.range.len) =~= old_out.subrange(n2.range.offset as int, n2.range.offset + n2.range.len));
                    assert(node_payload(out, n2, dict) == Some(q));
                }
            }
            assert forall|k: u64, i: int|
                #![trigger self.buckets@[k][i]]
                self.buckets@.contains_key(k) && 0 <= i < self.buckets@[k]@.len() implies {
                    let e = self.buckets@[k][i];
                    &&& e.hash@.len() == 32
                    &&& bucket_key(e.hash@) == k
                    &&& self.table@.contains_key(e.hash@)
                    &&& self.table@[e.hash@] == e.node
                } by {
                if k == key {
                    if i < old_bucket.len() {
                        assert(self.buckets@[k][i] == old_buckets[k][i]);
                        let _ = old_table[old_buckets[k][i].hash@];
                    }
                } else {
                    assert(self.buckets@[k] == old_buckets[k]);
                    let _ = old_table[old_buckets[k][i].hash@];
                }
            }
            assert(buckets_complete(self.buckets@, self.table@)) by {
                assert forall|h2: Seq<u8>| #[trigger] self.table@.contains_key(h2) implies {
                    &&& h2.len() == 32
                    &&& self.buckets@.contains_key(bucket_key(h2))
                    &&& exists|i: int|
                        0 <= i < self.buckets@[bucket_key(h2)]@.len()
                            && (#[trigger] self.buckets@[bucket_key(h2)][i]).hash@ == h2
                } by {
                    if h2 == hv {
                        let j = old_bucket.len() as int;
                        assert(self.buckets@[key][j].hash@ == h2);
                        assert(0 <= j < self.buckets@[bucket_key(h2)]@.len()
                            && self.buckets@[bucket_key(h2)][j].hash@ == h2);
                    } else {
                        assert(old_table.contains_key(h2));
                        let _ = old_table[h2];
                        let i = choose|i: int|
                            0 <= i < old_buckets[bucket_key(h2)]@.len()
                                && (#[trigger] old_buckets[bucket_key(h2)][i]).hash@ == h2;
                        if bucket_key(h2) == key {
                            assert(self.buckets@[key][i] == old_bucket[i]);
                        } else {
                            assert(self.buckets@[bucket_key(h2)][i] == old_buckets[bucket_key(h2)][i]);
                        }
                        assert(0 <= i < self.buckets@[bucket_key(h2)]@.len()
                            && self.buckets@[bucket_key(h2)][i].hash@ == h2);
                    }
                }
            }
            assert(view_wf(self.view()));
            assert(buckets_sound(self.buckets@, self.table@));
            assert(buckets_complete(self.buckets@, self.table@));
            assert(self.wf());
        }
        node
    }
}

impl ArchiveWriter {
    /// Stores the contents of one file.
    pub fn add_file(&mut self, data: &[u8]) -> (r: Node)
        requires
            old(self).wf(),
        ensures
            final(self).wf(),
            (final(self).view(), r) == write_step(old(self).view(), data@),
            !is_dir(r),
            in_region(final(self).view(), r),
            final(self).stats_view().total_files == sat_add(old(self).stats_view().total_files, 1),
            final(self).stats_view().nodes_before_dedup == sat_add(old(self).stats_view().nodes_before_dedup, 1),
            final(self).stats_view().nodes_after_dedup == sat_add(
                old(self).stats_view().nodes_after_dedup,
                if old(self).view().table.contains_key(sha256_of(data@)) { 0 } else { 1 },
            ),
    {
        self.stats.total_files = saturating(self.stats.total_files, 1);
        proof {
            reveal(writer_inv);
        }
        self.write_node(data)
    }

    /// Stores a directory: its entries are ordered by name and written as a
    /// listing, and the node returned carries the directory flag.
    pub fn add_dir(&mut self, entries: Vec<DirectoryEntry>) -> (r: Result<Node, ZupError>)
        requires
            old(self).wf(),
            forall|k: int| 0 <= k < entries@.len() ==> in_region(old(self).view(), #[trigger] entries@[k].node),
        ensures
            final(self).wf(),
            r is Ok ==> in_region(final(self).view(), r->Ok_0),
            match r {
                Ok(n) => exists|es: Seq<(Seq<char>, Node)>| {
                    &&& names_sorted(es)
                    &&& listing_fault(es) is None
                    &&& same_entries(es, entries_view(entries@))
                    &&& final(self).view() == write_step(old(self).view(), listing_bytes(es)).0
                    &&& n == dir_flagged(write_step(old(self).view(), listing_bytes(es)).1)
                },
                Err(e) => final(self).view() == old(self).view() && dir_fault(entries_view(entries@)) == Some(e),
            },
            dir_fault(entries_view(entries@)) is None <==> r is Ok,
            r is Ok ==> final(self).stats_view().total_dirs == sat_add(old(self).stats_view().total_dirs, 1),
    {
        let ghost ev = entries_view(entries@);
        let sorted = match sort_entries(entries) {
            Ok(v) => v,
            Err(e) => {
                proof {
                    let (i, j) = choose|i: int, j: int|
                        0 <= i < j < entries@.len() && (#[trigger] entries@[i]).name@ == (#[trigger] entries@[j]).name@;
                    assert(ev[i].0 == ev[j].0);
                }
                return Err(e);
            },
        };
        let ghost sv = entries_view(sorted@);
        proof {
            lemma_same_entries_faults(sv, ev);
        }
        let buf = match encode_entries(sorted.as_slice()) {
            Ok(b) => b,
            Err(e) => {
                return Err(e);
            },
        };
        self.stats.total_dirs = saturating(self.stats.total_dirs, 1);
        proof {
            reveal(writer_inv);
        }
        let n = self.write_node(buf.as_slice());
        Ok(Node { flags: n.flags | FLAG_DIR, range: n.range })
    }

    /// Seals the archive: appends the dictionary when compression is on,
    /// then the superblock naming `root`.
    pub fn finish(self, root: Node) -> (r: Vec<u8>)
        requires
            self.wf(),
            in_region(self.view(), root),
        ensures
            r@ == archive_bytes(self.view(), root),
    {
        proof {
            reveal(writer_inv);
        }
        let ghost v = self.view();
        let mut out = self.out;
        let dict = match self.comp {
            Some(c) => {
                let offset = out.len() as u64;
                let len = c.dict.len() as u64;
                out.extend_from_slice(c.dict.as_slice());
                Range { offset, len }
            },
            None => Range { offset: 0, len: 0 },
        };
        let sb = Superblock { dict, root, version: VERSION, magic: MAGIC };
        let mut tail = sb.to_bytes();
        out.append(&mut tail);
        out
    }
}

impl ArchiveWriter {
    /// Stores a directory of the input tree; a directory left empty by the
    /// file filter is omitted from its parent, so nothing is stored for it.
    pub fn add_tree_dir(&mut self, entries: Vec<DirectoryEntry>) -> (r: Result<Option<Node>, ZupError>)
        requires
            old(self).wf(),
            forall|k: int| 0 <= k < entries@.len() ==> in_region(old(self).view(), #[trigger] entries@[k].node),
        ensures
            final(self).wf(),
            entries@.len() > 0 ==> (dir_fault(entries_view(entries@)) is None <==> r is Ok),
            r matches Ok(Some(n)) ==> in_region(final(self).view(), n),
            entries@.len() == 0 ==> r == Ok::<Option<Node>, ZupError>(None) && final(self).view() == old(self).view(),
            entries@.len() > 0 ==> match r {
                Ok(Some(n)) => is_dir(n) && exists|es: Seq<(Seq<char>, Node)>| {
                    &&& names_sorted(es)
                    &&& same_entries(es, entries_view(entries@))
                    &&& final(self).view() == write_step(old(self).view(), listing_bytes(es)).0
                    &&& n == dir_flagged(write_step(old(self).view(), listing_bytes(es)).1)
                },
                Ok(None) => false,
                Err(e) => final(self).view() == old(self).view() && dir_fault(entries_view(entries@)) == Some(e),
            },
    {
        if entries.len() == 0 {
            return Ok(None);
        }
        let ghost ev = entries_view(entries@);
        match self.add_dir(entries) {
            Ok(n) => {
                proof {
                    let es = choose|es: Seq<(Seq<char>, Node)>| {
                        &&& names_sorted(es)
                        &&& listing_fault(es) is None
                        &&& same_entries(es, ev)
                        &&& self.view() == write_step(old(self).view(), listing_bytes(es)).0
                        &&& n == dir_flagged(write_step(old(self).view(), listing_bytes(es)).1)
                    };
                    let m = write_step(old(self).view(), listing_bytes(es)).1;
                    let f = m.flags;
                    assert((f | 2u32) & 2u32 != 0) by (bit_vector);
                }
                Ok(Some(n))
            },
            Err(e) => Err(e),
        }
    }

    /// Seals the archive of an input tree whose root is `root`; a tree left
    /// with no file is refused.
    pub fn finish_tree(self, root: Option<Node>) -> (r: Result<Vec<u8>, ZupError>)
        requires
            self.wf(),
            root matches Some(n) ==> in_region(self.view(), n),
        ensures
            match root {
                None => r == Err::<Vec<u8>, ZupError>(ZupError::EmptyTree),
                Some(n) => r is Ok && r->Ok_0@ == archive_bytes(self.view(), n),
            },
    {
        match root {
            None => Err(ZupError::EmptyTree),
            Some(n) => Ok(self.finish(n)),
        }
    }
}

pub open spec fn same_entries(a: Seq<(Seq<char>, Node)>, b: Seq<(Seq<char>, Node)>) -> bool {
    &&& a.len() == b.len()
    &&& forall|x: (Seq<char>, Node)| a.contains(x) <==> b.contains(x)
}


/// Why a set of entries cannot be stored as a directory, if it cannot.
pub open spec fn dir_fault(es: Seq<(Seq<char>, Node)>) -> Option<ZupError> {
    if has_duplicate_names(es) {
        Some(ZupError::DuplicateName)
    } else if exists|i: int| 0 <= i < es.len() && name_too_long(#[trigger] es[i].0) {
        Some(ZupError::NameTooLong)
    } else if exists|i: int| 0 <= i < es.len() && !name_well_formed(encode_utf8(#[trigger] es[i].0)) {
        Some(ZupError::InvalidName)
    } else {
        None
    }
}

proof fn lemma_faults_carry(s: Seq<(Seq<char>, Node)>, t: Seq<(Seq<char>, Node)>)
    requires
        forall|x: (Seq<char>, Node)| s.contains(x) ==> t.contains(x),
    ensures
        (exists|i: int| 0 <= i < s.len() && name_too_long(#[trigger] s[i].0))
            ==> (exists|i: int| 0 <= i < t.len() && name_too_long(#[trigger] t[i].0)),
        (exists|i: int| 0 <= i < s.len() && !name_well_formed(encode_utf8(#[trigger] s[i].0)))
            ==> (exists|i: int| 0 <= i < t.len() && !name_well_formed(encode_utf8(#[trigger] t[i].0))),
{
    if exists|i: int| 0 <= i < s.len() && name_too_long(#[trigger] s[i].0) {
        let i = choose|i: int| 0 <= i < s.len() && name_too_long(#[trigger] s[i].0);
        assert(s.contains(s[i]));
        let j = choose|j: int| 0 <= j < t.len() && t[j] == s[i];
        assert(name_too_long(t[j].0));
    }
    if exists|i: int| 0 <= i < s.len() && !name_well_formed(encode_utf8(#[trigger] s[i].0)) {
        let i = choose|i: int| 0 <= i < s.len() && !name_well_formed(encode_utf8(#[trigger] s[i].0));
        assert(s.contains(s[i]));
        let j = choose|j: int| 0 <= j < t.len() && t[j] == s[i];
        assert(!name_well_formed(encode_utf8(t[j].0)));
    }
}

proof fn lemma_same_entries_faults(a: Seq<(Seq<char>, Node)>, b: Seq<(Seq<char>, Node)>)
    requires
        forall|x: (Seq<char>, Node)| a.contains(x) <==> b.contains(x),
    ensures
        (exists|i: int| 0 <= i < a.len() && name_too_long(#[trigger] a[i].0))
            <==> (exists|i: int| 0 <= i < b.len() && name_too_long(#[trigger] b[i].0)),
        (exists|i: int| 0 <= i < a.len() && !name_well_formed(encode_utf8(#[trigger] a[i].0)))
            <==> (exists|i: int| 0 <= i < b.len() && !name_well_formed(encode_utf8(#[trigger] b[i].0))),
{
    lemma_faults_carry(a, b);
    lemma_faults_carry(b, a);
}

} // verus!
