//! Properties of the archive writer and reader taken together.
use vstd::prelude::*;

use crate::codec::{sha256_of, zstd_compressed};
use crate::layout::{
    is_compressed, is_dir, lemma_superblock_codec, superblock_bytes, Node, Superblock, MAGIC,
    SUPERBLOCK_LEN, VERSION,
};
use crate::listing::{lemma_listing_round_trip, listing_bytes, name_too_long};
use crate::reader::{body_of, dir_read, has_dict, node_read, open_archive, MAX_RANGE_LEN};
use crate::writer::{
    archive_bytes, dict_of, dict_range, dir_flagged, node_payload, view_wf, write_step,
    WriterView,
};

verus! {

/// Writing a payload a second time stores nothing more and returns the node
/// of the first write.
pub proof fn lemma_dedup_idempotent(v: WriterView, p: Seq<u8>)
    ensures
        write_step(write_step(v, p).0, p) == write_step(v, p),
{
}

/// Two payloads with equal bytes, written one after the other, are stored
/// once: the second leaves the archive as it was and gets the first's node.
pub proof fn lemma_equal_payloads_share_node(v: WriterView, p: Seq<u8>, q: Seq<u8>)
    requires
        p == q,
    ensures
        write_step(write_step(v, p).0, q).0 == write_step(v, p).0,
        write_step(write_step(v, p).0, q).1 == write_step(v, p).1,
{
}

/// A newly stored node is compressed exactly when compression is on and the
/// zstd frame is strictly shorter than the payload.
pub proof fn lemma_compressed_iff_shorter(v: WriterView, p: Seq<u8>)
    requires
        !v.table.contains_key(sha256_of(p)),
    ensures
        is_compressed(write_step(v, p).1) <==> match v.comp {
            Some((d, l)) => match zstd_compressed(l, d, p) {
                Some(c) => c.len() < p.len(),
                None => false,
            },
            None => false,
        },
{
    assert(1u32 & 1u32 != 0) by (bit_vector);
    assert(0u32 & 1u32 == 0) by (bit_vector);
}

/// Setting the directory flag on a node leaves its compression flag as it was.
pub proof fn lemma_flag_separation(n: Node)
    requires
        !is_dir(n),
    ensures
        is_dir(dir_flagged(n)),
        is_compressed(dir_flagged(n)) == is_compressed(n),
        !is_dir(n) && dir_flagged(n).range == n.range,
{
    let f = n.flags;
    assert((f | 2u32) & 2u32 != 0) by (bit_vector);
    assert(((f | 2u32) & 1u32 != 0) == (f & 1u32 != 0)) by (bit_vector);
}

/// Every node a writer recorded reads back, from the sealed archive, as a
/// payload with the digest it was recorded under; the archive opens with the
/// given root and the writer's dictionary.
pub proof fn lemma_round_trip(v: WriterView, root: Node, h: Seq<u8>)
    requires
        view_wf(v),
        v.table.contains_key(h),
        v.table[h].range.len <= MAX_RANGE_LEN,
        match v.comp {
            Some((d, _)) => d.len() <= MAX_RANGE_LEN && (v.out.len() > 0 || d.len() > 0),
            None => true,
        },
        v.out.len() + SUPERBLOCK_LEN + match v.comp { Some((d, _)) => d.len(), None => 0 } <= u64::MAX,
    ensures
        ({
            let a = archive_bytes(v, root);
            &&& open_archive(a) is Ok
            &&& open_archive(a)->Ok_0.0.root == root
            &&& open_archive(a)->Ok_0.1 == dict_of(v.comp)
            &&& exists|p: Seq<u8>|
                sha256_of(p) == h && node_read(body_of(a), dict_of(v.comp), v.table[h]) == Ok::<
                    Seq<u8>,
                    crate::error::ZupError,
                >(p)
        }),
{
    let a = archive_bytes(v, root);
    let sb = Superblock { dict: dict_range(v), root, version: VERSION, magic: MAGIC };
    lemma_superblock_codec(sb);
    let d = match v.comp {
        Some((d, _)) => d,
        None => Seq::empty(),
    };
    crate::layout::lemma_superblock_round_trip(sb);
    assert(a =~= (v.out + d) + superblock_bytes(sb));
    assert(a.subrange(a.len() - SUPERBLOCK_LEN, a.len() as int) =~= superblock_bytes(sb));
    assert(body_of(a) =~= v.out + d);
    if v.comp is Some {
        assert(has_dict(sb));
        assert((v.out + d).subrange(v.out.len() as int, (v.out.len() + d.len()) as int) =~= d);
    } else {
        assert(!has_dict(sb));
    }
    let n = v.table[h];
    let p = choose|p: Seq<u8>| sha256_of(p) == h && node_payload(v.out, n, dict_of(v.comp)) == Some(p);
    assert((v.out + d).subrange(n.range.offset as int, n.range.offset + n.range.len)
        =~= v.out.subrange(n.range.offset as int, n.range.offset + n.range.len));
    assert(node_read(body_of(a), dict_of(v.comp), n) == Ok::<Seq<u8>, crate::error::ZupError>(p));
}

/// A directory written as the listing of `es` reads back, through the node
/// that carries the directory flag, as exactly those entries in that order,
/// unless another payload has the listing's digest.
pub proof fn lemma_directory_reads_back(v: WriterView, root: Node, es: Seq<(Seq<char>, Node)>)
    requires
        view_wf(v),
        v.table.contains_key(sha256_of(listing_bytes(es))),
        forall|q: Seq<u8>| #[trigger] sha256_of(q) == sha256_of(listing_bytes(es)) ==> q == listing_bytes(es),
        forall|i: int| 0 <= i < es.len() ==> !name_too_long(#[trigger] es[i].0),
        v.table[sha256_of(listing_bytes(es))].range.len <= MAX_RANGE_LEN,
        match v.comp {
            Some((d, _)) => d.len() <= MAX_RANGE_LEN && (v.out.len() > 0 || d.len() > 0),
            None => true,
        },
        v.out.len() + SUPERBLOCK_LEN + match v.comp { Some((d, _)) => d.len(), None => 0 } <= u64::MAX,
    ensures
        dir_read(
            body_of(archive_bytes(v, root)),
            dict_of(v.comp),
            dir_flagged(v.table[sha256_of(listing_bytes(es))]),
        ) == Ok::<Seq<(Seq<char>, Node)>, crate::error::ZupError>(es),
{
    let h = sha256_of(listing_bytes(es));
    let n = v.table[h];
    lemma_round_trip(v, root, h);
    lemma_listing_round_trip(es);
    let f = n.flags;
    assert(((f | 2u32) & 1u32 != 0) == (f & 1u32 != 0)) by (bit_vector);
    assert(node_read(body_of(archive_bytes(v, root)), dict_of(v.comp), dir_flagged(n))
        == node_read(body_of(archive_bytes(v, root)), dict_of(v.comp), n));
}

/// A file written with payload `p` reads back, from the sealed archive, as
/// exactly `p`, unless another payload has the same digest.
pub proof fn lemma_file_reads_back(v: WriterView, root: Node, p: Seq<u8>)
    requires
        view_wf(v),
        v.table.contains_key(sha256_of(p)),
        forall|q: Seq<u8>| #[trigger] sha256_of(q) == sha256_of(p) ==> q == p,
        v.table[sha256_of(p)].range.len <= MAX_RANGE_LEN,
        match v.comp {
            Some((d, _)) => d.len() <= MAX_RANGE_LEN && (v.out.len() > 0 || d.len() > 0),
            None => true,
        },
        v.out.len() + SUPERBLOCK_LEN + match v.comp { Some((d, _)) => d.len(), None => 0 } <= u64::MAX,
    ensures
        node_read(body_of(archive_bytes(v, root)), dict_of(v.comp), v.table[sha256_of(p)])
            == Ok::<Seq<u8>, crate::error::ZupError>(p),
{
    lemma_round_trip(v, root, sha256_of(p));
}

} // verus!
