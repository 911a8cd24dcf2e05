//! Directory listing payloads: a sequence of entries, each a one-byte name
//! length, the UTF-8 name, and the 20-byte node it refers to.
use vstd::prelude::*;
use vstd::utf8::*;
use vstd::string::*;

use crate::byte_reader::ByteReader;
use crate::error::ZupError;
use crate::layout::{lemma_node_round_trip, node_bytes, node_of_bytes, Node};

verus! {

broadcast use vstd::utf8::group_utf8_lib;

/// One entry of a directory: a name and the node it refers to.
#[derive(Clone, Debug, PartialEq, Eq)]
pub struct DirectoryEntry {
    pub name: String,
    pub node: Node,
}

impl View for DirectoryEntry {
    type V = (Seq<char>, Node);

    open spec fn view(&self) -> (Seq<char>, Node) {
        (self.name@, self.node)
    }
}

pub open spec fn entries_view(v: Seq<DirectoryEntry>) -> Seq<(Seq<char>, Node)> {
    v.map_values(|e: DirectoryEntry| e@)
}

pub open spec fn entry_bytes(name: Seq<u8>, node: Node) -> Seq<u8> {
    seq![name.len() as u8] + name + node_bytes(node)
}

/// The payload of a listing, entry after entry.
pub open spec fn listing_bytes(es: Seq<(Seq<char>, Node)>) -> Seq<u8>
    decreases es.len(),
{
    if es.len() == 0 {
        Seq::empty()
    } else {
        listing_bytes(es.drop_last()) + entry_bytes(encode_utf8(es.last().0), es.last().1)
    }
}

/// What a reader makes of a listing payload: its entries, or the first fault met.
pub open spec fn parse_listing(b: Seq<u8>) -> Result<Seq<(Seq<char>, Node)>, ZupError>
    decreases b.len(),
{
    if b.len() == 0 {
        Ok(Seq::empty())
    } else {
        let n = b[0] as int;
        if 1 + n > b.len() {
            Err(ZupError::TruncatedListing)
        } else if !valid_utf8(b.subrange(1, 1 + n)) {
            Err(ZupError::BadName)
        } else if 1 + n + 20 > b.len() {
            Err(ZupError::TruncatedListing)
        } else {
            let first = (decode_utf8(b.subrange(1, 1 + n)), node_of_bytes(b.subrange(1 + n, 21 + n)));
            prepend_ok(seq![first], parse_listing(b.subrange(21 + n, b.len() as int)))
        }
    }
}

pub open spec fn prepend_ok(
    acc: Seq<(Seq<char>, Node)>,
    r: Result<Seq<(Seq<char>, Node)>, ZupError>,
) -> Result<Seq<(Seq<char>, Node)>, ZupError> {
    match r {
        Ok(s) => Ok(acc + s),
        Err(e) => Err(e),
    }
}

/// Strict lexicographic order on bytes.
pub open spec fn bytes_lt(a: Seq<u8>, b: Seq<u8>) -> bool
    decreases a.len(),
{
    if b.len() == 0 {
        false
    } else if a.len() == 0 {
        true
    } else if a[0] != b[0] {
        a[0] < b[0]
    } else {
        bytes_lt(a.drop_first(), b.drop_first())
    }
}

pub open spec fn name_too_long(name: Seq<char>) -> bool {
    encode_utf8(name).len() > 255
}

/// A name (as bytes) may not be empty and may not hold `/` or NUL.
pub open spec fn name_well_formed(name: Seq<u8>) -> bool {
    &&& name.len() > 0
    &&& forall|i: int| 0 <= i < name.len() ==> name[i] != 0x2f && name[i] != 0
}

pub open spec fn names_sorted(es: Seq<(Seq<char>, Node)>) -> bool {
    forall|i: int|
        0 <= i < es.len() - 1 ==> bytes_lt(
            #[trigger] encode_utf8(es[i].0),
            encode_utf8(es[i + 1].0),
        )
}

/// Why a sequence of entries cannot be written as a listing, if it cannot.
pub open spec fn listing_fault(es: Seq<(Seq<char>, Node)>) -> Option<ZupError> {
    if exists|i: int| 0 <= i < es.len() && name_too_long(#[trigger] es[i].0) {
        Some(ZupError::NameTooLong)
    } else if exists|i: int| 0 <= i < es.len() && !name_well_formed(encode_utf8(#[trigger] es[i].0)) {
        Some(ZupError::InvalidName)
    } else if !names_sorted(es) {
        Some(ZupError::UnsortedListing)
    } else {
        None
    }
}

pub proof fn lemma_listing_bytes_front(es: Seq<(Seq<char>, Node)>)
    requires
        es.len() > 0,
    ensures
        listing_bytes(es) == entry_bytes(encode_utf8(es[0].0), es[0].1) + listing_bytes(
            es.drop_first(),
        ),
    decreases es.len(),
{
    if es.len() == 1 {
        assert(es.drop_last() =~= Seq::<(Seq<char>, Node)>::empty());
        assert(es.drop_first() =~= Seq::<(Seq<char>, Node)>::empty());
        assert(listing_bytes(es) =~= entry_bytes(encode_utf8(es[0].0), es[0].1));
    } else {
        lemma_listing_bytes_front(es.drop_last());
        assert(es.drop_last().drop_first() =~= es.drop_first().drop_last());
        assert(es.drop_first().last() == es.last());
        assert(listing_bytes(es) =~= entry_bytes(encode_utf8(es[0].0), es[0].1) + listing_bytes(
            es.drop_first(),
        ));
    }
}

/// Parsing the payload written for a sequence of entries gives the entries
/// back, whenever every name fits the one-byte length.
pub proof fn lemma_listing_round_trip(es: Seq<(Seq<char>, Node)>)
    requires
        forall|i: int| 0 <= i < es.len() ==> !name_too_long(#[trigger] es[i].0),
    ensures
        parse_listing(listing_bytes(es)) == Ok::<Seq<(Seq<char>, Node)>, ZupError>(es),
    decreases es.len(),
{
    if es.len() == 0 {
        assert(es =~= Seq::<(Seq<char>, Node)>::empty());
    } else {
        lemma_listing_bytes_front(es);
        let name = encode_utf8(es[0].0);
        let n = name.len() as int;
        let rest = es.drop_first();
        assert forall|i: int| 0 <= i < rest.len() implies !name_too_long(#[trigger] rest[i].0) by {
            assert(rest[i] == es[i + 1]);
        }
        lemma_listing_round_trip(rest);
        lemma_node_round_trip(es[0].1);
        let b = listing_bytes(es);
        assert(!name_too_long(es[0].0));
        assert(b[0] as int == n);
        assert(b.subrange(1, 1 + n) =~= name);
        assert(b.subrange(1 + n, 21 + n) =~= node_bytes(es[0].1));
        assert(b.subrange(21 + n, b.len() as int) =~= listing_bytes(rest));
        encode_utf8_valid_utf8(es[0].0);
        encode_utf8_decode_utf8(es[0].0);
        assert(valid_utf8(b.subrange(1, 1 + n)));
        assert(decode_utf8(b.subrange(1, 1 + n)) == es[0].0);
        assert(node_of_bytes(b.subrange(1 + n, 21 + n)) == es[0].1);
        assert(parse_listing(b.subrange(21 + n, b.len() as int)) == Ok::<Seq<(Seq<char>, Node)>, ZupError>(rest));
        assert(seq![es[0]] + rest =~= es);
    }
}

/// Relies on `std::str::from_utf8`: it accepts exactly the valid UTF-8 byte
/// strings, and the string it returns is made of those bytes.
#[verifier::external_body]
fn str_from_utf8(b: &[u8]) -> (r: Option<&str>)
    ensures
        match r {
            Some(s) => valid_utf8(b@) && s.spec_bytes() == b@,
            None => !valid_utf8(b@),
        },
{
    std::str::from_utf8(b).ok()
}

/// Decodes a listing payload into its entries.
pub fn parse_entries(data: &[u8]) -> (r: Result<Vec<DirectoryEntry>, ZupError>)
    ensures
        match r {
            Ok(v) => parse_listing(data@) == Ok::<Seq<(Seq<char>, Node)>, ZupError>(entries_view(v@)),
            Err(e) => parse_listing(data@) == Err::<Seq<(Seq<char>, Node)>, ZupError>(e),
        },
{
    let mut rd = ByteReader::new(data);
    let mut res: Vec<DirectoryEntry> = Vec::new();
    while !rd.eof()
        invariant
            rd.wf(),
            parse_listing(data@) == prepend_ok(entries_view(res@), parse_listing(rd.rest())),
        decreases rd.rest().len(),
    {
        let ghost b = rd.rest();
        let name = match rd.read_slice_len8() {
            Ok(s) => s,
            Err(_) => return Err(ZupError::TruncatedListing),
        };
        let name = match str_from_utf8(name) {
            Some(s) => s,
            None => return Err(ZupError::BadName),
        };
        let node = match rd.read::<20>() {
            Ok(s) => Node::from_bytes(s),
            Err(_) => return Err(ZupError::TruncatedListing),
        };
        let entry = DirectoryEntry { name: name.to_owned(), node };
        proof {
            let n = b[0] as int;
            encode_utf8_decode_utf8(name@);
            assert(b.subrange(1, 1 + n) == name.spec_bytes());
            assert(b.subrange(1 + n, b.len() as int).subrange(0, 20) =~= b.subrange(1 + n, 21 + n));
            assert(b.subrange(1 + n, b.len() as int).subrange(20, b.len() - 1 - n) =~= b.subrange(21 + n, b.len() as int));
        }
        let ghost old_res = res@;
        res.push(entry);
        proof {
            assert(entries_view(res@) =~= entries_view(old_res) + seq![entry@]);
            let r = parse_listing(rd.rest());
            match r {
                Ok(s) => {
                    assert(entries_view(old_res) + (seq![entry@] + s) =~= entries_view(res@) + s);
                },
                Err(_) => {},
            }
        }
    }
    assert(entries_view(res@) + Seq::empty() =~= entries_view(res@));
    Ok(res)
}

/// Strict lexicographic comparison of two byte strings.
pub fn bytes_less(a: &[u8], b: &[u8]) -> (r: bool)
    ensures
        r == bytes_lt(a@, b@),
{
    let mut i: usize = 0;
    assert(a@.subrange(0, a@.len() as int) =~= a@);
    assert(b@.subrange(0, b@.len() as int) =~= b@);
    while i < a.len() && i < b.len()
        invariant
            i <= a@.len(),
            i <= b@.len(),
            bytes_lt(a@, b@) == bytes_lt(a@.subrange(i as int, a@.len() as int), b@.subrange(i as int, b@.len() as int)),
        decreases a@.len() - i,
    {
        if a[i] != b[i] {
            return a[i] < b[i];
        }
        proof {
            let sa = a@.subrange(i as int, a@.len() as int);
            let sb = b@.subrange(i as int, b@.len() as int);
            assert(sa.drop_first() =~= a@.subrange(i + 1, a@.len() as int));
            assert(sb.drop_first() =~= b@.subrange(i + 1, b@.len() as int));
        }
        i = i + 1;
    }
    i < b.len()
}

fn name_is_well_formed(name: &[u8]) -> (r: bool)
    ensures
        r == name_well_formed(name@),
{
    let mut i: usize = 0;
    while i < name.len()
        invariant
            i <= name@.len(),
            forall|j: int| 0 <= j < i ==> name@[j] != 0x2f && name@[j] != 0,
        decreases name@.len() - i,
    {
        if name[i] == 0x2f || name[i] == 0 {
            return false;
        }
        i = i + 1;
    }
    name.len() > 0
}

/// Encodes entries as a listing payload. Names must fit the one-byte length,
/// be well formed and be strictly increasing in byte order.
pub fn encode_entries(entries: &[DirectoryEntry]) -> (r: Result<Vec<u8>, ZupError>)
    ensures
        match listing_fault(entries_view(entries@)) {
            Some(e) => r == Err::<Vec<u8>, ZupError>(e),
            None => r is Ok && r->Ok_0@ == listing_bytes(entries_view(entries@)),
        },
{
    let ghost es = entries_view(entries@);
    let mut i: usize = 0;
    while i < entries.len()
        invariant
            i <= entries@.len(),
            es == entries_view(entries@),
            forall|j: int| 0 <= j < i ==> !name_too_long(#[trigger] es[j].0),
        decreases entries@.len() - i,
    {
        if entries[i].name.as_str().as_bytes().len() > 255 {
            assert(name_too_long(es[i as int].0));
            return Err(ZupError::NameTooLong);
        }
        i = i + 1;
    }
    let mut i: usize = 0;
    while i < entries.len()
        invariant
            i <= entries@.len(),
            es == entries_view(entries@),
            forall|j: int| 0 <= j < es.len() ==> !name_too_long(#[trigger] es[j].0),
            forall|j: int| 0 <= j < i ==> name_well_formed(encode_utf8(#[trigger] es[j].0)),
        decreases entries@.len() - i,
    {
        if !name_is_well_formed(entries[i].name.as_str().as_bytes()) {
            assert(!name_well_formed(encode_utf8(es[i as int].0)));
            return Err(ZupError::InvalidName);
        }
        i = i + 1;
    }
    let mut buf: Vec<u8> = Vec::new();
    let mut i: usize = 0;
    while i < entries.len()
        invariant
            i <= entries@.len(),
            es == entries_view(entries@),
            forall|j: int| 0 <= j < es.len() ==> !name_too_long(#[trigger] es[j].0),
            forall|j: int| 0 <= j < es.len() ==> name_well_formed(encode_utf8(#[trigger] es[j].0)),
            forall|j: int| 0 <= j < i - 1 ==> bytes_lt(#[trigger] encode_utf8(es[j].0), encode_utf8(es[j + 1].0)),
            buf@ == listing_bytes(es.take(i as int)),
        decreases entries@.len() - i,
    {
        let name = entries[i].name.as_str().as_bytes();
        if i > 0 {
            let prev = entries[i - 1].name.as_str().as_bytes();
            if !bytes_less(prev, name) {
                assert(!bytes_lt(encode_utf8(es[i - 1].0), encode_utf8(es[i as int].0)));
                assert(!names_sorted(es));
                return Err(ZupError::UnsortedListing);
            }
        }
        assert(!name_too_long(es[i as int].0));
        buf.push(name.len() as u8);
        buf.extend_from_slice(name);
        let mut nb = entries[i].node.to_bytes();
        buf.append(&mut nb);
        proof {
            let t = es.take(i + 1);
            assert(t.drop_last() =~= es.take(i as int));
            assert(t.last() == es[i as int]);
        }
        i = i + 1;
    }
    assert(es.take(es.len() as int) =~= es);
    Ok(buf)
}

/// Two byte strings that differ are ordered one way or the other.
pub proof fn lemma_bytes_lt_total(a: Seq<u8>, b: Seq<u8>)
    ensures
        a != b ==> bytes_lt(a, b) || bytes_lt(b, a),
        !(bytes_lt(a, b) && bytes_lt(b, a)),
    decreases a.len(),
{
    if a.len() > 0 && b.len() > 0 && a[0] == b[0] {
        lemma_bytes_lt_total(a.drop_first(), b.drop_first());
        if a.drop_first() == b.drop_first() {
            assert(a =~= seq![a[0]] + a.drop_first());
            assert(b =~= seq![b[0]] + b.drop_first());
        }
    } else if a.len() == 0 && b.len() == 0 {
        assert(a =~= b);
    }
}

pub open spec fn has_duplicate_names(es: Seq<(Seq<char>, Node)>) -> bool {
    exists|i: int, j: int| 0 <= i < j < es.len() && (#[trigger] es[i]).0 == (#[trigger] es[j]).0
}

pub proof fn lemma_bytes_lt_trans(a: Seq<u8>, b: Seq<u8>, c: Seq<u8>)
    requires
        bytes_lt(a, b),
        bytes_lt(b, c),
    ensures
        bytes_lt(a, c),
    decreases a.len(),
{
    if a.len() > 0 && b.len() > 0 && c.len() > 0 && a[0] == b[0] && b[0] == c[0] {
        lemma_bytes_lt_trans(a.drop_first(), b.drop_first(), c.drop_first());
    }
}

proof fn lemma_sorted_pairwise(es: Seq<(Seq<char>, Node)>, i: int, j: int)
    requires
        names_sorted(es),
        0 <= i < j < es.len(),
    ensures
        bytes_lt(encode_utf8(es[i].0), encode_utf8(es[j].0)),
    decreases j - i,
{
    if j > i + 1 {
        lemma_sorted_pairwise(es, i, j - 1);
        lemma_bytes_lt_trans(encode_utf8(es[i].0), encode_utf8(es[j - 1].0), encode_utf8(es[j].0));
    }
}

/// A name strictly between the neighbours of an insertion point of a sorted
/// listing differs from every name in it.
proof fn lemma_insert_point_distinct(es: Seq<(Seq<char>, Node)>, x: Seq<u8>, pos: int)
    requires
        names_sorted(es),
        0 <= pos <= es.len(),
        pos > 0 ==> bytes_lt(encode_utf8(es[pos - 1].0), x),
        pos < es.len() ==> bytes_lt(x, encode_utf8(es[pos].0)),
    ensures
        forall|m: int| 0 <= m < es.len() ==> encode_utf8(#[trigger] es[m].0) != x,
{
    assert forall|m: int| 0 <= m < es.len() implies encode_utf8(#[trigger] es[m].0) != x by {
        let y = encode_utf8(es[m].0);
        if m < pos {
            if m < pos - 1 {
                lemma_sorted_pairwise(es, m, pos - 1);
                lemma_bytes_lt_trans(y, encode_utf8(es[pos - 1].0), x);
            }
            lemma_bytes_lt_total(y, x);
        } else {
            if m > pos {
                lemma_sorted_pairwise(es, pos, m);
                lemma_bytes_lt_trans(x, encode_utf8(es[pos].0), y);
            }
            lemma_bytes_lt_total(x, y);
        }
    }
}

proof fn lemma_take_no_dup(input: Seq<(Seq<char>, Node)>, k: int, res: Seq<(Seq<char>, Node)>)
    requires
        0 <= k < input.len(),
        !has_duplicate_names(input.take(k)),
        forall|y: (Seq<char>, Node)| res.contains(y) <==> input.take(k).contains(y),
        forall|m: int| 0 <= m < res.len() ==> encode_utf8(#[trigger] res[m].0) != encode_utf8(input[k].0),
    ensures
        !has_duplicate_names(input.take(k + 1)),
{
    let t = input.take(k + 1);
    assert forall|i: int, j: int| 0 <= i < j < t.len() implies (#[trigger] t[i]).0 != (#[trigger] t[j]).0 by {
        if j < k {
            assert(t[i] == input.take(k)[i] && t[j] == input.take(k)[j]);
        } else {
            assert(t[j] == input[k]);
            assert(input.take(k)[i] == t[i]);
            assert(input.take(k).contains(t[i]));
            assert(res.contains(t[i]));
            let m = choose|m: int| 0 <= m < res.len() && res[m] == t[i];
            assert(encode_utf8(res[m].0) != encode_utf8(input[k].0));
        }
    }
}

/// Orders entries by name, strictly increasing in byte order. Two entries
/// with the same name are refused.
#[verifier::rlimit(40)]
pub fn sort_entries(entries: Vec<DirectoryEntry>) -> (r: Result<Vec<DirectoryEntry>, ZupError>)
    ensures
        match r {
            Ok(v) => {
                &&& names_sorted(entries_view(v@))
                &&& !has_duplicate_names(entries_view(entries@))
                &&& v@.len() == entries@.len()
                &&& forall|x: (Seq<char>, Node)| entries_view(v@).contains(x) <==> entries_view(entries@).contains(x)
            },
            Err(e) => e == ZupError::DuplicateName && exists|i: int, j: int|
                0 <= i < j < entries@.len() && (#[trigger] entries@[i]).name@ == (#[trigger] entries@[j]).name@,
        },
{
    let mut res: Vec<DirectoryEntry> = Vec::new();
    let mut k: usize = 0;
    let ghost input = entries_view(entries@);
    while k < entries.len()
        invariant
            k <= entries@.len(),
            input == entries_view(entries@),
            res@.len() == k,
            names_sorted(entries_view(res@)),
            !has_duplicate_names(input.take(k as int)),
            forall|x: (Seq<char>, Node)| entries_view(res@).contains(x) <==> input.take(k as int).contains(x),
        decreases entries@.len() - k,
    {
        let e = entries[k].clone_entry();
        let name = e.name.as_str().as_bytes();
        let mut pos: usize = res.len();
        while pos > 0 && bytes_less(name, res[pos - 1].name.as_str().as_bytes())
            invariant
                pos <= res@.len(),
                name@ == encode_utf8(e.name@),
                pos < res@.len() ==> bytes_lt(name@, encode_utf8(res@[pos as int].name@)),
            decreases pos,
        {
            pos = pos - 1;
        }
        if pos > 0 {
            let prev = res[pos - 1].name.as_str().as_bytes();
            if !bytes_less(prev, name) {
                proof {
                    lemma_bytes_lt_total(prev@, name@);
                    assert(prev@ == name@);
                    let p = res@[pos - 1]@;
                    assert(entries_view(res@)[pos - 1] == p);
                    assert(entries_view(res@).contains(p));
                    assert(input.take(k as int).contains(p));
                    let i = choose|i: int| 0 <= i < k && input.take(k as int)[i] == p;
                    assert(encode_utf8(entries@[i].name@) == encode_utf8(entries@[k as int].name@));
                    encode_utf8_decode_utf8(entries@[i].name@);
                    encode_utf8_decode_utf8(entries@[k as int].name@);
                    assert(entries@[i].name@ == entries@[k as int].name@);
                }
                return Err(ZupError::DuplicateName);
            }
            proof {
                lemma_bytes_lt_total(prev@, name@);
            }
        }
        let ghost old_res = entries_view(res@);
        let ghost ev = e@;
        proof {
            if pos > 0 {
                lemma_bytes_lt_total(encode_utf8(old_res[pos - 1].0), name@);
            }
            lemma_insert_point_distinct(old_res, name@, pos as int);
            lemma_take_no_dup(input, k as int, old_res);
        }
        res.insert(pos, e);
        proof {
            let nv = entries_view(res@);
            assert(nv =~= old_res.insert(pos as int, ev));
            assert(ev == input[k as int]);
            assert forall|i: int| 0 <= i < nv.len() - 1 implies bytes_lt(
                #[trigger] encode_utf8(nv[i].0),
                encode_utf8(nv[i + 1].0),
            ) by {
                if i < pos as int - 1 {
                    assert(nv[i] == old_res[i] && nv[i + 1] == old_res[i + 1]);
                } else if i == pos as int - 1 {
                } else if i == pos as int {
                } else {
                    assert(nv[i] == old_res[i - 1] && nv[i + 1] == old_res[i]);
                }
            }
            assert(input.take(k + 1) =~= input.take(k as int).push(ev));
            assert forall|x: (Seq<char>, Node)| nv.contains(x) <==> input.take(k + 1).contains(x) by {
                if nv.contains(x) {
                    let i = choose|i: int| 0 <= i < nv.len() && nv[i] == x;
                    if i < pos {
                        assert(old_res[i] == x);
                        assert(old_res.contains(x));
                    } else if i > pos {
                        assert(old_res[i - 1] == x);
                        assert(old_res.contains(x));
                    } else {
                        assert(input.take(k + 1)[k as int] == x);
                    }
                    if old_res.contains(x) {
                        assert(input.take(k as int).contains(x));
                        let j = choose|j: int| 0 <= j < k && input.take(k as int)[j] == x;
                        assert(input.take(k + 1)[j] == x);
                    }
                }
                if input.take(k + 1).contains(x) {
                    if x == ev {
                        assert(nv[pos as int] == x);
                    } else {
                        assert(input.take(k as int).contains(x));
                        assert(old_res.contains(x));
                        let i = choose|i: int| 0 <= i < old_res.len() && old_res[i] == x;
                        if i < pos {
                            assert(nv[i] == x);
                        } else {
                            assert(nv[i + 1] == x);
                        }
                    }
                }
            }
        }
        k = k + 1;
    }
    assert(input.take(k as int) =~= input);
    Ok(res)
}

impl DirectoryEntry {
    /// A copy of the entry.
    pub fn clone_entry(&self) -> (r: DirectoryEntry)
        ensures
            r@ == self@,
    {
        DirectoryEntry { name: self.name.clone(), node: self.node }
    }
}

/// Whether two byte strings are equal.
pub fn bytes_equal(a: &[u8], b: &[u8]) -> (r: bool)
    ensures
        r == (a@ == b@),
{
    if a.len() != b.len() {
        return false;
    }
    let mut i: usize = 0;
    while i < a.len()
        invariant
            a@.len() == b@.len(),
            i <= a@.len(),
            forall|j: int| 0 <= j < i ==> a@[j] == b@[j],
        decreases a@.len() - i,
    {
        if a[i] != b[i] {
            return false;
        }
        i = i + 1;
    }
    assert(a@ =~= b@);
    true
}

} // verus!
