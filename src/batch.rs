//! The arguments of one documentation-generator job of a batched build.
use vstd::prelude::*;
use vstd::utf8::*;

use crate::flavors::Flavor;
use crate::text::{replace_all, replace_all_exec};

verus! {

pub open spec fn lit(s: &str) -> Seq<u8> {
    encode_utf8(s@)
}

/// Items joined with a separator.
pub open spec fn join_with(items: Seq<Seq<u8>>, sep: Seq<u8>) -> Seq<u8>
    decreases items.len(),
{
    if items.len() == 0 {
        Seq::empty()
    } else if items.len() == 1 {
        items[0]
    } else {
        join_with(items.drop_last(), sep) + sep + items.last()
    }
}

pub open spec fn vecs_view(v: Seq<Vec<u8>>) -> Seq<Seq<u8>> {
    v.map_values(|a: Vec<u8>| a@)
}

pub open spec fn str_bytes(v: Seq<String>) -> Seq<Seq<u8>> {
    v.map_values(|s: String| encode_utf8(s@))
}

/// The features of a flavor, comma-separated.
pub fn join_features(features: &Vec<String>) -> (r: Vec<u8>)
    ensures
        r@ == join_with(str_bytes(features@), seq![0x2cu8]),
{
    let mut v: Vec<u8> = Vec::new();
    let mut i: usize = 0;
    while i < features.len()
        invariant
            i <= features@.len(),
            v@ == join_with(str_bytes(features@).take(i as int), seq![0x2cu8]),
        decreases features@.len() - i,
    {
        let ghost t = str_bytes(features@).take(i + 1);
        proof {
            assert(t.drop_last() =~= str_bytes(features@).take(i as int));
        }
        if i > 0 {
            v.push(0x2c);
        }
        v.extend_from_slice(features[i].as_str().as_bytes());
        proof {
            if i == 0 {
                assert(str_bytes(features@).take(0) =~= Seq::<Seq<u8>>::empty());
            }
            assert(v@ =~= join_with(t, seq![0x2cu8]));
        }
        i = i + 1;
    }
    assert(str_bytes(features@).take(i as int) =~= str_bytes(features@));
    v
}

/// The generator argument that points links into a local dependency at the
/// dependency-link sentinel.
pub open spec fn extern_url_arg_of(dep: Seq<char>) -> Seq<u8> {
    lit("--extern-html-root-url=") + replace_all(encode_utf8(dep), lit("-"), lit("_")) + lit(
        "=/__DOCSERVER_DEPLINK/",
    ) + encode_utf8(dep) + lit("/")
}

pub fn extern_url_arg(dep: &str) -> (r: Vec<u8>)
    ensures
        r@ == extern_url_arg_of(dep@),
{
    proof {
        reveal_strlit("-");
    }
    let mut v: Vec<u8> = Vec::new();
    v.extend_from_slice("--extern-html-root-url=".as_bytes());
    let ident = replace_all_exec(dep.as_bytes(), "-".as_bytes(), "_".as_bytes());
    v.extend_from_slice(ident.as_slice());
    v.extend_from_slice("=/__DOCSERVER_DEPLINK/".as_bytes());
    v.extend_from_slice(dep.as_bytes());
    v.extend_from_slice("/".as_bytes());
    v
}

/// The arguments of one generator job: the manifest, the job's output
/// directory, the flavor's features and target, the static root and the
/// dependency-link sentinel for each local dependency.
pub open spec fn job_args(manifest_path: Seq<char>, out_dir: Seq<char>, flavor: Flavor, local_deps: Seq<String>) -> Seq<Seq<u8>> {
    seq![
        lit("rustdoc"),
        lit("--manifest-path"),
        encode_utf8(manifest_path),
        lit("--artifact-dir"),
        encode_utf8(out_dir),
        lit("--features"),
        join_with(str_bytes(flavor.features@), seq![0x2cu8]),
        lit("--target"),
        encode_utf8(flavor.target@),
        lit("--"),
        lit("-Zunstable-options"),
        lit("--static-root-path"),
        lit("/static/"),
    ] + local_deps.map_values(|d: String| extern_url_arg_of(d@))
}

fn owned(s: &str) -> (r: Vec<u8>)
    ensures
        r@ == encode_utf8(s@),
{
    let mut v: Vec<u8> = Vec::new();
    v.extend_from_slice(s.as_bytes());
    v
}

pub fn rustdoc_args(manifest_path: &str, out_dir: &str, flavor: &Flavor, local_deps: &Vec<String>) -> (r: Vec<Vec<u8>>)
    ensures
        vecs_view(r@) == job_args(manifest_path@, out_dir@, *flavor, local_deps@),
{
    let mut r: Vec<Vec<u8>> = Vec::new();
    r.push(owned("rustdoc"));
    r.push(owned("--manifest-path"));
    r.push(owned(manifest_path));
    r.push(owned("--artifact-dir"));
    r.push(owned(out_dir));
    r.push(owned("--features"));
    r.push(join_features(&flavor.features));
    r.push(owned("--target"));
    r.push(owned(flavor.target.as_str()));
    r.push(owned("--"));
    r.push(owned("-Zunstable-options"));
    r.push(owned("--static-root-path"));
    r.push(owned("/static/"));
    let ghost head = vecs_view(r@);
    let mut i: usize = 0;
    while i < local_deps.len()
        invariant
            i <= local_deps@.len(),
            r@.len() == 13 + i,
            forall|k: int| 0 <= k < 13 ==> (#[trigger] r@[k])@ == head[k],
            forall|k: int| 0 <= k < i ==> (#[trigger] r@[13 + k])@ == extern_url_arg_of(local_deps@[k]@),
        decreases local_deps@.len() - i,
    {
        r.push(extern_url_arg(local_deps[i].as_str()));
        i = i + 1;
    }
    proof {
        let want = job_args(manifest_path@, out_dir@, *flavor, local_deps@);
        assert forall|k: int| 0 <= k < r@.len() implies vecs_view(r@)[k] == want[k] by {
            if k >= 13 {
                assert(r@[13 + (k - 13)]@ == extern_url_arg_of(local_deps@[k - 13]@));
            }
        }
        assert(vecs_view(r@) =~= want);
    }
    r
}

} // verus!
