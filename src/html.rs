//! Pack-time rewriting of generated HTML and the file filter.
use vstd::prelude::*;
use vstd::string::*;
use vstd::utf8::*;

use crate::text::{ends_with, ends_with_exec, replace_all, replace_all_exec, starts_with, starts_with_exec};
use crate::error::ZupError;
use crate::listing::{bytes_equal, bytes_less, bytes_lt, lemma_bytes_lt_total};

verus! {

/// What `regex::bytes::Regex::replace_all` makes of `text` for a pattern
/// (given as UTF-8 bytes) and a replacement; `None` where the pattern is not
/// valid UTF-8 or does not compile.
pub uninterp spec fn regex_replaced(pattern: Seq<u8>, text: Seq<u8>, rep: Seq<u8>) -> Option<Seq<u8>>;

/// Relies on `regex::bytes::Regex::new` and `Regex::replace_all`: every
/// match of the pattern replaced by `rep`.
#[verifier::external_body]
fn regex_replace_all(pattern: &[u8], text: &[u8], rep: &[u8]) -> (r: Option<Vec<u8>>)
    ensures
        match r {
            Some(v) => regex_replaced(pattern@, text@, rep@) == Some(v@),
            None => regex_replaced(pattern@, text@, rep@) is None,
        },
{
    let p = std::str::from_utf8(pattern).ok()?;
    let re = regex::bytes::Regex::new(p).ok()?;
    Some(re.replace_all(text, rep).into_owned())
}

/// One transform: the text with the pattern's matches replaced, or the text
/// as it was where the pattern does not compile.
pub open spec fn transform(text: Seq<u8>, pattern: Seq<u8>, rep: Seq<u8>) -> Seq<u8> {
    match regex_replaced(pattern, text, rep) {
        Some(t) => t,
        None => text,
    }
}

pub open spec fn lit(s: &str) -> Seq<u8> {
    encode_utf8(s@)
}

pub open spec fn settings_pattern() -> Seq<u8> {
    lit("<a id=\"settings-menu\".*?</a>")
}

pub open spec fn hidden_src_pattern() -> Seq<u8> {
    lit("<a class=\"src\" href=\"[^\"]*/_[^\"]*\">source</a>")
}

pub open spec fn src_pattern(ident: Seq<u8>) -> Seq<u8> {
    lit("href=\"(\\.\\./)+src/") + ident
}

pub open spec fn src_replacement() -> Seq<u8> {
    lit("href=\"/__DOCSERVER_SRCLINK")
}

pub open spec fn cratesjs_pattern() -> Seq<u8> {
    lit("<script\\s*(?:defer(=\"\")?)?\\s*src=\"(\\.\\./)+crates.js\"></script>")
}

pub open spec fn cratesjs_replacement(ident: Seq<u8>) -> Seq<u8> {
    lit("<script>window.ALL_CRATES=[\"") + ident + lit("\"];</script>")
}

pub open spec fn self_ref_pattern(ident: Seq<u8>) -> Seq<u8> {
    lit("\\.\\./") + ident + lit("/")
}

pub open spec fn root_path_pattern() -> Seq<u8> {
    lit("data-root-path=\"\\.\\./")
}

pub open spec fn root_path_replacement() -> Seq<u8> {
    lit("data-root-path=\"./")
}

/// The six HTML transforms, in order: drop the settings button, drop source
/// links to files starting with `_`, turn source links into the source-link
/// sentinel, replace the crates.js script by an inline list holding this
/// crate, collapse self references, and fix the root path.
pub open spec fn html_rewritten(ident: Seq<u8>, data: Seq<u8>) -> Seq<u8> {
    let t1 = transform(data, settings_pattern(), Seq::empty());
    let t2 = transform(t1, hidden_src_pattern(), Seq::empty());
    let t3 = transform(t2, src_pattern(ident), src_replacement());
    let t4 = transform(t3, cratesjs_pattern(), cratesjs_replacement(ident));
    let t5 = transform(t4, self_ref_pattern(ident), Seq::empty());
    transform(t5, root_path_pattern(), root_path_replacement())
}

/// A package name as a crate identifier: `-` becomes `_`.
pub open spec fn crate_ident(name: Seq<char>) -> Seq<u8> {
    replace_all(encode_utf8(name), lit("-"), lit("_"))
}

/// Whether a file or directory of the generated tree is kept.
pub open spec fn included(name: Seq<u8>) -> bool {
    &&& name != lit("implementors")
    &&& !starts_with(name, lit("_"))
    &&& name != lit("!.html")
}

fn apply(text: Vec<u8>, pattern: &[u8], rep: &[u8]) -> (r: Vec<u8>)
    ensures
        r@ == transform(text@, pattern@, rep@),
{
    match regex_replace_all(pattern, text.as_slice(), rep) {
        Some(v) => v,
        None => text,
    }
}

fn join3(a: &[u8], b: &[u8], c: &[u8]) -> (r: Vec<u8>)
    ensures
        r@ == a@ + b@ + c@,
{
    let mut v: Vec<u8> = Vec::new();
    v.extend_from_slice(a);
    v.extend_from_slice(b);
    v.extend_from_slice(c);
    v
}

/// The file filter and HTML rewriter of one crate's documentation tree.
pub struct PackConfig {
    pub crate_ident: Vec<u8>,
}

/// The pack configuration for a package.
pub fn pack_config(crate_name: &str) -> (r: PackConfig)
    ensures
        r.crate_ident@ == crate_ident(crate_name@),
{
    proof {
        reveal_strlit("-");
    }
    PackConfig { crate_ident: replace_all_exec(crate_name.as_bytes(), "-".as_bytes(), "_".as_bytes()) }
}

/// Whether a file or directory named `name` is packed.
pub fn should_include_file(name: &str) -> (r: bool)
    ensures
        r == included(encode_utf8(name@)),
{
    let n = name.as_bytes();
    !bytes_equal(n, "implementors".as_bytes()) && !starts_with_exec(n, "_".as_bytes())
        && !bytes_equal(n, "!.html".as_bytes())
}

/// Applies the six HTML transforms to a page of the crate named by `ident`.
pub fn process_html_file(ident: &[u8], data: Vec<u8>) -> (r: Vec<u8>)
    ensures
        r@ == html_rewritten(ident@, data@),
{
    let t = apply(data, "<a id=\"settings-menu\".*?</a>".as_bytes(), "".as_bytes());
    let t = apply(t, "<a class=\"src\" href=\"[^\"]*/_[^\"]*\">source</a>".as_bytes(), "".as_bytes());
    let p3 = join3("href=\"(\\.\\./)+src/".as_bytes(), ident, "".as_bytes());
    let t = apply(t, p3.as_slice(), "href=\"/__DOCSERVER_SRCLINK".as_bytes());
    let r4 = join3(
        "<script>window.ALL_CRATES=[\"".as_bytes(),
        ident,
        "\"];</script>".as_bytes(),
    );
    let t = apply(
        t,
        "<script\\s*(?:defer(=\"\")?)?\\s*src=\"(\\.\\./)+crates.js\"></script>".as_bytes(),
        r4.as_slice(),
    );
    let p5 = join3("\\.\\./".as_bytes(), ident, "/".as_bytes());
    let t = apply(t, p5.as_slice(), "".as_bytes());
    let t = apply(t, "data-root-path=\"\\.\\./".as_bytes(), "data-root-path=\"./".as_bytes());
    proof {
        reveal_strlit("");
        assert(encode_utf8(""@) =~= Seq::<u8>::empty());
        assert(p3@ =~= src_pattern(ident@));
        assert(r4@ =~= cratesjs_replacement(ident@));
        assert(p5@ =~= self_ref_pattern(ident@));
    }
    t
}

impl PackConfig {
    /// Whether a file or directory named `name` is packed.
    pub fn file_filter(&self, name: &str) -> (r: bool)
        ensures
            r == included(encode_utf8(name@)),
    {
        should_include_file(name)
    }

    /// The bytes stored for a file named `name`: HTML pages are rewritten,
    /// other files are kept as they are.
    pub fn data_filter(&self, name: &str, data: Vec<u8>) -> (r: Vec<u8>)
        ensures
            r@ == if ends_with(encode_utf8(name@), lit(".html")) {
                html_rewritten(self.crate_ident@, data@)
            } else {
                data@
            },
    {
        if ends_with_exec(name.as_bytes(), ".html".as_bytes()) {
            process_html_file(self.crate_ident.as_slice(), data)
        } else {
            data
        }
    }
}

/// Whether the child at index `i` of a directory is packed.
pub open spec fn kept(cfg: Option<&PackConfig>, names: Seq<String>, i: int) -> bool {
    cfg is None || included(encode_utf8(names[i]@))
}

pub open spec fn sorted_by_name(names: Seq<String>, v: Seq<usize>) -> bool {
    forall|k: int| 0 <= k < v.len() - 1 ==> bytes_lt(
        encode_utf8(names[(#[trigger] v[k]) as int]@),
        encode_utf8(names[v[k + 1] as int]@),
    )
}

/// Inserts index `i` into `v`, keeping it ordered by name; false, with `v`
/// unchanged, when a listed index has the same name.
fn insert_by_name(names: &Vec<String>, v: &mut Vec<usize>, i: usize) -> (r: bool)
    requires
        i < names@.len(),
        forall|k: int| 0 <= k < old(v)@.len() ==> old(v)@[k] < i,
        sorted_by_name(names@, old(v)@),
    ensures
        r ==> {
            &&& sorted_by_name(names@, final(v)@)
            &&& forall|k: int| 0 <= k < final(v)@.len() ==> final(v)@[k] <= i
            &&& forall|x: usize| final(v)@.contains(x) <==> old(v)@.contains(x) || x == i
            &&& forall|k: int| 0 <= k < final(v)@.len() ==> (#[trigger] final(v)@[k] == i || old(v)@.contains(final(v)@[k]))
        },
        !r ==> final(v)@ == old(v)@ && exists|k: int| 0 <= k < old(v)@.len() && names@[old(v)@[k] as int]@ == names@[i as int]@,
{
    let name = names[i].as_str().as_bytes();
    let mut pos: usize = v.len();
    while pos > 0 && bytes_less(name, names[v[pos - 1]].as_str().as_bytes())
        invariant
            pos <= v@.len(),
            forall|k: int| 0 <= k < v@.len() ==> v@[k] < i,
            i < names@.len(),
            name@ == encode_utf8(names@[i as int]@),
            pos < v@.len() ==> bytes_lt(name@, encode_utf8(names@[v@[pos as int] as int]@)),
        decreases pos,
    {
        pos = pos - 1;
    }
    if pos > 0 {
        let prev = names[v[pos - 1]].as_str().as_bytes();
        proof {
            lemma_bytes_lt_total(prev@, name@);
        }
        if !bytes_less(prev, name) {
            proof {
                let j = v@[pos - 1] as int;
                encode_utf8_decode_utf8(names@[j]@);
                encode_utf8_decode_utf8(names@[i as int]@);
                assert(names@[v@[pos - 1] as int]@ == names@[i as int]@);
            }
            return false;
        }
    }
    let ghost old_v = v@;
    v.insert(pos, i);
    proof {
        assert(v@ =~= old_v.insert(pos as int, i));
        assert forall|x: usize| v@.contains(x) <==> old_v.contains(x) || x == i by {
            if v@.contains(x) {
                let k = choose|k: int| 0 <= k < v@.len() && v@[k] == x;
                if k < pos {
                    assert(old_v[k] == x);
                } else if k > pos {
                    assert(old_v[k - 1] == x);
                }
            }
            if old_v.contains(x) {
                let k = choose|k: int| 0 <= k < old_v.len() && old_v[k] == x;
                if k < pos {
                    assert(v@[k] == x);
                } else {
                    assert(v@[k + 1] == x);
                }
            }
            if x == i {
                assert(v@[pos as int] == x);
            }
        }
        assert forall|k: int| 0 <= k < v@.len() implies (#[trigger] v@[k] == i || old_v.contains(v@[k])) by {
            if k < pos {
                assert(old_v[k] == v@[k]);
            } else if k > pos {
                assert(old_v[k - 1] == v@[k]);
            }
        }
        assert forall|k: int| 0 <= k < v@.len() - 1 implies bytes_lt(
            encode_utf8(names@[(#[trigger] v@[k]) as int]@),
            encode_utf8(names@[v@[k + 1] as int]@),
        ) by {
            if k < pos as int - 1 {
                assert(v@[k] == old_v[k] && v@[k + 1] == old_v[k + 1]);
            } else if k == pos as int - 1 {
            } else if k == pos as int {
            } else {
                assert(v@[k] == old_v[k - 1] && v@[k + 1] == old_v[k]);
            }
        }
    }
    true
}

/// The children of a directory to pack, as indices into `names`, in strictly
/// increasing byte order of their names: every kept child and no other. Two
/// kept children with the same name are refused.
pub fn children_to_pack(cfg: Option<&PackConfig>, names: &Vec<String>) -> (r: Result<Vec<usize>, ZupError>)
    ensures
        match r {
            Ok(v) => {
                &&& forall|k: int| 0 <= k < v@.len() ==> v@[k] < names@.len() && kept(cfg, names@, #[trigger] v@[k] as int)
                &&& forall|i: int| 0 <= i < names@.len() && kept(cfg, names@, i) ==> v@.contains(i as usize)
                &&& sorted_by_name(names@, v@)
            },
            Err(e) => e == ZupError::DuplicateName && exists|i: int, j: int|
                0 <= i < j < names@.len() && kept(cfg, names@, i) && kept(cfg, names@, j)
                    && names@[i]@ == names@[j]@,
        },
{
    let mut v: Vec<usize> = Vec::new();
    let mut i: usize = 0;
    while i < names.len()
        invariant
            i <= names@.len(),
            forall|k: int| 0 <= k < v@.len() ==> v@[k] < i && kept(cfg, names@, #[trigger] v@[k] as int),
            forall|x: int| 0 <= x < i && kept(cfg, names@, x) ==> v@.contains(x as usize),
            sorted_by_name(names@, v@),
        decreases names@.len() - i,
    {
        let keep = match cfg {
            Some(c) => c.file_filter(names[i].as_str()),
            None => true,
        };
        if keep {
            let ghost old_v = v@;
            if !insert_by_name(names, &mut v, i) {
                proof {
                    let k = choose|k: int| 0 <= k < old_v.len() && names@[old_v[k] as int]@ == names@[i as int]@;
                    let j = old_v[k] as int;
                    assert(kept(cfg, names@, old_v[k] as int));
                    assert(j < i);
                    assert(kept(cfg, names@, i as int));
                    assert(0 <= j < i as int && kept(cfg, names@, j) && kept(cfg, names@, i as int)
                        && names@[j]@ == names@[i as int]@);
                }
                return Err(ZupError::DuplicateName);
            }
            proof {
                assert forall|k: int| 0 <= k < v@.len() implies v@[k] < i + 1 && kept(cfg, names@, #[trigger] v@[k] as int) by {
                    if v@[k] != i {
                        assert(old_v.contains(v@[k]));
                        let m = choose|m: int| 0 <= m < old_v.len() && old_v[m] == v@[k];
                        assert(kept(cfg, names@, old_v[m] as int));
                    }
                }
                assert forall|x: int| 0 <= x < i + 1 && kept(cfg, names@, x) implies v@.contains(x as usize) by {
                    if x < i {
                        assert(old_v.contains(x as usize));
                    }
                }
            }
        }
        i = i + 1;
    }
    Ok(v)
}

} // verus!
