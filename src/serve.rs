//! The archive-facing part of serving: request paths, redirects, and the
//! serve-time rewriting of sentinel links.
use vstd::prelude::*;
use vstd::slice::slice_subrange;
use vstd::string::*;
use vstd::utf8::*;

use crate::error::ZupError;
use crate::flavors::{strs, Flavor};
use crate::layout;
use crate::reader::{children_view, dir_read, path_read, path_view, resolve, Node, Reader};
use crate::listing::bytes_equal;
use crate::text::{find_from, find_from_exec, replace_all, replace_all_exec, starts_with, starts_with_exec};

verus! {

pub open spec fn lit(s: &str) -> Seq<u8> {
    encode_utf8(s@)
}

pub open spec fn srclink_prefix() -> Seq<u8> {
    lit("/__DOCSERVER_SRCLINK/")
}

pub open spec fn deplink_prefix() -> Seq<u8> {
    lit("/__DOCSERVER_DEPLINK/")
}

/// Index of the last occurrence of byte `b` in `s`.
pub open spec fn last_index_of(s: Seq<u8>, b: u8) -> Option<int>
    decreases s.len(),
{
    if s.len() == 0 {
        None
    } else if s.last() == b {
        Some(s.len() - 1)
    } else {
        last_index_of(s.drop_last(), b)
    }
}

fn last_index_of_exec(s: &[u8], b: u8) -> (r: Option<usize>)
    ensures
        match r {
            Some(i) => last_index_of(s@, b) == Some(i as int) && i < s@.len() && s@[i as int] == b,
            None => last_index_of(s@, b) is None,
        },
{
    proof {
        lemma_last_index_bound(s@, b);
    }
    let mut i = s.len();
    assert(s@.subrange(0, i as int) =~= s@);
    while i > 0
        invariant
            i <= s@.len(),
            last_index_of(s@, b) == last_index_of(s@.subrange(0, i as int), b),
        decreases i,
    {
        if s[i - 1] == b {
            return Some(i - 1);
        }
        assert(s@.subrange(0, i as int).drop_last() =~= s@.subrange(0, i - 1));
        i = i - 1;
    }
    None
}

/// The file extension of a path: what follows its last `.`, or nothing.
pub open spec fn extension_of(path: Seq<u8>) -> Seq<u8> {
    match last_index_of(path, 0x2eu8) {
        Some(i) => path.subrange(i + 1, path.len() as int),
        None => Seq::empty(),
    }
}

/// The extension of a request path, as bytes.
pub fn extension(path: &[u8]) -> (r: Vec<u8>)
    ensures
        r@ == extension_of(path@),
{
    match last_index_of_exec(path, 0x2e) {
        Some(i) => {
            let n = path.len();
            let s = slice_subrange(path, i + 1, n);
            let mut v: Vec<u8> = Vec::new();
            v.extend_from_slice(s);
            v
        },
        None => Vec::new(),
    }
}

/// The content type served for an extension.
pub open spec fn mime_of(ext: Seq<u8>) -> Seq<u8> {
    if ext == lit("html") {
        lit("text/html")
    } else if ext == lit("css") {
        lit("text/css")
    } else if ext == lit("js") {
        lit("application/javascript")
    } else if ext == lit("json") {
        lit("application/json")
    } else if ext == lit("ttf") {
        lit("application/x-font-ttf")
    } else if ext == lit("woff") {
        lit("font/woff")
    } else if ext == lit("woff2") {
        lit("font/woff2")
    } else if ext == lit("svg") {
        lit("image/svg+xml")
    } else if ext == lit("png") {
        lit("image/png")
    } else if ext == lit("jpg") {
        lit("image/jpeg")
    } else if ext == lit("txt") {
        lit("text/plain")
    } else {
        lit("application/octet-stream")
    }
}

pub fn mime_type(ext: &[u8]) -> (r: &'static str)
    ensures
        encode_utf8(r@) == mime_of(ext@),
{
    if bytes_equal(ext, "html".as_bytes()) {
        "text/html"
    } else if bytes_equal(ext, "css".as_bytes()) {
        "text/css"
    } else if bytes_equal(ext, "js".as_bytes()) {
        "application/javascript"
    } else if bytes_equal(ext, "json".as_bytes()) {
        "application/json"
    } else if bytes_equal(ext, "ttf".as_bytes()) {
        "application/x-font-ttf"
    } else if bytes_equal(ext, "woff".as_bytes()) {
        "font/woff"
    } else if bytes_equal(ext, "woff2".as_bytes()) {
        "font/woff2"
    } else if bytes_equal(ext, "svg".as_bytes()) {
        "image/svg+xml"
    } else if bytes_equal(ext, "png".as_bytes()) {
        "image/png"
    } else if bytes_equal(ext, "jpg".as_bytes()) {
        "image/jpeg"
    } else if bytes_equal(ext, "txt".as_bytes()) {
        "text/plain"
    } else {
        "application/octet-stream"
    }
}

/// The source-link base for a version: the git template with the commit for
/// `git`, else the release template with the version.
pub open spec fn srclink_base_of(version: Seq<u8>, src_base: Seq<u8>, src_base_git: Seq<u8>, commit: Seq<u8>) -> Seq<u8> {
    if version == lit("git") {
        replace_all(src_base_git, lit("$COMMIT"), commit)
    } else {
        replace_all(src_base, lit("$VERSION"), version)
    }
}

pub fn srclink_base(version: &[u8], src_base: &[u8], src_base_git: &[u8], commit: &[u8]) -> (r: Vec<u8>)
    ensures
        r@ == srclink_base_of(version@, src_base@, src_base_git@, commit@),
{
    proof {
        reveal_strlit("$COMMIT");
        reveal_strlit("$VERSION");
    }
    if bytes_equal(version, "git".as_bytes()) {
        replace_all_exec(src_base_git, "$COMMIT".as_bytes(), commit)
    } else {
        replace_all_exec(src_base, "$VERSION".as_bytes(), version)
    }
}

/// A source link `/__DOCSERVER_SRCLINK/<path>#<frag>` resolved against the
/// base: `.html` dropped from the path, `-` in the fragment becoming `-L`,
/// and the fragment prefixed by `L`. Without `#` it is the base followed by
/// the path without `.html`.
pub open spec fn resolve_srclink(link: Seq<u8>, base: Seq<u8>) -> Seq<u8> {
    let rest = link.subrange(srclink_prefix().len() as int, link.len() as int);
    match find_from(rest, seq![0x23u8], 0) {
        None => base + replace_all(rest, lit(".html"), Seq::empty()),
        Some(i) => base + replace_all(rest.subrange(0, i), lit(".html"), Seq::empty()) + lit("#L")
            + replace_all(rest.subrange(i + 1, rest.len() as int), lit("-"), lit("-L")),
    }
}

/// A dependency link `/__DOCSERVER_DEPLINK/<dep>/<ignored>/<rest>` as
/// `/<dep>/git/<flavor>/<rest>`. Where a slash is missing, what follows it is
/// taken as empty: `/<dep>/git/<flavor>/`.
pub open spec fn resolve_deplink(link: Seq<u8>, flavor: Seq<u8>) -> Seq<u8> {
    let rest = link.subrange(deplink_prefix().len() as int, link.len() as int);
    match find_from(rest, seq![0x2fu8], 0) {
        None => lit("/") + rest + lit("/git/") + flavor + lit("/"),
        Some(i) => {
            let after = rest.subrange(i + 1, rest.len() as int);
            match find_from(after, seq![0x2fu8], 0) {
                None => lit("/") + rest.subrange(0, i) + lit("/git/") + flavor + lit("/"),
                Some(j) => lit("/") + rest.subrange(0, i) + lit("/git/") + flavor + lit("/")
                    + after.subrange(j + 1, after.len() as int),
            }
        },
    }
}

/// A link value rewritten for serving.
pub open spec fn rewrite_link_spec(link: Seq<u8>, base: Seq<u8>, flavor: Seq<u8>) -> Seq<u8> {
    let l1 = if starts_with(link, srclink_prefix()) {
        resolve_srclink(link, base)
    } else {
        link
    };
    if starts_with(l1, deplink_prefix()) {
        resolve_deplink(l1, flavor)
    } else {
        l1
    }
}

/// Sentinels are resolved at serve time: a source-link sentinel becomes a
/// link that starts with the source base, and a dependency-link sentinel
/// becomes a path that starts with `/<dep>/git/<flavor>/`.
pub proof fn lemma_sentinels_resolved(link: Seq<u8>, base: Seq<u8>, flavor: Seq<u8>)
    ensures
        starts_with(link, srclink_prefix()) && !starts_with(resolve_srclink(link, base), deplink_prefix())
            ==> rewrite_link_spec(link, base, flavor) == resolve_srclink(link, base),
        starts_with(link, srclink_prefix()) ==> resolve_srclink(link, base).subrange(0, base.len() as int) == base,
        starts_with(link, deplink_prefix()) && !starts_with(link, srclink_prefix())
            ==> rewrite_link_spec(link, base, flavor) == resolve_deplink(link, flavor),
        starts_with(link, deplink_prefix()) ==> ({
            let rest = link.subrange(deplink_prefix().len() as int, link.len() as int);
            let dep = match find_from(rest, seq![0x2fu8], 0) {
                Some(i) => rest.subrange(0, i),
                None => rest,
            };
            let head = lit("/") + dep + lit("/git/") + flavor + lit("/");
            resolve_deplink(link, flavor).subrange(0, head.len() as int) == head
        }),
{
    let rest = link.subrange(srclink_prefix().len() as int, link.len() as int);
    if starts_with(link, srclink_prefix()) {
        match find_from(rest, seq![0x23u8], 0) {
            Some(i) => {
                let tail = replace_all(rest.subrange(0, i), lit(".html"), Seq::empty()) + lit("#L")
                    + replace_all(rest.subrange(i + 1, rest.len() as int), lit("-"), lit("-L"));
                assert(resolve_srclink(link, base) =~= base + tail);
                assert((base + tail).subrange(0, base.len() as int) =~= base);
            },
            None => {
                let tail = replace_all(rest, lit(".html"), Seq::empty());
                assert((base + tail).subrange(0, base.len() as int) =~= base);
            },
        }
    }
    if starts_with(link, deplink_prefix()) {
        let drest = link.subrange(deplink_prefix().len() as int, link.len() as int);
        match find_from(drest, seq![0x2fu8], 0) {
            Some(i) => {
                let dep = drest.subrange(0, i);
                let head = lit("/") + dep + lit("/git/") + flavor + lit("/");
                let after = drest.subrange(i + 1, drest.len() as int);
                match find_from(after, seq![0x2fu8], 0) {
                    Some(j) => {
                        let t = after.subrange(j + 1, after.len() as int);
                        assert((head + t).subrange(0, head.len() as int) =~= head);
                    },
                    None => {
                        assert(head.subrange(0, head.len() as int) =~= head);
                    },
                }
            },
            None => {
                let head = lit("/") + drest + lit("/git/") + flavor + lit("/");
                assert(head.subrange(0, head.len() as int) =~= head);
            },
        }
    }
}

fn cat(parts: &mut Vec<u8>, s: &[u8])
    ensures
        final(parts)@ == old(parts)@ + s@,
{
    parts.extend_from_slice(s);
}

fn resolve_srclink_exec(link: &[u8], base: &[u8]) -> (r: Vec<u8>)
    requires
        starts_with(link@, srclink_prefix()),
    ensures
        r@ == resolve_srclink(link@, base@),
{
    proof {
        reveal_strlit("/__DOCSERVER_SRCLINK/");
        reveal_strlit(".html");
        reveal_strlit("-");
    }
    let n = "/__DOCSERVER_SRCLINK/".as_bytes().len();
    let len = link.len();
    let rest = slice_subrange(link, n, len);
    let hash = vec![0x23u8];
    assert(hash@ =~= seq![0x23u8]);
    match find_from_exec(rest, hash.as_slice(), 0) {
        None => {
            let mut v: Vec<u8> = Vec::new();
            cat(&mut v, base);
            let p = replace_all_exec(rest, ".html".as_bytes(), "".as_bytes());
            cat(&mut v, p.as_slice());
            proof {
                reveal_strlit("");
                assert(encode_utf8(""@) =~= Seq::<u8>::empty());
            }
            v
        },
        Some(i) => {
            let rlen = rest.len();
            let path = slice_subrange(rest, 0, i);
            let frag = slice_subrange(rest, i + 1, rlen);
            let mut v: Vec<u8> = Vec::new();
            cat(&mut v, base);
            let p = replace_all_exec(path, ".html".as_bytes(), "".as_bytes());
            cat(&mut v, p.as_slice());
            cat(&mut v, "#L".as_bytes());
            let f = replace_all_exec(frag, "-".as_bytes(), "-L".as_bytes());
            cat(&mut v, f.as_slice());
            proof {
                reveal_strlit("");
                assert(encode_utf8(""@) =~= Seq::<u8>::empty());
            }
            v
        },
    }
}

fn resolve_deplink_exec(link: &[u8], flavor: &[u8]) -> (r: Vec<u8>)
    requires
        starts_with(link@, deplink_prefix()),
    ensures
        r@ == resolve_deplink(link@, flavor@),
{
    proof {
        reveal_strlit("/__DOCSERVER_DEPLINK/");
    }
    let n = "/__DOCSERVER_DEPLINK/".as_bytes().len();
    let len = link.len();
    let rest = slice_subrange(link, n, len);
    let slash = vec![0x2fu8];
    assert(slash@ =~= seq![0x2fu8]);
    match find_from_exec(rest, slash.as_slice(), 0) {
        None => {
            let mut v: Vec<u8> = Vec::new();
            cat(&mut v, "/".as_bytes());
            cat(&mut v, rest);
            cat(&mut v, "/git/".as_bytes());
            cat(&mut v, flavor);
            cat(&mut v, "/".as_bytes());
            v
        },
        Some(i) => {
            let rlen = rest.len();
            let after = slice_subrange(rest, i + 1, rlen);
            match find_from_exec(after, slash.as_slice(), 0) {
                None => {
                    let mut v: Vec<u8> = Vec::new();
                    cat(&mut v, "/".as_bytes());
                    cat(&mut v, slice_subrange(rest, 0, i));
                    cat(&mut v, "/git/".as_bytes());
                    cat(&mut v, flavor);
                    cat(&mut v, "/".as_bytes());
                    v
                },
                Some(j) => {
                    let mut v: Vec<u8> = Vec::new();
                    cat(&mut v, "/".as_bytes());
                    cat(&mut v, slice_subrange(rest, 0, i));
                    cat(&mut v, "/git/".as_bytes());
                    cat(&mut v, flavor);
                    cat(&mut v, "/".as_bytes());
                    let alen = after.len();
                    cat(&mut v, slice_subrange(after, j + 1, alen));
                    v
                },
            }
        },
    }
}

/// Rewrites one `src`/`href` value for serving: source-link sentinels are
/// resolved against `base`, dependency-link sentinels point at the
/// dependency's documentation in the current flavor, other links are kept.
pub fn rewrite_link(link: &[u8], base: &[u8], flavor: &[u8]) -> (r: Vec<u8>)
    ensures
        r@ == rewrite_link_spec(link@, base@, flavor@),
{
    let l1 = if starts_with_exec(link, "/__DOCSERVER_SRCLINK/".as_bytes()) {
        resolve_srclink_exec(link, base)
    } else {
        let mut v: Vec<u8> = Vec::new();
        v.extend_from_slice(link);
        assert(v@ =~= link@);
        v
    };
    if starts_with_exec(l1.as_slice(), "/__DOCSERVER_DEPLINK/".as_bytes()) {
        resolve_deplink_exec(l1.as_slice(), flavor)
    } else {
        l1
    }
}

/// What `regex::bytes::Regex::replace_all` makes of `html` for a pattern
/// (given as UTF-8 bytes) whose first two groups are an attribute name and
/// its value, each match being replaced by `attr_replacement` of the two
/// groups; `None` where the pattern is not valid UTF-8 or does not compile.
pub uninterp spec fn links_rewritten(pattern: Seq<u8>, html: Seq<u8>, base: Seq<u8>, flavor: Seq<u8>) -> Option<Seq<u8>>;

/// A matched `src`/`href` attribute as served: the name, `="`, the value
/// rewritten by `rewrite_link`, and `"`.
pub fn attr_replacement(attr: &[u8], link: &[u8], base: &[u8], flavor: &[u8]) -> (r: Vec<u8>)
    ensures
        r@ == attr@ + seq![0x3du8, 0x22u8] + rewrite_link_spec(link@, base@, flavor@) + seq![0x22u8],
{
    let mut v: Vec<u8> = Vec::new();
    cat(&mut v, attr);
    v.push(0x3d);
    v.push(0x22);
    let l = rewrite_link(link, base, flavor);
    cat(&mut v, l.as_slice());
    v.push(0x22);
    assert(v@ =~= attr@ + seq![0x3du8, 0x22u8] + rewrite_link_spec(link@, base@, flavor@) + seq![0x22u8]);
    v
}

/// Relies on `regex::bytes::Regex::new` and `Regex::replace_all` with a
/// replacer that hands the first two groups to `attr_replacement`.
#[verifier::external_body]
fn regex_replace_links(pattern: &[u8], html: &[u8], base: &[u8], flavor: &[u8]) -> (r: Option<Vec<u8>>)
    requires
        pattern@ == link_attr_pattern(),
    ensures
        match r {
            Some(v) => links_rewritten(pattern@, html@, base@, flavor@) == Some(v@),
            None => links_rewritten(pattern@, html@, base@, flavor@) is None,
        },
{
    let p = std::str::from_utf8(pattern).ok()?;
    let re = regex::bytes::Regex::new(p).ok()?;
    let out = re.replace_all(html, |c: &regex::bytes::Captures| attr_replacement(&c[1], &c[2], base, flavor));
    Some(out.into_owned())
}

/// The pattern of a quoted, non-empty `src` or `href` attribute value.
pub open spec fn link_attr_pattern() -> Seq<u8> {
    lit("(src|href)=\"([^\"]+)\"")
}

/// Rewrites every `src="…"` and `href="…"` value of an HTML page for serving.
pub fn rewrite_links(html: &[u8], base: &[u8], flavor: &[u8]) -> (r: Vec<u8>)
    ensures
        r@ == match links_rewritten(link_attr_pattern(), html@, base@, flavor@) {
            Some(t) => t,
            None => html@,
        },
{
    match regex_replace_links("(src|href)=\"([^\"]+)\"".as_bytes(), html, base, flavor) {
        Some(v) => v,
        None => {
            let mut v: Vec<u8> = Vec::new();
            v.extend_from_slice(html);
            assert(v@ =~= html@);
            v
        },
    }
}

/// The index of the listed item (a version, a flavor) to send a visitor to:
/// the first one equal to the item asked for or remembered in a cookie, else
/// the first one.
pub fn pick_listed(items: &Vec<String>, wanted: Option<&str>) -> (r: usize)
    requires
        items@.len() > 0,
    ensures
        r < items@.len(),
        wanted is None ==> r == 0,
        wanted is Some && (exists|i: int| 0 <= i < items@.len() && items@[i]@ == wanted->0@) ==> (
            items@[r as int]@ == wanted->0@ && forall|j: int| 0 <= j < r ==> items@[j]@ != wanted->0@),
        wanted is Some && !(exists|i: int| 0 <= i < items@.len() && items@[i]@ == wanted->0@) ==> r == 0,
{
    match wanted {
        None => 0,
        Some(c) => {
            let mut i: usize = 0;
            while i < items.len()
                invariant
                    wanted == Some(c),
                    i <= items@.len(),
                    forall|j: int| 0 <= j < i ==> items@[j]@ != c@,
                decreases items@.len() - i,
            {
                proof {
                    encode_utf8_decode_utf8(items@[i as int]@);
                    encode_utf8_decode_utf8(c@);
                }
                if bytes_equal(items[i].as_str().as_bytes(), c.as_bytes()) {
                    assert(items@[i as int]@ == c@);
                    return i;
                }
                i = i + 1;
            }
            0
        },
    }
}

/// The flavor of a dependency that documents best with a local flavor: the
/// one with the same name, else the first with the same target, else the
/// first one, if any.
pub fn match_flavor(local: &Flavor, dep: &[Flavor]) -> (r: Option<usize>)
    ensures
        match r {
            Some(i) => i < dep@.len() && (
                (dep@[i as int].name@ == local.name@ && forall|j: int| 0 <= j < i ==> dep@[j].name@ != local.name@)
                || ((forall|j: int| 0 <= j < dep@.len() ==> dep@[j].name@ != local.name@)
                    && dep@[i as int].target@ == local.target@
                    && forall|j: int| 0 <= j < i ==> dep@[j].target@ != local.target@)
                || ((forall|j: int| 0 <= j < dep@.len() ==> dep@[j].name@ != local.name@ && dep@[j].target@ != local.target@)
                    && i == 0)),
            None => dep@.len() == 0,
        },
{
    let mut i: usize = 0;
    while i < dep.len()
        invariant
            i <= dep@.len(),
            forall|j: int| 0 <= j < i ==> dep@[j].name@ != local.name@,
        decreases dep@.len() - i,
    {
        if dep[i].name == local.name {
            return Some(i);
        }
        i = i + 1;
    }
    let mut i: usize = 0;
    while i < dep.len()
        invariant
            i <= dep@.len(),
            forall|j: int| 0 <= j < dep@.len() ==> dep@[j].name@ != local.name@,
            forall|j: int| 0 <= j < i ==> dep@[j].target@ != local.target@,
        decreases dep@.len() - i,
    {
        if dep[i].target == local.target {
            return Some(i);
        }
        i = i + 1;
    }
    if dep.len() > 0 {
        Some(0)
    } else {
        None
    }
}

/// `/<crate>/<version>/<flavor>/` followed by the remaining segments joined by `/`.
pub open spec fn join_segments(segs: Seq<Seq<u8>>) -> Seq<u8>
    decreases segs.len(),
{
    if segs.len() == 0 {
        Seq::empty()
    } else if segs.len() == 1 {
        segs[0]
    } else {
        join_segments(segs.drop_last()) + lit("/") + segs.last()
    }
}

pub open spec fn flavor_url(krate: Seq<u8>, version: Seq<u8>, flavor: Seq<u8>, rest: Seq<Seq<u8>>) -> Seq<u8> {
    lit("/") + krate + lit("/") + version + lit("/") + flavor + lit("/") + join_segments(rest)
}

pub open spec fn bytes_view(v: Seq<Vec<u8>>) -> Seq<Seq<u8>> {
    v.map_values(|x: Vec<u8>| x@)
}

/// The location `/<crate>/<version>/<flavor>/<rest…>`.
pub fn flavor_location(krate: &[u8], version: &[u8], flavor: &[u8], rest: &[Vec<u8>]) -> (r: Vec<u8>)
    ensures
        r@ == flavor_url(krate@, version@, flavor@, bytes_view(rest@)),
{
    proof {
        reveal_strlit("/");
    }
    let mut v: Vec<u8> = Vec::new();
    cat(&mut v, "/".as_bytes());
    cat(&mut v, krate);
    cat(&mut v, "/".as_bytes());
    cat(&mut v, version);
    cat(&mut v, "/".as_bytes());
    cat(&mut v, flavor);
    cat(&mut v, "/".as_bytes());
    let ghost head = v@;
    let mut i: usize = 0;
    while i < rest.len()
        invariant
            i <= rest@.len(),
            v@ == head + join_segments(bytes_view(rest@).take(i as int)),
        decreases rest@.len() - i,
    {
        let ghost t = bytes_view(rest@).take(i + 1);
        proof {
            assert(t.drop_last() =~= bytes_view(rest@).take(i as int));
        }
        if i > 0 {
            cat(&mut v, "/".as_bytes());
        }
        cat(&mut v, rest[i].as_slice());
        proof {
            if i == 0 {
                assert(join_segments(bytes_view(rest@).take(0)) =~= Seq::<u8>::empty());
                assert(v@ =~= head + join_segments(t));
            } else {
                assert(v@ =~= head + join_segments(t));
            }
        }
        i = i + 1;
    }
    assert(bytes_view(rest@).take(rest@.len() as int) =~= bytes_view(rest@));
    v
}

/// Splits a request path into segments: empty and `.` segments are dropped,
/// `..` drops the segment before it.
pub open spec fn normalize(segs: Seq<Seq<u8>>) -> Seq<Seq<u8>>
    decreases segs.len(),
{
    if segs.len() == 0 {
        Seq::empty()
    } else {
        let prev = normalize(segs.drop_last());
        let x = segs.last();
        if x.len() == 0 || x == lit(".") {
            prev
        } else if x == lit("..") {
            if prev.len() == 0 {
                prev
            } else {
                prev.drop_last()
            }
        } else {
            prev.push(x)
        }
    }
}

/// The pieces of `s` between `/` separators.
pub open spec fn split_slash(s: Seq<u8>) -> Seq<Seq<u8>>
    decreases s.len(),
{
    match last_index_of(s, 0x2fu8) {
        Some(i) => if 0 <= i < s.len() {
            split_slash(s.subrange(0, i)).push(s.subrange(i + 1, s.len() as int))
        } else {
            seq![s]
        },
        None => seq![s],
    }
}

proof fn lemma_last_index_bound(s: Seq<u8>, b: u8)
    ensures
        last_index_of(s, b) matches Some(i) ==> 0 <= i < s.len() && s[i] == b,
    decreases s.len(),
{
    if s.len() > 0 && s.last() != b {
        lemma_last_index_bound(s.drop_last(), b);
    }
}

/// The segments of a request path.
pub fn parse_path(raw: &[u8]) -> (r: Vec<Vec<u8>>)
    ensures
        bytes_view(r@) == normalize(split_slash(raw@)),
    decreases raw@.len(),
{
    proof {
        reveal_strlit(".");
        reveal_strlit("..");
    }
    let idx = last_index_of_exec(raw, 0x2f);
    let n = raw.len();
    let mut prev: Vec<Vec<u8>>;
    let last: &[u8];
    match idx {
        None => {
            prev = Vec::new();
            last = raw;
        },
        Some(i) => {
            prev = parse_path(slice_subrange(raw, 0, i));
            last = slice_subrange(raw, i + 1, n);
        },
    }
    let ghost segs = split_slash(raw@);
    proof {
        match idx {
            None => {
                assert(segs =~= seq![raw@]);
                assert(segs.drop_last() =~= Seq::<Seq<u8>>::empty());
                assert(bytes_view(prev@) =~= Seq::<Seq<u8>>::empty());
            },
            Some(i) => {
                assert(segs == split_slash(raw@.subrange(0, i as int)).push(raw@.subrange(i + 1, raw@.len() as int)));
                assert(segs.drop_last() =~= split_slash(raw@.subrange(0, i as int)));
            },
        }
        assert(segs.last() == last@);
        assert(bytes_view(prev@) == normalize(segs.drop_last()));
    }
    let ghost pv = bytes_view(prev@);
    if last.len() == 0 || bytes_equal(last, ".".as_bytes()) {
    } else if bytes_equal(last, "..".as_bytes()) {
        if prev.len() > 0 {
            prev.pop();
            assert(bytes_view(prev@) =~= pv.drop_last());
        }
    } else {
        let mut v: Vec<u8> = Vec::new();
        v.extend_from_slice(last);
        assert(v@ =~= last@);
        prev.push(v);
        assert(bytes_view(prev@) =~= pv.push(last@));
    }
    prev
}

/// The index of the first item equal to `wanted`, where there is one, else 0.
pub open spec fn chosen_index(items: Seq<Seq<char>>, wanted: Option<Seq<char>>) -> int {
    match wanted {
        Some(c) => if exists|i: int| 0 <= i < items.len() && items[i] == c {
            choose|i: int| 0 <= i < items.len() && items[i] == c && forall|j: int| 0 <= j < i ==> items[j] != c
        } else {
            0
        },
        None => 0,
    }
}

/// What a request for a file of an archive is answered with.
pub enum ServeAction {
    /// 404.
    NotFound,
    /// 302 to the location.
    Redirect(Vec<u8>),
    /// The file's bytes; `html` when its extension is `html`.
    Page { data: Vec<u8>, html: bool },
}

pub enum ActionSpec {
    NotFound,
    Redirect(Seq<u8>),
    Page(Seq<u8>, bool),
}

impl ServeAction {
    pub open spec fn view(&self) -> ActionSpec {
        match self {
            ServeAction::NotFound => ActionSpec::NotFound,
            ServeAction::Redirect(l) => ActionSpec::Redirect(l@),
            ServeAction::Page { data, html } => ActionSpec::Page(data@, *html),
        }
    }
}

pub open spec fn segs_bytes(p: Seq<Seq<char>>) -> Seq<Seq<u8>> {
    p.map_values(|s: Seq<char>| encode_utf8(s))
}

pub open spec fn entry_names(es: Seq<(Seq<char>, layout::Node)>) -> Seq<Seq<char>> {
    es.map_values(|e: (Seq<char>, layout::Node)| e.0)
}

/// The answer to `/<crate>/<version>/<flavor>/<rest…>` (the segments in
/// `path`) from an archive: a redirect dropping a repeated crate segment; the
/// file `flavors/<flavor>/<rest…>`; for a directory, a redirect to its
/// `index.html`; for a missing file, 404 when the flavor exists, else a
/// redirect to the same path under the default flavor (the one the cookie
/// names if listed, else the first listed).
pub open spec fn route_spec(
    body: Seq<u8>,
    dict: Option<Seq<u8>>,
    root: layout::Node,
    path: Seq<Seq<char>>,
    cookie: Option<Seq<char>>,
) -> Result<ActionSpec, ZupError> {
    let k = encode_utf8(path[0]);
    let v = encode_utf8(path[1]);
    let f = encode_utf8(path[2]);
    if path.len() > 3 && encode_utf8(path[3]) == replace_all(k, lit("-"), lit("_")) {
        Ok(ActionSpec::Redirect(flavor_url(k, v, f, segs_bytes(path.skip(4)))))
    } else {
        match path_read(body, dict, root, seq!["flavors"@] + path.skip(2)) {
            Ok(data) => Ok(ActionSpec::Page(data, extension_of(encode_utf8(path.last())) == lit("html"))),
            Err(ZupError::IsADirectory) => Ok(ActionSpec::Redirect(
                flavor_url(k, v, f, segs_bytes(path.skip(3)).push(lit("index.html"))),
            )),
            Err(ZupError::NotFound) => if resolve(body, dict, root, true, seq!["flavors"@, path[2]]) is Ok {
                Ok(ActionSpec::NotFound)
            } else {
                match resolve(body, dict, root, true, seq!["flavors"@]) {
                    Err(e) => Err(e),
                    Ok((n, is_d)) => if !is_d {
                        Ok(ActionSpec::NotFound)
                    } else {
                        match dir_read(body, dict, n) {
                            Err(e) => Err(e),
                            Ok(es) => {
                                let names = entry_names(es);
                                if names.len() == 0 {
                                    Ok(ActionSpec::NotFound)
                                } else {
                                    Ok(ActionSpec::Redirect(flavor_url(
                                        k,
                                        v,
                                        encode_utf8(names[chosen_index(names, cookie)]),
                                        segs_bytes(path.skip(3)),
                                    )))
                                }
                            },
                        }
                    },
                }
            },
            Err(e) => Err(e),
        }
    }
}

pub open spec fn opt_chars(o: Option<&str>) -> Option<Seq<char>> {
    match o {
        Some(s) => Some(s@),
        None => None,
    }
}

fn owned_bytes(s: &str) -> (r: Vec<u8>)
    ensures
        r@ == encode_utf8(s@),
{
    let mut v: Vec<u8> = Vec::new();
    v.extend_from_slice(s.as_bytes());
    v
}

/// The segments of `path` from index `from` on, as bytes.
fn segments_from(path: &Vec<String>, from: usize) -> (r: Vec<Vec<u8>>)
    requires
        from <= path@.len(),
    ensures
        bytes_view(r@) == segs_bytes(strs(path@).skip(from as int)),
{
    let mut r: Vec<Vec<u8>> = Vec::new();
    let mut i = from;
    while i < path.len()
        invariant
            from <= i <= path@.len(),
            r@.len() == i - from,
            forall|k: int| 0 <= k < i - from ==> (#[trigger] r@[k])@ == encode_utf8(path@[from + k]@),
        decreases path@.len() - i,
    {
        r.push(owned_bytes(path[i].as_str()));
        i = i + 1;
    }
    assert(bytes_view(r@) =~= segs_bytes(strs(path@).skip(from as int)));
    r
}

/// Decides the answer to a request for `/<crate>/<version>/<flavor>/<rest…>`.
pub fn route(zup: &Reader, path: &Vec<String>, cookie_flavor: Option<&str>) -> (r: Result<ServeAction, ZupError>)
    requires
        zup.wf(),
        path@.len() >= 3,
    ensures
        match r {
            Ok(a) => route_spec(zup.body(), zup.dict_view(), zup.root_spec(), strs(path@), opt_chars(cookie_flavor))
                == Ok::<ActionSpec, ZupError>(a.view()),
            Err(e) => route_spec(zup.body(), zup.dict_view(), zup.root_spec(), strs(path@), opt_chars(cookie_flavor))
                == Err::<ActionSpec, ZupError>(e),
        },
{
    let ghost p = strs(path@);
    proof {
        reveal_strlit("-");
        reveal_strlit("flavors");
    }
    let k = path[0].as_str().as_bytes();
    let v = path[1].as_str().as_bytes();
    let f = path[2].as_str().as_bytes();
    let ident = replace_all_exec(k, "-".as_bytes(), "_".as_bytes());
    if path.len() > 3 && bytes_equal(path[3].as_str().as_bytes(), ident.as_slice()) {
        let rest = segments_from(path, 4);
        return Ok(ServeAction::Redirect(flavor_location(k, v, f, rest.as_slice())));
    }
    let mut zp: Vec<&str> = Vec::new();
    zp.push("flavors");
    let mut i: usize = 2;
    while i < path.len()
        invariant
            2 <= i <= path@.len(),
            zp@.len() == i - 1,
            zp@[0]@ == "flavors"@,
            forall|j: int| 1 <= j < i - 1 ==> (#[trigger] zp@[j])@ == path@[j + 1]@,
        decreases path@.len() - i,
    {
        zp.push(path[i].as_str());
        i = i + 1;
    }
    assert(path_view(zp@) =~= seq!["flavors"@] + p.skip(2));
    match zup.read(zp.as_slice()) {
        Ok(data) => {
            let ext = extension(path[path.len() - 1].as_str().as_bytes());
            let html = bytes_equal(ext.as_slice(), "html".as_bytes());
            Ok(ServeAction::Page { data, html })
        },
        Err(ZupError::IsADirectory) => {
            let mut rest = segments_from(path, 3);
            let ghost before = bytes_view(rest@);
            rest.push(owned_bytes("index.html"));
            assert(bytes_view(rest@) =~= before.push(lit("index.html")));
            Ok(ServeAction::Redirect(flavor_location(k, v, f, rest.as_slice())))
        },
        Err(ZupError::NotFound) => {
            let here = ["flavors", path[2].as_str()];
            assert(path_view(here@) =~= seq!["flavors"@, p[2]]);
            if zup.open(here.as_slice()).is_ok() {
                return Ok(ServeAction::NotFound);
            }
            let top = ["flavors"];
            assert(path_view(top@) =~= seq!["flavors"@]);
            match zup.open(top.as_slice()) {
                Err(e) => Err(e),
                Ok(Node::File(_)) => Ok(ServeAction::NotFound),
                Ok(Node::Directory(d)) => {
                    let children = d.children()?;
                    let mut names: Vec<String> = Vec::new();
                    let mut j: usize = 0;
                    while j < children.len()
                        invariant
                            j <= children@.len(),
                            names@.len() == j,
                            forall|x: int| 0 <= x < j ==> (#[trigger] names@[x])@ == children@[x].0@,
                        decreases children@.len() - j,
                    {
                        names.push(children[j].0.clone());
                        j = j + 1;
                    }
                    let ghost es = children_view(children@);
                    assert(strs(names@) =~= entry_names(es));
                    if names.len() == 0 {
                        return Ok(ServeAction::NotFound);
                    }
                    let idx = pick_listed(&names, cookie_flavor);
                    proof {
                        let items = strs(names@);
                        match cookie_flavor {
                            Some(c) => {
                                if exists|x: int| 0 <= x < items.len() && items[x] == c@ {
                                    assert(items[idx as int] == c@);
                                    let w = chosen_index(items, Some(c@));
                                    assert(0 <= w < items.len() && items[w] == c@ && forall|y: int| 0 <= y < w ==> items[y] != c@);
                                    if w < idx {
                                        assert(items[w] != c@);
                                    } else if w > idx {
                                        assert(items[idx as int] != c@);
                                    }
                                } else {
                                    assert forall|x: int| 0 <= x < names@.len() implies names@[x]@ != c@ by {
                                        assert(items[x] == names@[x]@);
                                    }
                                }
                            },
                            None => {},
                        }
                    }
                    let rest = segments_from(path, 3);
                    let flavor = owned_bytes(names[idx].as_str());
                    Ok(ServeAction::Redirect(flavor_location(k, v, flavor.as_slice(), rest.as_slice())))
                },
            }
        },
        Err(e) => Err(e),
    }
}

/// The listed item asked for, else `default`.
pub fn pick_listed_or(items: &Vec<String>, wanted: Option<&str>, default: &str) -> (r: String)
    ensures
        match wanted {
            Some(w) => if strs(items@).contains(w@) {
                r@ == w@
            } else {
                r@ == default@
            },
            None => r@ == default@,
        },
{
    match wanted {
        None => default.to_owned(),
        Some(w) => {
            let mut i: usize = 0;
            while i < items.len()
                invariant
                    wanted == Some(w),
                    i <= items@.len(),
                    forall|j: int| 0 <= j < i ==> items@[j]@ != w@,
                decreases items@.len() - i,
            {
                proof {
                    encode_utf8_decode_utf8(items@[i as int]@);
                    encode_utf8_decode_utf8(w@);
                }
                if bytes_equal(items[i].as_str().as_bytes(), w.as_bytes()) {
                    assert(strs(items@)[i as int] == w@);
                    return w.to_owned();
                }
                i = i + 1;
            }
            assert(!strs(items@).contains(w@)) by {
                if strs(items@).contains(w@) {
                    let j = choose|j: int| 0 <= j < strs(items@).len() && strs(items@)[j] == w@;
                    assert(items@[j]@ == w@);
                }
            }
            default.to_owned()
        },
    }
}

pub open spec fn head_close() -> Seq<u8> {
    lit("</head>")
}

pub open spec fn body_open() -> Seq<u8> {
    lit("<body class=\"")
}

/// The index of the closing quote of a `<body class="…">` tag that starts
/// at `i`, if one does.
pub open spec fn body_tag_at(s: Seq<u8>, i: int) -> Option<int> {
    if crate::text::occurs_at(s, body_open(), i) {
        match find_from(s, seq![0x22u8], i + body_open().len()) {
            Some(j) => if j + 1 < s.len() && s[j + 1] == 0x3eu8 {
                Some(j)
            } else {
                None
            },
            None => None,
        }
    } else {
        None
    }
}

/// The first `<body class="…">` tag at or after `from`: its start and the
/// index of its closing quote.
pub open spec fn find_body(s: Seq<u8>, from: int) -> Option<(int, int)>
    decreases s.len() + 1 - from,
{
    if from < 0 || from >= s.len() {
        None
    } else {
        match body_tag_at(s, from) {
            Some(j) => Some((from, j)),
            None => find_body(s, from + 1),
        }
    }
}

/// A page with the rendered head inserted before `</head>`, and its body tag
/// replaced by `<body>`, the navigation, and a wrapper div carrying the
/// body's classes. A page without both tags, in that order, is kept.
pub open spec fn spliced(s: Seq<u8>, head: Seq<u8>, nav: Seq<u8>) -> Seq<u8> {
    match (find_from(s, head_close(), 0), find_body(s, 0)) {
        (Some(h), Some((b, q))) => if h <= b {
            s.subrange(0, h) + head + s.subrange(h, b) + lit("<body>") + nav + lit("<div class=\"body-wrapper ")
                + s.subrange(b + body_open().len(), q) + lit("\">") + s.subrange(q + 2, s.len() as int)
        } else {
            s
        },
        _ => s,
    }
}

fn find_body_exec(s: &[u8]) -> (r: Option<(usize, usize)>)
    ensures
        match r {
            Some((b, q)) => find_body(s@, 0) == Some((b as int, q as int)) && b + body_open().len() <= q
                && q + 2 <= s@.len(),
            None => find_body(s@, 0) is None,
        },
{
    let bo = "<body class=\"".as_bytes();
    let quote = vec![0x22u8];
    assert(quote@ =~= seq![0x22u8]);
    let len = s.len();
    let mut i: usize = 0;
    while i < len
        invariant
            len == s@.len(),
            bo@ == body_open(),
            quote@ == seq![0x22u8],
            find_body(s@, 0) == find_body(s@, i as int),
        decreases s@.len() - i,
    {
        if crate::text::occurs_at_exec(s, bo, i) {
            match find_from_exec(s, quote.as_slice(), i + bo.len()) {
                Some(j) => {
                    if j + 1 < len && s[j + 1] == 0x3e {
                        return Some((i, j));
                    }
                },
                None => {},
            }
        }
        i = i + 1;
    }
    None
}

/// Splices the rendered head and navigation into a served page.
pub fn splice_page(page: &[u8], head: &[u8], nav: &[u8]) -> (r: Vec<u8>)
    ensures
        r@ == spliced(page@, head@, nav@),
{
    let len = page.len();
    let h = find_from_exec(page, "</head>".as_bytes(), 0);
    let body = find_body_exec(page);
    let mut keep: Vec<u8> = Vec::new();
    keep.extend_from_slice(page);
    assert(keep@ =~= page@);
    match (h, body) {
        (Some(h), Some((b, q))) => {
            if h > b {
                return keep;
            }
            let bo_len = "<body class=\"".as_bytes().len();
            let mut v: Vec<u8> = Vec::new();
            cat(&mut v, slice_subrange(page, 0, h));
            cat(&mut v, head);
            cat(&mut v, slice_subrange(page, h, b));
            cat(&mut v, "<body>".as_bytes());
            cat(&mut v, nav);
            cat(&mut v, "<div class=\"body-wrapper ".as_bytes());
            cat(&mut v, slice_subrange(page, b + bo_len, q));
            cat(&mut v, "\">".as_bytes());
            cat(&mut v, slice_subrange(page, q + 2, len));
            v
        },
        _ => keep,
    }
}

} // verus!
