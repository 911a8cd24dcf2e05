use docserver::flavors::Flavor;
use docserver::layout::Node;
use docserver::listing::DirectoryEntry;
use docserver::reader::Reader;
use docserver::serve::{pick_listed_or, route, splice_page, ServeAction};
use docserver::writer::ArchiveWriter;
use docserver::serve::{
    extension, flavor_location, match_flavor, mime_type, parse_path, pick_listed, rewrite_link,
    rewrite_links, srclink_base,
};

fn strings(v: &[&str]) -> Vec<String> {
    v.iter().map(|s| s.to_string()).collect()
}

fn flavor(name: &str, target: &str) -> Flavor {
    Flavor { name: name.to_string(), features: Vec::new(), target: target.to_string() }
}

#[test]
fn missing_flavor_redirects_to_first() {
    let flavors = strings(&["a", "b"]);
    let i = pick_listed(&flavors, None);
    let loc = flavor_location(b"pkg", b"1.0", flavors[i].as_bytes(), &[b"index.html".to_vec()]);
    assert_eq!(loc, b"/pkg/1.0/a/index.html".to_vec());
}

#[test]
fn sticky_cookie_flavor() {
    let flavors = strings(&["a", "b"]);
    assert_eq!(pick_listed(&flavors, Some("b")), 1);
    assert_eq!(pick_listed(&flavors, Some("zzz")), 0);
}

#[test]
fn source_link_resolution() {
    let base = srclink_base(b"1.2.3", b"https://example/v/$VERSION/", b"https://git/$COMMIT/", b"abc");
    assert_eq!(base, b"https://example/v/1.2.3/".to_vec());
    let html = br#"<a href="/__DOCSERVER_SRCLINK/foo/bar.html#42">src</a>"#;
    let out = rewrite_links(html, &base, b"a");
    assert_eq!(String::from_utf8(out).unwrap(), r#"<a href="https://example/v/1.2.3/foo/bar#L42">src</a>"#);
}

#[test]
fn git_source_link_and_ranges() {
    let base = srclink_base(b"git", b"https://example/v/$VERSION/", b"https://git/$COMMIT/src/", b"abc");
    assert_eq!(base, b"https://git/abc/src/".to_vec());
    let link = rewrite_link(b"/__DOCSERVER_SRCLINK/lib.rs.html#10-20", &base, b"f");
    assert_eq!(link, b"https://git/abc/src/lib.rs#L10-L20".to_vec());
}

#[test]
fn dependency_link_resolution() {
    let link = rewrite_link(b"/__DOCSERVER_DEPLINK/embassy-sync/whatever/embassy_sync/index.html", b"", b"stm32f4");
    assert_eq!(link, b"/embassy-sync/git/stm32f4/embassy_sync/index.html".to_vec());
    let html = br#"<img src="/__DOCSERVER_DEPLINK/d/x/y.png"><a href="plain.html">p</a><a href="">e</a>"#;
    let out = rewrite_links(html, b"", b"f");
    assert_eq!(
        String::from_utf8(out).unwrap(),
        r#"<img src="/d/git/f/y.png"><a href="plain.html">p</a><a href="">e</a>"#
    );
}

#[test]
fn extensions_and_mime_types() {
    assert_eq!(extension(b"a/b/index.html"), b"html".to_vec());
    assert_eq!(extension(b"noext"), Vec::<u8>::new());
    assert_eq!(mime_type(b"html"), "text/html");
    assert_eq!(mime_type(b"woff2"), "font/woff2");
    assert_eq!(mime_type(b"bin"), "application/octet-stream");
}

#[test]
fn request_path_segments() {
    let segs = parse_path(b"/pkg/./1.0//x/../flavor/index.html");
    let segs: Vec<&[u8]> = segs.iter().map(|s| s.as_slice()).collect();
    assert_eq!(segs, vec![&b"pkg"[..], b"1.0", b"flavor", b"index.html"]);
    assert!(parse_path(b"/../..").is_empty());
}

#[test]
fn directory_redirect_location() {
    let loc = flavor_location(b"pkg", b"1.0", b"a", &[b"sub".to_vec(), b"index.html".to_vec()]);
    assert_eq!(loc, b"/pkg/1.0/a/sub/index.html".to_vec());
    assert_eq!(flavor_location(b"k", b"v", b"f", &[]), b"/k/v/f/".to_vec());
}

#[test]
fn dependency_flavor_matching() {
    let deps = vec![flavor("x", "t1"), flavor("y", "t2"), flavor("z", "t2")];
    assert_eq!(match_flavor(&flavor("y", "t9"), &deps), Some(1));
    assert_eq!(match_flavor(&flavor("q", "t2"), &deps), Some(1));
    assert_eq!(match_flavor(&flavor("q", "t9"), &deps), Some(0));
    assert_eq!(match_flavor(&flavor("q", "t9"), &[]), None);
}

fn entry(name: &str, node: Node) -> DirectoryEntry {
    DirectoryEntry { name: name.to_string(), node }
}

/// An archive with flavors `a` and `b`, each holding `index.html` and `sub/x.txt`.
fn two_flavor_archive() -> Reader {
    let mut w = ArchiveWriter::new(None);
    let mut flavors = Vec::new();
    for f in ["a", "b"] {
        let page = w.add_file(format!("<p>{}</p>", f).as_bytes());
        let x = w.add_file(b"x");
        let sub = w.add_tree_dir(vec![entry("x.txt", x)]).unwrap().unwrap();
        let dir = w.add_tree_dir(vec![entry("index.html", page), entry("sub", sub)]).unwrap().unwrap();
        flavors.push(entry(f, dir));
    }
    let fl = w.add_tree_dir(flavors).unwrap().unwrap();
    let root = w.add_tree_dir(vec![entry("flavors", fl)]).unwrap();
    Reader::new(w.finish_tree(root).unwrap()).unwrap()
}

fn location(a: ServeAction) -> String {
    match a {
        ServeAction::Redirect(l) => String::from_utf8(l).unwrap(),
        _ => panic!("not a redirect"),
    }
}

#[test]
fn route_missing_flavor_redirects_to_first() {
    let zup = two_flavor_archive();
    let a = route(&zup, &strings(&["pkg", "1.0", "c", "index.html"]), None).unwrap();
    assert_eq!(location(a), "/pkg/1.0/a/index.html");
    let b = route(&zup, &strings(&["pkg", "1.0", "c", "index.html"]), Some("b")).unwrap();
    assert_eq!(location(b), "/pkg/1.0/b/index.html");
}

#[test]
fn route_pages_directories_and_missing_files() {
    let zup = two_flavor_archive();
    match route(&zup, &strings(&["pkg", "1.0", "b", "index.html"]), None).unwrap() {
        ServeAction::Page { data, html } => {
            assert_eq!(data, b"<p>b</p>".to_vec());
            assert!(html);
        }
        _ => panic!("not a page"),
    }
    match route(&zup, &strings(&["pkg", "1.0", "a", "sub", "x.txt"]), None).unwrap() {
        ServeAction::Page { data, html } => {
            assert_eq!(data, b"x".to_vec());
            assert!(!html);
        }
        _ => panic!("not a page"),
    }
    let d = route(&zup, &strings(&["pkg", "1.0", "a", "sub"]), None).unwrap();
    assert_eq!(location(d), "/pkg/1.0/a/sub/index.html");
    assert!(matches!(route(&zup, &strings(&["pkg", "1.0", "a", "nope.html"]), None).unwrap(), ServeAction::NotFound));
}

#[test]
fn route_strips_repeated_crate_segment() {
    let zup = two_flavor_archive();
    let r = route(&zup, &strings(&["my-pkg", "1.0", "a", "my_pkg", "struct.S.html"]), None).unwrap();
    assert_eq!(location(r), "/my-pkg/1.0/a/struct.S.html");
}

#[test]
fn sentinels_without_fragment_or_slashes() {
    assert_eq!(rewrite_link(b"/__DOCSERVER_SRCLINK/src/lib.rs.html", b"https://b/", b"f"), b"https://b/src/lib.rs".to_vec());
    assert_eq!(rewrite_link(b"/__DOCSERVER_DEPLINK/dep", b"", b"f"), b"/dep/git/f/".to_vec());
    assert_eq!(rewrite_link(b"/__DOCSERVER_DEPLINK/dep/x", b"", b"f"), b"/dep/git/f/".to_vec());
}

#[test]
fn page_splice_inserts_head_and_nav() {
    let page = br#"<html><head><title>t</title></head><body class="rustdoc mod"><p>x</p></body></html>"#;
    let out = splice_page(page, b"<link h>", b"<nav/>");
    assert_eq!(
        String::from_utf8(out).unwrap(),
        r#"<html><head><title>t</title><link h></head><body><nav/><div class="body-wrapper rustdoc mod"><p>x</p></body></html>"#
    );
    let bare = b"<p>no head or body tag</p>";
    assert_eq!(splice_page(bare, b"H", b"N"), bare.to_vec());
}

#[test]
fn crate_choice_falls_back_to_default() {
    let crates = strings(&["embassy-net", "embassy-sync"]);
    assert_eq!(pick_listed_or(&crates, Some("embassy-sync"), "embassy-executor"), "embassy-sync");
    assert_eq!(pick_listed_or(&crates, Some("unknown"), "embassy-executor"), "embassy-executor");
    assert_eq!(pick_listed_or(&crates, None, "embassy-executor"), "embassy-executor");
}
