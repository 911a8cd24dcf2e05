use docserver::args::{BuildReleaseArgs, CompressionArgs, ReleaseArgsError, ReleaseSelection, keep_version};
use docserver::batch::{join_features, rustdoc_args};
use docserver::flavors::{calc_flavors, Flavor, FlavorError};
use docserver::html::{pack_config, process_html_file, should_include_file};
use docserver::manifest::{Dependency, DependencyEnum, Docs, DocsFlavor, Manifest, Metadata, Package};

fn strings(v: &[&str]) -> Vec<String> {
    v.iter().map(|s| s.to_string()).collect()
}

fn manifest(features: &[&str], rules: Vec<DocsFlavor>, global: &[&str], target: Option<&str>) -> Manifest {
    Manifest {
        package: Package {
            name: "embassy-stm32".to_string(),
            version: "1.0.0".to_string(),
            metadata: Metadata {
                embassy_docs: Docs {
                    flavors: rules,
                    target: target.map(|t| t.to_string()),
                    features: strings(global),
                    src_base: String::new(),
                    src_base_git: String::new(),
                },
            },
        },
        features: features.iter().map(|f| (f.to_string(), Vec::new())).collect(),
        dependencies: Vec::new(),
    }
}

fn regex_rule(re: &str) -> DocsFlavor {
    DocsFlavor { regex_feature: Some(re.to_string()), name: None, features: Vec::new(), target: None }
}

#[test]
fn flavor_resolution_by_regex() {
    let m = manifest(&["stm32f4", "stm32h7", "nrf52"], vec![regex_rule("stm32.*")], &["defmt"], Some("thumbv7em-none-eabi"));
    let fl = calc_flavors(&m).unwrap();
    assert_eq!(fl.len(), 2);
    assert_eq!(fl[0].name, "stm32f4");
    assert_eq!(fl[0].features, strings(&["stm32f4", "defmt"]));
    assert_eq!(fl[1].name, "stm32h7");
    assert_eq!(fl[1].features, strings(&["stm32h7", "defmt"]));
    assert_eq!(fl[1].target, "thumbv7em-none-eabi");
}

#[test]
fn regex_is_anchored_and_features_taken_once() {
    let m = manifest(
        &["stm32f4", "xstm32", "stm32h7"],
        vec![regex_rule("stm32f4"), regex_rule("stm32.*")],
        &[],
        Some("t"),
    );
    let fl = calc_flavors(&m).unwrap();
    let names: Vec<&str> = fl.iter().map(|f| f.name.as_str()).collect();
    assert_eq!(names, vec!["stm32f4", "stm32h7"]);
}

#[test]
fn default_flavor_without_rules() {
    let m = manifest(&[], vec![], &["a", "b"], Some("x86_64-unknown-linux-gnu"));
    let fl = calc_flavors(&m).unwrap();
    assert_eq!(fl.len(), 1);
    assert_eq!(fl[0].name, "default");
    assert_eq!(fl[0].features, strings(&["a", "b"]));
    assert_eq!(calc_flavors(&manifest(&[], vec![], &[], None)).err(), Some(FlavorError::MissingTarget));
}

#[test]
fn named_rule_with_extra_features_and_target() {
    let rule = DocsFlavor {
        regex_feature: None,
        name: Some("full".to_string()),
        features: strings(&["extra"]),
        target: Some("own".to_string()),
    };
    let fl = calc_flavors(&manifest(&[], vec![rule], &["g"], None)).unwrap();
    assert_eq!(fl[0].name, "full");
    assert_eq!(fl[0].features, strings(&["g", "extra"]));
    assert_eq!(fl[0].target, "own");
}

#[test]
fn invalid_flavor_rules() {
    let both = DocsFlavor { regex_feature: Some("a".to_string()), name: Some("a".to_string()), features: vec![], target: None };
    assert_eq!(calc_flavors(&manifest(&["a"], vec![both], &[], Some("t"))).err(), Some(FlavorError::InvalidFlavor));
    let neither = DocsFlavor { regex_feature: None, name: None, features: vec![], target: None };
    assert_eq!(calc_flavors(&manifest(&["a"], vec![neither], &[], Some("t"))).err(), Some(FlavorError::InvalidFlavor));
    assert_eq!(calc_flavors(&manifest(&["a"], vec![regex_rule("(")], &[], Some("t"))).err(), Some(FlavorError::InvalidRegex));
    assert_eq!(calc_flavors(&manifest(&["a"], vec![regex_rule("a")], &[], None)).err(), Some(FlavorError::MissingTarget));
    assert_eq!(calc_flavors(&manifest(&["a"], vec![regex_rule("b")], &[], Some("t"))).err(), Some(FlavorError::NoFlavors));
}

#[test]
fn html_rewrite_removes_settings_menu() {
    let cfg = pack_config("my-crate");
    assert_eq!(cfg.crate_ident, b"my_crate".to_vec());
    let out = process_html_file(&cfg.crate_ident, br#"<a id="settings-menu" class="k">S</a><p>ok</p>"#.to_vec());
    assert_eq!(out, b"<p>ok</p>".to_vec());
}

#[test]
fn html_rewrite_inserts_sentinels() {
    let cfg = pack_config("my-crate");
    let page = br#"<a href="../../src/my_crate/lib.rs.html#10">x</a><script defer src="../crates.js"></script><a href="../my_crate/struct.S.html">S</a><div data-root-path="../">"#;
    let out = process_html_file(&cfg.crate_ident, page.to_vec());
    let expected = br#"<a href="/__DOCSERVER_SRCLINK/lib.rs.html#10">x</a><script>window.ALL_CRATES=["my_crate"];</script><a href="struct.S.html">S</a><div data-root-path="./">"#;
    assert_eq!(String::from_utf8(out).unwrap(), String::from_utf8(expected.to_vec()).unwrap());
    let hidden = br#"<a class="src" href="../src/_priv.rs.html">source</a>!"#;
    assert_eq!(process_html_file(&cfg.crate_ident, hidden.to_vec()), b"!".to_vec());
}

#[test]
fn data_filter_only_touches_html() {
    let cfg = pack_config("c");
    let menu = br#"<a id="settings-menu">S</a>"#.to_vec();
    assert_eq!(cfg.data_filter("page.html", menu.clone()), Vec::<u8>::new());
    assert_eq!(cfg.data_filter("page.js", menu.clone()), menu);
}

#[test]
fn file_filter() {
    assert!(!should_include_file("implementors"));
    assert!(!should_include_file("_hidden.html"));
    assert!(!should_include_file("!.html"));
    assert!(should_include_file("a!.html"));
    assert!(should_include_file("index.html"));
    assert!(pack_config("c").file_filter("x.js"));
}

#[test]
fn compression_args_to_config() {
    let on = CompressionArgs { no_compress: false, compress_level: 7, dict_size: 163840, dict_train_size: 100 };
    let cfg = on.to_config().unwrap();
    assert_eq!((cfg.level, cfg.dict_size, cfg.dict_train_size), (7, 163840, 100));
    let off = CompressionArgs { no_compress: true, ..on };
    assert!(off.to_config().is_none());
}

#[test]
fn release_selection() {
    let comp = CompressionArgs { no_compress: true, compress_level: 7, dict_size: 1, dict_train_size: 1 };
    let args = |version: Option<&str>, all: bool| BuildReleaseArgs {
        crate_name: "c".to_string(),
        version: version.map(|v| v.to_string()),
        all_versions: all,
        webroot: "w".to_string(),
        temp_dir: "t".to_string(),
        force: false,
        compression: comp,
    };
    assert_eq!(args(Some("1.0"), true).selection(), Err(ReleaseArgsError::Both));
    assert_eq!(args(None, false).selection(), Err(ReleaseArgsError::Neither));
    assert_eq!(args(Some("1.0"), false).selection(), Ok(ReleaseSelection::One));
    assert_eq!(args(None, true).selection(), Ok(ReleaseSelection::All));
    assert!(keep_version(b"0.1.0", false));
    assert!(!keep_version(b"0.0.3", false));
    assert!(!keep_version(b"1.0.0", true));
}

#[test]
fn dependency_forms() {
    let d = DependencyEnum::Short("1.2".to_string()).into_dependency();
    assert_eq!(d.version.as_deref(), Some("1.2"));
    assert!(!d.is_local());
    let mut full = Dependency::from_version("2".to_string());
    full.path = Some("../x".to_string());
    assert!(DependencyEnum::Full(full).into_dependency().is_local());
}

#[test]
fn generator_job_arguments() {
    assert_eq!(join_features(&strings(&["a", "b", "c"])), b"a,b,c".to_vec());
    assert_eq!(join_features(&Vec::new()), Vec::<u8>::new());
    let f = Flavor { name: "n".to_string(), features: strings(&["x", "y"]), target: "t".to_string() };
    let args = rustdoc_args("m/Cargo.toml", "out/0", &f, &strings(&["embassy-sync"]));
    let args: Vec<String> = args.into_iter().map(|a| String::from_utf8(a).unwrap()).collect();
    assert_eq!(
        args,
        strings(&[
            "rustdoc",
            "--manifest-path",
            "m/Cargo.toml",
            "--artifact-dir",
            "out/0",
            "--features",
            "x,y",
            "--target",
            "t",
            "--",
            "-Zunstable-options",
            "--static-root-path",
            "/static/",
            "--extern-html-root-url=embassy_sync=/__DOCSERVER_DEPLINK/embassy-sync/",
        ])
    );
}
