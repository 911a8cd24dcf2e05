use docserver::html::{children_to_pack, pack_config};
use docserver::byte_reader::ByteReader;
use docserver::dictionary::{select_training_samples, train_dictionary};
use docserver::error::ZupError;
use docserver::layout::{Node, Range, Superblock, FLAG_COMPRESSED, FLAG_DIR, MAGIC, VERSION};
use docserver::listing::{encode_entries, parse_entries, sort_entries, DirectoryEntry};
use docserver::reader::{Reader, Node as ReadNode};
use docserver::walker::Walker;
use docserver::writer::{payload_digest, ArchiveWriter, WriterCompress};

fn entry(name: &str, node: Node) -> DirectoryEntry {
    DirectoryEntry { name: name.to_string(), node }
}

fn file_node(offset: u64, len: u64) -> Node {
    Node { flags: 0, range: Range { offset, len } }
}

/// Packs `/a.txt`, `/b.txt` (both "hello") and `/sub/c.txt` ("world").
fn minimal_archive(comp: Option<WriterCompress>) -> (Vec<u8>, docserver::writer::Stats) {
    let mut w = ArchiveWriter::new(comp);
    let a = w.add_file(b"hello");
    let b = w.add_file(b"hello");
    let c = w.add_file(b"world");
    let sub = w.add_tree_dir(vec![entry("c.txt", c)]).unwrap().unwrap();
    let root = w
        .add_tree_dir(vec![entry("sub", sub), entry("b.txt", b), entry("a.txt", a)])
        .unwrap();
    let stats = w.stats();
    (w.finish_tree(root).unwrap(), stats)
}

#[test]
fn range_encoding_is_little_endian() {
    let r = Range { offset: 0x0102030405060708, len: 9 };
    let b = r.to_bytes();
    assert_eq!(b, vec![8, 7, 6, 5, 4, 3, 2, 1, 9, 0, 0, 0, 0, 0, 0, 0]);
    assert_eq!(Range::from_bytes(&b), r);
}

#[test]
fn node_and_superblock_round_trip() {
    let n = Node { flags: FLAG_DIR | FLAG_COMPRESSED, range: Range { offset: 7, len: 11 } };
    let nb = n.to_bytes();
    assert_eq!(nb.len(), 20);
    assert_eq!(&nb[0..4], &[3, 0, 0, 0]);
    assert_eq!(Node::from_bytes(&nb), n);
    let sb = Superblock { dict: Range { offset: 1, len: 2 }, root: n, version: VERSION, magic: MAGIC };
    let b = sb.to_bytes();
    assert_eq!(b.len(), 44);
    assert_eq!(&b[40..44], b"Zup!");
    assert_eq!(Superblock::from_bytes(&b), Ok(sb));
}

#[test]
fn corrupted_superblock_is_refused() {
    let sb = Superblock { dict: Range { offset: 0, len: 0 }, root: file_node(0, 0), version: VERSION, magic: MAGIC };
    let mut bad_magic = sb.to_bytes();
    bad_magic[43] ^= 0xff;
    assert_eq!(Superblock::from_bytes(&bad_magic), Err(ZupError::BadMagic));
    assert_eq!(Reader::new(bad_magic).err(), Some(ZupError::BadMagic));
    let mut bad_version = sb.to_bytes();
    bad_version[36] = 2;
    assert_eq!(Superblock::from_bytes(&bad_version), Err(ZupError::UnsupportedVersion));
    assert_eq!(Reader::new(bad_version).err(), Some(ZupError::UnsupportedVersion));
    assert_eq!(Reader::new(vec![0u8; 10]).err(), Some(ZupError::TruncatedArchive));
}

#[test]
fn byte_reader_takes_pieces() {
    let data = [2u8, b'h', b'i', 0x34, 0x12, 1, 2, 3];
    let mut rd = ByteReader::new(&data);
    assert_eq!(rd.read_slice_len8().unwrap(), b"hi");
    assert_eq!(rd.read_u16().unwrap(), 0x1234);
    assert_eq!(rd.read::<2>().unwrap(), &[1, 2]);
    assert!(rd.read_u16().is_err());
    assert_eq!(rd.read_u8().unwrap(), 3);
    assert!(rd.eof());
}

#[test]
fn listing_round_trip() {
    let es = vec![entry("a", file_node(0, 5)), entry("b", file_node(5, 3))];
    let bytes = encode_entries(&es).unwrap();
    assert_eq!(bytes.len(), 2 * (1 + 1 + 20));
    assert_eq!(bytes[0], 1);
    assert_eq!(bytes[1], b'a');
    assert_eq!(parse_entries(&bytes).unwrap(), es);
}

#[test]
fn listing_name_length_limit() {
    let ok = "x".repeat(255);
    let too_long = "x".repeat(256);
    assert!(encode_entries(&[entry(&ok, file_node(0, 0))]).is_ok());
    assert_eq!(encode_entries(&[entry(&too_long, file_node(0, 0))]), Err(ZupError::NameTooLong));
    let mut w = ArchiveWriter::new(None);
    let f = w.add_file(b"x");
    assert!(w.add_tree_dir(vec![entry(&ok, f)]).is_ok());
    assert_eq!(w.add_tree_dir(vec![entry(&too_long, f)]), Err(ZupError::NameTooLong));
}

#[test]
fn listing_rejects_bad_names_and_order() {
    assert_eq!(encode_entries(&[entry("", file_node(0, 0))]), Err(ZupError::InvalidName));
    assert_eq!(encode_entries(&[entry("a/b", file_node(0, 0))]), Err(ZupError::InvalidName));
    assert_eq!(
        encode_entries(&[entry("b", file_node(0, 0)), entry("a", file_node(0, 0))]),
        Err(ZupError::UnsortedListing)
    );
    assert_eq!(
        sort_entries(vec![entry("a", file_node(0, 0)), entry("a", file_node(1, 0))]).err(),
        Some(ZupError::DuplicateName)
    );
}

#[test]
fn listing_parse_errors() {
    assert_eq!(parse_entries(&[3, b'a']), Err(ZupError::TruncatedListing));
    assert_eq!(parse_entries(&[1, 0xff]), Err(ZupError::BadName));
    assert_eq!(parse_entries(&[1, b'a', 0, 0]), Err(ZupError::TruncatedListing));
}

#[test]
fn sort_orders_by_bytes() {
    let sorted = sort_entries(vec![
        entry("b", file_node(0, 0)),
        entry("B", file_node(1, 0)),
        entry("a", file_node(2, 0)),
    ])
    .unwrap();
    let names: Vec<&str> = sorted.iter().map(|e| e.name.as_str()).collect();
    assert_eq!(names, vec!["B", "a", "b"]);
}

#[test]
fn minimal_archive_scenario() {
    let (bytes, stats) = minimal_archive(None);
    assert_eq!(stats.total_files, 3);
    assert_eq!(stats.total_dirs, 2);
    assert_eq!(stats.nodes_before_dedup, 5);
    assert_eq!(stats.nodes_after_dedup, 4);
    let rd = Reader::new(bytes).unwrap();
    assert_eq!(rd.read(&["a.txt"]).unwrap(), b"hello");
    assert_eq!(rd.read(&["b.txt"]).unwrap(), b"hello");
    assert_eq!(rd.read(&["sub", "c.txt"]).unwrap(), b"world");
    assert_eq!(rd.open(&["a.txt"]).unwrap().node(), rd.open(&["b.txt"]).unwrap().node());
}

#[test]
fn reader_path_errors() {
    let (bytes, _) = minimal_archive(None);
    let rd = Reader::new(bytes).unwrap();
    assert_eq!(rd.read(&["missing"]).err(), Some(ZupError::NotFound));
    assert_eq!(rd.read(&["sub"]).err(), Some(ZupError::IsADirectory));
    assert_eq!(rd.read(&[]).err(), Some(ZupError::IsADirectory));
    assert_eq!(rd.read(&["a.txt", "x"]).err(), Some(ZupError::NotADirectory));
}

#[test]
fn directory_listing_is_sorted_and_flagged() {
    let (bytes, _) = minimal_archive(None);
    let rd = Reader::new(bytes).unwrap();
    let root = match rd.root_node() {
        ReadNode::Directory(d) => d,
        ReadNode::File(_) => panic!("root is a file"),
    };
    let children = root.children().unwrap();
    let names: Vec<&str> = children.iter().map(|(n, _)| n.as_str()).collect();
    assert_eq!(names, vec!["a.txt", "b.txt", "sub"]);
    for (name, node) in &children {
        let is_dir = matches!(node, ReadNode::Directory(_));
        assert_eq!(is_dir, name == "sub");
        assert_eq!(node.node().flags & FLAG_DIR != 0, is_dir);
    }
}

#[test]
fn single_file_archive_size() {
    let mut w = ArchiveWriter::new(None);
    let f = w.add_file(b"0123456789");
    let root = w.add_tree_dir(vec![entry("f", f)]).unwrap();
    let bytes = w.finish_tree(root).unwrap();
    assert_eq!(bytes.len(), 10 + (1 + 1 + 20) + 44);
}

#[test]
fn empty_tree_is_refused() {
    let mut w = ArchiveWriter::new(None);
    assert_eq!(w.add_tree_dir(vec![]), Ok(None));
    assert_eq!(w.finish_tree(None), Err(ZupError::EmptyTree));
}

#[test]
fn dedup_stores_once() {
    let mut w = ArchiveWriter::new(None);
    let a = w.add_file(b"same bytes");
    let after_first = w.offset();
    let b = w.add_file(b"same bytes");
    assert_eq!(a, b);
    assert_eq!(w.offset(), after_first);
    let c = w.add_file(b"other");
    assert_ne!(a, c);
    assert_eq!(w.offset(), after_first + 5);
}

#[test]
fn packs_are_reproducible() {
    let (a, _) = minimal_archive(None);
    let (b, _) = minimal_archive(None);
    assert_eq!(a, b);
    let dict = || Some(WriterCompress { dict: Vec::new(), level: 3 });
    let (c, _) = minimal_archive(dict());
    let (d, _) = minimal_archive(dict());
    assert_eq!(c, d);
}

#[test]
fn compression_only_when_shorter() {
    let mut w = ArchiveWriter::new(Some(WriterCompress { dict: Vec::new(), level: 3 }));
    let long = vec![b'a'; 4000];
    let n = w.add_file(&long);
    assert_ne!(n.flags & FLAG_COMPRESSED, 0);
    assert!(n.range.len < 4000);
    let short = w.add_file(b"xy");
    assert_eq!(short.flags & FLAG_COMPRESSED, 0);
    assert_eq!(short.range.len, 2);
    let root = w.add_tree_dir(vec![entry("long", n), entry("short", short)]).unwrap();
    let rd = Reader::new(w.finish_tree(root).unwrap()).unwrap();
    assert_eq!(rd.read(&["long"]).unwrap(), long);
    assert_eq!(rd.read(&["short"]).unwrap(), b"xy");
}

#[test]
fn compressed_node_without_dictionary() {
    let mut archive = vec![1u8, 2, 3, 4];
    let root = Node { flags: FLAG_DIR, range: Range { offset: 0, len: 0 } };
    let sb = Superblock { dict: Range { offset: 0, len: 0 }, root, version: VERSION, magic: MAGIC };
    archive.extend_from_slice(&sb.to_bytes());
    let rd = Reader::new(archive).unwrap();
    let compressed = Node { flags: FLAG_COMPRESSED, range: Range { offset: 0, len: 4 } };
    assert_eq!(rd.read_node(compressed), Err(ZupError::MissingDictionary));
    assert_eq!(rd.read_node(file_node(0, 4)).unwrap(), vec![1, 2, 3, 4]);
    assert_eq!(rd.read_node(file_node(2, 4)), Err(ZupError::RangeOutOfBounds));
    assert_eq!(rd.read_node(file_node(0, 100_000_001)), Err(ZupError::RangeTooLarge));
}

#[test]
fn dedup_across_flavors_keeps_archive_small() {
    let page = |i: usize| format!("<html><body>shared page {} {}</body></html>", i, "x".repeat(200)).into_bytes();
    let build = |flavors: usize| {
        let mut w = ArchiveWriter::new(Some(WriterCompress { dict: Vec::new(), level: 3 }));
        let mut flavor_entries = Vec::new();
        for f in 0..flavors {
            let mut files = Vec::new();
            for i in 0..20 {
                let data = if i < 18 { page(i) } else { format!("flavor {} page {}", f, i).into_bytes() };
                files.push(entry(&format!("p{}.html", i), w.add_file(&data)));
            }
            let dir = w.add_tree_dir(files).unwrap().unwrap();
            flavor_entries.push(entry(&format!("f{}", f), dir));
        }
        let flavors_dir = w.add_tree_dir(flavor_entries).unwrap().unwrap();
        let root = w.add_tree_dir(vec![entry("flavors", flavors_dir)]).unwrap();
        w.finish_tree(root).unwrap().len()
    };
    let one = build(1);
    let two = build(2);
    assert!((two as f64) <= 1.3 * one as f64, "{} vs {}", two, one);
}

#[test]
fn training_sample_selection() {
    assert_eq!(select_training_samples(&vec![50, 50, 50], 100), 2);
    assert_eq!(select_training_samples(&vec![10, 10], 100), 2);
    assert_eq!(select_training_samples(&vec![10, 10], 0), 0);
    assert_eq!(train_dictionary(&vec![b"tiny".to_vec()], 1024), (Vec::new(), false));
}

#[test]
fn walker_visits_once() {
    let mut w = Walker::new();
    let n = file_node(3, 4);
    assert!(w.visit(n));
    assert!(!w.visit(n));
    assert!(w.visit(Node { flags: FLAG_DIR, range: Range { offset: 3, len: 4 } }));
    w.count_file(10);
    w.count_file(5);
    assert_eq!(w.files(), 2);
    assert_eq!(w.bytes(), 15);
}

#[test]
fn payload_digest_is_sha256() {
    let d = payload_digest(b"abc");
    let hex: String = d.iter().map(|b| format!("{:02x}", b)).collect();
    assert_eq!(hex, "ba7816bf8f01cfea414140de5dae2223b00361a396177a9cb410ff61f20015ad");
}

#[test]
fn dictionary_training_on_enough_samples() {
    let samples: Vec<Vec<u8>> = (0..200)
        .map(|i| format!("<html><head><title>item {}</title></head><body>shared text body {}</body></html>", i, i * 7).into_bytes())
        .collect();
    let (d, failed) = train_dictionary(&samples, 4096);
    if failed {
        assert!(d.is_empty());
    } else {
        assert!(!d.is_empty());
        assert!(d.len() <= 4096);
    }
}

#[test]
fn children_are_packed_in_name_order() {
    let names: Vec<String> = ["b.html", "_hidden", "a.html", "implementors", "B"].iter().map(|s| s.to_string()).collect();
    let cfg = pack_config("c");
    assert_eq!(children_to_pack(Some(&cfg), &names).unwrap(), vec![4, 2, 0]);
    assert_eq!(children_to_pack(None, &names).unwrap(), vec![4, 1, 2, 0, 3]);
    let dup: Vec<String> = ["a", "a"].iter().map(|s| s.to_string()).collect();
    assert_eq!(children_to_pack(None, &dup), Err(ZupError::DuplicateName));
}
