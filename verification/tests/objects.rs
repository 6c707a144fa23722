use files_reader_mcp::error::Error;
use files_reader_mcp::git::index::parse_index;
use files_reader_mcp::git::objects::parse_commit;
use files_reader_mcp::git::refs::{parse_packed_refs, resolve_refs, RefTable};
use files_reader_mcp::git::store::{
    apply_delta, entry_data, find_in_packs, find_offset, finish_pack_entry, hash_object, loose_object_from,
    parse_pack_entry, read_zlib, validate_index, Object, ObjectKind, PackBase,
};
use sha1::Digest;
use std::io::Write;

fn sha1(data: &[u8]) -> Vec<u8> {
    sha1::Sha1::digest(data).to_vec()
}

fn zlib(data: &[u8]) -> Vec<u8> {
    let mut e = flate2::write::ZlibEncoder::new(Vec::new(), flate2::Compression::default());
    e.write_all(data).unwrap();
    e.finish().unwrap()
}

fn oid(c: char) -> String {
    c.to_string().repeat(40)
}

#[test]
fn commit_fields_are_read_from_the_header() {
    let data = format!(
        "tree {}\nparent {}\nparent {}\nauthor A <a@x> 1 +0000\ncommitter C <c@x> 2 +0000\n\nsubject\n",
        oid('a'),
        oid('b'),
        oid('c')
    );
    let c = parse_commit("id", data.as_bytes()).unwrap();
    assert_eq!(c.oid, "id");
    assert_eq!(c.tree, oid('a'));
    assert_eq!(c.parents, vec![oid('b'), oid('c')]);
    assert_eq!(c.author, "A <a@x> 1 +0000");
    assert_eq!(c.committer, "C <c@x> 2 +0000");
    assert_eq!(c.message, "subject\n");
}

#[test]
fn commits_are_refused_for_their_faults() {
    let no_message = format!("tree {}\nauthor A\n", oid('a'));
    assert!(matches!(parse_commit("id", no_message.as_bytes()), Err(Error::InvalidCommit)));
    let latin = format!("tree {}\nencoding latin1\n\nm", oid('a'));
    assert!(matches!(parse_commit("id", latin.as_bytes()), Err(Error::CommitEncodingUnsupported)));
    let utf8 = format!("tree {}\nencoding UTF-8\n\nm", oid('a'));
    assert!(parse_commit("id", utf8.as_bytes()).is_ok());
    let bell = format!("tree {}\n\n\u{7}", oid('a'));
    assert!(matches!(parse_commit("id", bell.as_bytes()), Err(Error::BinaryCommitMetadata)));
    assert!(matches!(parse_commit("id", b"author A\n\nm"), Err(Error::InvalidCommitTree)));
    assert!(matches!(parse_commit("id", b"tree xyz\n\nm"), Err(Error::InvalidTreeId)));
    assert!(matches!(parse_commit("id", &[0xff, 0xfe]), Err(Error::CommitEncodingUnsupported)));
}

#[test]
fn packed_refs_skip_comments_and_peeled_lines() {
    let data = format!("# pack-refs with: peeled\n{} refs/heads/main\n^{}\n\n{} refs/tags/v1\n", oid('a'), oid('b'), oid('c'));
    let refs = parse_packed_refs(data.as_bytes()).unwrap();
    assert_eq!(
        refs,
        vec![("refs/heads/main".to_string(), oid('a')), ("refs/tags/v1".to_string(), oid('c'))]
    );
    assert!(matches!(parse_packed_refs(b"nospace\n"), Err(Error::InvalidPackedRefs)));
    let outside = format!("{} heads/main\n", oid('a'));
    assert!(matches!(parse_packed_refs(outside.as_bytes()), Err(Error::InvalidRef)));
    assert!(matches!(
        parse_packed_refs(b"abc refs/heads/main\n"),
        Err(Error::UnsupportedObjectFormatOrInvalidRef)
    ));
}

#[test]
fn symbolic_refs_resolve_to_lowercase_ids_and_dangling_ones_drop() {
    let refs = vec![
        ("HEAD".to_string(), "ref: refs/heads/main".to_string()),
        ("refs/heads/gone".to_string(), "ref: refs/heads/missing".to_string()),
        ("refs/heads/main".to_string(), "A".repeat(40)),
    ];
    let resolved = resolve_refs(refs).unwrap();
    assert_eq!(
        resolved,
        vec![("HEAD".to_string(), oid('a')), ("refs/heads/main".to_string(), oid('a'))]
    );
    let cycle = vec![
        ("refs/heads/a".to_string(), "ref: refs/heads/b".to_string()),
        ("refs/heads/b".to_string(), "ref: refs/heads/a".to_string()),
    ];
    assert!(matches!(resolve_refs(cycle), Err(Error::InvalidOrCyclicRef)));
}

#[test]
fn resolved_refs_are_full_ids_in_lower_case() {
    let refs = vec![
        ("HEAD".to_string(), "ref: refs/heads/main".to_string()),
        ("refs/heads/main".to_string(), "ABCDEF".repeat(6) + "ABCD"),
        ("refs/heads/unborn".to_string(), "ref: refs/heads/none".to_string()),
        ("refs/heads/empty".to_string(), String::new()),
    ];
    let lower = "abcdef".repeat(6) + "abcd";
    let resolved = resolve_refs(refs).unwrap();
    assert_eq!(
        resolved,
        vec![("HEAD".to_string(), lower.clone()), ("refs/heads/main".to_string(), lower)]
    );
    let bad = vec![("refs/heads/x".to_string(), "not an id".to_string())];
    assert!(matches!(resolve_refs(bad), Err(Error::InvalidOrCyclicRef)));
}

fn pack_index(entries: &[([u8; 20], u32)]) -> Vec<u8> {
    let mut idx = vec![0xff, 0x74, 0x4f, 0x63, 0, 0, 0, 2];
    let mut fanout = [0u32; 256];
    for (id, _) in entries {
        for slot in fanout.iter_mut().skip(id[0] as usize) {
            *slot += 1;
        }
    }
    for f in fanout {
        idx.extend_from_slice(&f.to_be_bytes());
    }
    for (id, _) in entries {
        idx.extend_from_slice(id);
    }
    for _ in entries {
        idx.extend_from_slice(&[0u8; 4]);
    }
    for (_, off) in entries {
        idx.extend_from_slice(&off.to_be_bytes());
    }
    idx.extend_from_slice(&[0u8; 20]);
    let sum = sha1(&idx);
    idx.extend_from_slice(&sum);
    idx
}

#[test]
fn pack_index_lookup_finds_each_id_and_no_other() {
    let idx = pack_index(&[([0x11; 20], 12), ([0x22; 20], 345)]);
    validate_index(&idx).unwrap();
    assert_eq!(find_offset(&idx, &"11".repeat(20)).unwrap(), Some(12));
    assert_eq!(find_offset(&idx, &"22".repeat(20)).unwrap(), Some(345));
    assert_eq!(find_offset(&idx, &"33".repeat(20)).unwrap(), None);
    let mut bad = idx.clone();
    bad[1050] ^= 1;
    assert!(matches!(validate_index(&bad), Err(Error::PackIndexChecksumMismatch)));
}

#[test]
fn the_first_pack_that_lists_an_object_is_the_one_read() {
    let first = pack_index(&[([0x11; 20], 12)]);
    let second = pack_index(&[([0x11; 20], 99), ([0x22; 20], 345)]);
    let packs = vec![("a.pack".to_string(), first), ("b.pack".to_string(), second)];
    assert_eq!(find_in_packs(&packs, &"11".repeat(20)).unwrap(), (0, 12));
    assert_eq!(find_in_packs(&packs, &"22".repeat(20)).unwrap(), (1, 345));
    assert!(matches!(find_in_packs(&packs, &"33".repeat(20)), Err(Error::MissingObject)));
    assert!(matches!(find_in_packs(&Vec::new(), &"11".repeat(20)), Err(Error::MissingObject)));
    let short = vec![("c.pack".to_string(), vec![0u8; 10])];
    assert!(matches!(find_in_packs(&short, &"11".repeat(20)), Err(Error::TruncatedGitData)));
}

#[test]
fn a_loose_object_is_inflated_and_checked_against_its_id() {
    let file = zlib(b"blob 5\0hello");
    let id = hash_object("blob", b"hello");
    let o = loose_object_from(&id, &file).unwrap();
    assert!(o.kind == ObjectKind::Blob);
    assert_eq!(o.data, b"hello");
    assert!(matches!(loose_object_from(&oid('0'), &file), Err(Error::GitObjectHashMismatch)));
    assert!(matches!(read_zlib(b"not zlib"), Err(Error::InvalidZlibStream)));
    let short = zlib(b"blob 9\0hello");
    assert!(loose_object_from(&id, &short).is_err());
}

#[test]
fn deltas_copy_from_the_base_and_insert_new_bytes() {
    // base 11 bytes, result 11 bytes: copy "hello " (offset 0, size 6), insert "there".
    let delta = [11u8, 11, 0x90, 6, 5, b't', b'h', b'e', b'r', b'e'];
    assert_eq!(apply_delta(b"hello world", &delta).unwrap(), b"hello there");
    assert!(matches!(apply_delta(b"short", &delta), Err(Error::DeltaBaseSizeMismatch)));
    assert!(matches!(apply_delta(b"hello world", &[11u8, 11, 0]), Err(Error::InvalidDeltaOpcode)));
}

#[test]
fn pack_entries_are_read_from_their_headers() {
    let mut header = b"PACK".to_vec();
    header.extend_from_slice(&[0, 0, 0, 2, 0, 0, 0, 1]);
    // A blob of 5 bytes: type 3, size 5.
    let mut e = vec![0x35];
    e.extend_from_slice(&zlib(b"hello"));
    let entry = parse_pack_entry(&header, 100, 12, &e).unwrap();
    assert_eq!(entry.kind, 3);
    assert_eq!(entry.size, 5);
    assert!(matches!(entry.base, PackBase::Whole));
    assert_eq!(entry.data_start, 1);
    let data = read_zlib(entry_data(&e, &entry)).unwrap();
    let o = finish_pack_entry(&entry, None, data).unwrap();
    assert!(o.kind == ObjectKind::Blob);
    assert_eq!(o.data, b"hello");
    // An offset delta 10 bytes back.
    let d = parse_pack_entry(&header, 100, 40, &[0x6a, 10]).unwrap();
    assert!(matches!(d.base, PackBase::Offset(30)));
    assert!(matches!(parse_pack_entry(&header, 100, 40, &[0x6a, 40]), Err(Error::InvalidDeltaOffset)));
    assert!(matches!(parse_pack_entry(b"PACX\0\0\0\x02\0\0\0\x01", 100, 12, &e), Err(Error::InvalidPackHeader)));
    assert!(matches!(parse_pack_entry(&header, 100, 90, &e), Err(Error::InvalidPackOffset)));
    let base = Object { kind: ObjectKind::Blob, data: b"hello world".to_vec() };
    let delta = vec![11u8, 11, 0x90, 6, 5, b't', b'h', b'e', b'r', b'e'];
    let patched = finish_pack_entry(&files_reader_mcp::git::store::PackEntry { kind: 6, size: 10, base: PackBase::Offset(12), data_start: 2 }, Some(&base), delta).unwrap();
    assert_eq!(patched.data, b"hello there");
    assert!(matches!(finish_pack_entry(&entry, None, b"toolong".to_vec()), Err(Error::PackObjectSizeMismatch)));
}

fn index_file(paths: &[(&str, u32)]) -> Vec<u8> {
    let mut b = b"DIRC".to_vec();
    b.extend_from_slice(&2u32.to_be_bytes());
    b.extend_from_slice(&(paths.len() as u32).to_be_bytes());
    for (path, mode) in paths {
        let start = b.len();
        b.extend_from_slice(&[0u8; 24]);
        b.extend_from_slice(&mode.to_be_bytes());
        b.extend_from_slice(&[0u8; 12]);
        b.extend_from_slice(&[0x5a; 20]);
        b.extend_from_slice(&(path.len() as u16).to_be_bytes());
        b.extend_from_slice(path.as_bytes());
        b.push(0);
        while (b.len() - start) % 8 != 0 {
            b.push(0);
        }
    }
    let sum = sha1(&b);
    b.extend_from_slice(&sum);
    b
}

#[test]
fn the_index_lists_its_entries() {
    let b = index_file(&[("a.txt", 0o100644), ("src/run.sh", 0o100755)]);
    let entries = parse_index(&b).unwrap();
    assert_eq!(entries.len(), 2);
    assert_eq!(entries[0].path, "a.txt");
    assert_eq!(entries[1].path, "src/run.sh");
    assert_eq!(entries[1].mode, 0o100755);
    assert_eq!(entries[0].oid, "5a".repeat(20));
    let mut bad = b.clone();
    let last = bad.len() - 1;
    bad[last] ^= 1;
    assert!(matches!(parse_index(&bad), Err(Error::IndexChecksumMismatch)));
    assert!(matches!(parse_index(b"DIRX"), Err(Error::InvalidIndex)));
    let sparse = index_file(&[("dir", 0o40000)]);
    assert!(matches!(parse_index(&sparse), Err(Error::SparseIndexUnsupported)));
}

fn index_v4_file(entries: &[(u8, &str, u32)]) -> Vec<u8> {
    let mut b = b"DIRC".to_vec();
    b.extend_from_slice(&4u32.to_be_bytes());
    b.extend_from_slice(&(entries.len() as u32).to_be_bytes());
    for (strip, suffix, mode) in entries {
        b.extend_from_slice(&[0u8; 24]);
        b.extend_from_slice(&mode.to_be_bytes());
        b.extend_from_slice(&[0u8; 12]);
        b.extend_from_slice(&[0x5a; 20]);
        b.extend_from_slice(&(suffix.len() as u16).to_be_bytes());
        b.push(*strip);
        b.extend_from_slice(suffix.as_bytes());
        b.push(0);
    }
    let sum = sha1(&b);
    b.extend_from_slice(&sum);
    b
}

#[test]
fn a_version_4_index_shares_path_prefixes_and_a_missing_object_is_reported() {
    let b = index_v4_file(&[(0, "hello.txt", 0o100644), (9, "src/a.rs", 0o100644), (4, "b.rs", 0o100755)]);
    let entries = parse_index(&b).unwrap();
    let paths: Vec<&str> = entries.iter().map(|e| e.path.as_str()).collect();
    assert_eq!(paths, vec!["hello.txt", "src/a.rs", "src/b.rs"]);
    assert_eq!(entries[2].mode, 0o100755);
    assert_eq!(entries[0].oid, "5a".repeat(20));
    let too_far = index_v4_file(&[(0, "a", 0o100644), (5, "b", 0o100644)]);
    assert!(matches!(parse_index(&too_far), Err(Error::InvalidIndexPrefix)));
    let packs = vec![("p.pack".to_string(), pack_index(&[([0x22; 20], 12)]))];
    assert!(matches!(find_in_packs(&packs, &"11".repeat(20)), Err(Error::MissingObject)));
}

#[test]
fn the_reference_table_keeps_the_last_value_of_each_name_in_name_order() {
    let mut t = RefTable::new();
    t.insert("refs/heads/main".into(), oid('a'));
    t.insert("HEAD".into(), "x".into());
    t.insert("refs/heads/main".into(), oid('b'));
    t.insert_file("refs/tags/v1".into(), "  \u{a0}ref: refs/heads/main\r\n\u{2028}");
    assert_eq!(t.listing_budget(32).unwrap(), 20000 - 3);
    assert!(matches!(t.listing_budget(33), Err(Error::RefScanLimit)));
    let all = t.finish();
    assert_eq!(
        all,
        vec![
            ("HEAD".to_string(), "x".to_string()),
            ("refs/heads/main".to_string(), oid('b')),
            ("refs/tags/v1".to_string(), "ref: refs/heads/main".to_string()),
        ]
    );
}

#[test]
fn the_reference_scan_stops_at_its_limit() {
    let mut t = RefTable::new();
    for _ in 0..20000 {
        t.visit().unwrap();
    }
    assert!(matches!(t.visit(), Err(Error::RefScanLimit)));
}

#[test]
fn packed_refs_come_first_loose_ones_win_and_head_comes_last() {
    let packed = vec![
        ("refs/heads/main".to_string(), oid('a')),
        ("refs/tags/v1".to_string(), oid('c')),
        ("refs/heads/main".to_string(), oid('b')),
    ];
    let mut t = RefTable::with_packed(packed);
    t.insert_file("refs/tags/v1".into(), &format!("{}\n", oid('d')));
    let all = t.finish_with_head(" ref: refs/heads/main\n");
    assert_eq!(
        all,
        vec![
            ("HEAD".to_string(), "ref: refs/heads/main".to_string()),
            ("refs/heads/main".to_string(), oid('b')),
            ("refs/tags/v1".to_string(), oid('d')),
        ]
    );
}
