use sha1::Digest;
use files_reader_mcp::error::Error;
use files_reader_mcp::git::objects::TreeEntry;
use files_reader_mcp::git::store::{loose_path, pack_index_paths, ObjectBudget, ObjectKind, PackIndexes};
use files_reader_mcp::git::tree::{check_blob, expect_kind, Found, PathLookup, Peel, TreeWalk};

fn tree(entries: &[(&str, &str, u8)]) -> Vec<u8> {
    let mut d = Vec::new();
    for (mode, name, id) in entries {
        d.extend_from_slice(mode.as_bytes());
        d.push(b' ');
        d.extend_from_slice(name.as_bytes());
        d.push(0);
        d.extend_from_slice(&[*id; 20]);
    }
    d
}

fn hex(b: u8) -> String {
    format!("{b:02x}").repeat(20)
}

#[test]
fn tree_walk_lists_nested_files_in_path_order() {
    let root = tree(&[("100644", "z.txt", 1), ("40000", "sub", 2), ("100755", "a.sh", 3)]);
    let sub = tree(&[("100644", "b.txt", 4), ("120000", "link", 5)]);
    let mut walk = TreeWalk::new("root".into());
    assert_eq!(walk.next().unwrap(), Some("root".to_string()));
    walk.feed(ObjectKind::Tree, &root).unwrap();
    assert_eq!(walk.next().unwrap(), Some(hex(2)));
    walk.feed(ObjectKind::Tree, &sub).unwrap();
    assert_eq!(walk.next().unwrap(), None);
    let files = walk.finish();
    let paths: Vec<&str> = files.iter().map(|e| e.path.as_str()).collect();
    assert_eq!(paths, vec!["a.sh", "sub/b.txt", "sub/link", "z.txt"]);
    assert_eq!(files[0].mode, 0o100755);
    assert_eq!(files[1].oid, hex(4));
}

#[test]
fn tree_walk_refuses_a_non_tree_and_a_bad_listing() {
    let mut walk = TreeWalk::new("root".into());
    walk.next().unwrap();
    assert!(matches!(walk.feed(ObjectKind::Blob, b""), Err(Error::NotTree)));
    let mut walk = TreeWalk::new("root".into());
    walk.next().unwrap();
    assert!(walk.feed(ObjectKind::Tree, &tree(&[("100644", "..", 1)])).is_err());
}

#[test]
fn tree_walk_stops_below_thirty_two_levels() {
    let nested = tree(&[("40000", "d", 7)]);
    let mut walk = TreeWalk::new("root".into());
    let mut loads = 0;
    let refused = loop {
        match walk.next() {
            Ok(Some(_)) => {
                loads += 1;
                walk.feed(ObjectKind::Tree, &nested).unwrap();
            }
            Ok(None) => panic!("walk ended"),
            Err(e) => break e,
        }
    };
    assert_eq!(loads, 33);
    assert!(matches!(refused, Error::GitTreeScanLimit));
}

#[test]
fn path_lookup_descends_one_level_at_a_time() {
    let root = tree(&[("100644", "a", 1), ("40000", "sub", 2)]);
    let sub = tree(&[("100755", "run.sh", 3)]);
    let mut lookup = PathLookup::new("sub/./run.sh").unwrap();
    match lookup.feed(ObjectKind::Tree, &root).unwrap() {
        Found::Descend(id) => assert_eq!(id, hex(2)),
        _ => panic!("expected a subtree"),
    }
    match lookup.feed(ObjectKind::Tree, &sub).unwrap() {
        Found::Entry(e) => {
            assert_eq!(e.path, "sub/run.sh");
            assert_eq!(e.mode, 0o100755);
            assert_eq!(e.oid, hex(3));
        }
        _ => panic!("expected the entry"),
    }
}

fn store_load(store: &[(String, Vec<u8>)], id: &str) -> Vec<u8> {
    store.iter().find(|(k, _)| k == id).unwrap().1.clone()
}

fn look_up(store: &[(String, Vec<u8>)], path: &str) -> Result<Option<TreeEntry>, Error> {
    let mut lookup = PathLookup::new(path)?;
    let mut id = "root".to_string();
    loop {
        match lookup.feed(ObjectKind::Tree, &store_load(store, &id))? {
            Found::Entry(e) => return Ok(Some(e)),
            Found::Absent => return Ok(None),
            Found::Descend(next) => id = next,
        }
    }
}

#[test]
fn a_path_lookup_finds_what_the_whole_tree_holds() {
    let store = vec![
        ("root".to_string(), tree(&[("100644", "a", 1), ("40000", "d", 2), ("100755", "z", 3)])),
        (hex(2), tree(&[("40000", "e", 4), ("100644", "x", 5)])),
        (hex(4), tree(&[("120000", "l", 6)])),
    ];
    let mut walk = TreeWalk::new("root".into());
    while let Some(id) = walk.next().unwrap() {
        walk.feed(ObjectKind::Tree, &store_load(&store, &id)).unwrap();
    }
    let files = walk.finish();
    for f in &files {
        let found = look_up(&store, &f.path).unwrap().unwrap();
        assert_eq!((found.path.as_str(), found.mode, found.oid.as_str()), (f.path.as_str(), f.mode, f.oid.as_str()));
    }
    assert_eq!(files.len(), 4);
    assert!(look_up(&store, "d/y").unwrap().is_none());
    assert!(look_up(&store, "q/y").unwrap().is_none());
    assert!(matches!(look_up(&store, "a/b"), Err(Error::GitSymlinkOrSubmoduleUnsupported)));
}

#[test]
fn path_lookup_reports_absence_and_refusals() {
    let root = tree(&[("120000", "link", 1)]);
    let mut lookup = PathLookup::new("missing").unwrap();
    assert!(matches!(lookup.feed(ObjectKind::Tree, &root), Ok(Found::Absent)));
    let mut lookup = PathLookup::new("link/inner").unwrap();
    assert!(matches!(
        lookup.feed(ObjectKind::Tree, &root),
        Err(Error::GitSymlinkOrSubmoduleUnsupported)
    ));
    let mut lookup = PathLookup::new("x").unwrap();
    assert!(matches!(lookup.feed(ObjectKind::Commit, &root), Err(Error::NotTree)));
    assert!(matches!(PathLookup::new(""), Err(Error::InvalidGitFilePath)));
    assert!(matches!(PathLookup::new(&vec!["d"; 33].join("/")), Err(Error::InvalidGitFilePath)));
    assert!(PathLookup::new(&vec!["d"; 32].join("/")).is_ok());
    assert!(matches!(PathLookup::new("../x"), Err(Error::PathTraversalForbidden)));
}

#[test]
fn peel_follows_tags_to_a_commit() {
    let mut peel = Peel::new("t1".into());
    assert!(!peel.feed(ObjectKind::Tag, b"object t2\ntype tag\n").unwrap());
    assert_eq!(peel.current(), "t2");
    assert!(peel.feed(ObjectKind::Commit, b"tree x\n").unwrap());
    assert_eq!(peel.finish(), "t2");
}

fn peel_in(store: &[(&str, ObjectKind, &[u8])], id: &str) -> Result<String, Error> {
    let mut peel = Peel::new(id.into());
    loop {
        let (_, kind, data) = store.iter().find(|(k, _, _)| *k == peel.current()).unwrap();
        if peel.feed(*kind, data)? {
            return Ok(peel.finish());
        }
    }
}

#[test]
fn peeling_what_a_peel_reached_reaches_it_again() {
    let store: [(&str, ObjectKind, &[u8]); 3] = [
        ("v2", ObjectKind::Tag, b"object v1\ntype tag\n"),
        ("v1", ObjectKind::Tag, b"object c\ntype commit\n"),
        ("c", ObjectKind::Commit, b"tree x\n"),
    ];
    let p = peel_in(&store, "v2").unwrap();
    assert_eq!(p, "c");
    assert_eq!(peel_in(&store, &p).unwrap(), p);
    assert_eq!(peel_in(&store, "v1").unwrap(), "c");
}

#[test]
fn peel_refuses_a_sixteenth_tag_and_a_bad_tag() {
    let mut peel = Peel::new("t".into());
    for _ in 0..15 {
        assert!(!peel.feed(ObjectKind::Tag, b"object t\n").unwrap());
    }
    assert!(matches!(peel.feed(ObjectKind::Tag, b"object t\n"), Err(Error::TagDepthLimit)));
    let mut peel = Peel::new("t".into());
    assert!(matches!(peel.feed(ObjectKind::Tag, b"type commit\n"), Err(Error::InvalidTag)));
}

#[test]
fn kinds_are_checked_with_their_own_refusals() {
    assert!(expect_kind(ObjectKind::Blob, ObjectKind::Blob).is_ok());
    assert!(matches!(expect_kind(ObjectKind::Blob, ObjectKind::Tree), Err(Error::NotTree)));
    assert!(matches!(expect_kind(ObjectKind::Tree, ObjectKind::Blob), Err(Error::NotBlob)));
    assert!(matches!(expect_kind(ObjectKind::Tag, ObjectKind::Commit), Err(Error::NotCommit)));
}

#[test]
fn only_regular_files_are_read_as_blobs() {
    let entry = |path: &str, mode: u32| TreeEntry { path: path.into(), mode, oid: hex(1) };
    assert!(check_blob(&entry("a/b.txt", 0o100644)).is_ok());
    assert!(check_blob(&entry("run.sh", 0o100755)).is_ok());
    assert!(matches!(
        check_blob(&entry("link", 0o120000)),
        Err(Error::GitSymlinkOrSubmoduleUnsupported)
    ));
    assert!(matches!(
        check_blob(&entry(".git/config", 0o100644)),
        Err(Error::GitMetadataPathForbidden)
    ));
}

#[test]
fn object_budget_keeps_objects_until_thirty_two_mib_and_stops_at_128() {
    let mut budget = ObjectBudget::new();
    assert_eq!(budget.charge(32 * 1024 * 1024).unwrap(), true);
    assert_eq!(budget.charge(1).unwrap(), false);
    assert!(matches!(budget.charge(96 * 1024 * 1024), Err(Error::GitQueryObjectBudgetExceeded)));
    assert_eq!(budget.charge(96 * 1024 * 1024 - 1).unwrap(), false);
    assert!(matches!(budget.charge(1), Err(Error::GitQueryObjectBudgetExceeded)));
}

fn empty_pack_index() -> Vec<u8> {
    let mut idx = vec![0xff, 0x74, 0x4f, 0x63, 0, 0, 0, 2];
    idx.extend_from_slice(&[0u8; 1024]);
    idx.extend_from_slice(&[0u8; 20]);
    let sum = sha1::Sha1::digest(&idx);
    idx.extend_from_slice(&sum.to_vec());
    idx
}

#[test]
fn loose_objects_live_under_their_first_two_digits() {
    let id = format!("AB{}", "cd".repeat(19));
    assert_eq!(loose_path(&id).unwrap(), format!("objects/AB/{}", "cd".repeat(19)));
    assert!(matches!(loose_path("abcd"), Err(Error::InvalidObjectId)));
    assert!(matches!(loose_path(&"g".repeat(40)), Err(Error::InvalidObjectId)));
}

#[test]
fn pack_indexes_are_the_idx_names_with_their_packs() {
    let names: Vec<String> =
        ["pack-1.idx", "pack-1.pack", "x.idx.idx", "tmp", ".idx"].iter().map(|s| s.to_string()).collect();
    let pairs = pack_index_paths(&names);
    assert_eq!(
        pairs,
        vec![
            ("objects/pack/pack-1.idx".to_string(), "objects/pack/pack-1.pack".to_string()),
            ("objects/pack/x.idx.idx".to_string(), "objects/pack/x.pack".to_string()),
            ("objects/pack/.idx".to_string(), "objects/pack/.pack".to_string()),
        ]
    );
}

#[test]
fn pack_indexes_are_checked_and_budgeted() {
    let mut packs = PackIndexes::new();
    packs.take("objects/pack/a.pack".into(), empty_pack_index()).unwrap();
    let mut bad = empty_pack_index();
    bad[1071] ^= 1;
    assert!(matches!(
        packs.take("objects/pack/b.pack".into(), bad),
        Err(Error::PackIndexChecksumMismatch)
    ));
    assert!(matches!(
        packs.take("objects/pack/c.pack".into(), vec![0u8; 128 * 1024 * 1024]),
        Err(Error::PackIndexBudgetExceeded)
    ));
    let list = packs.finish();
    assert_eq!(list.len(), 1);
    assert_eq!(list[0].0, "objects/pack/a.pack");
}
