use files_reader_mcp::error::Error;
use files_reader_mcp::git::history::{bytes_less, find_sorted, merge_bases, merge_sorted, LogWalk};
use files_reader_mcp::git::objects::Commit;
use files_reader_mcp::git::refs::{nth_parent, parse_revision, resolve_name, step_picks, Abbreviation};

fn commit(oid: &str, parents: &[&str]) -> Commit {
    Commit {
        oid: oid.into(),
        tree: "t".into(),
        parents: parents.iter().map(|p| p.to_string()).collect(),
        author: String::new(),
        committer: String::new(),
        message: String::new(),
    }
}

#[test]
fn merge_base_of_a_branch_and_its_parent_is_the_parent() {
    // c2 -> c1 -> c0
    let left = vec![commit("c2", &["c1"]), commit("c1", &["c0"]), commit("c0", &[])];
    let right = vec![commit("c1", &["c0"]), commit("c0", &[])];
    assert_eq!(merge_bases(&left, &right).unwrap(), vec!["c1".to_string()]);
}

#[test]
fn criss_cross_history_has_two_merge_bases_in_id_order() {
    // x and y both merge a and b.
    let a = commit("bbb", &["base"]);
    let b = commit("aaa", &["base"]);
    let base = commit("base", &[]);
    let left = vec![commit("x", &["bbb", "aaa"]), a.clone(), b.clone(), base.clone()];
    let right = vec![commit("y", &["aaa", "bbb"]), b, a, base];
    assert_eq!(merge_bases(&left, &right).unwrap(), vec!["aaa".to_string(), "bbb".to_string()]);
}

#[test]
fn merge_bases_do_not_depend_on_the_order_of_the_logs() {
    let a = commit("bbb", &["base"]);
    let b = commit("aaa", &["base"]);
    let base = commit("base", &[]);
    let left = vec![commit("x", &["bbb", "aaa"]), a.clone(), b.clone(), base.clone()];
    let right = vec![commit("y", &["aaa", "bbb"]), b, a, base];
    assert_eq!(merge_bases(&left, &right).unwrap(), merge_bases(&right, &left).unwrap());
    let chain = vec![commit("c2", &["c1"]), commit("c1", &["c0"]), commit("c0", &[])];
    let tail = vec![commit("c1", &["c0"]), commit("c0", &[])];
    assert_eq!(merge_bases(&tail, &chain).unwrap(), vec!["c1".to_string()]);
    let gone = vec![commit("a", &["gone"])];
    assert_eq!(merge_bases(&gone, &gone.clone()).unwrap_err(), Error::MissingAncestor);
}

fn picks(rev: &str) -> (String, Vec<usize>) {
    let (name, steps, stop) = parse_revision(rev).unwrap();
    assert!(stop.is_none());
    let mut all = Vec::new();
    for (op, count) in steps {
        all.extend(step_picks(op, count));
    }
    (name, all)
}

#[test]
fn first_parent_spellings_pick_the_same_parents() {
    assert_eq!(picks("main~1"), ("main".to_string(), vec![1]));
    assert_eq!(picks("main^"), picks("main~1"));
    assert_eq!(picks("main^1"), picks("main~1"));
    assert_eq!(picks("main~2"), picks("main^^"));
    assert_eq!(picks("main~0"), ("main".to_string(), vec![]));
    assert_eq!(picks("main^0"), picks("main~0"));
    assert_eq!(picks("main^2"), ("main".to_string(), vec![2]));
}

#[test]
fn disjoint_histories_have_no_merge_base() {
    let left = vec![commit("a", &[])];
    let right = vec![commit("b", &[])];
    assert!(merge_bases(&left, &right).unwrap().is_empty());
}

#[test]
fn an_ancestor_outside_both_logs_is_refused() {
    let left = vec![commit("a", &["gone"])];
    let right = vec![commit("a", &["gone"])];
    assert_eq!(merge_bases(&left, &right).unwrap_err(), Error::MissingAncestor);
}

#[test]
fn log_walk_is_breadth_first_and_hands_out_each_id_once() {
    let graph = [("m", vec!["p1", "p2"]), ("p1", vec!["r"]), ("p2", vec!["r"]), ("r", vec![])];
    let mut walk = LogWalk::new("m".into(), 10);
    let mut order = Vec::new();
    while let Some(id) = walk.next().unwrap() {
        let parents: Vec<&str> = graph.iter().find(|(k, _)| *k == id).unwrap().1.clone();
        order.push(id.clone());
        walk.feed(commit(&id, &parents));
    }
    assert_eq!(order, vec!["m", "p1", "p2", "r"]);
    assert_eq!(walk.finish().len(), 4);
}

#[test]
fn log_walk_stops_past_its_limit() {
    let mut walk = LogWalk::new("a".into(), 1);
    let first = walk.next().unwrap().unwrap();
    walk.feed(commit(&first, &["b"]));
    assert_eq!(walk.next().unwrap_err(), Error::HistoryWalkLimit);
}

#[test]
fn revisions_split_into_name_and_steps() {
    let (name, steps, stop) = parse_revision("HEAD~2^1").unwrap();
    assert_eq!(name, "HEAD");
    assert_eq!(steps, vec![(b'~', 2), (b'^', 1)]);
    assert_eq!(stop, None);
    let (name, steps, stop) = parse_revision("main^").unwrap();
    assert_eq!((name.as_str(), steps, stop), ("main", vec![(b'^', 1)], None));
    assert_eq!(parse_revision("a:b").unwrap_err(), Error::InvalidRevision);
    assert_eq!(parse_revision("").unwrap_err(), Error::InvalidRevision);
    let (_, steps, stop) = parse_revision("HEAD~1~x").unwrap();
    assert_eq!((steps, stop), (vec![(b'~', 1)], Some(Error::InvalidRevisionCount)));
    let (_, steps, stop) = parse_revision("HEAD~10001").unwrap();
    assert_eq!((steps, stop), (vec![], Some(Error::RevisionWalkLimit)));
}

#[test]
fn names_resolve_through_references() {
    let id1 = "1111111111111111111111111111111111111111".to_string();
    let id2 = "2222222222222222222222222222222222222222".to_string();
    let refs = vec![
        ("HEAD".to_string(), id1.clone()),
        ("refs/heads/main".to_string(), id1.clone()),
        ("refs/heads/dup".to_string(), id1.clone()),
        ("refs/tags/dup".to_string(), id2.clone()),
    ];
    assert_eq!(resolve_name(&refs, "HEAD").unwrap(), Some(id1.clone()));
    assert_eq!(resolve_name(&refs, "main").unwrap(), Some(id1.clone()));
    assert_eq!(resolve_name(&refs, "dup").unwrap_err(), Error::AmbiguousRevision);
    assert_eq!(resolve_name(&refs, "abcd").unwrap(), None);
    let upper = "ABCDEF0123456789ABCDEF0123456789ABCDEF01";
    assert_eq!(resolve_name(&refs, upper).unwrap(), Some(upper.to_ascii_lowercase()));
}

#[test]
fn names_order_bytewise_with_prefixes_first() {
    assert!(bytes_less(b"a", b"b"));
    assert!(bytes_less(b"a", b"ab"));
    assert!(!bytes_less(b"ab", b"a"));
    assert!(!bytes_less(b"a", b"a"));
    assert!(bytes_less(b"Z", b"a"));
}

#[test]
fn sorted_lists_merge_without_repeats_and_are_searchable() {
    let a: Vec<String> = vec!["a".into(), "c".into(), "e".into()];
    let b: Vec<String> = vec!["b".into(), "c".into(), "f".into()];
    let m = merge_sorted(a, b);
    assert_eq!(m, vec!["a", "b", "c", "e", "f"]);
    assert_eq!(find_sorted(&m, b"e"), Some(3));
    assert_eq!(find_sorted(&m, b"d"), None);
}

fn pack_index(ids: &[[u8; 20]]) -> Vec<u8> {
    let mut idx = vec![0u8; 1028];
    idx.extend_from_slice(&(ids.len() as u32).to_be_bytes());
    for id in ids {
        idx.extend_from_slice(id);
    }
    idx
}

#[test]
fn abbreviation_refuses_short_long_and_non_hex_text() {
    assert!(matches!(Abbreviation::new("abc"), Err(Error::InvalidRevision)));
    assert!(matches!(Abbreviation::new(&"a".repeat(41)), Err(Error::InvalidRevision)));
    assert!(matches!(Abbreviation::new("abcg"), Err(Error::InvalidRevision)));
    assert!(Abbreviation::new("ABCD").is_ok());
}

#[test]
fn abbreviation_looks_in_the_lowercase_directory() {
    let search = Abbreviation::new("ABCD").unwrap();
    assert_eq!(search.loose_dir(), "objects/ab");
}

#[test]
fn abbreviation_finds_one_loose_object() {
    let mut search = Abbreviation::new("AbCd").unwrap();
    let hit = format!("cd{}", "0".repeat(36));
    let other = format!("ce{}", "0".repeat(36));
    search.take_loose(&vec![hit.clone(), other, "cd".into(), "tmp_pack".into()]);
    assert_eq!(search.finish().unwrap(), format!("ab{hit}"));
}

#[test]
fn abbreviation_counts_an_id_in_both_places_once() {
    let mut search = Abbreviation::new("abcd").unwrap();
    search.take_loose(&vec![format!("cd{}", "1".repeat(36))]);
    let mut id = [0x11u8; 20];
    id[0] = 0xab;
    id[1] = 0xcd;
    let mut miss = [0u8; 20];
    miss[0] = 0xab;
    search.take_index(&pack_index(&[miss, id])).unwrap();
    assert_eq!(search.finish().unwrap(), format!("abcd{}", "1".repeat(36)));
}

#[test]
fn abbreviation_with_two_matches_or_none_is_refused() {
    let mut search = Abbreviation::new("abcd").unwrap();
    let mut a = [0u8; 20];
    a[0] = 0xab;
    a[1] = 0xcd;
    let mut b = a;
    b[19] = 1;
    search.take_index(&pack_index(&[a, b])).unwrap();
    assert!(matches!(search.finish(), Err(Error::RevisionMissingOrAmbiguous)));
    let none = Abbreviation::new("abcd").unwrap();
    assert!(matches!(none.finish(), Err(Error::RevisionMissingOrAmbiguous)));
}

#[test]
fn abbreviation_refuses_a_truncated_pack_index() {
    let mut search = Abbreviation::new("abcd").unwrap();
    let mut idx = pack_index(&[[0xabu8; 20]]);
    idx.truncate(idx.len() - 1);
    assert!(matches!(search.take_index(&idx), Err(Error::TruncatedGitData)));
    assert!(matches!(search.take_index(&[0u8; 100]), Err(Error::TruncatedGitData)));
}

#[test]
fn ancestry_steps_pick_parents() {
    assert_eq!(step_picks(b'~', 3), vec![1, 1, 1]);
    assert_eq!(step_picks(b'~', 0), Vec::<usize>::new());
    assert_eq!(step_picks(b'^', 2), vec![2]);
    assert_eq!(step_picks(b'^', 0), Vec::<usize>::new());
}

#[test]
fn nth_parent_counts_from_one() {
    let merge = commit("m", &["p1", "p2"]);
    assert_eq!(nth_parent(&merge, 1).unwrap(), "p1");
    assert_eq!(nth_parent(&merge, 2).unwrap(), "p2");
    assert!(matches!(nth_parent(&merge, 3), Err(Error::MissingParent)));
    assert!(matches!(nth_parent(&commit("root", &[]), 1), Err(Error::MissingParent)));
}
