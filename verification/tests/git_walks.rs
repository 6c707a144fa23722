use files_reader_mcp::error::Error;
use files_reader_mcp::fs::{Entry, Gap};
use files_reader_mcp::git::blame::BlameWalk;
use files_reader_mcp::git::diff::{octal_string, DiffWalk, Failure};
use files_reader_mcp::git::objects::TreeEntry;
use files_reader_mcp::git::search::HistorySearch;
use files_reader_mcp::git::status::StatusWalk;
use files_reader_mcp::git::store::hash_object;
use files_reader_mcp::guard::{check_request, Verdict};
use files_reader_mcp::inventory::{sorted_entries, InventoryWalk};
use files_reader_mcp::json::{to_bytes, Json};
use files_reader_mcp::matching::{glob, matcher};

fn entry(path: &str, mode: u32, oid: &str) -> TreeEntry {
    TreeEntry { path: path.into(), mode, oid: oid.into() }
}

fn text(v: &Json) -> String {
    String::from_utf8(to_bytes(v)).unwrap()
}

fn member<'a>(v: &'a Json, key: &str) -> Option<&'a Json> {
    match v {
        Json::Obj(fields) => fields.iter().find(|(k, _)| k == key).map(|(_, v)| v),
        _ => None,
    }
}

#[test]
fn status_reports_staged_worktree_untracked_and_gaps() {
    let blob = hash_object("blob", b"same\n");
    let head = vec![entry("a.txt", 0o100644, &blob), entry("gone.txt", 0o100644, &blob)];
    let index = vec![entry("a.txt", 0o100644, &blob), entry("new.txt", 0o100644, &blob)];
    let files = vec!["a.txt".to_string(), "loose.txt".to_string(), "new.txt".to_string()];
    let gaps = vec![Gap { path: "locked".into(), reason: "denied".into() }];
    let mut walk = StatusWalk::new(head, index, files, gaps);
    let mut asked = Vec::new();
    while let Some(p) = walk.next() {
        asked.push(p.clone());
        if p == "a.txt" {
            walk.feed(Ok((b"changed\n", false)));
        } else {
            walk.feed(Ok((b"same\n", false)));
        }
    }
    assert_eq!(asked, vec!["a.txt", "new.txt"]);
    let out = text(&walk.finish());
    let want = [
        "{\"items\":[",
        "{\"path\":\"a.txt\",\"reason\":null,\"staged\":null,\"worktree\":\"modified\"},",
        "{\"path\":\"gone.txt\",\"reason\":null,\"staged\":\"deleted\",\"worktree\":null},",
        "{\"path\":\"loose.txt\",\"reason\":null,\"staged\":null,\"worktree\":\"untracked\"},",
        "{\"path\":\"new.txt\",\"reason\":null,\"staged\":\"added\",\"worktree\":null},",
        "{\"path\":\"locked\",\"reason\":\"denied\",\"worktree\":\"not_checked\"}],",
        "\"semantics\":\"raw bytes; no gitignore, attributes, filters, or rename detection\"}",
    ]
    .join("");
    assert_eq!(out, want);
}

#[test]
fn status_marks_an_indexed_file_inside_a_gap_as_not_checked() {
    let index = vec![entry("locked/x", 0o100644, "1")];
    let gaps = vec![Gap { path: "locked".into(), reason: "denied".into() }];
    let mut walk = StatusWalk::new(vec![], index, vec![], gaps);
    assert!(walk.next().is_none());
    let out = text(&walk.finish());
    assert!(out.contains("{\"path\":\"locked/x\",\"reason\":\"denied\",\"staged\":\"added\",\"worktree\":\"not_checked\"}"));
}

#[test]
fn diff_rows_show_files_hunks_and_lines() {
    let old = vec![entry("f.txt", 0o100644, "1"), entry("same.txt", 0o100644, "s")];
    let new = vec![entry("f.txt", 0o100755, "2"), entry("same.txt", 0o100644, "s")];
    let mut walk = DiffWalk::new(old, Some(new), None);
    let p = walk.next().unwrap();
    assert_eq!(p, "f.txt");
    assert_eq!(walk.before().unwrap().oid, "1");
    walk.feed(Ok(Some("a\nb\n".into())), Ok(Some("a\nc\n".into()))).unwrap();
    assert!(walk.next().is_none());
    let rows: Vec<String> = walk.finish().iter().map(text).collect();
    assert_eq!(rows[0], "{\"kind\":\"file\",\"new_mode\":\"100755\",\"old_mode\":\"100644\",\"path\":\"f.txt\"}");
    assert_eq!(rows[1], "{\"kind\":\"hunk\",\"path\":\"f.txt\"}");
    assert_eq!(
        &rows[2..],
        &[
            "{\"kind\":\"patch_line\",\"new_line\":1,\"old_line\":1,\"path\":\"f.txt\",\"sign\":\" \",\"text\":\"a\\n\"}",
            "{\"kind\":\"patch_line\",\"new_line\":null,\"old_line\":2,\"path\":\"f.txt\",\"sign\":\"-\",\"text\":\"b\\n\"}",
            "{\"kind\":\"patch_line\",\"new_line\":2,\"old_line\":null,\"path\":\"f.txt\",\"sign\":\"+\",\"text\":\"c\\n\"}",
        ]
    );
}

#[test]
fn a_tree_compared_with_itself_gives_no_rows() {
    let tree = vec![entry("a", 0o100644, "1"), entry("b/c", 0o100755, "2"), entry("d", 0o040000, "3")];
    let mut walk = DiffWalk::new(tree.clone(), Some(tree), None);
    assert!(walk.next().is_none());
    assert!(walk.finish().is_empty());
}

#[test]
fn hunks_keep_three_lines_of_context_and_split_at_long_kept_runs() {
    let old: String = (0..30).map(|i| format!("l{i}\n")).collect();
    let new = old.replace("l10\n", "L10\n").replace("l25\n", "L25\n");
    let mut walk = DiffWalk::new(vec![entry("f", 0o100644, "1")], Some(vec![entry("f", 0o100644, "2")]), None);
    walk.next().unwrap();
    walk.feed(Ok(Some(old)), Ok(Some(new))).unwrap();
    let rows: Vec<String> = walk.finish().iter().map(text).collect();
    let hunks = rows.iter().filter(|r| r.contains("\"kind\":\"hunk\"")).count();
    assert_eq!(hunks, 2);
    let kept = rows.iter().filter(|r| r.contains("\"sign\":\" \"")).count();
    assert_eq!(kept, 12);
    assert!(rows.iter().any(|r| r.contains("\"text\":\"l7\\n\"")));
    assert!(!rows.iter().any(|r| r.contains("\"text\":\"l6\\n\"")));
}

#[test]
fn diff_omits_unreadable_patches_and_fails_on_missing_objects() {
    let old = vec![entry("bin", 0o100644, "1")];
    let new = vec![entry("bin", 0o100644, "2")];
    let mut walk = DiffWalk::new(old, Some(new), None);
    walk.next().unwrap();
    walk.feed(Err(Failure::Other("BINARY".into())), Ok(None)).unwrap();
    let rows: Vec<String> = walk.finish().iter().map(text).collect();
    assert_eq!(rows, vec!["{\"kind\":\"patch_omitted\",\"path\":\"bin\",\"reason\":\"left: BINARY; right: \"}"]);
    let mut walk = DiffWalk::new(vec![entry("x", 0o100644, "1")], Some(vec![]), None);
    walk.next().unwrap();
    assert_eq!(walk.feed(Err(Failure::MissingObject), Ok(None)).unwrap_err(), Error::MissingObject);
}

#[test]
fn worktree_diff_skips_equal_content_of_equal_mode_and_filters_paths() {
    let old = vec![entry("a.rs", 0o100644, "1"), entry("b.txt", 0o100644, "2")];
    let filter = glob(&Some("*.rs".to_string())).unwrap();
    let mut walk = DiffWalk::new(old, None, filter);
    assert_eq!(walk.next().unwrap(), "a.rs");
    walk.open_file(false, 3).unwrap();
    walk.feed(Ok(Some("x\n".into())), Ok(Some("x\n".into()))).unwrap();
    assert!(walk.next().is_none());
    assert!(walk.finish().is_empty());
}

#[test]
fn modes_are_written_in_octal() {
    assert_eq!(octal_string(0o100644), "100644");
    assert_eq!(octal_string(0o40000), "40000");
    assert_eq!(octal_string(0), "0");
}

#[test]
fn blame_gives_each_line_to_the_commit_that_added_it() {
    let mut walk = BlameWalk::new("f".into(), "one\ntwo\n");
    walk.step("c2", Some("one\n")).unwrap();
    assert!(!walk.is_done());
    walk.step("c1", None).unwrap();
    assert!(walk.is_done());
    let rows: Vec<String> = walk.finish().iter().map(text).collect();
    assert_eq!(
        rows,
        vec![
            "{\"commit\":\"c1\",\"line\":1,\"original_line\":1,\"path\":\"f\",\"text\":\"one\\n\"}",
            "{\"commit\":\"c2\",\"line\":2,\"original_line\":2,\"path\":\"f\",\"text\":\"two\\n\"}",
        ]
    );
}

#[test]
fn history_search_keeps_matching_changes_and_unsearched_patches() {
    let m = matcher("needle", false).unwrap();
    let mut search = HistorySearch::new(m);
    search.begin_commit().unwrap();
    let line = Json::Obj(vec![
        ("kind".into(), Json::Str("patch_line".into())),
        ("sign".into(), Json::Str("+".into())),
        ("text".into(), Json::Str("a needle\n".into())),
    ]);
    let kept = Json::Obj(vec![
        ("kind".into(), Json::Str("patch_line".into())),
        ("sign".into(), Json::Str(" ".into())),
        ("text".into(), Json::Str("needle\n".into())),
    ]);
    let omitted = Json::Obj(vec![("kind".into(), Json::Str("patch_omitted".into()))]);
    search.take_diff("c", vec![line, kept, omitted]);
    search.end_commit().unwrap();
    search.begin_commit().unwrap();
    search.take_root_file("r", "f", Ok("x\nneedle\n")).unwrap();
    assert_eq!(search.take_root_file("r", "g", Err(Failure::MissingObject)).unwrap_err(), Error::MissingObject);
    let rows: Vec<String> = search.finish().iter().map(text).collect();
    assert_eq!(rows.len(), 3);
    assert!(rows[0].starts_with("{\"change\":{\"kind\":\"patch_line\""));
    assert!(rows[1].starts_with("{\"commit\":\"c\",\"coverage\":\"not_searched\",\"detail\""));
    assert_eq!(rows[2], "{\"change\":{\"new_line\":2,\"path\":\"f\",\"sign\":\"+\",\"text\":\"needle\\n\"},\"commit\":\"r\"}");
}

#[test]
fn history_search_stops_after_a_thousand_commits() {
    let mut search = HistorySearch::new(matcher("x", false).unwrap());
    for _ in 0..1000 {
        search.begin_commit().unwrap();
    }
    assert_eq!(search.begin_commit().unwrap_err(), Error::HistorySearchLimit);
}

#[test]
fn inventory_walk_lists_within_depth_and_reports_gaps() {
    let mut walk = InventoryWalk::start("dir/", 2).unwrap();
    assert_eq!(InventoryWalk::start("x", 0).unwrap_err(), Error::InvalidDepth);
    assert_eq!(walk.next_dir().unwrap(), "dir");
    walk.listed(vec![".GIT".into(), "b".into(), "sub".into()], false);
    let mut seen = Vec::new();
    while let Some(p) = walk.next_path().map(str::to_owned) {
        let kind = if p.ends_with("sub") { "directory" } else { "file" };
        seen.push(p.clone());
        walk.found(Ok(Entry { path: p, kind: kind.into(), size: 1, modified_ns: 0 }));
    }
    assert_eq!(seen, vec!["dir/b", "dir/sub"]);
    assert_eq!(walk.next_dir().unwrap(), "dir/sub");
    walk.listed(vec!["deeper".into()], true);
    walk.found(Ok(Entry { path: "dir/sub/deeper".into(), kind: "directory".into(), size: 0, modified_ns: 0 }));
    assert!(walk.next_dir().is_none());
    let inv = walk.finish();
    let paths: Vec<&str> = inv.entries.iter().map(|e| e.path.as_str()).collect();
    assert_eq!(paths, vec!["dir/b", "dir/sub", "dir/sub/deeper"]);
    let gaps: Vec<(&str, &str)> = inv.gaps.iter().map(|g| (g.path.as_str(), g.reason.as_str())).collect();
    assert_eq!(gaps, vec![("dir", "entry_scan_limit; narrow directory scope"), ("dir/sub/deeper", "depth_limit")]);
}

#[test]
fn tree_entries_sort_by_path_once_each() {
    let v = vec![entry("b", 1, "x"), entry("a/c", 2, "y"), entry("a", 3, "z")];
    let sorted = sorted_entries(v);
    let paths: Vec<&str> = sorted.iter().map(|e| e.path.as_str()).collect();
    assert_eq!(paths, vec!["a", "a/c", "b"]);
}

#[test]
fn sorted_entries_keep_the_entry_given_last_for_a_path() {
    let v = vec![entry("b", 0o100644, "1"), entry("a", 0o100644, "2"), entry("b", 0o100755, "3")];
    let sorted = sorted_entries(v);
    let got: Vec<(&str, u32, &str)> = sorted.iter().map(|e| (e.path.as_str(), e.mode, e.oid.as_str())).collect();
    assert_eq!(got, vec![("a", 0o100644, "2"), ("b", 0o100755, "3")]);
    let ordered = sorted_entries(vec![entry("a", 0o100644, "1"), entry("a/b", 0o100644, "2")]);
    assert_eq!(ordered.len(), 2);
}

#[test]
fn the_front_door_checks_host_origin_and_token() {
    let host = |v: &str| vec![Some(v.to_string())];
    let auth = "127.0.0.1:3210";
    assert_eq!(check_request(&host(auth), &vec![], &vec![], auth, None), Verdict::Allow);
    assert_eq!(check_request(&host("evil.example"), &vec![], &vec![], auth, None), Verdict::Forbidden);
    assert_eq!(check_request(&vec![], &vec![], &vec![], auth, None), Verdict::Forbidden);
    assert_eq!(
        check_request(&host(auth), &host("https://evil.example"), &vec![], auth, None),
        Verdict::Forbidden
    );
    assert_eq!(
        check_request(&host(auth), &host("http://127.0.0.1:3210"), &vec![], auth, None),
        Verdict::Allow
    );
    assert_eq!(check_request(&host(auth), &vec![], &vec![], auth, Some("secret")), Verdict::Unauthorized);
    assert_eq!(
        check_request(&host(auth), &vec![], &host("Bearer secret"), auth, Some("secret")),
        Verdict::Allow
    );
    let two = vec![Some(auth.to_string()), Some(auth.to_string())];
    assert_eq!(check_request(&two, &vec![], &vec![], auth, None), Verdict::Forbidden);
}

#[test]
fn json_members_keep_their_order() {
    let v = Json::Obj(vec![("b".into(), Json::Num(1)), ("a".into(), Json::Null)]);
    assert_eq!(text(&v), "{\"b\":1,\"a\":null}");
    assert!(member(&v, "a").is_some());
}
