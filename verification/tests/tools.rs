use files_reader_mcp::fs::{Entry, Gap, Inventory};
use files_reader_mcp::git::objects::{Commit, TreeEntry};
use files_reader_mcp::json::{to_bytes, Json};
use files_reader_mcp::matching::glob;
use files_reader_mcp::tools::{
    added_rows, commit_rows, contains_bytes, entry_row, file_rows, left_out_row, listing_rows,
    ref_rows, rows_in_range, search_paths, tree_rows,
};

fn text(rows: &[Json]) -> Vec<String> {
    rows.iter().map(|r| String::from_utf8(to_bytes(r)).unwrap()).collect()
}

fn entry(path: &str, kind: &str) -> Entry {
    Entry { path: path.into(), kind: kind.into(), size: 3, modified_ns: 7 }
}

fn inventory() -> Inventory {
    Inventory {
        entries: vec![
            entry("src", "directory"),
            entry("src/main.rs", "file"),
            entry("src/lib.rs", "file"),
            entry("docs/main.md", "file"),
        ],
        gaps: vec![Gap { path: "big".into(), reason: "ENTRY_SCAN_LIMIT".into() }],
    }
}

#[test]
fn entry_row_lists_its_fields_in_key_order() {
    assert_eq!(
        text(&[entry_row(&entry("a.txt", "file"))]),
        vec![r#"{"kind":"file","modified_ns":7,"path":"a.txt","size":3}"#]
    );
}

#[test]
fn listing_rows_show_entries_then_gaps() {
    let rows = text(&listing_rows(&inventory()));
    assert_eq!(rows.len(), 5);
    assert_eq!(
        rows[0],
        r#"{"entry":{"kind":"directory","modified_ns":7,"path":"src","size":3},"kind":"entry"}"#
    );
    assert_eq!(rows[4], r#"{"kind":"not_inspected","path":"big","reason":"ENTRY_SCAN_LIMIT"}"#);
}

#[test]
fn file_search_matches_the_file_name_the_path_and_the_glob() {
    let none = glob(&None).unwrap();
    let by_name = text(&file_rows(&inventory(), &Some("main".into()), &None, &none));
    assert_eq!(by_name.len(), 3);
    assert!(by_name[0].contains(r#""path":"src/main.rs""#));
    assert!(by_name[1].contains(r#""path":"docs/main.md""#));
    assert!(by_name[0].ends_with(r#""kind":"file"}"#));
    let by_dir_name = text(&file_rows(&inventory(), &Some("src".into()), &None, &none));
    assert_eq!(by_dir_name.len(), 1);
    let within = text(&file_rows(&inventory(), &None, &Some("src/".into()), &none));
    assert_eq!(within.len(), 3);
    let rs = glob(&Some("**/*.rs".into())).unwrap();
    let globbed = text(&file_rows(&inventory(), &None, &None, &rs));
    assert_eq!(globbed.len(), 3);
    assert!(globbed[1].contains("lib.rs"));
}

#[test]
fn substring_search_is_exact() {
    assert!(contains_bytes(b"main.rs", b"in.r"));
    assert!(contains_bytes(b"abc", b""));
    assert!(!contains_bytes(b"ab", b"abc"));
    assert!(!contains_bytes(b"main.rs", b"mains"));
}

#[test]
fn text_search_goes_through_files_then_gaps() {
    let md = glob(&Some("*.md".into())).unwrap();
    assert_eq!(search_paths(&inventory(), &md), vec!["docs/main.md".to_string(), "big".to_string()]);
    let all = glob(&None).unwrap();
    assert_eq!(search_paths(&inventory(), &all).len(), 4);
}

#[test]
fn tree_rows_show_octal_modes_and_readability() {
    let entries = vec![
        TreeEntry { path: "a.sh".into(), mode: 0o100755, oid: "o1".into() },
        TreeEntry { path: "link".into(), mode: 0o120000, oid: "o2".into() },
    ];
    let rows = text(&tree_rows(&entries, &glob(&None).unwrap()));
    assert_eq!(rows[0], r#"{"mode":"100755","oid":"o1","path":"a.sh","readable_type":true}"#);
    assert_eq!(rows[1], r#"{"mode":"120000","oid":"o2","path":"link","readable_type":false}"#);
    assert_eq!(tree_rows(&entries, &glob(&Some("*.sh".into())).unwrap()).len(), 1);
}

#[test]
fn commit_rows_show_the_commit_then_its_message_lines() {
    let c = Commit {
        oid: "c1".into(),
        tree: "t".into(),
        parents: vec!["p1".into(), "p2".into()],
        author: "A <a@x> 1 +0000".into(),
        committer: "C <c@x> 2 +0000".into(),
        message: "subject\n\nbody\n".into(),
    };
    let rows = text(&commit_rows(&c));
    assert_eq!(
        rows[0],
        r#"{"author":"A <a@x> 1 +0000","committer":"C <c@x> 2 +0000","kind":"commit","oid":"c1","parents":["p1","p2"]}"#
    );
    assert_eq!(rows.len(), 4);
    assert_eq!(rows[1], r#"{"kind":"message","line":1,"oid":"c1","text":"subject\n"}"#);
    assert_eq!(rows[3], r#"{"kind":"message","line":3,"oid":"c1","text":"body\n"}"#);
}

#[test]
fn a_root_commit_adds_every_line() {
    let rows = text(&added_rows("a.txt", "x\ny"));
    assert_eq!(
        rows,
        vec![
            r#"{"kind":"patch_line","new_line":1,"old_line":null,"path":"a.txt","sign":"+","text":"x\n"}"#,
            r#"{"kind":"patch_line","new_line":2,"old_line":null,"path":"a.txt","sign":"+","text":"y"}"#,
        ]
    );
    assert_eq!(
        text(&[left_out_row("b.png", "IMAGE_CONTENT_EXCLUDED")]),
        vec![r#"{"kind":"patch_omitted","path":"b.png","reason":"IMAGE_CONTENT_EXCLUDED"}"#]
    );
}

#[test]
fn blame_rows_are_narrowed_to_the_line_range() {
    let row = |k: u128| Json::Obj(vec![("line".into(), Json::Num(k)), ("text".into(), Json::Str("t".into()))]);
    let rows = vec![row(1), row(2), row(3), row(4), Json::Null];
    assert_eq!(rows_in_range(&rows, Some(2), Some(3)).len(), 2);
    assert_eq!(rows_in_range(&rows, None, None).len(), 4);
    assert_eq!(rows_in_range(&rows, Some(4), None).len(), 1);
    assert_eq!(rows_in_range(&rows, Some(3), Some(2)).len(), 0);
}

#[test]
fn ref_rows_name_each_reference() {
    let refs = vec![("HEAD".to_string(), "abc".to_string())];
    assert_eq!(text(&ref_rows(&refs)), vec![r#"{"name":"HEAD","oid":"abc"}"#]);
}
