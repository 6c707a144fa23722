use files_reader_mcp::error::Error;
use files_reader_mcp::fs::{Search, SearchOptions, SourceError};
use files_reader_mcp::git::diff::{diff_sides, DiffScope, Side};
use files_reader_mcp::git::store::storage_check;
use files_reader_mcp::json::to_bytes;
use files_reader_mcp::output::{fingerprint, Cursor, Limits};
use files_reader_mcp::text::Text;

fn opts<'a>(pattern: &'a str, regex: bool, context: usize, limits: &'a Limits, cursor: Option<Cursor>) -> SearchOptions<'a> {
    SearchOptions { pattern, regex, context, limits, cursor }
}

fn start(pattern: &str, regex: bool, context: usize, limits: &Limits, cursor: Option<Cursor>) -> Result<Search, Error> {
    Search::start(vec!["a.txt".to_string()], "snap", opts(pattern, regex, context, limits, cursor))
}

#[test]
fn a_search_is_refused_for_each_bad_input() {
    let ok = Limits { max_lines: None, max_bytes: None };
    assert!(matches!(start("x", false, 11, &ok, None), Err(Error::ContextLimit)));
    assert!(matches!(start(&"x".repeat(4097), false, 0, &ok, None), Err(Error::PatternTooLong)));
    assert!(matches!(start("(", true, 0, &ok, None), Err(Error::InvalidPattern)));
    assert!(start("(", false, 0, &ok, None).is_ok());
    let other = Cursor { fingerprint: "elsewhere".into(), index: 0, offset: 0 };
    assert!(matches!(start("x", false, 0, &ok, Some(other)), Err(Error::StaleCursor)));
    let bad_lines = Limits { max_lines: Some(0), max_bytes: None };
    assert!(matches!(start("x", false, 0, &bad_lines, None), Err(Error::InvalidLineLimit)));
    let bad_bytes = Limits { max_lines: None, max_bytes: Some(100) };
    assert!(matches!(start("x", false, 0, &bad_bytes, None), Err(Error::InvalidByteLimit)));
}

#[test]
fn a_literal_search_finds_the_text_and_not_a_pattern() {
    let ok = Limits { max_lines: None, max_bytes: None };
    let mut s = start("a.b", false, 0, &ok, None).unwrap();
    while let Some(i) = s.next_source() {
        assert_eq!(s.path(i), "a.txt");
        let t = Text { content: "axb\nsay a.b\n".into(), encoding: "UTF-8", bom: false };
        s.feed(Ok(&t));
    }
    let out = String::from_utf8(to_bytes(&s.finish().unwrap())).unwrap();
    assert!(out.contains("say a.b"));
    assert!(!out.contains("axb"));
}

fn page(pattern: &str, limits: &Limits, cursor: Option<Cursor>, content: &str) -> String {
    let mut s = start(pattern, false, 0, limits, cursor).unwrap();
    while let Some(_) = s.next_source() {
        let t = Text { content: content.into(), encoding: "UTF-8", bom: false };
        s.feed(Ok(&t));
    }
    String::from_utf8(to_bytes(&s.finish().unwrap())).unwrap()
}

#[test]
fn the_next_page_resumes_at_the_line_where_a_page_stopped() {
    let content = "x1\ny\nx2\nx3\ny\nx4\n";
    let two = Limits { max_lines: Some(2), max_bytes: None };
    let first = page("x", &two, None, content);
    assert!(first.contains("\"text\":\"x1\\n\"") && first.contains("\"text\":\"x2\\n\""));
    assert!(!first.contains("x3") && !first.contains("x4"));
    assert!(first.contains("\\\"offset\\\":3"));
    let fp = fingerprint(b"snap\0x\0false\00");
    let resume = Cursor { fingerprint: fp, index: 0, offset: 3 };
    let second = page("x", &two, Some(resume), content);
    assert!(second.contains("\"text\":\"x3\\n\"") && second.contains("\"text\":\"x4\\n\""));
    assert!(!second.contains("x1") && !second.contains("x2"));
}

fn number_after(out: &str, key: &str) -> usize {
    let at = out.find(key).unwrap() + key.len();
    out[at..].chars().take_while(|c| c.is_ascii_digit()).collect::<String>().parse().unwrap()
}

#[test]
fn a_run_of_pages_covers_every_source_once() {
    let two = Limits { max_lines: Some(2), max_bytes: None };
    let paths = vec!["a.txt".to_string(), "b.bin".to_string(), "c.txt".to_string()];
    let fp = fingerprint(b"snap\0x\0false\00");
    let mut cursor: Option<Cursor> = None;
    let mut all = String::new();
    for _ in 0..10 {
        let mut s = Search::start(paths.clone(), "snap", opts("x", false, 0, &two, cursor.take())).unwrap();
        while let Some(i) = s.next_source() {
            let a = Text { content: "x1\nx2\nx3\n".into(), encoding: "UTF-8", bom: false };
            let c = Text { content: "y\nx4\n".into(), encoding: "UTF-8", bom: false };
            match i {
                0 => s.feed(Ok(&a)),
                1 => s.feed(Err(SourceError::Refused("BINARY".into()))),
                _ => s.feed(Ok(&c)),
            }
        }
        let out = String::from_utf8(to_bytes(&s.finish().unwrap())).unwrap();
        all.push_str(&out);
        if out.contains("\"next_cursor\":null") {
            break;
        }
        let index = number_after(&out, "\\\"index\\\":");
        let offset = number_after(&out, "\\\"offset\\\":");
        cursor = Some(Cursor { fingerprint: fp.clone(), index, offset });
    }
    assert!(all.contains("\"next_cursor\":null"));
    for text in ["x1", "x2", "x3", "x4"] {
        assert_eq!(all.matches(&format!("\"text\":\"{text}\\n\"")).count(), 1, "{text}");
    }
    assert_eq!(all.matches("\"kind\":\"not_searched\"").count(), 1);
}

#[test]
fn diff_scopes_choose_their_sides() {
    assert!(matches!(diff_sides(DiffScope::Worktree, None, None), Ok((Side::Index, Ok(None)))));
    assert!(matches!(diff_sides(DiffScope::Staged, None, None), Ok((Side::Head, Ok(Some(Side::Index))))));
    match diff_sides(DiffScope::Revisions, Some("main"), Some("HEAD")) {
        Ok((Side::Revision(a), Ok(Some(Side::Revision(b))))) => assert_eq!((a.as_str(), b.as_str()), ("main", "HEAD")),
        _ => panic!("expected two revisions"),
    }
    assert!(matches!(diff_sides(DiffScope::Revisions, None, Some("HEAD")), Err(Error::FromRequired)));
    assert!(matches!(diff_sides(DiffScope::Revisions, None, None), Err(Error::FromRequired)));
    match diff_sides(DiffScope::Revisions, Some("main"), None) {
        Ok((Side::Revision(a), Err(e))) => assert_eq!((a.as_str(), e), ("main", Error::ToRequired)),
        _ => panic!("expected the old side and a refusal of the new"),
    }
}

#[test]
fn worktrees_and_unread_storage_are_refused_in_order() {
    assert!(storage_check([false; 3], [false; 4]).is_ok());
    assert!(matches!(storage_check([false, true, true], [true; 4]), Err(Error::WorktreeUnsupportedGitdir)));
    assert!(matches!(storage_check([false, false, true], [false; 4]), Err(Error::WorktreeUnsupportedWorktrees)));
    assert!(matches!(storage_check([false; 3], [false, true, false, true]), Err(Error::StorageUnsupportedAlternates)));
    assert!(matches!(storage_check([false; 3], [false, false, false, true]), Err(Error::StorageUnsupportedReftable)));
}
