use files_reader_mcp::error::Error;
use files_reader_mcp::json::{clone_json, to_bytes, Json};
use files_reader_mcp::output::{check_cursor, continuation, fingerprint, page, Cursor, Limits};

fn member<'a>(v: &'a Json, key: &str) -> Option<&'a Json> {
    match v {
        Json::Obj(fields) => fields.iter().find(|(k, _)| k == key).map(|(_, v)| v),
        _ => None,
    }
}

fn text_of(v: &Json) -> &str {
    match v {
        Json::Str(s) => s,
        other => panic!("not a string: {other:?}"),
    }
}

fn next_cursor(v: &Json) -> Option<Cursor> {
    match member(v, "next_cursor") {
        Some(Json::Str(s)) => {
            let parsed: serde_json::Value = serde_json::from_str(s).unwrap();
            Some(Cursor {
                fingerprint: parsed["fingerprint"].as_str().unwrap().to_string(),
                index: parsed["index"].as_u64().unwrap() as usize,
                offset: parsed["offset"].as_u64().unwrap() as usize,
            })
        }
        _ => None,
    }
}

fn obj(fields: Vec<(&str, Json)>) -> Json {
    Json::Obj(fields.into_iter().map(|(k, v)| (k.to_string(), v)).collect())
}

#[test]
fn huge_patch_line_can_be_fully_reassembled_under_byte_limit() {
    let original = "中国\"\\".repeat(5000);
    let item = obj(vec![
        ("kind", Json::Str("patch_line".into())),
        ("path", Json::Str("a".into())),
        ("new_line", Json::Num(10)),
        ("text", Json::Str(original.clone())),
    ]);
    let limits = Limits { max_lines: Some(1), max_bytes: Some(2048) };
    let mut cursor = None;
    let mut restored = String::new();
    let mut calls = 0;
    loop {
        let p = page(vec![clone_json(&item)], &limits, cursor, obj(vec![])).unwrap();
        assert!(to_bytes(&p).len() <= 2048);
        match member(&p, "items") {
            Some(Json::Arr(items)) => restored.push_str(text_of(member(&items[0], "text").unwrap())),
            other => panic!("no items: {other:?}"),
        }
        cursor = next_cursor(&p);
        calls += 1;
        assert!(calls < 500);
        if cursor.is_none() {
            break;
        }
    }
    assert_eq!(restored, original);
}

#[test]
fn json_serialization_is_compact_and_escaped() {
    let v = obj(vec![
        ("a", Json::Num(1)),
        ("b", Json::Arr(vec![Json::Null, Json::Bool(true), Json::Str("x\"\n\u{1}".into())])),
    ]);
    assert_eq!(String::from_utf8(to_bytes(&v)).unwrap(), "{\"a\":1,\"b\":[null,true,\"x\\\"\\n\\u0001\"]}");
}

#[test]
fn fingerprint_is_the_hex_sha1_digest() {
    assert_eq!(fingerprint(b"abc"), "a9993e364706816aba3e25717850c26c9cd0d89d");
    assert_eq!(fingerprint(b""), "da39a3ee5e6b4b0d3255bfef95601890afd80709");
}

#[test]
fn continuation_is_the_cursor_as_json() {
    assert_eq!(continuation("ab", 3, 7), "{\"fingerprint\":\"ab\",\"index\":3,\"offset\":7}");
}

#[test]
fn cursors_must_belong_to_the_same_content() {
    let fresh = check_cursor(None, "ff").unwrap();
    assert_eq!((fresh.fingerprint.as_str(), fresh.index, fresh.offset), ("ff", 0, 0));
    let kept = check_cursor(Some(Cursor { fingerprint: "ff".into(), index: 2, offset: 5 }), "ff").unwrap();
    assert_eq!((kept.index, kept.offset), (2, 5));
    let stale = check_cursor(Some(Cursor { fingerprint: "aa".into(), index: 0, offset: 0 }), "ff");
    assert_eq!(stale.unwrap_err(), Error::StaleCursor);
}

#[test]
fn limits_default_and_range() {
    assert_eq!(Limits::default().get().unwrap(), (200, 65536));
    assert_eq!(Limits { max_lines: Some(2001), max_bytes: None }.get().unwrap_err(), Error::InvalidLineLimit);
    assert_eq!(Limits { max_lines: None, max_bytes: Some(2047) }.get().unwrap_err(), Error::InvalidByteLimit);
    assert_eq!(Limits { max_lines: Some(2000), max_bytes: Some(262144) }.get().unwrap(), (2000, 262144));
}

#[test]
fn page_splits_items_by_line_budget() {
    let items: Vec<Json> = (0..5).map(|n| obj(vec![("n", Json::Num(n))])).collect();
    let limits = Limits { max_lines: Some(2), max_bytes: None };
    let first = page(items.iter().map(clone_json).collect(), &limits, None, obj(vec![])).unwrap();
    match member(&first, "items") {
        Some(Json::Arr(rows)) => assert_eq!(rows.len(), 2),
        other => panic!("{other:?}"),
    }
    let cursor = next_cursor(&first).unwrap();
    assert_eq!((cursor.index, cursor.offset), (2, 0));
    let bad = Cursor { fingerprint: cursor.fingerprint.clone(), index: 9, offset: 0 };
    assert_eq!(
        page(items.iter().map(clone_json).collect(), &limits, Some(bad), obj(vec![])).unwrap_err(),
        Error::InvalidCursor
    );
}
