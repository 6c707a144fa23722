use files_reader_mcp::error::Error;
use files_reader_mcp::json::{to_bytes, Json};
use files_reader_mcp::output::{Cursor, Limits};
use files_reader_mcp::text::{self, ReadOptions};

fn member<'a>(v: &'a Json, key: &str) -> Option<&'a Json> {
    match v {
        Json::Obj(fields) => fields.iter().find(|(k, _)| k == key).map(|(_, v)| v),
        _ => None,
    }
}

fn text_of(v: &Json) -> &str {
    match v {
        Json::Str(s) => s,
        other => panic!("not a string: {other:?}"),
    }
}

fn num_of(v: &Json) -> u128 {
    match v {
        Json::Num(n) => *n,
        other => panic!("not a number: {other:?}"),
    }
}

fn rows(v: &Json, key: &str) -> Vec<Json> {
    match member(v, key) {
        Some(Json::Arr(items)) => items.iter().map(files_reader_mcp::json::clone_json).collect(),
        other => panic!("no array {key}: {other:?}"),
    }
}

/// Reads back the cursor that a page hands out as its `next_cursor` text.
fn next_cursor(v: &Json) -> Option<Cursor> {
    match member(v, "next_cursor") {
        Some(Json::Str(s)) => {
            let parsed: serde_json::Value = serde_json::from_str(s).unwrap();
            Some(Cursor {
                fingerprint: parsed["fingerprint"].as_str().unwrap().to_string(),
                index: parsed["index"].as_u64().unwrap() as usize,
                offset: parsed["offset"].as_u64().unwrap() as usize,
            })
        }
        _ => None,
    }
}

fn opts(limits: &Limits, cursor: Option<Cursor>) -> ReadOptions<'_> {
    ReadOptions { start: None, end: None, tail: None, limits, cursor }
}

#[test]
fn text_encoding_media_and_binary_policy() {
    assert_eq!(text::decode("a", b"\xef\xbb\xbfhi\r\n").unwrap().content, "hi\r\n");
    assert_eq!(text::decode("a", &[255, 254, 65, 0, 10, 0]).unwrap().content, "A\n");
    assert_eq!(text::decode("a", &[254, 255, 0, 65]).unwrap().content, "A");
    for (p, b) in [
        ("a", b"a\0b".as_slice()),
        ("a", b"\xffx"),
        ("a", b"%PDF-1.7"),
        ("a", b"<?xml version='1.0'?><!-- hi --><svg/>"),
        ("a.svg", b"text"),
        ("a.docx", b"text"),
        ("a", b"\x89PNG\r\n\x1a\n"),
        ("a", b"P3\n2 2\n255\n"),
    ] {
        assert!(text::decode(p, b).is_err(), "{p} {b:?}");
    }
    assert!(text::decode("a", &[255, 254, 0, 216]).is_err());
}

#[test]
fn numbered_read_reassembles_long_unicode_crlf_and_validates_cursor() {
    let content = format!("  first\r\n{}\nlast", "好\\\"".repeat(2000));
    let t = text::decode("a", content.as_bytes()).unwrap();
    let limits = Limits { max_lines: Some(2), max_bytes: Some(2048) };
    let mut cursor = None;
    let mut reconstructed = String::new();
    let mut loops = 0;
    loop {
        let result = text::read("a", &t, opts(&limits, cursor)).unwrap();
        assert!(to_bytes(&result).len() <= 2048);
        for row in rows(&result, "lines") {
            reconstructed.push_str(text_of(member(&row, "text").unwrap()));
        }
        cursor = next_cursor(&result);
        loops += 1;
        assert!(loops < 200);
        if cursor.is_none() {
            break;
        }
    }
    assert_eq!(content, reconstructed);
    let defaults = Limits::default();
    let result = text::read(
        "a",
        &t,
        ReadOptions { start: None, end: None, tail: Some(1), limits: &defaults, cursor: None },
    )
    .unwrap();
    let first = &rows(&result, "lines")[0];
    assert_eq!(num_of(member(first, "line").unwrap()), 3);
    assert_eq!(text_of(member(first, "text").unwrap()), "last");
}

#[test]
fn svg_document_detection_does_not_block_source_strings() {
    assert!(text::decode("component.rs", b"let icon = \"<svg/>\";\n").is_ok());
    assert!(text::decode(
        "asset.txt",
        b"<?xml version='1.0'?><!DOCTYPE svg [ <!ELEMENT svg ANY> ]><svg/>"
    )
    .is_err());
    assert!(text::decode("asset", b"<!--note--><x:svg xmlns:x='http://www.w3.org/2000/svg'/>")
        .is_err());
}

#[test]
fn stale_read_cursor_fails_instead_of_skipping_new_content() {
    let limit = Limits { max_lines: Some(1), max_bytes: None };
    let old = text::decode("a", b"a\nb\n").unwrap();
    let value = text::read("a", &old, opts(&limit, None)).unwrap();
    let cursor = next_cursor(&value);
    let new = text::decode("a", b"new\na\nb\n").unwrap();
    let e = text::read("a", &new, opts(&limit, cursor)).unwrap_err();
    assert_eq!(e, Error::StaleCursor);
}

#[test]
fn decode_reports_each_refusal() {
    assert_eq!(text::decode("a", b"a\0b").unwrap_err(), Error::BinaryControlCharacter);
    assert_eq!(text::decode("a", b"\xffx").unwrap_err(), Error::InvalidUtf8);
    assert_eq!(text::decode("a", &[255, 254, 0, 216]).unwrap_err(), Error::InvalidUtf16);
    assert_eq!(text::decode("a.docx", b"text").unwrap_err(), Error::ExcludedFileType);
    let utf16 = text::decode("a", &[254, 255, 0, 65]).unwrap();
    assert!(utf16.bom);
    let plain = text::decode("a", b"plain").unwrap();
    assert!(!plain.bom);
    assert_eq!(plain.content, "plain");
}

#[test]
fn decoded_text_encodes_back_to_the_bytes_read() {
    let data = b"\xef\xbb\xbfcaf\xc3\xa9\n";
    let t = text::decode("a", data).unwrap();
    assert_eq!(t.encoding, "UTF-8");
    let mut again = if t.bom { vec![0xef, 0xbb, 0xbf] } else { Vec::new() };
    again.extend_from_slice(t.content.as_bytes());
    assert_eq!(again, data.to_vec());
    let le = [255u8, 254, 0x41, 0, 0xe9, 0];
    let t = text::decode("a", &le).unwrap();
    assert_eq!((t.encoding, t.bom, t.content.as_str()), ("UTF-16LE", true, "A\u{e9}"));
    let mut units = vec![255u8, 254];
    for u in t.content.encode_utf16() {
        units.extend_from_slice(&u.to_le_bytes());
    }
    assert_eq!(units, le.to_vec());
    for bad in ["a\u{85}b", "a\u{7f}", "\u{9f}", "\u{1b}x"] {
        assert_eq!(text::decode("a", bad.as_bytes()).unwrap_err(), Error::BinaryControlCharacter, "{bad:?}");
    }
    let fine = text::decode("a", "tab\there\r\n\u{a0}\u{e9}".as_bytes()).unwrap();
    assert!(fine.content.chars().all(|c| !c.is_control() || c == '\t' || c == '\n' || c == '\r'));
}

#[test]
fn lines_keep_their_terminators_and_rejoin() {
    let src = "a\r\nb\n\nc";
    let parts = text::lines(src);
    assert_eq!(parts, vec!["a\r\n", "b\n", "\n", "c"]);
    assert_eq!(parts.concat(), src);
    assert!(text::lines("").is_empty());
}

#[test]
fn read_rejects_conflicting_or_out_of_range_requests() {
    let t = text::decode("a", b"one\ntwo\nthree\n").unwrap();
    let limits = Limits::default();
    let e = text::read(
        "a",
        &t,
        ReadOptions { start: Some(1), end: None, tail: Some(1), limits: &limits, cursor: None },
    )
    .unwrap_err();
    assert_eq!(e, Error::TailRangeConflict);
    let e = text::read(
        "a",
        &t,
        ReadOptions { start: Some(9), end: None, tail: None, limits: &limits, cursor: None },
    )
    .unwrap_err();
    assert_eq!(e, Error::StartLineOutOfRange);
    let bad = Limits { max_lines: Some(0), max_bytes: None };
    assert_eq!(text::read("a", &t, opts(&bad, None)).unwrap_err(), Error::InvalidLineLimit);
}
