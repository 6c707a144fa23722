//! The rules for paths inside an authorized root, and the records that
//! directory listings and searches produce.
use crate::bytes::{bytes_equal, find_byte, lemma_after_ascii, lemma_find_byte, lemma_utf8_piece, position_of, string_of};
use crate::error::Error;
use crate::json::{ascii_string, json_bytes, Json, JsonV};
use crate::matching::{regex_accepts, Matcher};
use crate::output::{Cursor, Limits};
use crate::text::{sat_sub, text_lines};
use crate::git::objects::{ascii_lower, eq_ignore_ascii_case};
use vstd::prelude::*;
use vstd::slice::slice_subrange;
use vstd::string::StringSliceAdditionalSpecFns;
use vstd::utf8::{decode_utf8, encode_utf8, valid_utf8};

verus! {

broadcast use vstd::slice::group_slice_axioms;

/// `.`
pub open spec fn dot() -> Seq<u8> {
    seq![46u8]
}

/// `..`
pub open spec fn dot_dot() -> Seq<u8> {
    seq![46u8, 46u8]
}

/// `.git`
pub open spec fn dot_git() -> Seq<u8> {
    seq![46u8, 103u8, 105u8, 116u8]
}

/// Where the component that starts at `pos` ends: at the next `/` or at
/// the end.
pub open spec fn component_end(b: Seq<u8>, pos: int) -> int {
    match find_byte(b, 47, pos) {
        None => b.len() as int,
        Some(i) => i,
    }
}

/// Where the component after the one at `pos` starts.
pub open spec fn component_next(b: Seq<u8>, pos: int) -> int {
    match find_byte(b, 47, pos) {
        None => b.len() as int,
        Some(i) => i + 1,
    }
}

/// The components of a relative path from `pos` on: the pieces between
/// slashes, with empty pieces and `.` left out. `..` is refused, and so is
/// `.git` in any case unless `internal`.
pub open spec fn components_from(b: Seq<u8>, pos: int, internal: bool) -> Result<
    Seq<Seq<u8>>,
    Error,
>
    decreases b.len() - pos,
{
    if pos < 0 || pos >= b.len() {
        Ok(seq![])
    } else {
        proof {
            lemma_find_byte(b, 47, pos);
        }
        let end = component_end(b, pos);
        let next = component_next(b, pos);
        let seg = b.subrange(pos, end);
        if seg.len() == 0 || seg == dot() {
            components_from(b, next, internal)
        } else if seg == dot_dot() {
            Err(Error::PathTraversalForbidden)
        } else if !internal && eq_ignore_ascii_case(seg, dot_git()) {
            Err(Error::GitMetadataPathForbidden)
        } else {
            match components_from(b, next, internal) {
                Ok(rest) => Ok(seq![seg] + rest),
                Err(e) => Err(e),
            }
        }
    }
}

/// The rule for a path given by a client: at most 4096 bytes, no backslash
/// or zero byte, relative, and components as `components_from` allows.
pub open spec fn path_components(b: Seq<u8>, internal: bool) -> Result<Seq<Seq<u8>>, Error> {
    if b.len() > 4096 || b.contains(92u8) || b.contains(0u8) {
        Err(Error::InvalidPath)
    } else if b.len() > 0 && b[0] == 47 {
        Err(Error::AbsolutePathForbidden)
    } else {
        components_from(b, 0, internal)
    }
}

pub fn has_byte(b: &[u8], c: u8) -> (res: bool)
    ensures
        res == b@.contains(c),
{
    let mut i: usize = 0;
    while i < b.len()
        invariant
            i <= b@.len(),
            forall|j: int| 0 <= j < i ==> b@[j] != c,
        decreases b@.len() - i,
    {
        if b[i] == c {
            assert(b@[i as int] == c);
            return true;
        }
        i = i + 1;
    }
    false
}

/// Splits a path inside a root into its components, or refuses it.
pub fn validate_path(path: &str, internal: bool) -> (res: Result<Vec<String>, Error>)
    ensures
        match path_components(path.spec_bytes(), internal) {
            Ok(parts) => res matches Ok(v) && v@.len() == parts.len() && forall|k: int|
                0 <= k < parts.len() ==> #[trigger] v@[k]@ == decode_utf8(parts[k]),
            Err(e) => res matches Err(x) && x == e,
        },
{
    let b = path.as_bytes();
    proof {
        vstd::utf8::encode_utf8_valid_utf8(path@);
    }
    if b.len() > 4096 || has_byte(b, 92) || has_byte(b, 0) {
        return Err(Error::InvalidPath);
    }
    if b.len() > 0 && b[0] == 47 {
        return Err(Error::AbsolutePathForbidden);
    }
    let dot_a: [u8; 1] = [46u8];
    let dotdot_a: [u8; 2] = [46u8, 46u8];
    let git_a: [u8; 4] = [46u8, 103u8, 105u8, 116u8];
    assert(dot_a@ =~= dot());
    assert(dotdot_a@ =~= dot_dot());
    assert(git_a@ =~= dot_git());
    let mut parts: Vec<String> = Vec::new();
    let ghost mut done: Seq<Seq<u8>> = seq![];
    let mut pos: usize = 0;
    while pos < b.len()
        invariant
            b@ == path.spec_bytes(),
            valid_utf8(b@),
            pos <= b@.len(),
            pos < b@.len() ==> (pos == 0 || b@[pos - 1] == 47),
            dot_a@ == dot(),
            dotdot_a@ == dot_dot(),
            git_a@ == dot_git(),
            path_components(b@, internal) == match components_from(b@, pos as int, internal) {
                Ok(rest) => Ok::<Seq<Seq<u8>>, Error>(done + rest),
                Err(e) => Err::<Seq<Seq<u8>>, Error>(e),
            },
            parts@.len() == done.len(),
            forall|k: int| 0 <= k < done.len() ==> #[trigger] parts@[k]@ == decode_utf8(done[k]),
        decreases b@.len() - pos,
    {
        proof {
            lemma_find_byte(b@, 47, pos as int);
        }
        let (end, next) = match position_of(b, 47, pos) {
            None => (b.len(), b.len()),
            Some(i) => (i, i + 1),
        };
        assert(end == component_end(b@, pos as int) && next == component_next(b@, pos as int));
        let seg = slice_subrange(b, pos, end);
        if seg.len() == 0 || bytes_equal(seg, dot_a.as_slice()) {
            pos = next;
        } else if bytes_equal(seg, dotdot_a.as_slice()) {
            return Err(Error::PathTraversalForbidden);
        } else if !internal && crate::git::objects::eq_ignore_case_bytes(seg, git_a.as_slice()) {
            return Err(Error::GitMetadataPathForbidden);
        } else {
            proof {
                if pos > 0 {
                    lemma_after_ascii(b@, pos - 1);
                }
                lemma_utf8_piece(b@, pos as int, end as int);
            }
            parts.push(string_of(seg));
            proof {
                match components_from(b@, next as int, internal) {
                    Ok(r) => {
                        assert(done.push(seg@) + r =~= done + (seq![seg@] + r));
                    },
                    Err(_) => {},
                }
                done = done.push(seg@);
            }
            pos = next;
        }
    }
    assert(done + seq![] =~= done);
    Ok(parts)
}

/// `kind`
pub open spec fn s_kind() -> Seq<u8> {
    seq![107u8, 105u8, 110u8, 100u8]
}

/// `not_searched`
pub open spec fn s_not_searched() -> Seq<u8> {
    seq![110u8, 111u8, 116u8, 95u8, 115u8, 101u8, 97u8, 114u8, 99u8, 104u8, 101u8, 100u8]
}

/// `path`
pub open spec fn s_path() -> Seq<u8> {
    seq![112u8, 97u8, 116u8, 104u8]
}

/// `reason`
pub open spec fn s_reason() -> Seq<u8> {
    seq![114u8, 101u8, 97u8, 115u8, 111u8, 110u8]
}

/// `match`
pub open spec fn s_match() -> Seq<u8> {
    seq![109u8, 97u8, 116u8, 99u8, 104u8]
}

/// `line`
pub open spec fn s_line() -> Seq<u8> {
    seq![108u8, 105u8, 110u8, 101u8]
}

/// `context`
pub open spec fn s_context() -> Seq<u8> {
    seq![99u8, 111u8, 110u8, 116u8, 101u8, 120u8, 116u8]
}

/// `text`
pub open spec fn s_text() -> Seq<u8> {
    seq![116u8, 101u8, 120u8, 116u8]
}

/// `context_omitted`
pub open spec fn s_context_omitted() -> Seq<u8> {
    seq![99u8, 111u8, 110u8, 116u8, 101u8, 120u8, 116u8, 95u8, 111u8, 109u8, 105u8, 116u8, 116u8, 101u8, 100u8]
}

/// `matching line/context exceeds byte budget; read this line with read_file or git_read_file`
pub open spec fn s_omitted_reason() -> Seq<u8> {
    seq![109u8, 97u8, 116u8, 99u8, 104u8, 105u8, 110u8, 103u8, 32u8, 108u8, 105u8, 110u8, 101u8, 47u8, 99u8, 111u8, 110u8, 116u8, 101u8, 120u8, 116u8, 32u8, 101u8, 120u8, 99u8, 101u8, 101u8, 100u8, 115u8, 32u8, 98u8, 121u8, 116u8, 101u8, 32u8, 98u8, 117u8, 100u8, 103u8, 101u8, 116u8, 59u8, 32u8, 114u8, 101u8, 97u8, 100u8, 32u8, 116u8, 104u8, 105u8, 115u8, 32u8, 108u8, 105u8, 110u8, 101u8, 32u8, 119u8, 105u8, 116u8, 104u8, 32u8, 114u8, 101u8, 97u8, 100u8, 95u8, 102u8, 105u8, 108u8, 101u8, 32u8, 111u8, 114u8, 32u8, 103u8, 105u8, 116u8, 95u8, 114u8, 101u8, 97u8, 100u8, 95u8, 102u8, 105u8, 108u8, 101u8]
}

/// `items`
pub open spec fn s_items() -> Seq<u8> {
    seq![105u8, 116u8, 101u8, 109u8, 115u8]
}

/// `coverage`
pub open spec fn s_coverage() -> Seq<u8> {
    seq![99u8, 111u8, 118u8, 101u8, 114u8, 97u8, 103u8, 101u8]
}

/// `fully_searched_this_page`
pub open spec fn s_fully_searched_this_page() -> Seq<u8> {
    seq![102u8, 117u8, 108u8, 108u8, 121u8, 95u8, 115u8, 101u8, 97u8, 114u8, 99u8, 104u8, 101u8, 100u8, 95u8, 116u8, 104u8, 105u8, 115u8, 95u8, 112u8, 97u8, 103u8, 101u8]
}

/// `remaining_sources`
pub open spec fn s_remaining_sources() -> Seq<u8> {
    seq![114u8, 101u8, 109u8, 97u8, 105u8, 110u8, 105u8, 110u8, 103u8, 95u8, 115u8, 111u8, 117u8, 114u8, 99u8, 101u8, 115u8]
}

/// `current_path`
pub open spec fn s_current_path() -> Seq<u8> {
    seq![99u8, 117u8, 114u8, 114u8, 101u8, 110u8, 116u8, 95u8, 112u8, 97u8, 116u8, 104u8]
}

/// `next_line`
pub open spec fn s_next_line() -> Seq<u8> {
    seq![110u8, 101u8, 120u8, 116u8, 95u8, 108u8, 105u8, 110u8, 101u8]
}

/// `truncated`
pub open spec fn s_truncated() -> Seq<u8> {
    seq![116u8, 114u8, 117u8, 110u8, 99u8, 97u8, 116u8, 101u8, 100u8]
}

/// `next_cursor`
pub open spec fn s_next_cursor() -> Seq<u8> {
    seq![110u8, 101u8, 120u8, 116u8, 95u8, 99u8, 117u8, 114u8, 115u8, 111u8, 114u8]
}

/// `response_or_scan_budget`
pub open spec fn s_response_or_scan_budget() -> Seq<u8> {
    seq![114u8, 101u8, 115u8, 112u8, 111u8, 110u8, 115u8, 101u8, 95u8, 111u8, 114u8, 95u8, 115u8, 99u8, 97u8, 110u8, 95u8, 98u8, 117u8, 100u8, 103u8, 101u8, 116u8]
}

fn str_kind() -> (res: String)
    ensures
        encode_utf8(res@) == s_kind(),
{
    let b: [u8; 4] = [107u8, 105u8, 110u8, 100u8];
    assert(b@ =~= s_kind());
    ascii_string(b.as_slice())
}

fn str_not_searched() -> (res: String)
    ensures
        encode_utf8(res@) == s_not_searched(),
{
    let b: [u8; 12] = [110u8, 111u8, 116u8, 95u8, 115u8, 101u8, 97u8, 114u8, 99u8, 104u8, 101u8, 100u8];
    assert(b@ =~= s_not_searched());
    ascii_string(b.as_slice())
}

fn str_path() -> (res: String)
    ensures
        encode_utf8(res@) == s_path(),
{
    let b: [u8; 4] = [112u8, 97u8, 116u8, 104u8];
    assert(b@ =~= s_path());
    ascii_string(b.as_slice())
}

fn str_reason() -> (res: String)
    ensures
        encode_utf8(res@) == s_reason(),
{
    let b: [u8; 6] = [114u8, 101u8, 97u8, 115u8, 111u8, 110u8];
    assert(b@ =~= s_reason());
    ascii_string(b.as_slice())
}

fn str_match() -> (res: String)
    ensures
        encode_utf8(res@) == s_match(),
{
    let b: [u8; 5] = [109u8, 97u8, 116u8, 99u8, 104u8];
    assert(b@ =~= s_match());
    ascii_string(b.as_slice())
}

fn str_line() -> (res: String)
    ensures
        encode_utf8(res@) == s_line(),
{
    let b: [u8; 4] = [108u8, 105u8, 110u8, 101u8];
    assert(b@ =~= s_line());
    ascii_string(b.as_slice())
}

fn str_context() -> (res: String)
    ensures
        encode_utf8(res@) == s_context(),
{
    let b: [u8; 7] = [99u8, 111u8, 110u8, 116u8, 101u8, 120u8, 116u8];
    assert(b@ =~= s_context());
    ascii_string(b.as_slice())
}

fn str_text() -> (res: String)
    ensures
        encode_utf8(res@) == s_text(),
{
    let b: [u8; 4] = [116u8, 101u8, 120u8, 116u8];
    assert(b@ =~= s_text());
    ascii_string(b.as_slice())
}

fn str_context_omitted() -> (res: String)
    ensures
        encode_utf8(res@) == s_context_omitted(),
{
    let b: [u8; 15] = [99u8, 111u8, 110u8, 116u8, 101u8, 120u8, 116u8, 95u8, 111u8, 109u8, 105u8, 116u8, 116u8, 101u8, 100u8];
    assert(b@ =~= s_context_omitted());
    ascii_string(b.as_slice())
}

fn str_omitted_reason() -> (res: String)
    ensures
        encode_utf8(res@) == s_omitted_reason(),
{
    let b: [u8; 89] = [109u8, 97u8, 116u8, 99u8, 104u8, 105u8, 110u8, 103u8, 32u8, 108u8, 105u8, 110u8, 101u8, 47u8, 99u8, 111u8, 110u8, 116u8, 101u8, 120u8, 116u8, 32u8, 101u8, 120u8, 99u8, 101u8, 101u8, 100u8, 115u8, 32u8, 98u8, 121u8, 116u8, 101u8, 32u8, 98u8, 117u8, 100u8, 103u8, 101u8, 116u8, 59u8, 32u8, 114u8, 101u8, 97u8, 100u8, 32u8, 116u8, 104u8, 105u8, 115u8, 32u8, 108u8, 105u8, 110u8, 101u8, 32u8, 119u8, 105u8, 116u8, 104u8, 32u8, 114u8, 101u8, 97u8, 100u8, 95u8, 102u8, 105u8, 108u8, 101u8, 32u8, 111u8, 114u8, 32u8, 103u8, 105u8, 116u8, 95u8, 114u8, 101u8, 97u8, 100u8, 95u8, 102u8, 105u8, 108u8, 101u8];
    assert(b@ =~= s_omitted_reason());
    ascii_string(b.as_slice())
}

fn str_items() -> (res: String)
    ensures
        encode_utf8(res@) == s_items(),
{
    let b: [u8; 5] = [105u8, 116u8, 101u8, 109u8, 115u8];
    assert(b@ =~= s_items());
    ascii_string(b.as_slice())
}

fn str_coverage() -> (res: String)
    ensures
        encode_utf8(res@) == s_coverage(),
{
    let b: [u8; 8] = [99u8, 111u8, 118u8, 101u8, 114u8, 97u8, 103u8, 101u8];
    assert(b@ =~= s_coverage());
    ascii_string(b.as_slice())
}

fn str_fully_searched_this_page() -> (res: String)
    ensures
        encode_utf8(res@) == s_fully_searched_this_page(),
{
    let b: [u8; 24] = [102u8, 117u8, 108u8, 108u8, 121u8, 95u8, 115u8, 101u8, 97u8, 114u8, 99u8, 104u8, 101u8, 100u8, 95u8, 116u8, 104u8, 105u8, 115u8, 95u8, 112u8, 97u8, 103u8, 101u8];
    assert(b@ =~= s_fully_searched_this_page());
    ascii_string(b.as_slice())
}

fn str_remaining_sources() -> (res: String)
    ensures
        encode_utf8(res@) == s_remaining_sources(),
{
    let b: [u8; 17] = [114u8, 101u8, 109u8, 97u8, 105u8, 110u8, 105u8, 110u8, 103u8, 95u8, 115u8, 111u8, 117u8, 114u8, 99u8, 101u8, 115u8];
    assert(b@ =~= s_remaining_sources());
    ascii_string(b.as_slice())
}

fn str_current_path() -> (res: String)
    ensures
        encode_utf8(res@) == s_current_path(),
{
    let b: [u8; 12] = [99u8, 117u8, 114u8, 114u8, 101u8, 110u8, 116u8, 95u8, 112u8, 97u8, 116u8, 104u8];
    assert(b@ =~= s_current_path());
    ascii_string(b.as_slice())
}

fn str_next_line() -> (res: String)
    ensures
        encode_utf8(res@) == s_next_line(),
{
    let b: [u8; 9] = [110u8, 101u8, 120u8, 116u8, 95u8, 108u8, 105u8, 110u8, 101u8];
    assert(b@ =~= s_next_line());
    ascii_string(b.as_slice())
}

fn str_truncated() -> (res: String)
    ensures
        encode_utf8(res@) == s_truncated(),
{
    let b: [u8; 9] = [116u8, 114u8, 117u8, 110u8, 99u8, 97u8, 116u8, 101u8, 100u8];
    assert(b@ =~= s_truncated());
    ascii_string(b.as_slice())
}

fn str_next_cursor() -> (res: String)
    ensures
        encode_utf8(res@) == s_next_cursor(),
{
    let b: [u8; 11] = [110u8, 101u8, 120u8, 116u8, 95u8, 99u8, 117u8, 114u8, 115u8, 111u8, 114u8];
    assert(b@ =~= s_next_cursor());
    ascii_string(b.as_slice())
}

fn str_response_or_scan_budget() -> (res: String)
    ensures
        encode_utf8(res@) == s_response_or_scan_budget(),
{
    let b: [u8; 23] = [114u8, 101u8, 115u8, 112u8, 111u8, 110u8, 115u8, 101u8, 95u8, 111u8, 114u8, 95u8, 115u8, 99u8, 97u8, 110u8, 95u8, 98u8, 117u8, 100u8, 103u8, 101u8, 116u8];
    assert(b@ =~= s_response_or_scan_budget());
    ascii_string(b.as_slice())
}

/// A directory entry: its path, whether a file or a directory, its size
/// and its modification time in nanoseconds.
#[derive(Clone, Debug)]
pub struct Entry {
    pub path: String,
    pub kind: String,
    pub size: u64,
    pub modified_ns: u128,
}

/// A place a listing could not cover, and why.
#[derive(Clone, Debug)]
pub struct Gap {
    pub path: String,
    pub reason: String,
}

/// What a directory listing found, and where it could not look.
#[derive(Debug)]
pub struct Inventory {
    pub entries: Vec<Entry>,
    pub gaps: Vec<Gap>,
}

/// What to search for and how much to return.
pub struct SearchOptions<'a> {
    pub pattern: &'a str,
    pub regex: bool,
    pub context: usize,
    pub limits: &'a Limits,
    pub cursor: Option<Cursor>,
}

/// Why a source could not be searched.
pub enum SourceError {
    /// A Git object it needs is missing: the whole search fails.
    MissingObject,
    /// It was refused or could not be read, for this reason.
    Refused(String),
}

/// A JSON string from bytes.
pub open spec fn jstr(b: Seq<u8>) -> JsonV {
    JsonV::Str(b)
}

/// The row for a source that was not searched.
pub open spec fn not_searched_row(path: Seq<u8>, reason: Seq<u8>) -> JsonV {
    JsonV::Obj(
        seq![(s_kind(), jstr(s_not_searched())), (s_path(), jstr(path)), (s_reason(), jstr(reason))],
    )
}

/// The rows of the lines `from` to `to` (counted from zero) of `lines`.
pub open spec fn context_rows(lines: Seq<Seq<u8>>, from: int, to: int) -> Seq<JsonV>
    decreases to - from,
{
    if to <= from {
        seq![]
    } else {
        context_rows(lines, from, to - 1).push(
            JsonV::Obj(
                seq![
                    (s_line(), JsonV::Num((to - 1 + 1) as nat)),
                    (s_text(), jstr(lines[to - 1])),
                ],
            ),
        )
    }
}

/// The row for a match on line `line` with the lines `from` to `to` around it.
pub open spec fn match_row(path: Seq<u8>, lines: Seq<Seq<u8>>, line: int, from: int, to: int) -> JsonV {
    JsonV::Obj(
        seq![
            (s_kind(), jstr(s_match())),
            (s_path(), jstr(path)),
            (s_line(), JsonV::Num((line + 1) as nat)),
            (s_context(), JsonV::Arr(context_rows(lines, from, to))),
        ],
    )
}

/// The row for a match whose lines do not fit in any response.
pub open spec fn omitted_row(path: Seq<u8>, line: int) -> JsonV {
    JsonV::Obj(
        seq![
            (s_kind(), jstr(s_match())),
            (s_path(), jstr(path)),
            (s_line(), JsonV::Num((line + 1) as nat)),
            (s_context_omitted(), JsonV::Bool(true)),
            (s_reason(), jstr(s_omitted_reason())),
        ],
    )
}

/// How scanning the lines of a source ended.
pub enum ScanEnd {
    /// Every line was scanned.
    Finished,
    /// The page is full; the next page continues at this line.
    Stopped(int),
    /// The search fails.
    Failed(Error),
}

/// Scanning the lines of a source from `line` on, with `items` taken,
/// `used` bytes and `returned` lines of the budget spent: every matching
/// line gives a row with its context, or without when that can never fit.
pub open spec fn scan_lines(
    lines: Seq<Seq<u8>>,
    path: Seq<u8>,
    pattern: Seq<char>,
    context: int,
    line_limit: int,
    byte_limit: int,
    line: int,
    items: Seq<JsonV>,
    used: int,
    returned: int,
) -> (Seq<JsonV>, int, int, ScanEnd)
    decreases lines.len() - line,
{
    if line < 0 || line >= lines.len() {
        (items, used, returned, ScanEnd::Finished)
    } else if !regex_accepts(pattern, decode_utf8(lines[line])) {
        scan_lines(
            lines,
            path,
            pattern,
            context,
            line_limit,
            byte_limit,
            line + 1,
            items,
            used,
            returned,
        )
    } else {
        let before = sat_sub(line, context);
        let after = if line + context + 1 < lines.len() {
            line + context + 1
        } else {
            lines.len() as int
        };
        let count = after - before;
        if returned + count > line_limit {
            if items.len() == 0 {
                (items, used, returned, ScanEnd::Failed(Error::LineLimitTooSmallForContext))
            } else {
                (items, used, returned, ScanEnd::Stopped(line))
            }
        } else {
            let full = match_row(path, lines, line, before, after);
            let row = if json_bytes(full).len() + 1 + 1300 > byte_limit {
                omitted_row(path, line)
            } else {
                full
            };
            let size = json_bytes(row).len() + 1;
            if used + size > byte_limit {
                if items.len() == 0 {
                    (items, used, returned, ScanEnd::Failed(Error::ItemMetadataExceedsByteLimit))
                } else {
                    (items, used, returned, ScanEnd::Stopped(line))
                }
            } else if returned + count >= line_limit {
                (items.push(row), used + size, returned + count, ScanEnd::Stopped(line + 1))
            } else {
                scan_lines(
                    lines,
                    path,
                    pattern,
                    context,
                    line_limit,
                    byte_limit,
                    line + 1,
                    items.push(row),
                    used + size,
                    returned + count,
                )
            }
        }
    }
}

fn line_row(n: usize, text: &str) -> (res: Json)
    ensures
        res.jv() == JsonV::Obj(
            seq![(s_line(), JsonV::Num((n + 1) as nat)), (s_text(), jstr(text.spec_bytes()))],
        ),
{
    let fields = vec![
        (str_line(), Json::Num(n as u128 + 1)),
        (str_text(), Json::Str(text.to_owned())),
    ];
    proof {
        reveal_with_fuel(crate::json::fields_view, 3);
        assert(crate::json::fields_view(fields@) =~= seq![
            (s_line(), JsonV::Num((n + 1) as nat)),
            (s_text(), jstr(text.spec_bytes())),
        ]);
    }
    Json::Obj(fields)
}

fn context_json(lines: &Vec<&str>, from: usize, to: usize) -> (res: Json)
    requires
        from <= to <= lines@.len(),
    ensures
        res.jv() == JsonV::Arr(
            context_rows(Seq::new(lines@.len(), |k: int| lines@[k].spec_bytes()), from as int, to as int),
        ),
{
    let ghost ls = Seq::new(lines@.len(), |k: int| lines@[k].spec_bytes());
    let mut rows: Vec<Json> = Vec::new();
    let mut n = from;
    while n < to
        invariant
            from <= n <= to <= lines@.len(),
            ls == Seq::new(lines@.len(), |k: int| lines@[k].spec_bytes()),
            rows@.len() == n - from,
            crate::json::items_view(rows@) == context_rows(ls, from as int, n as int),
        decreases to - n,
    {
        let r = line_row(n, lines[n]);
        proof {
            crate::json::lemma_items_view(rows@);
        }
        let ghost before = rows@;
        rows.push(r);
        proof {
            crate::json::lemma_items_view(rows@);
            assert(rows@.subrange(0, rows@.len() - 1) =~= before);
            assert(crate::json::items_view(rows@) == crate::json::items_view(before).push(r.jv()));
        }
        n = n + 1;
    }
    Json::Arr(rows)
}

fn match_json(path: &str, lines: &Vec<&str>, line: usize, from: usize, to: usize) -> (res: Json)
    requires
        from <= to <= lines@.len(),
    ensures
        res.jv() == match_row(
            path.spec_bytes(),
            Seq::new(lines@.len(), |k: int| lines@[k].spec_bytes()),
            line as int,
            from as int,
            to as int,
        ),
{
    let ctx = context_json(lines, from, to);
    let fields = vec![
        (str_kind(), Json::Str(str_match())),
        (str_path(), Json::Str(path.to_owned())),
        (str_line(), Json::Num(line as u128 + 1)),
        (str_context(), ctx),
    ];
    proof {
        reveal_with_fuel(crate::json::fields_view, 5);
        assert(crate::json::fields_view(fields@) =~= match_row(
            path.spec_bytes(),
            Seq::new(lines@.len(), |k: int| lines@[k].spec_bytes()),
            line as int,
            from as int,
            to as int,
        )->Obj_0);
    }
    Json::Obj(fields)
}

fn omitted_json(path: &str, line: usize) -> (res: Json)
    ensures
        res.jv() == omitted_row(path.spec_bytes(), line as int),
{
    let fields = vec![
        (str_kind(), Json::Str(str_match())),
        (str_path(), Json::Str(path.to_owned())),
        (str_line(), Json::Num(line as u128 + 1)),
        (str_context_omitted(), Json::Bool(true)),
        (str_reason(), Json::Str(str_omitted_reason())),
    ];
    proof {
        reveal_with_fuel(crate::json::fields_view, 6);
        assert(crate::json::fields_view(fields@) =~= omitted_row(path.spec_bytes(), line as int)->Obj_0);
    }
    Json::Obj(fields)
}

fn not_searched_json(path: &str, reason: &str) -> (res: Json)
    ensures
        res.jv() == not_searched_row(path.spec_bytes(), reason.spec_bytes()),
{
    let fields = vec![
        (str_kind(), Json::Str(str_not_searched())),
        (str_path(), Json::Str(path.to_owned())),
        (str_reason(), Json::Str(reason.to_owned())),
    ];
    proof {
        reveal_with_fuel(crate::json::fields_view, 4);
        assert(crate::json::fields_view(fields@) =~= not_searched_row(
            path.spec_bytes(),
            reason.spec_bytes(),
        )->Obj_0);
    }
    Json::Obj(fields)
}

/// How scanning a source ended.
pub enum ScanOutcome {
    Finished,
    Stopped(usize),
    Failed(Error),
}

/// The meaning of a scan outcome.
pub open spec fn outcome_end(o: ScanOutcome) -> ScanEnd {
    match o {
        ScanOutcome::Finished => ScanEnd::Finished,
        ScanOutcome::Stopped(l) => ScanEnd::Stopped(l as int),
        ScanOutcome::Failed(e) => ScanEnd::Failed(e),
    }
}

/// The bytes of each line.
pub open spec fn line_bytes(lines: Seq<&str>) -> Seq<Seq<u8>> {
    Seq::new(lines.len(), |k: int| lines[k].spec_bytes())
}

#[verifier::rlimit(40)]
fn scan_source(
    lines: &Vec<&str>,
    path: &str,
    m: &Matcher,
    context: usize,
    line_limit: usize,
    byte_limit: usize,
    line0: usize,
    items: &mut Vec<Json>,
    used: &mut u128,
    returned: &mut usize,
) -> (res: ScanOutcome)
    requires
        context <= 10,
        1 <= line_limit <= 2000,
        2048 <= byte_limit <= 262144,
        old(items)@.len() <= *old(returned) <= line_limit,
        *old(used) <= 340282366920938463463374607431768211455 - 2001 * 18446744073709551617,
    ensures
        ({
            let r = scan_lines(
                line_bytes(lines@),
                path.spec_bytes(),
                m.pattern(),
                context as int,
                line_limit as int,
                byte_limit as int,
                line0 as int,
                crate::json::items_view(old(items)@),
                *old(used) as int,
                *old(returned) as int,
            );
            &&& crate::json::items_view(final(items)@) == r.0
            &&& *final(used) == r.1
            &&& *final(returned) == r.2
            &&& outcome_end(res) == r.3
        }),
        final(items)@.len() <= *final(returned) <= line_limit,
        *final(used) <= *old(used) + (final(items)@.len() - old(items)@.len()) * 18446744073709551617,
{
    let ghost ls = line_bytes(lines@);
    let ghost target = scan_lines(
        ls,
        path.spec_bytes(),
        m.pattern(),
        context as int,
        line_limit as int,
        byte_limit as int,
        line0 as int,
        crate::json::items_view(items@),
        *used as int,
        *returned as int,
    );
    let ghost items0 = items@.len();
    let ghost used0 = *used;
    let mut line = line0;
    while line < lines.len()
        invariant
            ls == line_bytes(lines@),
            context <= 10,
            1 <= line_limit <= 2000,
            2048 <= byte_limit <= 262144,
            items@.len() <= *returned <= line_limit,
            items0 <= items@.len(),
            items0 == old(items)@.len(),
            used0 == *old(used),
            target == scan_lines(
                ls,
                path.spec_bytes(),
                m.pattern(),
                context as int,
                line_limit as int,
                byte_limit as int,
                line0 as int,
                crate::json::items_view(old(items)@),
                *old(used) as int,
                *old(returned) as int,
            ),
            used0 <= 340282366920938463463374607431768211455 - 2001 * 18446744073709551617,
            *used <= used0 + (items@.len() - items0) * 18446744073709551617,
            target == scan_lines(
                ls,
                path.spec_bytes(),
                m.pattern(),
                context as int,
                line_limit as int,
                byte_limit as int,
                line as int,
                crate::json::items_view(items@),
                *used as int,
                *returned as int,
            ),
        decreases lines@.len() - line,
    {
        proof {
            vstd::utf8::encode_utf8_decode_utf8(lines@[line as int]@);
        }
        if m.is_match(lines[line]) {
            let before = if line > context {
                line - context
            } else {
                0
            };
            let after = if lines.len() - line > context + 1 {
                line + context + 1
            } else {
                lines.len()
            };
            let count = after - before;
            if *returned + count > line_limit {
                if items.len() == 0 {
                    return ScanOutcome::Failed(Error::LineLimitTooSmallForContext);
                }
                return ScanOutcome::Stopped(line);
            }
            let full = match_json(path, lines, line, before, after);
            let full_size = crate::json::to_bytes(&full).len();
            let row = if full_size as u128 + 1 + 1300 > byte_limit as u128 {
                omitted_json(path, line)
            } else {
                full
            };
            let size = crate::json::to_bytes(&row).len() as u128 + 1;
            if *used + size > byte_limit as u128 {
                if items.len() == 0 {
                    return ScanOutcome::Failed(Error::ItemMetadataExceedsByteLimit);
                }
                return ScanOutcome::Stopped(line);
            }
            let ghost before_items = items@;
            *used = *used + size;
            items.push(row);
            *returned = *returned + count;
            proof {
                crate::json::lemma_items_view(items@);
                crate::json::lemma_items_view(before_items);
                assert(crate::json::items_view(items@) =~= crate::json::items_view(before_items).push(
                    row.jv(),
                ));
            }
            if *returned >= line_limit {
                return ScanOutcome::Stopped(line + 1);
            }
        }
        line = line + 1;
    }
    ScanOutcome::Finished
}

/// Where a search stands between two sources.
pub struct SearchV {
    pub index: int,
    pub start_line: int,
    pub items: Seq<JsonV>,
    pub used: int,
    pub returned: int,
    pub scanned: int,
    pub fully: int,
    pub done: bool,
    pub failed: Option<Error>,
}

/// What loading a source gave: its text's bytes, or why it could not be
/// searched (`None` for a missing Git object).
pub open spec fn loaded_view(l: Result<&crate::text::Text, SourceError>) -> Result<
    Seq<u8>,
    Option<Seq<u8>>,
> {
    match l {
        Ok(t) => Ok(encode_utf8(t.content@)),
        Err(SourceError::MissingObject) => Err(None),
        Err(SourceError::Refused(r)) => Err(Some(encode_utf8(r@))),
    }
}

/// Whether a search wants another source, and which.
pub open spec fn wanted(st: SearchV, total: int, line_limit: int) -> bool {
    !st.done && st.index < total && st.returned < line_limit && st.scanned < crate::output::SCAN_BYTES
}

/// A search after it has looked at the source it wanted.
pub open spec fn search_feed(
    paths: Seq<Seq<u8>>,
    pattern: Seq<char>,
    context: int,
    line_limit: int,
    byte_limit: int,
    st: SearchV,
    loaded: Result<Seq<u8>, Option<Seq<u8>>>,
) -> SearchV {
    let path = paths[st.index];
    match loaded {
        Err(None) => SearchV { done: true, failed: Some(Error::MissingObject), ..st },
        Err(Some(reason)) => {
            let scanned = st.scanned + crate::output::FILE_LIMIT;
            let row = not_searched_row(path, reason);
            let size = json_bytes(row).len() + 1;
            if st.used + size > byte_limit {
                if st.items.len() == 0 {
                    SearchV {
                        scanned,
                        done: true,
                        failed: Some(Error::ItemMetadataExceedsByteLimit),
                        ..st
                    }
                } else {
                    SearchV { scanned, done: true, ..st }
                }
            } else {
                SearchV {
                    scanned,
                    items: st.items.push(row),
                    used: st.used + size,
                    returned: st.returned + 1,
                    index: st.index + 1,
                    start_line: 0,
                    ..st
                }
            }
        },
        Ok(content) => {
            let scanned = st.scanned + content.len();
            let lines = text_lines(content);
            if st.start_line > lines.len() {
                SearchV { scanned, done: true, failed: Some(Error::StaleCursor), ..st }
            } else {
                let r = scan_lines(
                    lines,
                    path,
                    pattern,
                    context,
                    line_limit,
                    byte_limit,
                    st.start_line,
                    st.items,
                    st.used,
                    st.returned,
                );
                match r.3 {
                    ScanEnd::Finished => SearchV {
                        scanned,
                        items: r.0,
                        used: r.1,
                        returned: r.2,
                        index: st.index + 1,
                        fully: st.fully + 1,
                        start_line: 0,
                        ..st
                    },
                    ScanEnd::Stopped(l) => SearchV {
                        scanned,
                        items: r.0,
                        used: r.1,
                        returned: r.2,
                        start_line: l,
                        done: true,
                        ..st
                    },
                    ScanEnd::Failed(e) => SearchV {
                        scanned,
                        items: r.0,
                        used: r.1,
                        returned: r.2,
                        done: true,
                        failed: Some(e),
                        ..st
                    },
                }
            }
        },
    }
}

/// The key a search's cursor is tied to: the snapshot of its sources, the
/// pattern, whether it is a regular expression and the context, separated
/// by zero bytes.
pub open spec fn search_key(snapshot: Seq<u8>, pattern: Seq<u8>, regex: bool, context: nat) -> Seq<u8> {
    snapshot + seq![0u8] + pattern + seq![0u8] + (if regex {
        seq![116u8, 114u8, 117u8, 101u8]
    } else {
        seq![102u8, 97u8, 108u8, 115u8, 101u8]
    }) + seq![0u8] + crate::git::store::decimal(context)
}

/// The result of a search, from where it stands when it is finished.
pub open spec fn search_value(paths: Seq<Seq<u8>>, fp: Seq<u8>, st: SearchV) -> JsonV {
    let incomplete = st.index < paths.len();
    JsonV::Obj(
        seq![
            (s_items(), JsonV::Arr(st.items)),
            (s_coverage(), JsonV::Obj(
                seq![
                    (s_fully_searched_this_page(), JsonV::Num(st.fully as nat)),
                    (s_remaining_sources(), JsonV::Num((paths.len() - st.index) as nat)),
                    (s_current_path(), if incomplete {
                        jstr(paths[st.index])
                    } else {
                        JsonV::Null
                    }),
                    (s_next_line(), JsonV::Num((st.start_line + 1) as nat)),
                ],
            )),
            (s_truncated(), JsonV::Bool(incomplete)),
            (s_reason(), if incomplete {
                jstr(s_response_or_scan_budget())
            } else {
                JsonV::Null
            }),
            (s_next_cursor(), if incomplete {
                jstr(crate::output::cursor_text(fp, st.index as nat, st.start_line as nat))
            } else {
                JsonV::Null
            }),
        ],
    )
}

/// A text search over many sources, one source at a time: the caller
/// loads each source the search asks for and hands it over, until the
/// search asks for no more.
pub struct Search {
    paths: Vec<String>,
    matcher: Matcher,
    context: usize,
    fp: String,
    line_limit: usize,
    byte_limit: usize,
    index: usize,
    start_line: usize,
    items: Vec<Json>,
    used: u128,
    returned: usize,
    scanned: u128,
    fully: usize,
    done: bool,
    failed: Option<Error>,
}

/// Whether a search may start, and else why not: a context of at most ten
/// lines, a pattern of at most `PATTERN_LIMIT` bytes that compiles within
/// the size limit, a cursor made for this search that points at most one
/// past the last source, and a valid budget; refused in that order.
pub open spec fn start_verdict(count: nat, snapshot: Seq<u8>, opts: SearchOptions) -> Result<(), Error> {
    let fp = crate::output::fingerprint_of(
        search_key(snapshot, opts.pattern.spec_bytes(), opts.regex, opts.context as nat),
    );
    if opts.context > 10 {
        Err(Error::ContextLimit)
    } else if opts.pattern.spec_bytes().len() > crate::matching::PATTERN_LIMIT {
        Err(Error::PatternTooLong)
    } else if !crate::matching::regex_valid_within(
        crate::matching::search_pattern(opts.pattern@, opts.regex),
        crate::matching::REGEX_SIZE_LIMIT as nat,
    ) {
        Err(Error::InvalidPattern)
    } else if opts.cursor matches Some(c) && c.fingerprint@ != fp {
        Err(Error::StaleCursor)
    } else if opts.cursor matches Some(c) && c.index > count {
        Err(Error::InvalidCursor)
    } else if !(1 <= crate::output::requested_lines(*opts.limits) <= 2000) {
        Err(Error::InvalidLineLimit)
    } else if !(2048 <= crate::output::requested_bytes(*opts.limits) <= 262144) {
        Err(Error::InvalidByteLimit)
    } else {
        Ok(())
    }
}

impl Search {
    /// Where the search stands.
    pub closed spec fn state(&self) -> SearchV {
        SearchV {
            index: self.index as int,
            start_line: self.start_line as int,
            items: crate::json::items_view(self.items@),
            used: self.used as int,
            returned: self.returned as int,
            scanned: self.scanned as int,
            fully: self.fully as int,
            done: self.done,
            failed: self.failed,
        }
    }

    /// The sources' paths.
    pub closed spec fn paths(&self) -> Seq<Seq<u8>> {
        Seq::new(self.paths@.len(), |k: int| encode_utf8(self.paths@[k]@))
    }

    /// The compiled pattern.
    pub closed spec fn pattern(&self) -> Seq<char> {
        self.matcher.pattern()
    }

    /// How many lines around a match are returned.
    pub closed spec fn context(&self) -> int {
        self.context as int
    }

    /// The line budget.
    pub closed spec fn line_limit(&self) -> int {
        self.line_limit as int
    }

    /// The byte budget.
    pub closed spec fn byte_limit(&self) -> int {
        self.byte_limit as int
    }

    /// The fingerprint the cursor is tied to.
    pub closed spec fn fp(&self) -> Seq<u8> {
        encode_utf8(self.fp@)
    }

    /// The bounds that keep the search's counts in range.
    pub closed spec fn wf(&self) -> bool {
        &&& self.context <= 10
        &&& 1 <= self.line_limit <= 2000
        &&& 2048 <= self.byte_limit <= 262144
        &&& self.index <= self.paths@.len()
        &&& self.items@.len() <= self.returned
        &&& (!self.done ==> self.returned <= self.line_limit)
        &&& self.used <= 1300 + self.items@.len() * 18446744073709551617
        &&& self.scanned <= crate::output::SCAN_BYTES + 18446744073709551616
        &&& self.fully <= self.index
        &&& (self.failed is Some ==> self.done)
    }

    /// Which source the search wants next, if any.
    pub fn next_source(&self) -> (res: Option<usize>)
        requires
            self.wf(),
        ensures
            res is Some == wanted(self.state(), self.paths().len() as int, self.line_limit()),
            res matches Some(i) ==> i == self.state().index,
    {
        if !self.done && self.index < self.paths.len() && self.returned < self.line_limit
            && self.scanned < crate::output::SCAN_BYTES as u128 {
            Some(self.index)
        } else {
            None
        }
    }

    /// The path of a source.
    pub fn path(&self, i: usize) -> (res: &str)
        requires
            i < self.paths().len(),
        ensures
            res.spec_bytes() == self.paths()[i as int],
    {
        self.paths[i].as_str()
    }
}

impl Search {
    /// Starts a search over `paths`, whose listing is summed up by
    /// `snapshot`, from where the cursor stopped.
    pub fn start(paths: Vec<String>, snapshot: &str, opts: SearchOptions) -> (res: Result<Search, Error>)
        ensures
            opts.context > 10 ==> res == Err::<Search, Error>(Error::ContextLimit),
            res matches Ok(s) ==> {
                let fp = crate::output::fingerprint_of(
                    search_key(
                        snapshot.spec_bytes(),
                        opts.pattern.spec_bytes(),
                        opts.regex,
                        opts.context as nat,
                    ),
                );
                &&& s.wf()
                &&& s.paths() == Seq::new(paths@.len(), |k: int| encode_utf8(paths@[k]@))
                &&& s.pattern() == crate::matching::search_pattern(opts.pattern@, opts.regex)
                &&& !opts.regex ==> forall|t: Seq<char>| #[trigger] crate::matching::regex_accepts(s.pattern(), t)
                    == crate::matching::occurs(t, opts.pattern@)
                &&& s.context() == opts.context
                &&& s.fp() == encode_utf8(fp)
                &&& s.line_limit() == crate::output::requested_lines(*opts.limits)
                &&& s.byte_limit() == crate::output::requested_bytes(*opts.limits)
                &&& s.state() == SearchV {
                    index: match opts.cursor {
                        Some(c) => c.index as int,
                        None => 0,
                    },
                    start_line: match opts.cursor {
                        Some(c) => c.offset as int,
                        None => 0,
                    },
                    items: seq![],
                    used: 1300,
                    returned: 0,
                    scanned: 0,
                    fully: 0,
                    done: false,
                    failed: None,
                }
            },
            start_verdict(paths@.len(), snapshot.spec_bytes(), opts) is Ok <==> res is Ok,
            res matches Err(e) ==> start_verdict(paths@.len(), snapshot.spec_bytes(), opts) == Err::<
                (),
                Error,
            >(e),
    {
        if opts.context > 10 {
            return Err(Error::ContextLimit);
        }
        let matcher = crate::matching::matcher(opts.pattern, opts.regex)?;
        let mut key: Vec<u8> = Vec::new();
        crate::bytes::append_bytes(&mut key, snapshot.as_bytes());
        key.push(0u8);
        crate::bytes::append_bytes(&mut key, opts.pattern.as_bytes());
        key.push(0u8);
        if opts.regex {
            key.push(116u8);
            key.push(114u8);
            key.push(117u8);
            key.push(101u8);
        } else {
            key.push(102u8);
            key.push(97u8);
            key.push(108u8);
            key.push(115u8);
            key.push(101u8);
        }
        key.push(0u8);
        let digits = crate::git::store::decimal_bytes(opts.context);
        crate::bytes::append_bytes(&mut key, digits.as_slice());
        assert(key@ =~= search_key(
            snapshot.spec_bytes(),
            opts.pattern.spec_bytes(),
            opts.regex,
            opts.context as nat,
        ));
        let fp = crate::output::fingerprint(key.as_slice());
        let cur = crate::output::check_cursor(opts.cursor, fp.as_str())?;
        if cur.index > paths.len() {
            return Err(Error::InvalidCursor);
        }
        let (line_limit, byte_limit) = opts.limits.get()?;
        let s = Search {
            paths,
            matcher,
            context: opts.context,
            fp,
            line_limit,
            byte_limit,
            index: cur.index,
            start_line: cur.offset,
            items: Vec::new(),
            used: 1300,
            returned: 0,
            scanned: 0,
            fully: 0,
            done: false,
            failed: None,
        };
        proof {
            crate::json::lemma_items_view(s.items@);
        }
        assert(crate::json::items_view(s.items@) =~= Seq::<JsonV>::empty());
        Ok(s)
    }

    /// Hands over the source the search asked for, loaded or not.
    pub fn feed(&mut self, loaded: Result<&crate::text::Text, SourceError>)
        requires
            old(self).wf(),
            wanted(old(self).state(), old(self).paths().len() as int, old(self).line_limit()),
        ensures
            final(self).wf(),
            final(self).paths() == old(self).paths(),
            final(self).pattern() == old(self).pattern(),
            final(self).context() == old(self).context(),
            final(self).line_limit() == old(self).line_limit(),
            final(self).byte_limit() == old(self).byte_limit(),
            final(self).fp() == old(self).fp(),
            final(self).state() == search_feed(
                old(self).paths(),
                old(self).pattern(),
                old(self).context(),
                old(self).line_limit(),
                old(self).byte_limit(),
                old(self).state(),
                loaded_view(loaded),
            ),
    {
        assert(self.paths().len() == self.paths@.len());
        let n = self.paths.len();
        assert(self.index < n);
        let path = self.paths[self.index].clone();
        let ghost path_b = encode_utf8(path@);
        assert(path_b == old(self).paths()[old(self).index as int]);
        match loaded {
            Err(SourceError::MissingObject) => {
                self.done = true;
                self.failed = Some(Error::MissingObject);
            },
            Err(SourceError::Refused(reason)) => {
                self.scanned = self.scanned + crate::output::FILE_LIMIT as u128;
                let row = not_searched_json(path.as_str(), reason.as_str());
                let size = crate::json::to_bytes(&row).len() as u128 + 1;
                if self.used + size > self.byte_limit as u128 {
                    if self.items.len() == 0 {
                        self.failed = Some(Error::ItemMetadataExceedsByteLimit);
                    }
                    self.done = true;
                } else {
                    let ghost before = self.items@;
                    self.items.push(row);
                    proof {
                        crate::json::lemma_items_view(self.items@);
                        crate::json::lemma_items_view(before);
                        assert(crate::json::items_view(self.items@) =~= crate::json::items_view(
                            before,
                        ).push(row.jv()));
                    }
                    self.used = self.used + size;
                    self.returned = self.returned + 1;
                    assert(self.index < n);
                    self.index = self.index + 1;
                    self.start_line = 0;
                }
            },
            Ok(t) => {
                let content = t.content.as_str();
                self.scanned = self.scanned + content.as_bytes().len() as u128;
                let lines = crate::text::lines(content);
                assert(line_bytes(lines@) =~= text_lines(encode_utf8(t.content@)));
                if self.start_line > lines.len() {
                    self.done = true;
                    self.failed = Some(Error::StaleCursor);
                } else {
                    let mut items = Vec::new();
                    std::mem::swap(&mut items, &mut self.items);
                    let mut used = self.used;
                    let mut returned = self.returned;
                    let out = scan_source(
                        &lines,
                        path.as_str(),
                        &self.matcher,
                        self.context,
                        self.line_limit,
                        self.byte_limit,
                        self.start_line,
                        &mut items,
                        &mut used,
                        &mut returned,
                    );
                    self.items = items;
                    self.used = used;
                    self.returned = returned;
                    match out {
                        ScanOutcome::Finished => {
                            assert(self.index < n);
                            self.index = self.index + 1;
                            self.fully = self.fully + 1;
                            self.start_line = 0;
                        },
                        ScanOutcome::Stopped(l) => {
                            self.start_line = l;
                            self.done = true;
                        },
                        ScanOutcome::Failed(e) => {
                            self.done = true;
                            self.failed = Some(e);
                        },
                    }
                }
            },
        }
    }
}

impl Search {
    /// The result of the search once it wants no more sources.
    #[verifier::rlimit(60)]
    pub fn finish(self) -> (res: Result<Json, Error>)
        requires
            self.wf(),
        ensures
            match self.state().failed {
                Some(e) => res == Err::<Json, Error>(e),
                None => {
                    let v = search_value(self.paths(), self.fp(), self.state());
                    if json_bytes(v).len() > self.byte_limit() {
                        res == Err::<Json, Error>(Error::ResponseBudgetExceeded)
                    } else {
                        res matches Ok(j) && j.jv() == v
                    }
                },
            },
    {
        if let Some(e) = self.failed {
            return Err(e);
        }
        let ghost paths_v = self.paths();
        let ghost fp_v = self.fp();
        let ghost st = self.state();
        let n = self.paths.len();
        assert(paths_v.len() == n);
        let incomplete = self.index < n;
        let current = if incomplete {
            Json::Str(self.paths[self.index].clone())
        } else {
            Json::Null
        };
        let remaining: u128 = (n - self.index) as u128;
        let coverage_fields = vec![
            (str_fully_searched_this_page(), Json::Num(self.fully as u128)),
            (str_remaining_sources(), Json::Num(remaining)),
            (str_current_path(), current),
            (str_next_line(), Json::Num(self.start_line as u128 + 1)),
        ];
        proof {
            reveal_with_fuel(crate::json::fields_view, 5);
            assert(crate::json::fields_view(coverage_fields@) =~= seq![
                (s_fully_searched_this_page(), JsonV::Num(st.fully as nat)),
                (s_remaining_sources(), JsonV::Num((paths_v.len() - st.index) as nat)),
                (s_current_path(), if incomplete {
                    jstr(paths_v[st.index])
                } else {
                    JsonV::Null
                }),
                (s_next_line(), JsonV::Num((st.start_line + 1) as nat)),
            ]);
        }
        let coverage = Json::Obj(coverage_fields);
        let reason = if incomplete {
            Json::Str(str_response_or_scan_budget())
        } else {
            Json::Null
        };
        let next = if incomplete {
            Json::Str(crate::output::continuation(self.fp.as_str(), self.index, self.start_line))
        } else {
            Json::Null
        };
        let byte_limit = self.byte_limit;
        let fields = vec![
            (str_items(), Json::Arr(self.items)),
            (str_coverage(), coverage),
            (str_truncated(), Json::Bool(incomplete)),
            (str_reason(), reason),
            (str_next_cursor(), next),
        ];
        proof {
            reveal_with_fuel(crate::json::fields_view, 6);
            assert(crate::json::fields_view(fields@) =~= search_value(paths_v, fp_v, st)->Obj_0);
        }
        let value = Json::Obj(fields);
        if crate::json::to_bytes(&value).len() > byte_limit {
            return Err(Error::ResponseBudgetExceeded);
        }
        Ok(value)
    }
}

/// The row a matching line of a source gives: its lines with their
/// context, or a note that they were left out when they would not fit in
/// any response.
pub open spec fn row_for(
    lines: Seq<Seq<u8>>,
    path: Seq<u8>,
    context: int,
    byte_limit: int,
    line: int,
) -> JsonV {
    let before = sat_sub(line, context);
    let after = if line + context + 1 < lines.len() {
        line + context + 1
    } else {
        lines.len() as int
    };
    let full = match_row(path, lines, line, before, after);
    if json_bytes(full).len() + 1 + 1300 > byte_limit {
        omitted_row(path, line)
    } else {
        full
    }
}

/// The rows of the lines from `from` up to `to` that the pattern matches,
/// one for each, in order.
pub open spec fn rows_between(
    lines: Seq<Seq<u8>>,
    path: Seq<u8>,
    pattern: Seq<char>,
    context: int,
    byte_limit: int,
    from: int,
    to: int,
) -> Seq<JsonV>
    decreases to - from,
{
    if to <= from {
        seq![]
    } else {
        let rest = rows_between(lines, path, pattern, context, byte_limit, from + 1, to);
        if regex_accepts(pattern, decode_utf8(lines[from])) {
            seq![row_for(lines, path, context, byte_limit, from)] + rest
        } else {
            rest
        }
    }
}

/// Scanning a source from line `line` adds one row for each matching line
/// from there up to where it stops, and no other: up to the end when it
/// finishes, up to the line the next page starts at when it stops.
pub proof fn lemma_scan_rows(
    lines: Seq<Seq<u8>>,
    path: Seq<u8>,
    pattern: Seq<char>,
    context: int,
    line_limit: int,
    byte_limit: int,
    line: int,
    items: Seq<JsonV>,
    used: int,
    returned: int,
)
    requires
        0 <= line,
    ensures
        ({
            let r = scan_lines(
                lines,
                path,
                pattern,
                context,
                line_limit,
                byte_limit,
                line,
                items,
                used,
                returned,
            );
            exists|stop: int|
                #![trigger rows_between(lines, path, pattern, context, byte_limit, line, stop)]
                line <= stop && (line <= lines.len() ==> stop <= lines.len()) && r.0 == items
                    + rows_between(lines, path, pattern, context, byte_limit, line, stop) && (r.3
                    is Finished ==> stop == lines.len() || line > lines.len()) && (r.3 matches ScanEnd::Stopped(l)
                    ==> stop == l)
        }),
    decreases lines.len() - line,
{
    let r = scan_lines(lines, path, pattern, context, line_limit, byte_limit, line, items, used, returned);
    if line >= lines.len() {
        assert(items + rows_between(lines, path, pattern, context, byte_limit, line, line) =~= items);
        if line == lines.len() {
            assert(r.0 == items + rows_between(lines, path, pattern, context, byte_limit, line, lines.len() as int));
        } else {
            assert(r.0 == items + rows_between(lines, path, pattern, context, byte_limit, line, line));
        }
    } else if !regex_accepts(pattern, decode_utf8(lines[line])) {
        lemma_scan_rows(lines, path, pattern, context, line_limit, byte_limit, line + 1, items, used, returned);
        let stop = choose|stop: int|
            #![trigger rows_between(lines, path, pattern, context, byte_limit, line + 1, stop)]
            line + 1 <= stop && stop <= lines.len() && r.0 == items + rows_between(
                lines,
                path,
                pattern,
                context,
                byte_limit,
                line + 1,
                stop,
            ) && (r.3 is Finished ==> stop == lines.len() || line + 1 > lines.len()) && (r.3 matches ScanEnd::Stopped(l)
                ==> stop == l);
        assert(rows_between(lines, path, pattern, context, byte_limit, line, stop) == rows_between(
            lines,
            path,
            pattern,
            context,
            byte_limit,
            line + 1,
            stop,
        ));
    } else {
        let before = sat_sub(line, context);
        let after = if line + context + 1 < lines.len() {
            line + context + 1
        } else {
            lines.len() as int
        };
        let count = after - before;
        let row = row_for(lines, path, context, byte_limit, line);
        let size = json_bytes(row).len() + 1;
        let none = rows_between(lines, path, pattern, context, byte_limit, line, line);
        assert(items + none =~= items);
        if returned + count > line_limit || used + size > byte_limit {
        } else if returned + count >= line_limit {
            let one = rows_between(lines, path, pattern, context, byte_limit, line, line + 1);
            assert(rows_between(lines, path, pattern, context, byte_limit, line + 1, line + 1) =~= seq![]);
            assert(one =~= seq![row]);
            assert(items + one =~= items.push(row));
        } else {
            lemma_scan_rows(
                lines,
                path,
                pattern,
                context,
                line_limit,
                byte_limit,
                line + 1,
                items.push(row),
                used + size,
                returned + count,
            );
            let stop = choose|stop: int|
                #![trigger rows_between(lines, path, pattern, context, byte_limit, line + 1, stop)]
                line + 1 <= stop && stop <= lines.len() && r.0 == items.push(row) + rows_between(
                    lines,
                    path,
                    pattern,
                    context,
                    byte_limit,
                    line + 1,
                    stop,
                ) && (r.3 is Finished ==> stop == lines.len() || line + 1 > lines.len()) && (r.3 matches ScanEnd::Stopped(
                    l,
                ) ==> stop == l);
            let rest = rows_between(lines, path, pattern, context, byte_limit, line + 1, stop);
            assert(rows_between(lines, path, pattern, context, byte_limit, line, stop) == seq![row] + rest);
            assert(items.push(row) + rest =~= items + (seq![row] + rest));
        }
    }
}

/// What one source adds to a page, and where the next page goes on: a
/// source that loads as text adds one row for each line the pattern matches
/// from the line the search stands at up to where its scan stops, and the
/// search then stands at the next source's first line when the scan reached
/// the end, or else at the line it stopped at, where the next page resumes;
/// a source that cannot be searched adds its one row and the search goes on
/// with the next source, or ends the page with nothing added.
pub proof fn lemma_search_feed_rows(
    paths: Seq<Seq<u8>>,
    pattern: Seq<char>,
    context: int,
    line_limit: int,
    byte_limit: int,
    st: SearchV,
    loaded: Result<Seq<u8>, Option<Seq<u8>>>,
)
    requires
        0 <= st.index < paths.len(),
        0 <= st.start_line,
    ensures
        ({
            let n = search_feed(paths, pattern, context, line_limit, byte_limit, st, loaded);
            let path = paths[st.index];
            match loaded {
                Ok(content) => n.failed is None ==> exists|stop: int|
                    #![trigger rows_between(text_lines(content), path, pattern, context, byte_limit, st.start_line, stop)]
                    st.start_line <= stop <= text_lines(content).len() && n.items == st.items
                        + rows_between(
                        text_lines(content),
                        path,
                        pattern,
                        context,
                        byte_limit,
                        st.start_line,
                        stop,
                    ) && ((n.index == st.index + 1 && n.start_line == 0 && stop == text_lines(
                        content,
                    ).len()) || (n.index == st.index && n.start_line == stop && n.done)),
                Err(Some(reason)) => n.failed is None ==> (n.index == st.index + 1 && n.start_line
                    == 0 && n.items == st.items.push(not_searched_row(path, reason))) || (n.index
                    == st.index && n.done && n.items == st.items),
                Err(None) => n.failed == Some(Error::MissingObject),
            }
        }),
{
    if let Ok(content) = loaded {
        let lines = text_lines(content);
        if st.start_line <= lines.len() {
            lemma_scan_rows(
                lines,
                paths[st.index],
                pattern,
                context,
                line_limit,
                byte_limit,
                st.start_line,
                st.items,
                st.used,
                st.returned,
            );
        }
    }
}

/// The rows due from one source, from line `from` on: one for each line
/// its text has that the pattern matches, or the row that says why it
/// could not be searched.
pub open spec fn source_rows(
    path: Seq<u8>,
    pattern: Seq<char>,
    context: int,
    byte_limit: int,
    loaded: Result<Seq<u8>, Option<Seq<u8>>>,
    from: int,
) -> Seq<JsonV> {
    match loaded {
        Ok(content) => rows_between(
            text_lines(content),
            path,
            pattern,
            context,
            byte_limit,
            from,
            text_lines(content).len() as int,
        ),
        Err(Some(reason)) => seq![not_searched_row(path, reason)],
        Err(None) => seq![],
    }
}

/// The rows due from source `i` at line `from` on and from every later
/// source, in order, for sources loaded by `load`.
pub open spec fn rows_from(
    paths: Seq<Seq<u8>>,
    pattern: Seq<char>,
    context: int,
    byte_limit: int,
    load: spec_fn(Seq<u8>) -> Result<Seq<u8>, Option<Seq<u8>>>,
    i: int,
    from: int,
) -> Seq<JsonV>
    decreases paths.len() - i,
{
    if i < 0 || i >= paths.len() {
        seq![]
    } else {
        source_rows(paths[i], pattern, context, byte_limit, load(paths[i]), from) + rows_from(
            paths,
            pattern,
            context,
            byte_limit,
            load,
            i + 1,
            0,
        )
    }
}

/// Where a page starts: at source `index`, line `line`, with nothing taken.
pub open spec fn fresh_page(index: int, line: int) -> SearchV {
    SearchV {
        index,
        start_line: line,
        items: seq![],
        used: 1300,
        returned: 0,
        scanned: 0,
        fully: 0,
        done: false,
        failed: None,
    }
}

/// Where a page stands once it wants no more sources, each source it asks
/// for being loaded by `load`.
pub open spec fn page_state(
    paths: Seq<Seq<u8>>,
    pattern: Seq<char>,
    context: int,
    line_limit: int,
    byte_limit: int,
    load: spec_fn(Seq<u8>) -> Result<Seq<u8>, Option<Seq<u8>>>,
    st: SearchV,
) -> SearchV
    decreases paths.len() - st.index, if st.done {
        0int
    } else {
        1int
    },
{
    if 0 <= st.index && wanted(st, paths.len() as int, line_limit) {
        page_state(
            paths,
            pattern,
            context,
            line_limit,
            byte_limit,
            load,
            search_feed(
                paths,
                pattern,
                context,
                line_limit,
                byte_limit,
                st,
                load(paths[st.index]),
            ),
        )
    } else {
        st
    }
}

/// The rows of the lines from `a` to `c` are those from `a` to `b` and
/// then those from `b` to `c`.
proof fn lemma_rows_split(
    lines: Seq<Seq<u8>>,
    path: Seq<u8>,
    pattern: Seq<char>,
    context: int,
    byte_limit: int,
    a: int,
    b: int,
    c: int,
)
    requires
        a <= b <= c,
    ensures
        rows_between(lines, path, pattern, context, byte_limit, a, c) == rows_between(
            lines,
            path,
            pattern,
            context,
            byte_limit,
            a,
            b,
        ) + rows_between(lines, path, pattern, context, byte_limit, b, c),
    decreases b - a,
{
    if a == b {
        assert(rows_between(lines, path, pattern, context, byte_limit, a, b) =~= seq![]);
        assert(seq![] + rows_between(lines, path, pattern, context, byte_limit, b, c) =~= rows_between(
            lines,
            path,
            pattern,
            context,
            byte_limit,
            b,
            c,
        ));
    } else {
        lemma_rows_split(lines, path, pattern, context, byte_limit, a + 1, b, c);
        let x = rows_between(lines, path, pattern, context, byte_limit, a + 1, b);
        let y = rows_between(lines, path, pattern, context, byte_limit, b, c);
        if regex_accepts(pattern, decode_utf8(lines[a])) {
            let r = seq![row_for(lines, path, context, byte_limit, a)];
            assert(r + (x + y) =~= (r + x) + y);
        }
    }
}

/// One source handed to a search keeps what it has taken, followed by
/// what is still due, unchanged, unless the search fails.
proof fn lemma_feed_covers(
    paths: Seq<Seq<u8>>,
    pattern: Seq<char>,
    context: int,
    line_limit: int,
    byte_limit: int,
    load: spec_fn(Seq<u8>) -> Result<Seq<u8>, Option<Seq<u8>>>,
    st: SearchV,
)
    requires
        0 <= st.index < paths.len(),
        0 <= st.start_line,
        search_feed(
            paths,
            pattern,
            context,
            line_limit,
            byte_limit,
            st,
            load(paths[st.index]),
        ).failed is None,
    ensures
        ({
            let n = search_feed(
                paths,
                pattern,
                context,
                line_limit,
                byte_limit,
                st,
                load(paths[st.index]),
            );
            &&& 0 <= n.start_line
            &&& st.index <= n.index <= paths.len()
            &&& st.items + rows_from(paths, pattern, context, byte_limit, load, st.index, st.start_line)
                == n.items + rows_from(paths, pattern, context, byte_limit, load, n.index, n.start_line)
        }),
{
    let i = st.index;
    let path = paths[i];
    let loaded = load(path);
    let n = search_feed(paths, pattern, context, line_limit, byte_limit, st, loaded);
    let rest = rows_from(paths, pattern, context, byte_limit, load, i + 1, 0);
    lemma_search_feed_rows(paths, pattern, context, line_limit, byte_limit, st, loaded);
    assert(rows_from(paths, pattern, context, byte_limit, load, i, st.start_line) == source_rows(
        path,
        pattern,
        context,
        byte_limit,
        loaded,
        st.start_line,
    ) + rest);
    match loaded {
        Ok(content) => {
            let lines = text_lines(content);
            let stop = choose|stop: int|
                #![trigger rows_between(lines, path, pattern, context, byte_limit, st.start_line, stop)]
                st.start_line <= stop <= lines.len() && n.items == st.items + rows_between(
                    lines,
                    path,
                    pattern,
                    context,
                    byte_limit,
                    st.start_line,
                    stop,
                ) && ((n.index == st.index + 1 && n.start_line == 0 && stop == lines.len()) || (
                n.index == st.index && n.start_line == stop && n.done));
            let head = rows_between(lines, path, pattern, context, byte_limit, st.start_line, stop);
            let tail = rows_between(lines, path, pattern, context, byte_limit, stop, lines.len() as int);
            lemma_rows_split(lines, path, pattern, context, byte_limit, st.start_line, stop, lines.len() as int);
            if n.index == st.index + 1 {
                assert(tail =~= seq![]);
                assert(st.items + ((head + tail) + rest) =~= (st.items + head) + rest);
            } else {
                assert(rows_from(paths, pattern, context, byte_limit, load, n.index, n.start_line) == tail
                    + rest);
                assert(st.items + ((head + tail) + rest) =~= (st.items + head) + (tail + rest));
            }
        },
        Err(Some(reason)) => {
            if n.index == st.index + 1 {
                let row = not_searched_row(path, reason);
                assert(st.items + (seq![row] + rest) =~= st.items.push(row) + rest);
            }
        },
        Err(None) => {},
    }
}

/// A page keeps, in what it takes followed by what is still due after it,
/// exactly what was due when it started, unless it fails.
proof fn lemma_page_covers(
    paths: Seq<Seq<u8>>,
    pattern: Seq<char>,
    context: int,
    line_limit: int,
    byte_limit: int,
    load: spec_fn(Seq<u8>) -> Result<Seq<u8>, Option<Seq<u8>>>,
    st: SearchV,
)
    requires
        0 <= st.index <= paths.len(),
        0 <= st.start_line,
        st.failed is None,
        page_state(paths, pattern, context, line_limit, byte_limit, load, st).failed is None,
    ensures
        ({
            let p = page_state(paths, pattern, context, line_limit, byte_limit, load, st);
            &&& 0 <= p.start_line
            &&& st.index <= p.index <= paths.len()
            &&& st.items + rows_from(paths, pattern, context, byte_limit, load, st.index, st.start_line)
                == p.items + rows_from(paths, pattern, context, byte_limit, load, p.index, p.start_line)
        }),
    decreases paths.len() - st.index, if st.done {
        0int
    } else {
        1int
    },
{
    if wanted(st, paths.len() as int, line_limit) {
        let n = search_feed(
            paths,
            pattern,
            context,
            line_limit,
            byte_limit,
            st,
            load(paths[st.index]),
        );
        if n.failed is Some {
            assert(n.done);
            assert(page_state(paths, pattern, context, line_limit, byte_limit, load, n) == n);
        }
        lemma_feed_covers(paths, pattern, context, line_limit, byte_limit, load, st);
        lemma_page_covers(paths, pattern, context, line_limit, byte_limit, load, n);
    }
}

/// A search run page after page covers every source exactly once: each
/// page starts where the one before stopped, the first at the first line
/// of the first source, and the last with no source left; then the items
/// of all pages, in order, are one row for each line of each source that
/// the pattern matches and one row for each source that could not be
/// searched, in source order and then line order, and nothing else.
pub proof fn lemma_search_run_covers(
    paths: Seq<Seq<u8>>,
    pattern: Seq<char>,
    context: int,
    line_limit: int,
    byte_limit: int,
    load: spec_fn(Seq<u8>) -> Result<Seq<u8>, Option<Seq<u8>>>,
    starts: Seq<(int, int)>,
)
    requires
        starts.len() > 0,
        starts[0] == (0int, 0int),
        forall|k: int|
            0 <= k < starts.len() ==> 0 <= (#[trigger] starts[k]).0 <= paths.len() && 0 <= starts[k].1,
        forall|k: int|
            0 <= k < starts.len() ==> (#[trigger] page_state(
                paths,
                pattern,
                context,
                line_limit,
                byte_limit,
                load,
                fresh_page(starts[k].0, starts[k].1),
            )).failed is None,
        forall|k: int|
            0 <= k < starts.len() - 1 ==> {
                let p = page_state(
                    paths,
                    pattern,
                    context,
                    line_limit,
                    byte_limit,
                    load,
                    fresh_page(starts[k].0, starts[k].1),
                );
                #[trigger] starts[k + 1] == (p.index, p.start_line)
            },
        page_state(
            paths,
            pattern,
            context,
            line_limit,
            byte_limit,
            load,
            fresh_page(starts.last().0, starts.last().1),
        ).index == paths.len(),
    ensures
        Seq::new(
            starts.len(),
            |k: int|
                page_state(
                    paths,
                    pattern,
                    context,
                    line_limit,
                    byte_limit,
                    load,
                    fresh_page(starts[k].0, starts[k].1),
                ).items,
        ).flatten() == rows_from(paths, pattern, context, byte_limit, load, 0, 0),
{
    let pages = Seq::new(
        starts.len(),
        |k: int|
            page_state(
                paths,
                pattern,
                context,
                line_limit,
                byte_limit,
                load,
                fresh_page(starts[k].0, starts[k].1),
            ).items,
    );
    lemma_run_suffix(paths, pattern, context, line_limit, byte_limit, load, starts, pages, 0);
    assert(pages.subrange(0, pages.len() as int) =~= pages);
}

/// The pages from the `k`-th on take what was due when the `k`-th started.
proof fn lemma_run_suffix(
    paths: Seq<Seq<u8>>,
    pattern: Seq<char>,
    context: int,
    line_limit: int,
    byte_limit: int,
    load: spec_fn(Seq<u8>) -> Result<Seq<u8>, Option<Seq<u8>>>,
    starts: Seq<(int, int)>,
    pages: Seq<Seq<JsonV>>,
    k: int,
)
    requires
        0 <= k < starts.len(),
        forall|j: int|
            0 <= j < starts.len() ==> 0 <= (#[trigger] starts[j]).0 <= paths.len() && 0 <= starts[j].1,
        forall|j: int|
            0 <= j < starts.len() ==> (#[trigger] page_state(
                paths,
                pattern,
                context,
                line_limit,
                byte_limit,
                load,
                fresh_page(starts[j].0, starts[j].1),
            )).failed is None,
        forall|j: int|
            0 <= j < starts.len() - 1 ==> {
                let p = page_state(
                    paths,
                    pattern,
                    context,
                    line_limit,
                    byte_limit,
                    load,
                    fresh_page(starts[j].0, starts[j].1),
                );
                #[trigger] starts[j + 1] == (p.index, p.start_line)
            },
        page_state(
            paths,
            pattern,
            context,
            line_limit,
            byte_limit,
            load,
            fresh_page(starts.last().0, starts.last().1),
        ).index == paths.len(),
        pages.len() == starts.len(),
        forall|j: int|
            0 <= j < starts.len() ==> #[trigger] pages[j] == page_state(
                paths,
                pattern,
                context,
                line_limit,
                byte_limit,
                load,
                fresh_page(starts[j].0, starts[j].1),
            ).items,
    ensures
        pages.subrange(k, pages.len() as int).flatten() == rows_from(
            paths,
            pattern,
            context,
            byte_limit,
            load,
            starts[k].0,
            starts[k].1,
        ),
    decreases starts.len() - k,
{
    let st = fresh_page(starts[k].0, starts[k].1);
    let p = page_state(paths, pattern, context, line_limit, byte_limit, load, st);
    assert(p.failed is None);
    lemma_page_covers(paths, pattern, context, line_limit, byte_limit, load, st);
    assert(st.items + rows_from(paths, pattern, context, byte_limit, load, starts[k].0, starts[k].1)
        =~= rows_from(paths, pattern, context, byte_limit, load, starts[k].0, starts[k].1));
    let s = pages.subrange(k, pages.len() as int);
    assert(s.first() == pages[k]);
    if k + 1 < starts.len() {
        lemma_run_suffix(paths, pattern, context, line_limit, byte_limit, load, starts, pages, k + 1);
        assert(s.drop_first() =~= pages.subrange(k + 1, pages.len() as int));
        assert(starts[k + 1] == (p.index, p.start_line));
    } else {
        assert(s.drop_first() =~= Seq::<Seq<JsonV>>::empty());
        assert(starts[k] == starts.last());
        assert(rows_from(paths, pattern, context, byte_limit, load, p.index, p.start_line) =~= seq![]);
        assert(Seq::<Seq<JsonV>>::empty().flatten() =~= Seq::<JsonV>::empty());
        assert(p.items + Seq::<JsonV>::empty() =~= p.items);
    }
}

} // verus!
