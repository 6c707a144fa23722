//! Text decoding of file and blob contents, and line-numbered reading.
use crate::bytes::{at_boundary, find_byte, has_prefix, lemma_after_ascii, lemma_find_byte, position_of};
use crate::git::objects::ascii_lower;
use crate::matching::{regex_accepts, regex_valid, Matcher};
use crate::error::Error;
use crate::git::store::decimal;
use crate::json::{ascii_string, json_bytes, json_string, member, to_bytes, Json, JsonV};
use crate::output::{check_cursor, continuation, cursor_text, fingerprint_of, Cursor, Limits};
use vstd::prelude::*;
use vstd::string::StringSliceAdditionalSpecFns;
use vstd::utf8::{decode_utf8, encode_utf8, is_continuation_byte, valid_utf8};

verus! {

broadcast use vstd::slice::group_slice_axioms;

/// The lines of `b` from `pos` on, each with its line feed; the last one
/// may lack it. Text that is empty from `pos` on has no lines.
pub open spec fn lines_from(b: Seq<u8>, pos: int) -> Seq<Seq<u8>>
    decreases b.len() - pos,
{
    if pos < 0 || pos >= b.len() {
        seq![]
    } else {
        proof {
            lemma_find_byte(b, 10, pos);
        }
        match find_byte(b, 10, pos) {
            None => seq![b.subrange(pos, b.len() as int)],
            Some(i) => seq![b.subrange(pos, i + 1)] + lines_from(b, i + 1),
        }
    }
}

/// The lines of a text.
pub open spec fn text_lines(b: Seq<u8>) -> Seq<Seq<u8>> {
    lines_from(b, 0)
}

/// The lines joined back together.
pub open spec fn joined(s: Seq<Seq<u8>>) -> Seq<u8>
    decreases s.len(),
{
    if s.len() == 0 {
        seq![]
    } else {
        joined(s.drop_last()) + s.last()
    }
}

proof fn lemma_joined_prepend(a: Seq<u8>, s: Seq<Seq<u8>>)
    ensures
        joined(seq![a] + s) == a + joined(s),
    decreases s.len(),
{
    assert(joined(Seq::<Seq<u8>>::empty()) =~= Seq::<u8>::empty());
    if s.len() == 0 {
        assert(seq![a] + s =~= seq![a]);
        assert(seq![a].drop_last() =~= Seq::<Seq<u8>>::empty());
        assert(joined(seq![a]) =~= a);
        assert(a + joined(s) =~= a);
    } else {
        lemma_joined_prepend(a, s.drop_last());
        assert((seq![a] + s).drop_last() =~= seq![a] + s.drop_last());
        assert((seq![a] + s).last() == s.last());
        assert(a + joined(s.drop_last()) + s.last() =~= a + (joined(s.drop_last()) + s.last()));
    }
}

/// Law: a text's lines, joined back together, are the text itself.
pub proof fn lemma_lines_rejoin(b: Seq<u8>, pos: int)
    requires
        0 <= pos <= b.len(),
    ensures
        joined(lines_from(b, pos)) == b.subrange(pos, b.len() as int),
    decreases b.len() - pos,
{
    assert(joined(Seq::<Seq<u8>>::empty()) =~= Seq::<u8>::empty());
    if pos == b.len() {
        assert(b.subrange(pos, b.len() as int) =~= Seq::<u8>::empty());
    } else {
        lemma_find_byte(b, 10, pos);
        match find_byte(b, 10, pos) {
            None => {
                let l = b.subrange(pos, b.len() as int);
                assert(lines_from(b, pos) == seq![l]);
                assert(seq![l].drop_last() =~= Seq::<Seq<u8>>::empty());
                assert(Seq::<u8>::empty() + l =~= l);
                assert(joined(seq![l]) == l);
            },
            Some(i) => {
                assert(lines_from(b, pos) == seq![b.subrange(pos, i + 1)] + lines_from(b, i + 1));
                lemma_lines_rejoin(b, i + 1);
                lemma_joined_prepend(b.subrange(pos, i + 1), lines_from(b, i + 1));
                assert(b.subrange(pos, i + 1) + b.subrange(i + 1, b.len() as int) =~= b.subrange(
                    pos,
                    b.len() as int,
                ));
            },
        }
    }
}

/// Law: every line but the last ends with its only line feed; the last
/// has no line feed but perhaps at its end; no line is empty.
pub proof fn lemma_line_shape(b: Seq<u8>, pos: int, k: int)
    requires
        0 <= pos <= b.len(),
        0 <= k < lines_from(b, pos).len(),
    ensures
        lines_from(b, pos)[k].len() > 0,
        forall|j: int|
            0 <= j < lines_from(b, pos)[k].len() - 1 ==> lines_from(b, pos)[k][j] != 10,
        k < lines_from(b, pos).len() - 1 ==> lines_from(b, pos)[k].last() == 10,
    decreases b.len() - pos,
{
    lemma_find_byte(b, 10, pos);
    match find_byte(b, 10, pos) {
        None => {},
        Some(i) => {
            if k > 0 {
                lemma_line_shape(b, i + 1, k - 1);
                assert(lines_from(b, pos)[k] == lines_from(b, i + 1)[k - 1]);
            } else {
                assert(lines_from(b, pos)[0] == b.subrange(pos, i + 1));
            }
        },
    }
}

/// Splits a text into lines, each with its line feed; the last one may
/// lack it.
pub fn lines(text: &str) -> (res: Vec<&str>)
    ensures
        res@.len() == text_lines(text.spec_bytes()).len(),
        forall|k: int|
            0 <= k < res@.len() ==> #[trigger] res@[k].spec_bytes() == text_lines(
                text.spec_bytes(),
            )[k],
{
    let b = text.as_bytes();
    proof {
        vstd::utf8::encode_utf8_valid_utf8(text@);
    }
    let mut out: Vec<&str> = Vec::new();
    let ghost mut done: Seq<Seq<u8>> = seq![];
    let mut pos: usize = 0;
    while pos < b.len()
        invariant
            b@ == text.spec_bytes(),
            valid_utf8(b@),
            pos <= b@.len(),
            pos < b@.len() ==> (pos == 0 || b@[pos - 1] == 10),
            text_lines(b@) == done + lines_from(b@, pos as int),
            out@.len() == done.len(),
            forall|k: int| 0 <= k < done.len() ==> #[trigger] out@[k].spec_bytes() == done[k],
        decreases b@.len() - pos,
    {
        proof {
            broadcast use vstd::utf8::group_utf8_lib;

            lemma_find_byte(b@, 10, pos as int);
            if pos > 0 {
                lemma_after_ascii(b@, pos - 1);
            }
        }
        let end = match position_of(b, 10, pos) {
            None => b.len(),
            Some(i) => i + 1,
        };
        proof {
            broadcast use vstd::utf8::group_utf8_lib;

            if end < b@.len() {
                lemma_after_ascii(b@, end - 1);
                assert(!is_continuation_byte(b@[end as int]));
            }
            assert(vstd::utf8::is_char_boundary(b@, end as int));
        }
        let (head, _) = text.split_at(end);
        proof {
            broadcast use vstd::utf8::group_utf8_lib;

            assert(head.spec_bytes() =~= b@.subrange(0, end as int));
            assert(valid_utf8(head.spec_bytes()));
            if pos < end {
                assert(head.spec_bytes()[pos as int] == b@[pos as int]);
                if pos > 0 {
                    assert(!is_continuation_byte(b@[pos as int]));
                }
                assert(!is_continuation_byte(head.spec_bytes()[pos as int]) || pos == 0);
            }
            assert(vstd::utf8::is_char_boundary(head.spec_bytes(), pos as int));
        }
        let (_, piece) = head.split_at(pos);
        proof {
            let l = b@.subrange(pos as int, end as int);
            assert(piece.spec_bytes() =~= l);
            assert(lines_from(b@, pos as int) == seq![l] + lines_from(b@, end as int));
            assert(done.push(l) + lines_from(b@, end as int) =~= done + (seq![l] + lines_from(
                b@,
                end as int,
            )));
            done = done.push(l);
        }
        out.push(piece);
        pos = end;
    }
    assert(done + lines_from(b@, pos as int) =~= done);
    out
}

/// `line`
pub open spec fn k_line() -> Seq<u8> {
    seq![108u8, 105u8, 110u8, 101u8]
}

/// `text`
pub open spec fn k_text() -> Seq<u8> {
    seq![116u8, 101u8, 120u8, 116u8]
}

/// `byte_offset`
pub open spec fn k_byte_offset() -> Seq<u8> {
    seq![98u8, 121u8, 116u8, 101u8, 95u8, 111u8, 102u8, 102u8, 115u8, 101u8, 116u8]
}

/// `complete`
pub open spec fn k_complete() -> Seq<u8> {
    seq![99u8, 111u8, 109u8, 112u8, 108u8, 101u8, 116u8, 101u8]
}

/// `path`
pub open spec fn k_path() -> Seq<u8> {
    seq![112u8, 97u8, 116u8, 104u8]
}

/// `encoding`
pub open spec fn k_encoding() -> Seq<u8> {
    seq![101u8, 110u8, 99u8, 111u8, 100u8, 105u8, 110u8, 103u8]
}

/// `bom`
pub open spec fn k_bom() -> Seq<u8> {
    seq![98u8, 111u8, 109u8]
}

/// `lines`
pub open spec fn k_lines() -> Seq<u8> {
    seq![108u8, 105u8, 110u8, 101u8, 115u8]
}

/// `total_lines`
pub open spec fn k_total_lines() -> Seq<u8> {
    seq![116u8, 111u8, 116u8, 97u8, 108u8, 95u8, 108u8, 105u8, 110u8, 101u8, 115u8]
}

/// `truncated`
pub open spec fn k_truncated() -> Seq<u8> {
    seq![116u8, 114u8, 117u8, 110u8, 99u8, 97u8, 116u8, 101u8, 100u8]
}

/// `reason`
pub open spec fn k_reason() -> Seq<u8> {
    seq![114u8, 101u8, 97u8, 115u8, 111u8, 110u8]
}

/// `next_cursor`
pub open spec fn k_next_cursor() -> Seq<u8> {
    seq![110u8, 101u8, 120u8, 116u8, 95u8, 99u8, 117u8, 114u8, 115u8, 111u8, 114u8]
}

/// `next_line`
pub open spec fn k_next_line() -> Seq<u8> {
    seq![110u8, 101u8, 120u8, 116u8, 95u8, 108u8, 105u8, 110u8, 101u8]
}

/// `next_byte_offset`
pub open spec fn k_next_byte_offset() -> Seq<u8> {
    seq![110u8, 101u8, 120u8, 116u8, 95u8, 98u8, 121u8, 116u8, 101u8, 95u8, 111u8, 102u8, 102u8, 115u8, 101u8, 116u8]
}

/// `line_or_byte_limit`
pub open spec fn k_line_or_byte_limit() -> Seq<u8> {
    seq![108u8, 105u8, 110u8, 101u8, 95u8, 111u8, 114u8, 95u8, 98u8, 121u8, 116u8, 101u8, 95u8, 108u8, 105u8, 109u8, 105u8, 116u8]
}

/// A decoded text: its characters, the encoding they were read in, and
/// whether a byte order mark preceded them.
#[derive(Debug)]
pub struct Text {
    pub content: String,
    pub encoding: &'static str,
    pub bom: bool,
}

/// What to read of a text: a line range or the last lines, the response
/// budget, and where an earlier page stopped.
pub struct ReadOptions<'a> {
    pub start: Option<usize>,
    pub end: Option<usize>,
    pub tail: Option<usize>,
    pub limits: &'a Limits,
    pub cursor: Option<Cursor>,
}

/// `a - b`, or zero when `b` is larger.
pub open spec fn sat_sub(a: int, b: int) -> int {
    if a > b {
        a - b
    } else {
        0
    }
}

/// The last place at or before `k` where a character of `s` starts.
pub open spec fn boundary_floor(s: Seq<u8>, k: int) -> int
    decreases k,
{
    if k <= 0 || at_boundary(s, k) {
        k
    } else {
        boundary_floor(s, k - 1)
    }
}

/// A JSON number, or null.
pub open spec fn opt_num(v: Option<usize>) -> JsonV {
    match v {
        Some(n) => JsonV::Num(n as nat),
        None => JsonV::Null,
    }
}

/// The row for the piece of line `line` (counted from one) that starts at
/// byte `offset` of it.
pub open spec fn read_row(line: nat, text: Seq<u8>, offset: nat, complete: bool) -> JsonV {
    JsonV::Obj(
        seq![
            (k_line(), JsonV::Num(line)),
            (k_text(), JsonV::Str(text)),
            (k_byte_offset(), JsonV::Num(offset)),
            (k_complete(), JsonV::Bool(complete)),
        ],
    )
}

/// Reading on from line `line` (counted from zero) at byte `offset`, with
/// `used` bytes of the budget spent and `rows` already taken: each step
/// takes as much of the line as one sixth of the room left allows, cut
/// where a character starts, and stops at a line it cannot finish. Gives
/// the rows and where reading stopped.
pub open spec fn read_rows(
    all: Seq<Seq<u8>>,
    line: int,
    offset: int,
    used: int,
    last: int,
    max_lines: int,
    max_bytes: int,
    rows: Seq<JsonV>,
) -> Result<(Seq<JsonV>, int, int), Error>
    decreases last - line,
{
    if !(0 <= line < last && last <= all.len() && rows.len() < max_lines) {
        Ok((rows, line, offset))
    } else {
        let s = all[line];
        if !(0 <= offset <= s.len() && at_boundary(s, offset)) {
            Err(Error::InvalidCursor)
        } else {
            let available = sat_sub(max_bytes, used + 160);
            if available < 16 {
                Ok((rows, line, offset))
            } else {
                let finish = boundary_floor(
                    s,
                    if offset + available / 6 < s.len() {
                        offset + available / 6
                    } else {
                        s.len() as int
                    },
                );
                if finish == offset && finish < s.len() {
                    Ok((rows, line, offset))
                } else {
                    let row = read_row(
                        (line + 1) as nat,
                        s.subrange(offset, finish),
                        offset as nat,
                        finish == s.len(),
                    );
                    let used2 = used + json_bytes(row).len() + 1;
                    if finish == s.len() {
                        read_rows(all, line + 1, 0, used2, last, max_lines, max_bytes, rows.push(row))
                    } else {
                        Ok((rows.push(row), line, finish))
                    }
                }
            }
        }
    }
}

/// Where reading starts and ends, from the requested range or tail, for a
/// text of `n` lines.
pub open spec fn read_bounds(start: Option<usize>, end: Option<usize>, tail: Option<usize>, n: int) -> Result<
    (int, int),
    Error,
> {
    if tail is Some && (start is Some || end is Some) {
        Err(Error::TailRangeConflict)
    } else if tail == Some(0usize) {
        Err(Error::InvalidTail)
    } else if tail is None && start == Some(0usize) {
        Err(Error::InvalidStartLine)
    } else {
        let first = match tail {
            Some(t) => sat_sub(n, t as int),
            None => match start {
                Some(s) => s - 1,
                None => 0,
            },
        };
        let last = match end {
            Some(e) => if e < n {
                e as int
            } else {
                n
            },
            None => n,
        };
        let s1 = match start {
            Some(s) => s as int,
            None => 1,
        };
        if end matches Some(e) && e < s1 {
            Err(Error::InvalidLineRange)
        } else if first > n {
            Err(Error::StartLineOutOfRange)
        } else {
            Ok((first, last))
        }
    }
}

/// What identifies a read: path, content and the requested range.
pub open spec fn read_key(
    path: Seq<u8>,
    content: Seq<u8>,
    start: Option<usize>,
    end: Option<usize>,
    tail: Option<usize>,
) -> Seq<u8> {
    json_bytes(
        JsonV::Arr(
            seq![JsonV::Str(path), JsonV::Str(content), opt_num(start), opt_num(end), opt_num(tail)],
        ),
    )
}

/// The result of a read, given the rows and where reading stopped.
pub open spec fn read_value(
    path: Seq<u8>,
    encoding: Seq<u8>,
    bom: bool,
    rows: Seq<JsonV>,
    total: nat,
    fp: Seq<u8>,
    line: int,
    offset: int,
    last: int,
) -> JsonV {
    let truncated = line < last;
    JsonV::Obj(
        seq![
            (k_path(), JsonV::Str(path)),
            (k_encoding(), JsonV::Str(encoding)),
            (k_bom(), JsonV::Bool(bom)),
            (k_lines(), JsonV::Arr(rows)),
            (k_total_lines(), JsonV::Num(total)),
            (k_truncated(), JsonV::Bool(truncated)),
            (k_reason(), if truncated {
                JsonV::Str(k_line_or_byte_limit())
            } else {
                JsonV::Null
            }),
            (k_next_cursor(), if truncated {
                JsonV::Str(cursor_text(fp, line as nat, offset as nat))
            } else {
                JsonV::Null
            }),
            (k_next_line(), if truncated {
                JsonV::Num((line + 1) as nat)
            } else {
                JsonV::Null
            }),
            (k_next_byte_offset(), if truncated {
                JsonV::Num(offset as nat)
            } else {
                JsonV::Null
            }),
        ],
    )
}

/// What reading a text gives: the rows from the requested start, or from
/// where the cursor stopped, within the line and byte budget.
pub open spec fn read_result(
    path: Seq<u8>,
    content: Seq<u8>,
    encoding: Seq<u8>,
    bom: bool,
    start: Option<usize>,
    end: Option<usize>,
    tail: Option<usize>,
    limits: Limits,
    cursor: Option<Cursor>,
) -> Result<JsonV, Error> {
    let all = text_lines(content);
    let n = all.len() as int;
    if !(1 <= crate::output::requested_lines(limits) <= 2000) {
        Err(Error::InvalidLineLimit)
    } else if !(2048 <= crate::output::requested_bytes(limits) <= 262144) {
        Err(Error::InvalidByteLimit)
    } else {
        let max_lines = crate::output::requested_lines(limits);
        let max_bytes = crate::output::requested_bytes(limits);
        match read_bounds(start, end, tail, n) {
            Err(e) => Err(e),
            Ok((first, last)) => {
                let fp = fingerprint_of(read_key(path, content, start, end, tail));
                match cursor {
                    Some(c) if c.fingerprint@ != fp => Err(Error::StaleCursor),
                    _ => {
                        let line = match cursor {
                            Some(c) => c.index as int,
                            None => first,
                        };
                        let offset = match cursor {
                            Some(c) => c.offset as int,
                            None => 0,
                        };
                        if !(first <= line <= last) {
                            Err(Error::InvalidCursor)
                        } else {
                            match read_rows(
                                all,
                                line,
                                offset,
                                (1200 + path.len() * 6) as int,
                                last,
                                max_lines,
                                max_bytes,
                                seq![],
                            ) {
                                Err(e) => Err(e),
                                Ok((rows, l, o)) => {
                                    let v = read_value(
                                        path,
                                        encoding,
                                        bom,
                                        rows,
                                        n as nat,
                                        encode_utf8(fp),
                                        l,
                                        o,
                                        last,
                                    );
                                    if json_bytes(v).len() > max_bytes {
                                        Err(Error::ResponseBudgetExceeded)
                                    } else {
                                        Ok(v)
                                    }
                                },
                            }
                        }
                    },
                }
            },
        }
    }
}

/// A page of a text that is returned fits the byte budget it was asked for.
pub proof fn lemma_read_within_budget(
    path: Seq<u8>,
    content: Seq<u8>,
    encoding: Seq<u8>,
    bom: bool,
    start: Option<usize>,
    end: Option<usize>,
    tail: Option<usize>,
    limits: Limits,
    cursor: Option<Cursor>,
)
    ensures
        read_result(path, content, encoding, bom, start, end, tail, limits, cursor) matches Ok(v)
            ==> json_bytes(v).len() <= crate::output::requested_bytes(limits),
{
}

fn key_line() -> (res: String)
    ensures
        encode_utf8(res@) == k_line(),
{
    let b: [u8; 4] = [108u8, 105u8, 110u8, 101u8];
    assert(b@ =~= k_line());
    ascii_string(b.as_slice())
}

fn key_text() -> (res: String)
    ensures
        encode_utf8(res@) == k_text(),
{
    let b: [u8; 4] = [116u8, 101u8, 120u8, 116u8];
    assert(b@ =~= k_text());
    ascii_string(b.as_slice())
}

fn key_byte_offset() -> (res: String)
    ensures
        encode_utf8(res@) == k_byte_offset(),
{
    let b: [u8; 11] = [98u8, 121u8, 116u8, 101u8, 95u8, 111u8, 102u8, 102u8, 115u8, 101u8, 116u8];
    assert(b@ =~= k_byte_offset());
    ascii_string(b.as_slice())
}

fn key_complete() -> (res: String)
    ensures
        encode_utf8(res@) == k_complete(),
{
    let b: [u8; 8] = [99u8, 111u8, 109u8, 112u8, 108u8, 101u8, 116u8, 101u8];
    assert(b@ =~= k_complete());
    ascii_string(b.as_slice())
}

fn key_path() -> (res: String)
    ensures
        encode_utf8(res@) == k_path(),
{
    let b: [u8; 4] = [112u8, 97u8, 116u8, 104u8];
    assert(b@ =~= k_path());
    ascii_string(b.as_slice())
}

fn key_encoding() -> (res: String)
    ensures
        encode_utf8(res@) == k_encoding(),
{
    let b: [u8; 8] = [101u8, 110u8, 99u8, 111u8, 100u8, 105u8, 110u8, 103u8];
    assert(b@ =~= k_encoding());
    ascii_string(b.as_slice())
}

fn key_bom() -> (res: String)
    ensures
        encode_utf8(res@) == k_bom(),
{
    let b: [u8; 3] = [98u8, 111u8, 109u8];
    assert(b@ =~= k_bom());
    ascii_string(b.as_slice())
}

fn key_lines() -> (res: String)
    ensures
        encode_utf8(res@) == k_lines(),
{
    let b: [u8; 5] = [108u8, 105u8, 110u8, 101u8, 115u8];
    assert(b@ =~= k_lines());
    ascii_string(b.as_slice())
}

fn key_total_lines() -> (res: String)
    ensures
        encode_utf8(res@) == k_total_lines(),
{
    let b: [u8; 11] = [116u8, 111u8, 116u8, 97u8, 108u8, 95u8, 108u8, 105u8, 110u8, 101u8, 115u8];
    assert(b@ =~= k_total_lines());
    ascii_string(b.as_slice())
}

fn key_truncated() -> (res: String)
    ensures
        encode_utf8(res@) == k_truncated(),
{
    let b: [u8; 9] = [116u8, 114u8, 117u8, 110u8, 99u8, 97u8, 116u8, 101u8, 100u8];
    assert(b@ =~= k_truncated());
    ascii_string(b.as_slice())
}

fn key_reason() -> (res: String)
    ensures
        encode_utf8(res@) == k_reason(),
{
    let b: [u8; 6] = [114u8, 101u8, 97u8, 115u8, 111u8, 110u8];
    assert(b@ =~= k_reason());
    ascii_string(b.as_slice())
}

fn key_next_cursor() -> (res: String)
    ensures
        encode_utf8(res@) == k_next_cursor(),
{
    let b: [u8; 11] = [110u8, 101u8, 120u8, 116u8, 95u8, 99u8, 117u8, 114u8, 115u8, 111u8, 114u8];
    assert(b@ =~= k_next_cursor());
    ascii_string(b.as_slice())
}

fn key_next_line() -> (res: String)
    ensures
        encode_utf8(res@) == k_next_line(),
{
    let b: [u8; 9] = [110u8, 101u8, 120u8, 116u8, 95u8, 108u8, 105u8, 110u8, 101u8];
    assert(b@ =~= k_next_line());
    ascii_string(b.as_slice())
}

fn key_next_byte_offset() -> (res: String)
    ensures
        encode_utf8(res@) == k_next_byte_offset(),
{
    let b: [u8; 16] = [110u8, 101u8, 120u8, 116u8, 95u8, 98u8, 121u8, 116u8, 101u8, 95u8, 111u8, 102u8, 102u8, 115u8, 101u8, 116u8];
    assert(b@ =~= k_next_byte_offset());
    ascii_string(b.as_slice())
}

fn num(n: usize) -> (res: Json)
    ensures
        res.jv() == JsonV::Num(n as nat),
{
    Json::Num(n as u128)
}

fn opt_json(v: Option<usize>) -> (res: Json)
    ensures
        res.jv() == opt_num(v),
{
    match v {
        Some(n) => Json::Num(n as u128),
        None => Json::Null,
    }
}

fn row_json(line: usize, text: &[u8], offset: usize, complete: bool) -> (res: Json)
    requires
        valid_utf8(text@),
    ensures
        res.jv() == read_row(line as nat, text@, offset as nat, complete),
{
    let t = crate::bytes::string_of(text);
    proof {
        vstd::utf8::decode_utf8_encode_utf8(text@);
    }
    let fields = vec![
        (key_line(), num(line)),
        (key_text(), Json::Str(t)),
        (key_byte_offset(), num(offset)),
        (key_complete(), Json::Bool(complete)),
    ];
    let r = Json::Obj(fields);
    assert(r.jv() == read_row(line as nat, text@, offset as nat, complete)) by {
        reveal_with_fuel(crate::json::fields_view, 5);
        assert(crate::json::fields_view(fields@) =~= seq![
            (k_line(), JsonV::Num(line as nat)),
            (k_text(), JsonV::Str(text@)),
            (k_byte_offset(), JsonV::Num(offset as nat)),
            (k_complete(), JsonV::Bool(complete)),
        ]);
    }
    r
}

fn is_boundary(s: &[u8], k: usize) -> (res: bool)
    requires
        k <= s@.len(),
    ensures
        res == at_boundary(s@, k as int),
{
    k == s.len() || !(128 <= s[k] && s[k] <= 191)
}

fn read_key_json(
    path: &str,
    content: &String,
    start: Option<usize>,
    end: Option<usize>,
    tail: Option<usize>,
) -> (res: Json)
    ensures
        res.jv() == JsonV::Arr(
            seq![
                JsonV::Str(path.spec_bytes()),
                JsonV::Str(encode_utf8(content@)),
                opt_num(start),
                opt_num(end),
                opt_num(tail),
            ],
        ),
{
    let items = vec![
        Json::Str(path.to_owned()),
        Json::Str(content.clone()),
        opt_json(start),
        opt_json(end),
        opt_json(tail),
    ];
    proof {
        reveal_with_fuel(crate::json::items_view, 6);
        assert(crate::json::items_view(items@) =~= seq![
            JsonV::Str(path.spec_bytes()),
            JsonV::Str(encode_utf8(content@)),
            opt_num(start),
            opt_num(end),
            opt_num(tail),
        ]);
    }
    Json::Arr(items)
}

fn bounds(start: Option<usize>, end: Option<usize>, tail: Option<usize>, n: usize) -> (res: Result<
    (usize, usize),
    Error,
>)
    ensures
        match read_bounds(start, end, tail, n as int) {
            Ok((f, l)) => res matches Ok((rf, rl)) && rf == f && rl == l && rl <= n,
            Err(e) => res matches Err(x) && x == e,
        },
{
    if tail.is_some() && (start.is_some() || end.is_some()) {
        return Err(Error::TailRangeConflict);
    }
    let start_is_zero = match start {
        Some(s) => s == 0,
        None => false,
    };
    match tail {
        Some(t) => {
            if t == 0 {
                return Err(Error::InvalidTail);
            }
        },
        None => {
            if start_is_zero {
                return Err(Error::InvalidStartLine);
            }
        },
    }
    let first: usize = match tail {
        Some(t) => if n > t {
            n - t
        } else {
            0
        },
        None => match start {
            Some(s) => s - 1,
            None => 0,
        },
    };
    let last: usize = match end {
        Some(e) => if e < n {
            e
        } else {
            n
        },
        None => n,
    };
    let s1: usize = match start {
        Some(s) => s,
        None => 1,
    };
    match end {
        Some(e) => {
            if e < s1 {
                return Err(Error::InvalidLineRange);
            }
        },
        None => {},
    }
    if first > n {
        return Err(Error::StartLineOutOfRange);
    }
    Ok((first, last))
}

fn read_loop(
    all: &Vec<&str>,
    line0: usize,
    offset0: usize,
    used0: usize,
    last: usize,
    max_lines: usize,
    max_bytes: usize,
) -> (res: Result<(Vec<Json>, usize, usize), Error>)
    requires
        last <= all@.len(),
        2048 <= max_bytes <= 262144,
        1 <= max_lines <= 2000,
    ensures
        match read_rows(
            Seq::new(all@.len(), |k: int| all@[k].spec_bytes()),
            line0 as int,
            offset0 as int,
            used0 as int,
            last as int,
            max_lines as int,
            max_bytes as int,
            seq![],
        ) {
            Ok((rows, l, o)) => res matches Ok((v, rl, ro)) && rl == l && ro == o
                && crate::json::items_view(v@) == rows,
            Err(e) => res matches Err(x) && x == e,
        },
{
    let ghost tl = Seq::new(all@.len(), |k: int| all@[k].spec_bytes());
    let ghost target = read_rows(
        tl,
        line0 as int,
        offset0 as int,
        used0 as int,
        last as int,
        max_lines as int,
        max_bytes as int,
        seq![],
    );
    let mut line = line0;
    let mut offset = offset0;
    let mut rows: Vec<Json> = Vec::new();
    let ghost mut rows_v: Seq<JsonV> = seq![];
    let mut used: u128 = used0 as u128;
    let mut stop = false;
    while !stop && line < last && rows.len() < max_lines
        invariant
            tl == Seq::new(all@.len(), |k: int| all@[k].spec_bytes()),
            target == read_rows(
                tl,
                line0 as int,
                offset0 as int,
                used0 as int,
                last as int,
                max_lines as int,
                max_bytes as int,
                seq![],
            ),
            last <= all@.len(),
            2048 <= max_bytes <= 262144,
            1 <= max_lines <= 2000,
            rows@.len() == rows_v.len(),
            rows_v.len() <= max_lines,
            forall|k: int| 0 <= k < rows_v.len() ==> #[trigger] rows@[k].jv() == rows_v[k],
            used <= used0 + rows_v.len() * 18446744073709551617,
            target == if stop {
                Ok::<(Seq<JsonV>, int, int), Error>((rows_v, line as int, offset as int))
            } else {
                read_rows(
                    tl,
                    line as int,
                    offset as int,
                    used as int,
                    last as int,
                    max_lines as int,
                    max_bytes as int,
                    rows_v,
                )
            },
        decreases last - line, if stop {
            0int
        } else {
            1int
        },
    {
        let s = all[line].as_bytes();
        proof {
            vstd::utf8::encode_utf8_valid_utf8(all@[line as int]@);
        }
        assert(tl[line as int] == s@);
        if !(offset <= s.len() && is_boundary(s, offset)) {
            assert(read_rows(
                tl,
                line as int,
                offset as int,
                used as int,
                last as int,
                max_lines as int,
                max_bytes as int,
                rows_v,
            ) == Err::<(Seq<JsonV>, int, int), Error>(Error::InvalidCursor));
            return Err(Error::InvalidCursor);
        }
        let room: u128 = used + 160;
        let available: u128 = if (max_bytes as u128) > room {
            max_bytes as u128 - room
        } else {
            0
        };
        if available < 16 {
            stop = true;
        } else {
            let step: usize = (available / 6) as usize;
            let mut finish: usize = if s.len() - offset > step {
                offset + step
            } else {
                s.len()
            };
            let ghost start_finish = finish as int;
            while finish > 0 && !is_boundary(s, finish)
                invariant
                    offset <= finish <= s@.len(),
                    at_boundary(s@, offset as int),
                    boundary_floor(s@, start_finish) == boundary_floor(s@, finish as int),
                decreases finish,
            {
                finish = finish - 1;
            }
            if finish == offset && finish < s.len() {
                stop = true;
            } else {
                proof {
                    crate::bytes::lemma_utf8_piece(s@, offset as int, finish as int);
                }
                let piece = vstd::slice::slice_subrange(s, offset, finish);
                let row = row_json(line + 1, piece, offset, finish == s.len());
                let size = to_bytes(&row).len();
                used = used + size as u128 + 1;
                proof {
                    rows_v = rows_v.push(row.jv());
                }
                rows.push(row);
                if finish == s.len() {
                    line = line + 1;
                    offset = 0;
                } else {
                    offset = finish;
                    stop = true;
                }
            }
        }
    }
    proof {
        crate::json::lemma_items_view(rows@);
        assert(crate::json::items_view(rows@) =~= rows_v);
    }
    Ok((rows, line, offset))
}

#[verifier::rlimit(60)]
fn read_value_json(
    path: &str,
    text: &Text,
    rows: Vec<Json>,
    n: usize,
    fp: &str,
    line: usize,
    offset: usize,
    last: usize,
) -> (res: Json)
    ensures
        res.jv() == read_value(
            path.spec_bytes(),
            text.encoding.spec_bytes(),
            text.bom,
            crate::json::items_view(rows@),
            n as nat,
            fp.spec_bytes(),
            line as int,
            offset as int,
            last as int,
        ),
{
    let truncated = line < last;
    let next_cursor = if truncated {
        Json::Str(continuation(fp, line, offset))
    } else {
        Json::Null
    };
    let reason = if truncated {
        let b: [u8; 18] = [108u8, 105u8, 110u8, 101u8, 95u8, 111u8, 114u8, 95u8, 98u8, 121u8, 116u8, 101u8, 95u8, 108u8, 105u8, 109u8, 105u8, 116u8];
        assert(b@ =~= k_line_or_byte_limit());
        Json::Str(ascii_string(b.as_slice()))
    } else {
        Json::Null
    };
    let next_line = if truncated && line < usize::MAX {
        num(line + 1)
    } else {
        Json::Null
    };
    let next_offset = if truncated {
        num(offset)
    } else {
        Json::Null
    };
    let ghost rows_v = crate::json::items_view(rows@);
    let fields = vec![
        (key_path(), Json::Str(path.to_owned())),
        (key_encoding(), Json::Str(text.encoding.to_owned())),
        (key_bom(), Json::Bool(text.bom)),
        (key_lines(), Json::Arr(rows)),
        (key_total_lines(), num(n)),
        (key_truncated(), Json::Bool(truncated)),
        (key_reason(), reason),
        (key_next_cursor(), next_cursor),
        (key_next_line(), next_line),
        (key_next_byte_offset(), next_offset),
    ];
    proof {
        reveal_with_fuel(crate::json::fields_view, 11);
        assert(crate::json::fields_view(fields@) =~= read_value(
            path.spec_bytes(),
            text.encoding.spec_bytes(),
            text.bom,
            rows_v,
            n as nat,
            fp.spec_bytes(),
            line as int,
            offset as int,
            last as int,
        )->Obj_0);
    }
    Json::Obj(fields)
}

/// Reads a text page by page: numbered lines from the requested start, or
/// from where the cursor stopped, as many as the line and byte budget allow.
/// A line that does not fit is cut where a character starts and continued
/// on the next page.
pub fn read(path: &str, text: &Text, opts: ReadOptions) -> (res: Result<Json, Error>)
    requires
        1200 + path.spec_bytes().len() * 6 <= usize::MAX,
    ensures
        match read_result(
            path.spec_bytes(),
            encode_utf8(text.content@),
            text.encoding.spec_bytes(),
            text.bom,
            opts.start,
            opts.end,
            opts.tail,
            *opts.limits,
            opts.cursor,
        ) {
            Ok(v) => res matches Ok(j) && j.jv() == v,
            Err(e) => res matches Err(x) && x == e,
        },
{
    let content = text.content.as_str();
    let all = lines(content);
    let ghost cb = content.spec_bytes();
    let ghost tl = text_lines(cb);
    assert(Seq::new(all@.len(), |k: int| all@[k].spec_bytes()) =~= tl);
    let (max_lines, max_bytes) = opts.limits.get()?;
    let n = all.len();
    let (first, last) = bounds(opts.start, opts.end, opts.tail, n)?;
    let key = read_key_json(path, &text.content, opts.start, opts.end, opts.tail);
    let key_bytes = to_bytes(&key);
    let fp = crate::output::fingerprint(key_bytes.as_slice());
    let had_cursor = opts.cursor.is_some();
    let cur = check_cursor(opts.cursor, fp.as_str())?;
    let line: usize = if had_cursor {
        cur.index
    } else {
        first
    };
    let offset: usize = cur.offset;
    if !(first <= line && line <= last) {
        return Err(Error::InvalidCursor);
    }
    let (rows, l, o) = read_loop(
        &all,
        line,
        offset,
        1200 + path.len() * 6,
        last,
        max_lines,
        max_bytes,
    )?;
    let value = read_value_json(path, text, rows, n, fp.as_str(), l, o, last);
    let total = to_bytes(&value).len();
    if total > max_bytes {
        return Err(Error::ResponseBudgetExceeded);
    }
    Ok(value)
}

/// The text a read row carries.
pub open spec fn row_text(v: JsonV) -> Seq<u8> {
    match v {
        JsonV::Obj(m) => if m.len() > 1 {
            match m[1].1 {
                JsonV::Str(t) => t,
                _ => seq![],
            }
        } else {
            seq![]
        },
        _ => seq![],
    }
}

/// The texts of rows, one after another.
pub open spec fn row_texts(rows: Seq<JsonV>) -> Seq<u8>
    decreases rows.len(),
{
    if rows.len() == 0 {
        seq![]
    } else {
        row_texts(rows.drop_last()) + row_text(rows.last())
    }
}

/// Where byte `o` of line `l` lies in the whole text.
pub open spec fn flat(all: Seq<Seq<u8>>, l: int, o: int) -> int {
    joined(all.subrange(0, l)).len() + o
}

/// Joining splits at any line.
pub proof fn lemma_joined_split(s: Seq<Seq<u8>>, k: int)
    requires
        0 <= k <= s.len(),
    ensures
        joined(s) == joined(s.subrange(0, k)) + joined(s.subrange(k, s.len() as int)),
    decreases s.len(),
{
    if k == s.len() {
        assert(s.subrange(0, k) =~= s);
        assert(s.subrange(k, s.len() as int) =~= Seq::<Seq<u8>>::empty());
        assert(joined(Seq::<Seq<u8>>::empty()) =~= Seq::<u8>::empty());
        assert(joined(s) + Seq::<u8>::empty() =~= joined(s));
    } else {
        lemma_joined_split(s.drop_last(), k);
        assert(s.drop_last().subrange(0, k) =~= s.subrange(0, k));
        assert(s.subrange(k, s.len() as int).drop_last() =~= s.drop_last().subrange(
            k,
            s.drop_last().len() as int,
        ));
        assert(s.subrange(k, s.len() as int).last() == s.last());
        assert(joined(s.subrange(0, k)) + joined(s.drop_last().subrange(
            k,
            s.drop_last().len() as int,
        )) + s.last() =~= joined(s.subrange(0, k)) + (joined(
            s.drop_last().subrange(k, s.drop_last().len() as int),
        ) + s.last()));
    }
}

/// Where a line and its prefixes lie in the joined text.
pub proof fn lemma_joined_line(all: Seq<Seq<u8>>, l: int, i: int)
    requires
        0 <= l < all.len(),
        0 <= i <= all[l].len(),
    ensures
        flat(all, l, i) <= joined(all).len(),
        joined(all).subrange(flat(all, l, 0), flat(all, l, i)) == all[l].subrange(0, i),
        flat(all, l + 1, 0) == flat(all, l, all[l].len() as int),
{
    lemma_joined_split(all, l);
    let rest = all.subrange(l, all.len() as int);
    assert(rest.len() > 0);
    lemma_joined_split(rest, 1);
    assert(rest.subrange(0, 1) =~= seq![all[l]]);
    assert(seq![all[l]].drop_last() =~= Seq::<Seq<u8>>::empty());
    assert(joined(Seq::<Seq<u8>>::empty()) =~= Seq::<u8>::empty());
    assert(joined(seq![all[l]]) =~= all[l]);
    assert(all.subrange(0, l + 1).drop_last() =~= all.subrange(0, l));
    assert(all.subrange(0, l + 1).last() == all[l]);
    let j = joined(all.subrange(0, l));
    assert(joined(all) =~= j + (all[l] + joined(rest.subrange(1, rest.len() as int))));
    assert(joined(all).subrange(j.len() as int, j.len() + i) =~= all[l].subrange(0, i));
}

/// Law: the rows that reading gives carry, one after another, exactly the
/// text between where reading started and where it stopped. So the pages
/// of a read, followed cursor by cursor, give the text back unchanged.
pub proof fn lemma_read_rows_reassemble(
    all: Seq<Seq<u8>>,
    line: int,
    offset: int,
    used: int,
    last: int,
    max_lines: int,
    max_bytes: int,
    rows0: Seq<JsonV>,
)
    requires
        0 <= line <= last <= all.len(),
        line < all.len() ==> 0 <= offset <= all[line].len(),
        line == all.len() ==> offset == 0,
        read_rows(all, line, offset, used, last, max_lines, max_bytes, rows0) is Ok,
    ensures
        ({
            let (rows, l, o) = read_rows(all, line, offset, used, last, max_lines, max_bytes, rows0)->Ok_0;
            &&& line <= l <= last
            &&& flat(all, line, offset) <= flat(all, l, o) <= joined(all).len()
            &&& row_texts(rows) == row_texts(rows0) + joined(all).subrange(
                flat(all, line, offset),
                flat(all, l, o),
            )
        }),
    decreases last - line,
{
    let t = joined(all);
    if line < all.len() {
        lemma_joined_line(all, line, offset);
    } else {
        lemma_joined_split(all, line);
        assert(all.subrange(line, all.len() as int) =~= Seq::<Seq<u8>>::empty());
        assert(joined(Seq::<Seq<u8>>::empty()) =~= Seq::<u8>::empty());
        assert(t =~= joined(all.subrange(0, line)) + Seq::<u8>::empty());
    }
    if !(0 <= line < last && last <= all.len() && rows0.len() < max_lines) {
        assert(t.subrange(flat(all, line, offset), flat(all, line, offset)) =~= Seq::<u8>::empty());
        assert(row_texts(rows0) + Seq::<u8>::empty() =~= row_texts(rows0));
    } else {
        let s = all[line];
        let available = sat_sub(max_bytes, used + 160);
        if available < 16 {
            assert(t.subrange(flat(all, line, offset), flat(all, line, offset)) =~= Seq::<u8>::empty());
            assert(row_texts(rows0) + Seq::<u8>::empty() =~= row_texts(rows0));
        } else {
            let want = if offset + available / 6 < s.len() {
                offset + available / 6
            } else {
                s.len() as int
            };
            lemma_boundary_floor(s, offset, want);
            let finish = boundary_floor(s, want);
            if finish == offset && finish < s.len() {
                assert(t.subrange(flat(all, line, offset), flat(all, line, offset)) =~= Seq::<u8>::empty());
                assert(row_texts(rows0) + Seq::<u8>::empty() =~= row_texts(rows0));
            } else {
                let row = read_row(
                    (line + 1) as nat,
                    s.subrange(offset, finish),
                    offset as nat,
                    finish == s.len(),
                );
                let rows1 = rows0.push(row);
                assert(rows1.drop_last() =~= rows0);
                assert(row_texts(rows1) == row_texts(rows0) + s.subrange(offset, finish));
                lemma_joined_line(all, line, finish);
                let a = flat(all, line, 0);
                assert(t.subrange(a + offset, a + finish) =~= s.subrange(offset, finish)) by {
                    assert(t.subrange(a, a + finish) == s.subrange(0, finish));
                    assert forall|k: int| 0 <= k < finish - offset implies t.subrange(
                        a + offset,
                        a + finish,
                    )[k] == s.subrange(offset, finish)[k] by {
                        assert(t.subrange(a, a + finish)[offset + k] == s.subrange(0, finish)[offset
                            + k]);
                    }
                }
                if finish == s.len() {
                    let used2 = used + json_bytes(row).len() + 1;
                    lemma_read_rows_reassemble(
                        all,
                        line + 1,
                        0,
                        used2,
                        last,
                        max_lines,
                        max_bytes,
                        rows1,
                    );
                    let (rows, l, o) = read_rows(
                        all,
                        line + 1,
                        0,
                        used2,
                        last,
                        max_lines,
                        max_bytes,
                        rows1,
                    )->Ok_0;
                    let b = flat(all, line + 1, 0);
                    assert(t.subrange(a + offset, b) + t.subrange(b, flat(all, l, o)) =~= t.subrange(
                        a + offset,
                        flat(all, l, o),
                    ));
                    assert(row_texts(rows0) + t.subrange(a + offset, b) + t.subrange(
                        b,
                        flat(all, l, o),
                    ) =~= row_texts(rows0) + (t.subrange(a + offset, b) + t.subrange(
                        b,
                        flat(all, l, o),
                    )));
                }
            }
        }
    }
}

/// `boundary_floor` goes no lower than a boundary below it.
pub proof fn lemma_boundary_floor(s: Seq<u8>, offset: int, k: int)
    requires
        0 <= offset <= k <= s.len(),
        at_boundary(s, offset),
    ensures
        offset <= boundary_floor(s, k) <= k,
    decreases k,
{
    if !(k <= 0 || at_boundary(s, k)) {
        if k - 1 >= offset {
            lemma_boundary_floor(s, offset, k - 1);
        }
    }
}

/// The file name extensions of documents, media, archives, fonts and
/// binaries, which are never read as text.
pub open spec fn excluded_extension(e: Seq<u8>) -> bool {
    ||| e == seq![115u8, 118u8, 103u8]
    ||| e == seq![115u8, 118u8, 103u8, 122u8]
    ||| e == seq![112u8, 100u8, 102u8]
    ||| e == seq![112u8, 115u8]
    ||| e == seq![101u8, 112u8, 115u8]
    ||| e == seq![97u8, 105u8]
    ||| e == seq![114u8, 116u8, 102u8]
    ||| e == seq![100u8, 111u8, 99u8]
    ||| e == seq![100u8, 111u8, 99u8, 120u8]
    ||| e == seq![120u8, 108u8, 115u8]
    ||| e == seq![120u8, 108u8, 115u8, 120u8]
    ||| e == seq![112u8, 112u8, 116u8]
    ||| e == seq![112u8, 112u8, 116u8, 120u8]
    ||| e == seq![111u8, 100u8, 116u8]
    ||| e == seq![111u8, 100u8, 115u8]
    ||| e == seq![111u8, 100u8, 112u8]
    ||| e == seq![112u8, 97u8, 103u8, 101u8, 115u8]
    ||| e == seq![110u8, 117u8, 109u8, 98u8, 101u8, 114u8, 115u8]
    ||| e == seq![107u8, 101u8, 121u8]
    ||| e == seq![112u8, 110u8, 103u8]
    ||| e == seq![106u8, 112u8, 103u8]
    ||| e == seq![106u8, 112u8, 101u8, 103u8]
    ||| e == seq![103u8, 105u8, 102u8]
    ||| e == seq![119u8, 101u8, 98u8, 112u8]
    ||| e == seq![97u8, 118u8, 105u8, 102u8]
    ||| e == seq![104u8, 101u8, 105u8, 99u8]
    ||| e == seq![98u8, 109u8, 112u8]
    ||| e == seq![105u8, 99u8, 111u8]
    ||| e == seq![116u8, 105u8, 102u8, 102u8]
    ||| e == seq![109u8, 112u8, 51u8]
    ||| e == seq![119u8, 97u8, 118u8]
    ||| e == seq![102u8, 108u8, 97u8, 99u8]
    ||| e == seq![111u8, 103u8, 103u8]
    ||| e == seq![109u8, 112u8, 52u8]
    ||| e == seq![109u8, 111u8, 118u8]
    ||| e == seq![97u8, 118u8, 105u8]
    ||| e == seq![109u8, 107u8, 118u8]
    ||| e == seq![119u8, 101u8, 98u8, 109u8]
    ||| e == seq![122u8, 105u8, 112u8]
    ||| e == seq![103u8, 122u8]
    ||| e == seq![98u8, 122u8, 50u8]
    ||| e == seq![120u8, 122u8]
    ||| e == seq![55u8, 122u8]
    ||| e == seq![114u8, 97u8, 114u8]
    ||| e == seq![116u8, 97u8, 114u8]
    ||| e == seq![119u8, 111u8, 102u8, 102u8]
    ||| e == seq![119u8, 111u8, 102u8, 102u8, 50u8]
    ||| e == seq![116u8, 116u8, 102u8]
    ||| e == seq![111u8, 116u8, 102u8]
    ||| e == seq![101u8, 120u8, 101u8]
    ||| e == seq![100u8, 108u8, 108u8]
    ||| e == seq![115u8, 111u8]
    ||| e == seq![100u8, 121u8, 108u8, 105u8, 98u8]
    ||| e == seq![119u8, 97u8, 115u8, 109u8]
}

/// The openings of documents and images written as text: PDF, PostScript,
/// RTF, GIMP palettes, Radiance images and uuencoded files.
pub open spec fn media_opening(s: Seq<u8>) -> bool {
    ||| has_prefix(s, seq![37u8, 112u8, 100u8, 102u8, 45u8])
    ||| has_prefix(s, seq![37u8, 33u8, 112u8, 115u8])
    ||| has_prefix(s, seq![123u8, 92u8, 114u8, 116u8, 102u8])
    ||| has_prefix(s, seq![103u8, 105u8, 109u8, 112u8, 32u8, 112u8, 97u8, 108u8, 101u8, 116u8, 116u8, 101u8])
    ||| has_prefix(s, seq![35u8, 63u8, 114u8, 97u8, 100u8, 105u8, 97u8, 110u8, 99u8, 101u8])
    ||| has_prefix(s, seq![35u8, 63u8, 114u8, 103u8, 98u8, 101u8])
    ||| has_prefix(s, seq![98u8, 101u8, 103u8, 105u8, 110u8, 32u8, 54u8, 52u8, 52u8, 32u8])
}

fn is_excluded_extension(e: &[u8]) -> (res: bool)
    ensures
        res == excluded_extension(e@),
{
    let x0: [u8; 3] = [115u8, 118u8, 103u8];
    assert(x0@ =~= seq![115u8, 118u8, 103u8]);
    if crate::bytes::bytes_equal(e, x0.as_slice()) {
        return true;
    }
    let x1: [u8; 4] = [115u8, 118u8, 103u8, 122u8];
    assert(x1@ =~= seq![115u8, 118u8, 103u8, 122u8]);
    if crate::bytes::bytes_equal(e, x1.as_slice()) {
        return true;
    }
    let x2: [u8; 3] = [112u8, 100u8, 102u8];
    assert(x2@ =~= seq![112u8, 100u8, 102u8]);
    if crate::bytes::bytes_equal(e, x2.as_slice()) {
        return true;
    }
    let x3: [u8; 2] = [112u8, 115u8];
    assert(x3@ =~= seq![112u8, 115u8]);
    if crate::bytes::bytes_equal(e, x3.as_slice()) {
        return true;
    }
    let x4: [u8; 3] = [101u8, 112u8, 115u8];
    assert(x4@ =~= seq![101u8, 112u8, 115u8]);
    if crate::bytes::bytes_equal(e, x4.as_slice()) {
        return true;
    }
    let x5: [u8; 2] = [97u8, 105u8];
    assert(x5@ =~= seq![97u8, 105u8]);
    if crate::bytes::bytes_equal(e, x5.as_slice()) {
        return true;
    }
    let x6: [u8; 3] = [114u8, 116u8, 102u8];
    assert(x6@ =~= seq![114u8, 116u8, 102u8]);
    if crate::bytes::bytes_equal(e, x6.as_slice()) {
        return true;
    }
    let x7: [u8; 3] = [100u8, 111u8, 99u8];
    assert(x7@ =~= seq![100u8, 111u8, 99u8]);
    if crate::bytes::bytes_equal(e, x7.as_slice()) {
        return true;
    }
    let x8: [u8; 4] = [100u8, 111u8, 99u8, 120u8];
    assert(x8@ =~= seq![100u8, 111u8, 99u8, 120u8]);
    if crate::bytes::bytes_equal(e, x8.as_slice()) {
        return true;
    }
    let x9: [u8; 3] = [120u8, 108u8, 115u8];
    assert(x9@ =~= seq![120u8, 108u8, 115u8]);
    if crate::bytes::bytes_equal(e, x9.as_slice()) {
        return true;
    }
    let x10: [u8; 4] = [120u8, 108u8, 115u8, 120u8];
    assert(x10@ =~= seq![120u8, 108u8, 115u8, 120u8]);
    if crate::bytes::bytes_equal(e, x10.as_slice()) {
        return true;
    }
    let x11: [u8; 3] = [112u8, 112u8, 116u8];
    assert(x11@ =~= seq![112u8, 112u8, 116u8]);
    if crate::bytes::bytes_equal(e, x11.as_slice()) {
        return true;
    }
    let x12: [u8; 4] = [112u8, 112u8, 116u8, 120u8];
    assert(x12@ =~= seq![112u8, 112u8, 116u8, 120u8]);
    if crate::bytes::bytes_equal(e, x12.as_slice()) {
        return true;
    }
    let x13: [u8; 3] = [111u8, 100u8, 116u8];
    assert(x13@ =~= seq![111u8, 100u8, 116u8]);
    if crate::bytes::bytes_equal(e, x13.as_slice()) {
        return true;
    }
    let x14: [u8; 3] = [111u8, 100u8, 115u8];
    assert(x14@ =~= seq![111u8, 100u8, 115u8]);
    if crate::bytes::bytes_equal(e, x14.as_slice()) {
        return true;
    }
    let x15: [u8; 3] = [111u8, 100u8, 112u8];
    assert(x15@ =~= seq![111u8, 100u8, 112u8]);
    if crate::bytes::bytes_equal(e, x15.as_slice()) {
        return true;
    }
    let x16: [u8; 5] = [112u8, 97u8, 103u8, 101u8, 115u8];
    assert(x16@ =~= seq![112u8, 97u8, 103u8, 101u8, 115u8]);
    if crate::bytes::bytes_equal(e, x16.as_slice()) {
        return true;
    }
    let x17: [u8; 7] = [110u8, 117u8, 109u8, 98u8, 101u8, 114u8, 115u8];
    assert(x17@ =~= seq![110u8, 117u8, 109u8, 98u8, 101u8, 114u8, 115u8]);
    if crate::bytes::bytes_equal(e, x17.as_slice()) {
        return true;
    }
    let x18: [u8; 3] = [107u8, 101u8, 121u8];
    assert(x18@ =~= seq![107u8, 101u8, 121u8]);
    if crate::bytes::bytes_equal(e, x18.as_slice()) {
        return true;
    }
    let x19: [u8; 3] = [112u8, 110u8, 103u8];
    assert(x19@ =~= seq![112u8, 110u8, 103u8]);
    if crate::bytes::bytes_equal(e, x19.as_slice()) {
        return true;
    }
    let x20: [u8; 3] = [106u8, 112u8, 103u8];
    assert(x20@ =~= seq![106u8, 112u8, 103u8]);
    if crate::bytes::bytes_equal(e, x20.as_slice()) {
        return true;
    }
    let x21: [u8; 4] = [106u8, 112u8, 101u8, 103u8];
    assert(x21@ =~= seq![106u8, 112u8, 101u8, 103u8]);
    if crate::bytes::bytes_equal(e, x21.as_slice()) {
        return true;
    }
    let x22: [u8; 3] = [103u8, 105u8, 102u8];
    assert(x22@ =~= seq![103u8, 105u8, 102u8]);
    if crate::bytes::bytes_equal(e, x22.as_slice()) {
        return true;
    }
    let x23: [u8; 4] = [119u8, 101u8, 98u8, 112u8];
    assert(x23@ =~= seq![119u8, 101u8, 98u8, 112u8]);
    if crate::bytes::bytes_equal(e, x23.as_slice()) {
        return true;
    }
    let x24: [u8; 4] = [97u8, 118u8, 105u8, 102u8];
    assert(x24@ =~= seq![97u8, 118u8, 105u8, 102u8]);
    if crate::bytes::bytes_equal(e, x24.as_slice()) {
        return true;
    }
    let x25: [u8; 4] = [104u8, 101u8, 105u8, 99u8];
    assert(x25@ =~= seq![104u8, 101u8, 105u8, 99u8]);
    if crate::bytes::bytes_equal(e, x25.as_slice()) {
        return true;
    }
    let x26: [u8; 3] = [98u8, 109u8, 112u8];
    assert(x26@ =~= seq![98u8, 109u8, 112u8]);
    if crate::bytes::bytes_equal(e, x26.as_slice()) {
        return true;
    }
    let x27: [u8; 3] = [105u8, 99u8, 111u8];
    assert(x27@ =~= seq![105u8, 99u8, 111u8]);
    if crate::bytes::bytes_equal(e, x27.as_slice()) {
        return true;
    }
    let x28: [u8; 4] = [116u8, 105u8, 102u8, 102u8];
    assert(x28@ =~= seq![116u8, 105u8, 102u8, 102u8]);
    if crate::bytes::bytes_equal(e, x28.as_slice()) {
        return true;
    }
    let x29: [u8; 3] = [109u8, 112u8, 51u8];
    assert(x29@ =~= seq![109u8, 112u8, 51u8]);
    if crate::bytes::bytes_equal(e, x29.as_slice()) {
        return true;
    }
    let x30: [u8; 3] = [119u8, 97u8, 118u8];
    assert(x30@ =~= seq![119u8, 97u8, 118u8]);
    if crate::bytes::bytes_equal(e, x30.as_slice()) {
        return true;
    }
    let x31: [u8; 4] = [102u8, 108u8, 97u8, 99u8];
    assert(x31@ =~= seq![102u8, 108u8, 97u8, 99u8]);
    if crate::bytes::bytes_equal(e, x31.as_slice()) {
        return true;
    }
    let x32: [u8; 3] = [111u8, 103u8, 103u8];
    assert(x32@ =~= seq![111u8, 103u8, 103u8]);
    if crate::bytes::bytes_equal(e, x32.as_slice()) {
        return true;
    }
    let x33: [u8; 3] = [109u8, 112u8, 52u8];
    assert(x33@ =~= seq![109u8, 112u8, 52u8]);
    if crate::bytes::bytes_equal(e, x33.as_slice()) {
        return true;
    }
    let x34: [u8; 3] = [109u8, 111u8, 118u8];
    assert(x34@ =~= seq![109u8, 111u8, 118u8]);
    if crate::bytes::bytes_equal(e, x34.as_slice()) {
        return true;
    }
    let x35: [u8; 3] = [97u8, 118u8, 105u8];
    assert(x35@ =~= seq![97u8, 118u8, 105u8]);
    if crate::bytes::bytes_equal(e, x35.as_slice()) {
        return true;
    }
    let x36: [u8; 3] = [109u8, 107u8, 118u8];
    assert(x36@ =~= seq![109u8, 107u8, 118u8]);
    if crate::bytes::bytes_equal(e, x36.as_slice()) {
        return true;
    }
    let x37: [u8; 4] = [119u8, 101u8, 98u8, 109u8];
    assert(x37@ =~= seq![119u8, 101u8, 98u8, 109u8]);
    if crate::bytes::bytes_equal(e, x37.as_slice()) {
        return true;
    }
    let x38: [u8; 3] = [122u8, 105u8, 112u8];
    assert(x38@ =~= seq![122u8, 105u8, 112u8]);
    if crate::bytes::bytes_equal(e, x38.as_slice()) {
        return true;
    }
    let x39: [u8; 2] = [103u8, 122u8];
    assert(x39@ =~= seq![103u8, 122u8]);
    if crate::bytes::bytes_equal(e, x39.as_slice()) {
        return true;
    }
    let x40: [u8; 3] = [98u8, 122u8, 50u8];
    assert(x40@ =~= seq![98u8, 122u8, 50u8]);
    if crate::bytes::bytes_equal(e, x40.as_slice()) {
        return true;
    }
    let x41: [u8; 2] = [120u8, 122u8];
    assert(x41@ =~= seq![120u8, 122u8]);
    if crate::bytes::bytes_equal(e, x41.as_slice()) {
        return true;
    }
    let x42: [u8; 2] = [55u8, 122u8];
    assert(x42@ =~= seq![55u8, 122u8]);
    if crate::bytes::bytes_equal(e, x42.as_slice()) {
        return true;
    }
    let x43: [u8; 3] = [114u8, 97u8, 114u8];
    assert(x43@ =~= seq![114u8, 97u8, 114u8]);
    if crate::bytes::bytes_equal(e, x43.as_slice()) {
        return true;
    }
    let x44: [u8; 3] = [116u8, 97u8, 114u8];
    assert(x44@ =~= seq![116u8, 97u8, 114u8]);
    if crate::bytes::bytes_equal(e, x44.as_slice()) {
        return true;
    }
    let x45: [u8; 4] = [119u8, 111u8, 102u8, 102u8];
    assert(x45@ =~= seq![119u8, 111u8, 102u8, 102u8]);
    if crate::bytes::bytes_equal(e, x45.as_slice()) {
        return true;
    }
    let x46: [u8; 5] = [119u8, 111u8, 102u8, 102u8, 50u8];
    assert(x46@ =~= seq![119u8, 111u8, 102u8, 102u8, 50u8]);
    if crate::bytes::bytes_equal(e, x46.as_slice()) {
        return true;
    }
    let x47: [u8; 3] = [116u8, 116u8, 102u8];
    assert(x47@ =~= seq![116u8, 116u8, 102u8]);
    if crate::bytes::bytes_equal(e, x47.as_slice()) {
        return true;
    }
    let x48: [u8; 3] = [111u8, 116u8, 102u8];
    assert(x48@ =~= seq![111u8, 116u8, 102u8]);
    if crate::bytes::bytes_equal(e, x48.as_slice()) {
        return true;
    }
    let x49: [u8; 3] = [101u8, 120u8, 101u8];
    assert(x49@ =~= seq![101u8, 120u8, 101u8]);
    if crate::bytes::bytes_equal(e, x49.as_slice()) {
        return true;
    }
    let x50: [u8; 3] = [100u8, 108u8, 108u8];
    assert(x50@ =~= seq![100u8, 108u8, 108u8]);
    if crate::bytes::bytes_equal(e, x50.as_slice()) {
        return true;
    }
    let x51: [u8; 2] = [115u8, 111u8];
    assert(x51@ =~= seq![115u8, 111u8]);
    if crate::bytes::bytes_equal(e, x51.as_slice()) {
        return true;
    }
    let x52: [u8; 5] = [100u8, 121u8, 108u8, 105u8, 98u8];
    assert(x52@ =~= seq![100u8, 121u8, 108u8, 105u8, 98u8]);
    if crate::bytes::bytes_equal(e, x52.as_slice()) {
        return true;
    }
    let x53: [u8; 4] = [119u8, 97u8, 115u8, 109u8];
    assert(x53@ =~= seq![119u8, 97u8, 115u8, 109u8]);
    if crate::bytes::bytes_equal(e, x53.as_slice()) {
        return true;
    }
    false
}

fn has_media_opening(s: &[u8]) -> (res: bool)
    ensures
        res == media_opening(s@),
{
    let p0: [u8; 5] = [37u8, 112u8, 100u8, 102u8, 45u8];
    assert(p0@ =~= seq![37u8, 112u8, 100u8, 102u8, 45u8]);
    if crate::bytes::starts_with(s, p0.as_slice()) {
        return true;
    }
    let p1: [u8; 4] = [37u8, 33u8, 112u8, 115u8];
    assert(p1@ =~= seq![37u8, 33u8, 112u8, 115u8]);
    if crate::bytes::starts_with(s, p1.as_slice()) {
        return true;
    }
    let p2: [u8; 5] = [123u8, 92u8, 114u8, 116u8, 102u8];
    assert(p2@ =~= seq![123u8, 92u8, 114u8, 116u8, 102u8]);
    if crate::bytes::starts_with(s, p2.as_slice()) {
        return true;
    }
    let p3: [u8; 12] = [103u8, 105u8, 109u8, 112u8, 32u8, 112u8, 97u8, 108u8, 101u8, 116u8, 116u8, 101u8];
    assert(p3@ =~= seq![103u8, 105u8, 109u8, 112u8, 32u8, 112u8, 97u8, 108u8, 101u8, 116u8, 116u8, 101u8]);
    if crate::bytes::starts_with(s, p3.as_slice()) {
        return true;
    }
    let p4: [u8; 10] = [35u8, 63u8, 114u8, 97u8, 100u8, 105u8, 97u8, 110u8, 99u8, 101u8];
    assert(p4@ =~= seq![35u8, 63u8, 114u8, 97u8, 100u8, 105u8, 97u8, 110u8, 99u8, 101u8]);
    if crate::bytes::starts_with(s, p4.as_slice()) {
        return true;
    }
    let p5: [u8; 6] = [35u8, 63u8, 114u8, 103u8, 98u8, 101u8];
    assert(p5@ =~= seq![35u8, 63u8, 114u8, 103u8, 98u8, 101u8]);
    if crate::bytes::starts_with(s, p5.as_slice()) {
        return true;
    }
    let p6: [u8; 10] = [98u8, 101u8, 103u8, 105u8, 110u8, 32u8, 54u8, 52u8, 52u8, 32u8];
    assert(p6@ =~= seq![98u8, 101u8, 103u8, 105u8, 110u8, 32u8, 54u8, 52u8, 52u8, 32u8]);
    if crate::bytes::starts_with(s, p6.as_slice()) {
        return true;
    }
    false
}

/// The last piece of a path between slashes that is neither empty nor `.`,
/// from `pos` on, or `acc` when there is none.
pub open spec fn last_piece(b: Seq<u8>, pos: int, acc: Option<Seq<u8>>) -> Option<Seq<u8>>
    decreases b.len() - pos,
{
    if pos < 0 || pos >= b.len() {
        acc
    } else {
        proof {
            lemma_find_byte(b, 47, pos);
        }
        let end = crate::fs::component_end(b, pos);
        let next = crate::fs::component_next(b, pos);
        let seg = b.subrange(pos, end);
        if seg.len() == 0 || seg == crate::fs::dot() {
            last_piece(b, next, acc)
        } else {
            last_piece(b, next, Some(seg))
        }
    }
}

/// The file name of a path: its last component, unless that is `..`.
pub open spec fn file_name(b: Seq<u8>) -> Option<Seq<u8>> {
    match last_piece(b, 0, None) {
        Some(s) => if s == crate::fs::dot_dot() {
            None
        } else {
            Some(s)
        },
        None => None,
    }
}

/// The position of the last `.` in `s` before `end`.
pub open spec fn last_dot(s: Seq<u8>, end: int) -> Option<int>
    decreases end,
{
    if end <= 0 || end > s.len() {
        None
    } else if s[end - 1] == 46 {
        Some(end - 1)
    } else {
        last_dot(s, end - 1)
    }
}

/// The extension of a path, lowercased: what follows the last `.` of its
/// file name, when that `.` is not the name's first byte; empty otherwise.
pub open spec fn extension(b: Seq<u8>) -> Seq<u8> {
    match file_name(b) {
        None => seq![],
        Some(name) => match last_dot(name, name.len() as int) {
            Some(i) => if i > 0 {
                Seq::new((name.len() - i - 1) as nat, |k: int| ascii_lower(name[i + 1 + k]))
            } else {
                seq![]
            },
            None => seq![],
        },
    }
}

fn path_extension(path: &str) -> (res: Vec<u8>)
    ensures
        res@ == extension(path.spec_bytes()),
{
    let b = path.as_bytes();
    let mut last: Option<(usize, usize)> = None;
    let mut pos: usize = 0;
    let dot_a: [u8; 1] = [46u8];
    let dotdot_a: [u8; 2] = [46u8, 46u8];
    assert(dot_a@ =~= crate::fs::dot());
    assert(dotdot_a@ =~= crate::fs::dot_dot());
    while pos < b.len()
        invariant
            b@ == path.spec_bytes(),
            pos <= b@.len(),
            dot_a@ == crate::fs::dot(),
            dotdot_a@ == crate::fs::dot_dot(),
            last_piece(b@, 0, None) == last_piece(
                b@,
                pos as int,
                match last {
                    Some((s, e)) => Some(b@.subrange(s as int, e as int)),
                    None => None,
                },
            ),
            last matches Some((s, e)) ==> s <= e <= b@.len(),
        decreases b@.len() - pos,
    {
        proof {
            lemma_find_byte(b@, 47, pos as int);
        }
        let (end, next) = match position_of(b, 47, pos) {
            None => (b.len(), b.len()),
            Some(i) => (i, i + 1),
        };
        assert(end == crate::fs::component_end(b@, pos as int) && next
            == crate::fs::component_next(b@, pos as int));
        let seg = vstd::slice::slice_subrange(b, pos, end);
        if !(seg.len() == 0 || crate::bytes::bytes_equal(seg, dot_a.as_slice())) {
            last = Some((pos, end));
        }
        pos = next;
    }
    let mut out: Vec<u8> = Vec::new();
    match last {
        None => {
            return out;
        },
        Some((s, e)) => {
            let name = vstd::slice::slice_subrange(b, s, e);
            if crate::bytes::bytes_equal(name, dotdot_a.as_slice()) {
                return out;
            }
            let mut i = name.len();
            while i > 0 && name[i - 1] != 46
                invariant
                    i <= name@.len(),
                    last_dot(name@, name@.len() as int) == last_dot(name@, i as int),
                decreases i,
            {
                i = i - 1;
            }
            if i <= 1 {
                return out;
            }
            let mut k = i;
            while k < name.len()
                invariant
                    i <= k <= name@.len(),
                    out@ =~= Seq::new((k - i) as nat, |j: int| ascii_lower(name@[i + j])),
                decreases name@.len() - k,
            {
                let c = name[k];
                out.push(if 65 <= c && c <= 90 {
                    c + 32
                } else {
                    c
                });
                k = k + 1;
            }
            out
        },
    }
}

/// Whether `infer` recognises a file type signature at the start of `data`.
pub uninterp spec fn infer_recognises(data: Seq<u8>) -> bool;

/// `infer::get(data).is_some()`: whether one of the crate's matchers for
/// images, video, audio, archives, documents, fonts, books or
/// applications recognises the start of `data`. Which data it recognises
/// stays named, not stated.
#[verifier::external_body]
fn infer_detects(data: &[u8]) -> (res: bool)
    ensures
        res == infer_recognises(data@),
{
    infer::get(data).is_some()
}

/// The characters UTF-16 code units encode: a unit outside the surrogate
/// range is itself; a high surrogate followed by a low one is the
/// supplementary character they combine to; anything else is invalid.
pub open spec fn utf16_chars(u: Seq<u16>) -> Option<Seq<char>>
    decreases u.len(),
{
    if u.len() == 0 {
        Some(seq![])
    } else if u[0] < 0xD800 || u[0] > 0xDFFF {
        match utf16_chars(u.subrange(1, u.len() as int)) {
            Some(r) => Some(seq![u[0] as char] + r),
            None => None,
        }
    } else if u[0] <= 0xDBFF && u.len() >= 2 && 0xDC00 <= u[1] <= 0xDFFF {
        match utf16_chars(u.subrange(2, u.len() as int)) {
            Some(r) => Some(
                seq![(0x10000 + (u[0] - 0xD800) * 1024 + (u[1] - 0xDC00)) as char] + r,
            ),
            None => None,
        }
    } else {
        None
    }
}

/// `String::from_utf16`: the documentation says it decodes UTF-16 and fails
/// on invalid data, as `utf16_chars` states.
#[verifier::external_body]
fn string_from_utf16(units: &[u16]) -> (res: Option<String>)
    ensures
        match utf16_chars(units@) {
            Some(c) => res matches Some(s) && s@ == c,
            None => res is None,
        },
{
    String::from_utf16(units).ok()
}

/// The 16-bit units of bytes taken in pairs, little- or big-endian.
pub open spec fn utf16_units(b: Seq<u8>, little: bool) -> Seq<u16> {
    Seq::new(
        b.len() / 2,
        |i: int|
            if little {
                (b[2 * i] + b[2 * i + 1] * 256) as u16
            } else {
                (b[2 * i] * 256 + b[2 * i + 1]) as u16
            },
    )
}

fn units_of(b: &[u8], little: bool) -> (res: Vec<u16>)
    ensures
        res@ == utf16_units(b@, little),
{
    let mut out: Vec<u16> = Vec::new();
    let mut i: usize = 0;
    while i + 1 < b.len()
        invariant
            i % 2 == 0,
            i <= b@.len(),
            out@.len() == i / 2,
            forall|k: int| 0 <= k < out@.len() ==> #[trigger] out@[k] == utf16_units(b@, little)[k],
        decreases b@.len() - i,
    {
        let u: u16 = if little {
            (b[i] as u16) + (b[i + 1] as u16) * 256
        } else {
            (b[i] as u16) * 256 + (b[i + 1] as u16)
        };
        out.push(u);
        i = i + 2;
    }
    assert(out@ =~= utf16_units(b@, little));
    out
}

/// What a file's bytes decode to, before the checks on its content:
/// characters, which encoding (0 for UTF-8, 1 for UTF-16LE, 2 for
/// UTF-16BE), and whether a byte order mark came first.
pub open spec fn decoded(path: Seq<u8>, data: Seq<u8>) -> Result<(Seq<char>, int, bool), Error> {
    if data.len() > crate::output::FILE_LIMIT {
        Err(Error::FileTooLarge)
    } else if excluded_extension(extension(path)) {
        Err(Error::ExcludedFileType)
    } else if infer_recognises(data) {
        Err(Error::BinaryOrMediaSignature)
    } else if has_prefix(data, seq![255u8, 254u8]) || has_prefix(data, seq![254u8, 255u8]) {
        let little = data[0] == 255;
        if data.len() % 2 != 0 {
            Err(Error::InvalidUtf16)
        } else {
            match utf16_chars(utf16_units(data.subrange(2, data.len() as int), little)) {
                None => Err(Error::InvalidUtf16),
                Some(c) => Ok((
                    c,
                    if little {
                        1
                    } else {
                        2
                    },
                    true,
                )),
            }
        }
    } else {
        let bom = has_prefix(data, seq![239u8, 187u8, 191u8]);
        let body = if bom {
            data.subrange(3, data.len() as int)
        } else {
            data
        };
        if !valid_utf8(body) {
            Err(Error::InvalidUtf8)
        } else {
            Ok((decode_utf8(body), 0, bom))
        }
    }
}

/// The whitespace character, in the sense of Unicode's `White_Space`,
/// whose UTF-8 encoding starts at `i`, by its length; 0 when there is none.
pub open spec fn space_len(b: Seq<u8>, i: int) -> int {
    if i < 0 || i >= b.len() {
        0
    } else if (9 <= b[i] <= 13) || b[i] == 32 {
        1
    } else if i + 1 < b.len() && b[i] == 0xC2 && (b[i + 1] == 0x85 || b[i + 1] == 0xA0) {
        2
    } else if i + 2 < b.len() && b[i] == 0xE1 && b[i + 1] == 0x9A && b[i + 2] == 0x80 {
        3
    } else if i + 2 < b.len() && b[i] == 0xE2 && b[i + 1] == 0x80 && ((0x80 <= b[i + 2] <= 0x8A)
        || b[i + 2] == 0xA8 || b[i + 2] == 0xA9 || b[i + 2] == 0xAF) {
        3
    } else if i + 2 < b.len() && b[i] == 0xE2 && b[i + 1] == 0x81 && b[i + 2] == 0x9F {
        3
    } else if i + 2 < b.len() && b[i] == 0xE3 && b[i + 1] == 0x80 && b[i + 2] == 0x80 {
        3
    } else {
        0
    }
}

/// Where the leading whitespace of `b` from `i` on ends.
pub open spec fn skip_space(b: Seq<u8>, i: int) -> int
    decreases b.len() - i,
{
    if i < 0 || i >= b.len() || space_len(b, i) == 0 {
        i
    } else {
        skip_space(b, i + space_len(b, i))
    }
}

/// The length of the whitespace character whose encoding ends just before
/// `j`; 0 when there is none.
pub open spec fn space_len_before(b: Seq<u8>, j: int) -> int {
    if j >= 1 && space_len(b, j - 1) == 1 {
        1
    } else if j >= 2 && space_len(b, j - 2) == 2 {
        2
    } else if j >= 3 && space_len(b, j - 3) == 3 {
        3
    } else {
        0
    }
}

/// Where the whitespace that ends at `j` begins, going back no further
/// than `start`.
pub open spec fn skip_space_back(b: Seq<u8>, start: int, j: int) -> int
    decreases j - start,
{
    if j <= start || space_len_before(b, j) == 0 || j - space_len_before(b, j) < start {
        j
    } else {
        skip_space_back(b, start, j - space_len_before(b, j))
    }
}

/// A text without its leading and trailing whitespace.
pub open spec fn trimmed(b: Seq<u8>) -> Seq<u8> {
    let s = skip_space(b, 0);
    b.subrange(s, skip_space_back(b, s, b.len() as int))
}

/// `str::trim`: the documentation says it removes leading and trailing
/// whitespace, whitespace in the sense of Unicode's `White_Space`
/// property; the bytes left are those `trimmed` keeps.
#[verifier::external_body]
pub(crate) fn trim(s: &str) -> (res: &str)
    ensures
        res.spec_bytes() == trimmed(s.spec_bytes()),
{
    s.trim()
}

/// `str::trim_start`: the documentation says it removes leading whitespace,
/// whitespace in the sense of Unicode's `White_Space` property; the bytes
/// left are those after `skip_space`.
#[verifier::external_body]
fn trim_start(s: &str) -> (res: &str)
    ensures
        res.spec_bytes() == s.spec_bytes().subrange(
            skip_space(s.spec_bytes(), 0),
            s.spec_bytes().len() as int,
        ),
{
    s.trim_start()
}

/// `str::to_ascii_lowercase`: the documentation says each ASCII uppercase
/// letter becomes lowercase and every other byte stays.
#[verifier::external_body]
pub(crate) fn to_ascii_lowercase(s: &str) -> (res: String)
    ensures
        encode_utf8(res@) == Seq::new(
            s.spec_bytes().len(),
            |i: int| ascii_lower(s.spec_bytes()[i]),
        ),
{
    s.to_ascii_lowercase()
}

/// `^p[1-7]\s`: the opening of a portable pixmap written as text.
pub open spec fn pixmap_pattern() -> Seq<char> {
    decode_utf8(seq![94u8, 112u8, 91u8, 49u8, 45u8, 55u8, 93u8, 92u8, 115u8])
}

/// Whether text, lowercased and with its leading whitespace removed, opens
/// like a document or image: `Err` with the reason, `Ok` when it does not.
pub open spec fn media_verdict(trimmed: Seq<u8>, trimmed_chars: Seq<char>) -> Result<(), Error> {
    if media_opening(trimmed) {
        Err(Error::DocumentOrMediaContentExcluded)
    } else if !regex_valid(pixmap_pattern()) {
        Err(Error::InvalidPattern)
    } else if regex_accepts(pixmap_pattern(), trimmed_chars) {
        Err(Error::ImageContentExcluded)
    } else {
        Ok(())
    }
}

fn space_prefix_end(b: &[u8]) -> (res: usize)
    ensures
        res == skip_space(b@, 0),
        res <= b@.len(),
{
    let mut i: usize = 0;
    loop
        invariant
            i <= b@.len(),
            skip_space(b@, 0) == skip_space(b@, i as int),
        decreases b@.len() - i,
    {
        if i >= b.len() {
            return i;
        }
        let c = b[i];
        let n: usize = if (9 <= c && c <= 13) || c == 32 {
            1
        } else if i + 1 < b.len() && c == 0xC2 && (b[i + 1] == 0x85 || b[i + 1] == 0xA0) {
            2
        } else if b.len() - i > 2 && c == 0xE1 && b[i + 1] == 0x9A && b[i + 2] == 0x80 {
            3
        } else if b.len() - i > 2 && c == 0xE2 && b[i + 1] == 0x80 && ((0x80 <= b[i + 2] && b[i
            + 2] <= 0x8A) || b[i + 2] == 0xA8 || b[i + 2] == 0xA9 || b[i + 2] == 0xAF) {
            3
        } else if b.len() - i > 2 && c == 0xE2 && b[i + 1] == 0x81 && b[i + 2] == 0x9F {
            3
        } else if b.len() - i > 2 && c == 0xE3 && b[i + 1] == 0x80 && b[i + 2] == 0x80 {
            3
        } else {
            0
        };
        assert(n == space_len(b@, i as int));
        if n == 0 {
            return i;
        }
        i = i + n;
    }
}

#[verifier::external_type_specification]
#[verifier::external_body]
#[verifier::reject_recursive_types(R)]
pub struct ExXmlReader<R>(quick_xml::Reader<R>);

/// What the XML reader reports at the start of a document, by kind.
pub enum XmlEvent {
    /// A start or empty element tag, with its local name.
    Element(Vec<u8>),
    /// A declaration, processing instruction, comment or document type.
    Prolog,
    /// Character data.
    Text(Vec<u8>),
    /// Anything else: an end tag, CDATA, a reference, the end, or an error.
    Other,
}

/// An event of the XML reader as a value: names and text as bytes.
pub enum XmlEventV {
    Element(Seq<u8>),
    Prolog,
    Text(Seq<u8>),
    Other,
}

/// The value of an event.
pub open spec fn event_view(e: XmlEvent) -> XmlEventV {
    match e {
        XmlEvent::Element(n) => XmlEventV::Element(n@),
        XmlEvent::Prolog => XmlEventV::Prolog,
        XmlEvent::Text(t) => XmlEventV::Text(t@),
        XmlEvent::Other => XmlEventV::Other,
    }
}

/// The event, by kind, that `quick_xml` reports at the `k`-th read of a
/// reader made over `text`, counting from zero.
pub uninterp spec fn xml_event(text: Seq<char>, k: nat) -> XmlEventV;

/// A `quick_xml` reader over a text, with the text and the number of
/// events read from it.
pub struct XmlScan<'a> {
    r: quick_xml::Reader<&'a [u8]>,
    text: Ghost<Seq<char>>,
    read: Ghost<nat>,
}

impl<'a> XmlScan<'a> {
    /// The text read.
    pub closed spec fn text(&self) -> Seq<char> {
        self.text@
    }

    /// The events read so far.
    pub closed spec fn read(&self) -> nat {
        self.read@
    }
}

/// `quick_xml::Reader::from_str`: a reader over the text.
#[verifier::external_body]
fn xml_reader<'a>(s: &'a str) -> (res: quick_xml::Reader<&'a [u8]>) {
    quick_xml::Reader::from_str(s)
}

/// A scan of `s` that has read nothing.
fn xml_scan<'a>(s: &'a str) -> (res: XmlScan<'a>)
    ensures
        res.text() == s@,
        res.read() == 0,
{
    XmlScan { r: xml_reader(s), text: Ghost(s@), read: Ghost(0) }
}

/// `quick_xml::Reader::read_event` on the scan's reader, which was made
/// over the scan's text and has read as many events as the scan counts:
/// the next event, by kind, which is the one `xml_event` names; the reader
/// has then read one event more.
#[verifier::external_body]
fn xml_read<'a>(s: &mut XmlScan<'a>) -> (res: XmlEvent)
    ensures
        event_view(res) == xml_event(old(s).text(), old(s).read()),
        final(s).text() == old(s).text(),
        final(s).read() == old(s).read() + 1,
{
    match s.r.read_event() {
        Ok(quick_xml::events::Event::Start(e)) => XmlEvent::Element(e.local_name().as_ref().as_bytes().to_vec()),
        Ok(quick_xml::events::Event::Empty(e)) => XmlEvent::Element(e.local_name().as_ref().as_bytes().to_vec()),
        Ok(quick_xml::events::Event::Decl(_)) => XmlEvent::Prolog,
        Ok(quick_xml::events::Event::PI(_)) => XmlEvent::Prolog,
        Ok(quick_xml::events::Event::Comment(_)) => XmlEvent::Prolog,
        Ok(quick_xml::events::Event::DocType(_)) => XmlEvent::Prolog,
        Ok(quick_xml::events::Event::Text(t)) => XmlEvent::Text(t.as_bytes().to_vec()),
        _ => XmlEvent::Other,
    }
}

/// `svg`
pub open spec fn svg_word() -> Seq<u8> {
    seq![115u8, 118u8, 103u8]
}

/// Whether the events of `text` from the `k`-th on, at most `left` of
/// them, reach an element named `svg` in any case, with nothing before it
/// but declarations, processing instructions, comments, a document type
/// and whitespace.
pub open spec fn svg_from(text: Seq<char>, k: nat, left: nat) -> bool
    decreases left,
{
    if left == 0 {
        false
    } else {
        match xml_event(text, k) {
            XmlEventV::Element(n) => crate::git::objects::eq_ignore_ascii_case(n, svg_word()),
            XmlEventV::Prolog => svg_from(text, k + 1, (left - 1) as nat),
            XmlEventV::Text(t) => if skip_space(t, 0) == t.len() {
                svg_from(text, k + 1, (left - 1) as nat)
            } else {
                false
            },
            XmlEventV::Other => false,
        }
    }
}

/// Whether the XML reader finds the document element of `text` to be an
/// `svg` element, in any case and any namespace, after nothing but a
/// declaration, processing instructions, comments, a document type and
/// whitespace. The reader is asked at most once per byte of text and once
/// more; each event it reports past the start takes at least one byte.
pub fn svg_document(text: &str) -> (res: bool)
    ensures
        res == svg_from(text@, 0, (text.spec_bytes().len() + 1) as nat),
{
    let mut scan = xml_scan(text);
    let bound: u128 = text.as_bytes().len() as u128;
    let ghost total: nat = (text.spec_bytes().len() + 1) as nat;
    let svg: [u8; 3] = [115u8, 118u8, 103u8];
    assert(svg@ =~= svg_word());
    let mut count: u128 = 0;
    loop
        invariant
            bound <= usize::MAX,
            bound == text.spec_bytes().len(),
            total == bound + 1,
            count <= bound + 1,
            scan.text() == text@,
            scan.read() == count,
            svg@ == svg_word(),
            svg_from(text@, 0, total) == svg_from(text@, count as nat, (total - count) as nat),
        decreases bound + 1 - count,
    {
        if count > bound {
            return false;
        }
        let ghost k = count as nat;
        let ghost left = (total - count) as nat;
        match xml_read(&mut scan) {
            XmlEvent::Element(name) => {
                return crate::git::objects::eq_ignore_case_bytes(name.as_slice(), svg.as_slice());
            },
            XmlEvent::Prolog => {},
            XmlEvent::Text(t) => {
                if space_prefix_end(t.as_slice()) != t.len() {
                    return false;
                }
            },
            XmlEvent::Other => {
                return false;
            },
        }
        count = count + 1;
    }
}

fn decode_bytes(path: &str, data: &[u8]) -> (res: Result<(String, u8, bool), Error>)
    ensures
        match decoded(path.spec_bytes(), data@) {
            Ok((c, enc, bom)) => res matches Ok((s, e, b)) && s@ == c && e == enc && b == bom,
            Err(e) => res matches Err(x) && x == e,
        },
{
    if data.len() > crate::output::FILE_LIMIT {
        return Err(Error::FileTooLarge);
    }
    let ext = path_extension(path);
    if is_excluded_extension(ext.as_slice()) {
        return Err(Error::ExcludedFileType);
    }
    if infer_detects(data) {
        return Err(Error::BinaryOrMediaSignature);
    }
    let le: [u8; 2] = [255u8, 254u8];
    let be: [u8; 2] = [254u8, 255u8];
    let bom8: [u8; 3] = [239u8, 187u8, 191u8];
    assert(le@ =~= seq![255u8, 254u8]);
    assert(be@ =~= seq![254u8, 255u8]);
    assert(bom8@ =~= seq![239u8, 187u8, 191u8]);
    if crate::bytes::starts_with(data, le.as_slice()) || crate::bytes::starts_with(
        data,
        be.as_slice(),
    ) {
        let little = data[0] == 255;
        if data.len() % 2 != 0 {
            return Err(Error::InvalidUtf16);
        }
        let units = units_of(vstd::slice::slice_subrange(data, 2, data.len()), little);
        match string_from_utf16(units.as_slice()) {
            None => Err(Error::InvalidUtf16),
            Some(s) => Ok((s, if little {
                1u8
            } else {
                2u8
            }, true)),
        }
    } else {
        let bom = crate::bytes::starts_with(data, bom8.as_slice());
        let body = if bom {
            vstd::slice::slice_subrange(data, 3, data.len())
        } else {
            data
        };
        match crate::bytes::utf8_string(body) {
            None => Err(Error::InvalidUtf8),
            Some(s) => Ok((s, 0u8, bom)),
        }
    }
}

fn media_check(lower: &str) -> (res: Result<(), Error>)
    ensures
        ({
            let t = lower.spec_bytes().subrange(
                skip_space(lower.spec_bytes(), 0),
                lower.spec_bytes().len() as int,
            );
            res == media_verdict(t, decode_utf8(t))
        }),
{
    let start = trim_start(lower);
    proof {
        vstd::utf8::encode_utf8_decode_utf8(start@);
    }
    if has_media_opening(start.as_bytes()) {
        return Err(Error::DocumentOrMediaContentExcluded);
    }
    let pattern: [u8; 9] = [94u8, 112u8, 91u8, 49u8, 45u8, 55u8, 93u8, 92u8, 115u8];
    let p = ascii_string(pattern.as_slice());
    proof {
        assert(pattern@ =~= seq![94u8, 112u8, 91u8, 49u8, 45u8, 55u8, 93u8, 92u8, 115u8]);
        vstd::utf8::encode_utf8_decode_utf8(p@);
        assert(p@ == pixmap_pattern());
    }
    let m = match Matcher::regex(p.as_str()) {
        None => return Err(Error::InvalidPattern),
        Some(m) => m,
    };
    if m.is_match(start) {
        return Err(Error::ImageContentExcluded);
    }
    Ok(())
}

/// The name of an encoding by its number in `decoded`.
pub open spec fn encoding_name(enc: int) -> Seq<char> {
    if enc == 0 {
        "UTF-8"@
    } else if enc == 1 {
        "UTF-16LE"@
    } else {
        "UTF-16BE"@
    }
}

/// The UTF-16 code units of a text: one unit for a character below
/// U+10000, else a high and a low surrogate.
pub open spec fn utf16_encode(c: Seq<char>) -> Seq<u16>
    decreases c.len(),
{
    if c.len() == 0 {
        seq![]
    } else {
        let v = c[0] as int;
        (if v < 0x10000 {
            seq![v as u16]
        } else {
            seq![(0xD800 + (v - 0x10000) / 1024) as u16, (0xDC00 + (v - 0x10000) % 1024) as u16]
        }) + utf16_encode(c.drop_first())
    }
}

/// Code units written as bytes, low byte first when `little`.
pub open spec fn utf16_bytes(u: Seq<u16>, little: bool) -> Seq<u8> {
    Seq::new(
        2 * u.len(),
        |j: int|
            if (j % 2 == 0) == little {
                (u[j / 2] as int % 256) as u8
            } else {
                (u[j / 2] as int / 256) as u8
            },
    )
}

/// Decoding UTF-16 replaces nothing: encoding what it gives back yields
/// the same code units.
proof fn lemma_utf16_round_trip(u: Seq<u16>)
    requires
        utf16_chars(u) is Some,
    ensures
        utf16_encode(utf16_chars(u)->Some_0) == u,
    decreases u.len(),
{
    if u.len() > 0 {
        let c = utf16_chars(u)->Some_0;
        if u[0] < 0xD800 || u[0] > 0xDFFF {
            let rest = u.subrange(1, u.len() as int);
            lemma_utf16_round_trip(rest);
            assert(c[0] as int == u[0] as int);
            assert(c.drop_first() =~= utf16_chars(rest)->Some_0);
            assert(u =~= seq![u[0]] + rest);
        } else {
            let rest = u.subrange(2, u.len() as int);
            lemma_utf16_round_trip(rest);
            let hi = u[0] - 0xD800;
            let lo = u[1] - 0xDC00;
            let v = 0x10000 + hi * 1024 + lo;
            assert((v - 0x10000) / 1024 == hi && (v - 0x10000) % 1024 == lo) by (nonlinear_arith)
                requires
                    0 <= lo < 1024,
                    0 <= hi < 1024,
                    v == 0x10000 + hi * 1024 + lo,
            ;
            assert(0x10000 <= v <= 0x10FFFF) by (nonlinear_arith)
                requires
                    0 <= lo < 1024,
                    0 <= hi < 1024,
                    v == 0x10000 + hi * 1024 + lo,
            ;
            assert(c[0] as int == v);
            assert(c.drop_first() =~= utf16_chars(rest)->Some_0);
            assert(u =~= seq![u[0], u[1]] + rest);
        }
    }
}

/// Reading an even number of bytes as code units and writing them back in
/// the same order gives the same bytes.
proof fn lemma_utf16_bytes(d: Seq<u8>, little: bool)
    requires
        d.len() % 2 == 0,
    ensures
        utf16_bytes(utf16_units(d, little), little) == d,
{
    let u = utf16_units(d, little);
    let w = utf16_bytes(u, little);
    assert forall|j: int| 0 <= j < d.len() implies w[j] == d[j] by {
        let i = j / 2;
        let a = d[2 * i] as int;
        let b = d[2 * i + 1] as int;
        assert(0 <= i < u.len());
        if little {
            assert(u[i] as int == a + b * 256);
            assert((a + b * 256) % 256 == a && (a + b * 256) / 256 == b) by (nonlinear_arith)
                requires
                    0 <= a < 256,
                    0 <= b < 256,
            ;
        } else {
            assert(u[i] as int == a * 256 + b);
            assert((a * 256 + b) % 256 == b && (a * 256 + b) / 256 == a) by (nonlinear_arith)
                requires
                    0 <= a < 256,
                    0 <= b < 256,
            ;
        }
        assert(j == 2 * i || j == 2 * i + 1);
    }
    assert(w =~= d);
}

/// A control character other than tab, line feed and carriage return:
/// general category Cc, U+0000 to U+001F and U+007F to U+009F.
pub open spec fn char_control(c: char) -> bool {
    let v = c as u32;
    (v < 32 && v != 9 && v != 10 && v != 13) || (127 <= v && v <= 159)
}

/// Text whose UTF-8 bytes hold no control character but tab, line feed and
/// carriage return holds no such character either.
proof fn lemma_control_free_chars(cs: Seq<char>)
    requires
        crate::bytes::control_free(encode_utf8(cs)),
    ensures
        forall|k: int| 0 <= k < cs.len() ==> !char_control(#[trigger] cs[k]),
    decreases cs.len(),
{
    if cs.len() > 0 {
        let head = vstd::utf8::encode_scalar(cs[0] as u32);
        let rest = encode_utf8(cs.drop_first());
        let all = encode_utf8(cs);
        assert(all == head + rest);
        assert(crate::bytes::control_free(rest)) by {
            assert forall|i: int| 0 <= i < rest.len() implies !#[trigger] crate::bytes::control_at(rest, i) by {
                assert(!crate::bytes::control_at(all, head.len() + i));
                assert(all[head.len() + i] == rest[i]);
                if i + 1 < rest.len() {
                    assert(all[head.len() + i + 1] == rest[i + 1]);
                }
            }
        }
        lemma_control_free_chars(cs.drop_first());
        let v = cs[0] as u32;
        assert(!crate::bytes::control_at(all, 0));
        if v < 128 {
            assert((v & 0x7F) as u8 == v) by (bit_vector)
                requires
                    v < 128,
            ;
            assert(all[0] == v);
        } else if v <= 159 {
            assert((0xC0 | ((v >> 6) & 0x1F) as u8) == 194u8 && (0x80 | (v & 0x3F) as u8) == v)
                by (bit_vector)
                requires
                    128 <= v <= 159,
            ;
            assert(all[0] == 194 && all[1] == v);
        }
        assert forall|k: int| 0 <= k < cs.len() implies !char_control(#[trigger] cs[k]) by {
            if k > 0 {
                assert(cs[k] == cs.drop_first()[k - 1]);
            }
        }
    }
}

/// What a successful decoding says of the bytes: they fit the size limit;
/// as UTF-8 they are the optional byte-order mark and then exactly the
/// encoding of the text; as UTF-16 they are a byte-order mark and then code
/// units that decode, nothing replaced, to the text.
proof fn lemma_decoded_bytes(path: Seq<u8>, data: Seq<u8>)
    ensures
        decoded(path, data) matches Ok((c, enc, bom)) ==> data.len() <= crate::output::FILE_LIMIT
            && (enc == 0 || enc == 1 || enc == 2) && (enc == 0 ==> data == (if bom {
            seq![239u8, 187u8, 191u8]
        } else {
            Seq::<u8>::empty()
        }) + encode_utf8(c)) && (enc != 0 ==> bom && data.len() % 2 == 0 && utf16_chars(
            utf16_units(data.subrange(2, data.len() as int), enc == 1),
        ) == Some(c) && data == (if enc == 1 {
            seq![255u8, 254u8]
        } else {
            seq![254u8, 255u8]
        }) + utf16_bytes(utf16_encode(c), enc == 1)),
{
    if let Ok((c, enc, bom)) = decoded(path, data) {
        if enc != 0 {
            let d = data.subrange(2, data.len() as int);
            let little = enc == 1;
            lemma_utf16_round_trip(utf16_units(d, little));
            lemma_utf16_bytes(d, little);
            assert(d.len() % 2 == 0);
            if little {
                assert(data =~= seq![255u8, 254u8] + d);
            } else {
                assert(data.subrange(0, 2) =~= seq![254u8, 255u8]);
                assert(data =~= seq![254u8, 255u8] + d);
            }
        }
        if enc == 0 {
            let body = if bom {
                data.subrange(3, data.len() as int)
            } else {
                data
            };
            vstd::utf8::decode_utf8_encode_utf8(body);
            if bom {
                assert(data =~= seq![239u8, 187u8, 191u8] + body);
            } else {
                assert(data =~= Seq::<u8>::empty() + body);
            }
        }
    }
}

/// Decodes a file or blob as text, refusing what is not text: files too
/// large, documents, media, archives and binaries by name or signature,
/// invalid UTF-8 or UTF-16, control characters, SVG documents, and text
/// that opens like a document or image.
pub fn decode(path: &str, data: &[u8]) -> (res: Result<Text, Error>)
    ensures
        match decoded(path.spec_bytes(), data@) {
            Err(e) => res matches Err(x) && x == e,
            Ok((c, enc, bom)) => if !crate::bytes::control_free(encode_utf8(c)) {
                res matches Err(x) && x == Error::BinaryControlCharacter
            } else {
                let lower = Seq::new(
                    encode_utf8(c).len(),
                    |i: int| ascii_lower(encode_utf8(c)[i]),
                );
                let t = lower.subrange(skip_space(lower, 0), lower.len() as int);
                if svg_from(c, 0, (encode_utf8(c).len() + 1) as nat) {
                    res == Err::<Text, Error>(Error::SvgContentExcluded)
                } else {
                    match media_verdict(t, decode_utf8(t)) {
                        Ok(_) => res matches Ok(text) && text.content@ == c && text.bom == bom
                            && text.encoding@ == encoding_name(enc),
                        Err(x) => res == Err::<Text, Error>(x),
                    }
                }
            },
        },
        res matches Ok(text) ==> data@.len() <= crate::output::FILE_LIMIT && crate::bytes::control_free(
            encode_utf8(text.content@),
        ) && (forall|k: int| 0 <= k < text.content@.len() ==> !char_control(#[trigger] text.content@[k])) && (text.encoding@ == encoding_name(0) ==> data@ == (if text.bom {
            seq![239u8, 187u8, 191u8]
        } else {
            Seq::<u8>::empty()
        }) + encode_utf8(text.content@)) && (text.encoding@ != encoding_name(0) ==> text.bom
            && data@.len() % 2 == 0 && utf16_chars(
            utf16_units(data@.subrange(2, data@.len() as int), text.encoding@ == encoding_name(1)),
        ) == Some(text.content@) && data@ == (if text.encoding@ == encoding_name(1) {
            seq![255u8, 254u8]
        } else {
            seq![254u8, 255u8]
        }) + utf16_bytes(utf16_encode(text.content@), text.encoding@ == encoding_name(1))),
{
    let (content, enc, bom) = decode_bytes(path, data)?;
    if !crate::bytes::is_control_free(content.as_str().as_bytes()) {
        return Err(Error::BinaryControlCharacter);
    }
    let lower = to_ascii_lowercase(content.as_str());
    if svg_document(content.as_str()) {
        return Err(Error::SvgContentExcluded);
    }
    media_check(lower.as_str())?;
    let encoding: &'static str = if enc == 0 {
        "UTF-8"
    } else if enc == 1 {
        "UTF-16LE"
    } else {
        "UTF-16BE"
    };
    proof {
        lemma_decoded_bytes(path.spec_bytes(), data@);
        reveal_strlit("UTF-8");
        reveal_strlit("UTF-16LE");
        reveal_strlit("UTF-16BE");
        assert(encoding_name(1)[6] != encoding_name(2)[6]);
        assert(encoding_name(0).len() != encoding_name(1).len());
        assert(encoding_name(0).len() != encoding_name(2).len());
        assert(encoding@ == encoding_name(enc as int));
    }
    let text = Text { content, encoding, bom };
    assert(data@.len() <= crate::output::FILE_LIMIT);
    assert(crate::bytes::control_free(encode_utf8(text.content@)));
    proof {
        lemma_control_free_chars(text.content@);
    }
    assert(text.encoding@ == encoding_name(0) ==> data@ == (if text.bom {
        seq![239u8, 187u8, 191u8]
    } else {
        Seq::<u8>::empty()
    }) + encode_utf8(text.content@));
    assert(text.encoding@ != encoding_name(0) ==> text.bom && data@.len() % 2 == 0 && utf16_chars(
        utf16_units(data@.subrange(2, data@.len() as int), text.encoding@ == encoding_name(1)),
    ) == Some(text.content@) && data@ == (if text.encoding@ == encoding_name(1) {
        seq![255u8, 254u8]
    } else {
        seq![254u8, 255u8]
    }) + utf16_bytes(utf16_encode(text.content@), text.encoding@ == encoding_name(1)));
    Ok(text)
}

/// Whether `r` is a row of a read whose line number lies from `lo` to `hi`.
pub open spec fn row_numbered(r: JsonV, lo: int, hi: int) -> bool {
    exists|m: nat, t: Seq<u8>, o: nat, c: bool| #[trigger] read_row(m, t, o, c) == r && lo <= m <= hi
}

/// Reading on from line `line` up to `last` adds rows for lines after
/// `line` and up to `last` only, after those already taken.
proof fn lemma_read_rows_numbered(
    all: Seq<Seq<u8>>,
    line: int,
    offset: int,
    used: int,
    last: int,
    max_lines: int,
    max_bytes: int,
    rows: Seq<JsonV>,
)
    ensures
        read_rows(all, line, offset, used, last, max_lines, max_bytes, rows) matches Ok((r2, _, _)) ==> rows.len()
            <= r2.len() && r2.subrange(0, rows.len() as int) == rows && forall|k: int|
            rows.len() <= k < r2.len() ==> row_numbered(#[trigger] r2[k], line + 1, last),
    decreases last - line,
{
    if 0 <= line < last && last <= all.len() && rows.len() < max_lines {
        let s = all[line];
        if 0 <= offset <= s.len() && at_boundary(s, offset) {
            let available = sat_sub(max_bytes, used + 160);
            if available >= 16 {
                let finish = boundary_floor(
                    s,
                    if offset + available / 6 < s.len() {
                        offset + available / 6
                    } else {
                        s.len() as int
                    },
                );
                if !(finish == offset && finish < s.len()) {
                    let row = read_row((line + 1) as nat, s.subrange(offset, finish), offset as nat, finish == s.len());
                    let pushed = rows.push(row);
                    assert(row_numbered(row, line + 1, last));
                    let used2 = used + json_bytes(row).len() + 1;
                    if finish == s.len() {
                        lemma_read_rows_numbered(all, line + 1, 0, used2, last, max_lines, max_bytes, pushed);
                        if let Ok((r2, _, _)) = read_rows(all, line + 1, 0, used2, last, max_lines, max_bytes, pushed) {
                            assert(r2.subrange(0, rows.len() as int) =~= pushed.subrange(0, rows.len() as int));
                            assert forall|k: int| rows.len() <= k < r2.len() implies row_numbered(#[trigger] r2[k], line + 1, last) by {
                                if k == rows.len() {
                                    assert(r2[k] == r2.subrange(0, pushed.len() as int)[k]);
                                    assert(r2[k] == row);
                                } else {
                                    assert(row_numbered(r2[k], line + 2, last));
                                    let (m, t, o, c) = choose|m: nat, t: Seq<u8>, o: nat, c: bool| #[trigger] read_row(m, t, o, c) == r2[k] && line + 2 <= m <= last;
                                    assert(read_row(m, t, o, c) == r2[k]);
                                }
                            }
                        }
                    } else {
                        assert(pushed.subrange(0, rows.len() as int) =~= rows);
                        assert forall|k: int| rows.len() <= k < pushed.len() implies row_numbered(#[trigger] pushed[k], line + 1, last) by {
                            assert(pushed[k] == row);
                        }
                    }
                } else {
                    assert(rows.subrange(0, rows.len() as int) =~= rows);
                }
            } else {
                assert(rows.subrange(0, rows.len() as int) =~= rows);
            }
        }
    } else {
        assert(rows.subrange(0, rows.len() as int) =~= rows);
    }
}

/// A read returns no line past the end it was asked for: every row's line
/// number is at most `end` (and at most the text's line count), at least
/// `start`, and within the last `tail` lines.
pub proof fn lemma_read_within_range(
    path: Seq<u8>,
    content: Seq<u8>,
    encoding: Seq<u8>,
    bom: bool,
    start: Option<usize>,
    end: Option<usize>,
    tail: Option<usize>,
    limits: Limits,
    cursor: Option<Cursor>,
)
    ensures
        read_result(path, content, encoding, bom, start, end, tail, limits, cursor) matches Ok(v) ==> (
        member(v, k_lines()) matches Some(JsonV::Arr(rows)) && forall|k: int|
            0 <= k < rows.len() ==> row_numbered(
                #[trigger] rows[k],
                match (start, tail) {
                    (_, Some(t)) => sat_sub(text_lines(content).len() as int, t as int) + 1,
                    (Some(s), None) => s as int,
                    (None, None) => 1,
                },
                match end {
                    Some(e) => if e < text_lines(content).len() {
                        e as int
                    } else {
                        text_lines(content).len() as int
                    },
                    None => text_lines(content).len() as int,
                },
            )),
{
    let all = text_lines(content);
    let n = all.len() as int;
    if let Ok(v) = read_result(path, content, encoding, bom, start, end, tail, limits, cursor) {
        let max_lines = crate::output::requested_lines(limits);
        let max_bytes = crate::output::requested_bytes(limits);
        let (first, last) = read_bounds(start, end, tail, n)->Ok_0;
        let fp = fingerprint_of(read_key(path, content, start, end, tail));
        let line = match cursor {
            Some(c) => c.index as int,
            None => first,
        };
        let offset = match cursor {
            Some(c) => c.offset as int,
            None => 0,
        };
        let used = (1200 + path.len() * 6) as int;
        lemma_read_rows_numbered(all, line, offset, used, last, max_lines, max_bytes, seq![]);
        let (rows, l, o) = read_rows(all, line, offset, used, last, max_lines, max_bytes, seq![])->Ok_0;
        let lo = match (start, tail) {
            (_, Some(t)) => sat_sub(n, t as int) + 1,
            (Some(s), None) => s as int,
            (None, None) => 1,
        };
        let hi = match end {
            Some(e) => if e < n {
                e as int
            } else {
                n
            },
            None => n,
        };
        assert(v == read_value(path, encoding, bom, rows, n as nat, encode_utf8(fp), l, o, last));
        let m = seq![
            (k_path(), JsonV::Str(path)),
            (k_encoding(), JsonV::Str(encoding)),
            (k_bom(), JsonV::Bool(bom)),
            (k_lines(), JsonV::Arr(rows)),
        ];
        assert(k_path() != k_lines() && k_encoding() != k_lines() && k_bom() != k_lines()) by {
            assert(k_path().len() != k_lines().len());
            assert(k_encoding().len() != k_lines().len());
            assert(k_bom().len() != k_lines().len());
        }
        if let JsonV::Obj(mm) = v {
            assert(mm[0].0 == k_path() && mm[1].0 == k_encoding() && mm[2].0 == k_bom() && mm[3].0 == k_lines());
            assert(mm[3].1 == JsonV::Arr(rows));
            assert(crate::json::member_index(mm, k_lines(), 3) == Some(3int));
            assert(crate::json::member_index(mm, k_lines(), 2) == Some(3int));
            assert(crate::json::member_index(mm, k_lines(), 1) == Some(3int));
            assert(crate::json::member_index(mm, k_lines(), 0) == Some(3int));
        }
        assert(line + 1 >= lo && last == hi);
        assert forall|k: int| 0 <= k < rows.len() implies row_numbered(#[trigger] rows[k], lo, hi) by {
            assert(row_numbered(rows[k], line + 1, last));
            let (mm, t, oo, c) = choose|mm: nat, t: Seq<u8>, oo: nat, c: bool| #[trigger] read_row(mm, t, oo, c) == rows[k] && line + 1 <= mm <= last;
            assert(read_row(mm, t, oo, c) == rows[k]);
        }
    }
}

} // verus!
