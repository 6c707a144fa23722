use crate::bytes::{append_bytes, lemma_ascii_utf8, string_of};
use crate::error::Error;
use crate::git::store::{decimal, decimal_bytes, hex_chars, sha1_of};
use crate::bytes::at_boundary;
use crate::json::{
    clone_json, find_member, items_view, json_bytes, json_string, member, member_index, set_member, to_bytes,
    with_member, write_string, Json, JsonV,
};
use crate::text::{boundary_floor, flat, joined, sat_sub};
use vstd::prelude::*;
use vstd::string::StringSliceAdditionalSpecFns;
use vstd::utf8::{decode_utf8, encode_utf8, valid_utf8};

verus! {

/// Largest file or Git object that is read, in bytes.
pub const FILE_LIMIT: usize = 8388608;
/// Largest number of directory entries or history steps that one query inspects.
pub const SCAN_LIMIT: usize = 20000;
/// Largest number of bytes that one search reads.
pub const SCAN_BYTES: usize = 67108864;

/// Response budget chosen by a client.
#[derive(Clone, Debug)]
pub struct Limits {
    /// Maximum source lines / entries, default 200, at most 2000.
    pub max_lines: Option<usize>,
    /// Maximum serialized result bytes, default 65536, range 2048..262144.
    pub max_bytes: Option<usize>,
}

impl Default for Limits {
    fn default() -> (r: Limits)
        ensures
            r.max_lines is None,
            r.max_bytes is None,
    {
        Limits { max_lines: None, max_bytes: None }
    }
}

/// The line budget a request asks for: 200 when none is given.
pub open spec fn requested_lines(l: Limits) -> int {
    match l.max_lines {
        Some(n) => n as int,
        None => 200,
    }
}

/// The byte budget a request asks for: 65536 when none is given.
pub open spec fn requested_bytes(l: Limits) -> int {
    match l.max_bytes {
        Some(n) => n as int,
        None => 65536,
    }
}

impl Limits {
    /// The effective (lines, bytes) budget, or the error for an out-of-range request.
    pub fn get(&self) -> (res: Result<(usize, usize), Error>)
        ensures
            !(1 <= requested_lines(*self) <= 2000) ==> res == Err::<(usize, usize), Error>(
                Error::InvalidLineLimit,
            ),
            (1 <= requested_lines(*self) <= 2000) && !(2048 <= requested_bytes(*self) <= 262144)
                ==> res == Err::<(usize, usize), Error>(Error::InvalidByteLimit),
            (1 <= requested_lines(*self) <= 2000) && (2048 <= requested_bytes(*self) <= 262144)
                ==> res == Ok::<(usize, usize), Error>(
                (requested_lines(*self) as usize, requested_bytes(*self) as usize),
            ),
    {
        let lines = match self.max_lines {
            Some(n) => n,
            None => 200,
        };
        let bytes = match self.max_bytes {
            Some(n) => n,
            None => 65536,
        };
        if !(1 <= lines && lines <= 2000) {
            return Err(Error::InvalidLineLimit);
        }
        if !(2048 <= bytes && bytes <= 262144) {
            return Err(Error::InvalidByteLimit);
        }
        Ok((lines, bytes))
    }
}

/// Where a paged listing stopped: which content it was computed from, and
/// the item and byte offset to continue at.
#[derive(Clone, Debug)]
pub struct Cursor {
    pub fingerprint: String,
    pub index: usize,
    pub offset: usize,
}

impl Default for Cursor {
    fn default() -> (r: Cursor)
        ensures
            r.fingerprint@ == Seq::<char>::empty(),
            r.index == 0,
            r.offset == 0,
    {
        Cursor { fingerprint: String::new(), index: 0, offset: 0 }
    }
}

/// The fingerprint of some bytes: the hexadecimal SHA-1 digest.
pub open spec fn fingerprint_of(data: Seq<u8>) -> Seq<char> {
    hex_chars(sha1_of(data))
}

/// The fingerprint of `data`.
pub fn fingerprint(data: &[u8]) -> (res: String)
    ensures
        res@ == fingerprint_of(data@),
{
    let digest = crate::git::store::sha1_digest(data);
    crate::git::store::hex_encode(digest.as_slice())
}

/// Decimal digits are ASCII.
pub proof fn lemma_decimal_ascii(n: nat)
    ensures
        forall|i: int| 0 <= i < decimal(n).len() ==> decimal(n)[i] < 128,
    decreases n,
{
    if n >= 10 {
        lemma_decimal_ascii(n / 10);
        let d = decimal(n / 10).push((48 + n % 10) as u8);
        assert(decimal(n) == d);
        assert forall|i: int| 0 <= i < d.len() implies d[i] < 128 by {
            if i < d.len() - 1 {
                assert(d[i] == decimal(n / 10)[i]);
            }
        }
    } else {
        assert(decimal(n) =~= seq![(48 + n) as u8]);
    }
}

/// The JSON text of a cursor: its fingerprint, index and offset, in that order.
pub open spec fn cursor_text(fp: Seq<u8>, index: nat, offset: nat) -> Seq<u8> {
    seq![123u8, 34u8, 102u8, 105u8, 110u8, 103u8, 101u8, 114u8, 112u8, 114u8, 105u8, 110u8, 116u8, 34u8, 58u8]
        + json_string(fp) + seq![44u8, 34u8, 105u8, 110u8, 100u8, 101u8, 120u8, 34u8, 58u8]
        + decimal(index) + seq![44u8, 34u8, 111u8, 102u8, 102u8, 115u8, 101u8, 116u8, 34u8, 58u8]
        + decimal(offset) + seq![125u8]
}

/// The cursor a client passes back to continue after `index` and `offset`.
pub fn continuation(fp: &str, index: usize, offset: usize) -> (res: String)
    ensures
        encode_utf8(res@) == cursor_text(fp.spec_bytes(), index as nat, offset as nat),
{
    let open: [u8; 15] = [123u8, 34u8, 102u8, 105u8, 110u8, 103u8, 101u8, 114u8, 112u8, 114u8, 105u8, 110u8, 116u8, 34u8, 58u8];
    let mid: [u8; 9] = [44u8, 34u8, 105u8, 110u8, 100u8, 101u8, 120u8, 34u8, 58u8];
    let off: [u8; 10] = [44u8, 34u8, 111u8, 102u8, 102u8, 115u8, 101u8, 116u8, 34u8, 58u8];
    let mut out: Vec<u8> = Vec::new();
    append_bytes(&mut out, open.as_slice());
    write_string(fp.as_bytes(), &mut out);
    append_bytes(&mut out, mid.as_slice());
    let i = decimal_bytes(index);
    append_bytes(&mut out, i.as_slice());
    append_bytes(&mut out, off.as_slice());
    let o = decimal_bytes(offset);
    append_bytes(&mut out, o.as_slice());
    out.push(125u8);
    let ghost t = cursor_text(fp.spec_bytes(), index as nat, offset as nat);
    assert(out@ =~= t);
    proof {
        broadcast use vstd::utf8::group_utf8_lib;

        vstd::utf8::encode_utf8_valid_utf8(fp@);
        crate::json::lemma_json_string_utf8(fp.spec_bytes());
        lemma_decimal_ascii(index as nat);
        lemma_decimal_ascii(offset as nat);
        lemma_ascii_utf8(open@);
        lemma_ascii_utf8(mid@);
        lemma_ascii_utf8(off@);
        lemma_ascii_utf8(decimal(index as nat));
        lemma_ascii_utf8(decimal(offset as nat));
        lemma_ascii_utf8(seq![125u8]);
        let a = open@ + json_string(fp.spec_bytes());
        vstd::utf8::valid_utf8_concat(open@, json_string(fp.spec_bytes()));
        let b = a + mid@;
        vstd::utf8::valid_utf8_concat(a, mid@);
        let c = b + decimal(index as nat);
        vstd::utf8::valid_utf8_concat(b, decimal(index as nat));
        let d = c + off@;
        vstd::utf8::valid_utf8_concat(c, off@);
        let e = d + decimal(offset as nat);
        vstd::utf8::valid_utf8_concat(d, decimal(offset as nat));
        vstd::utf8::valid_utf8_concat(e, seq![125u8]);
        assert(e + seq![125u8] =~= t);
    }
    string_of(out.as_slice())
}

/// The cursor a listing continues from: the start when none was given, else
/// the one given if it was computed from the same content.
pub fn check_cursor(input: Option<Cursor>, fp: &str) -> (res: Result<Cursor, Error>)
    ensures
        match input {
            None => res matches Ok(c) && c.fingerprint@ == fp@ && c.index == 0 && c.offset == 0,
            Some(c) => if c.fingerprint@ == fp@ {
                res matches Ok(r) && r.fingerprint@ == fp@ && r.index == c.index && r.offset
                    == c.offset
            } else {
                res == Err::<Cursor, Error>(Error::StaleCursor)
            },
        },
{
    match input {
        None => Ok(Cursor { fingerprint: fp.to_owned(), index: 0, offset: 0 }),
        Some(c) => {
            let wanted = fp.to_owned();
            if c.fingerprint == wanted {
                Ok(c)
            } else {
                Err(Error::StaleCursor)
            }
        },
    }
}

/// `text`
pub open spec fn p_text() -> Seq<u8> {
    seq![116u8, 101u8, 120u8, 116u8]
}

/// `change`
pub open spec fn p_change() -> Seq<u8> {
    seq![99u8, 104u8, 97u8, 110u8, 103u8, 101u8]
}

/// `text_byte_offset`
pub open spec fn p_text_byte_offset() -> Seq<u8> {
    seq![116u8, 101u8, 120u8, 116u8, 95u8, 98u8, 121u8, 116u8, 101u8, 95u8, 111u8, 102u8, 102u8, 115u8, 101u8, 116u8]
}

/// `text_complete`
pub open spec fn p_text_complete() -> Seq<u8> {
    seq![116u8, 101u8, 120u8, 116u8, 95u8, 99u8, 111u8, 109u8, 112u8, 108u8, 101u8, 116u8, 101u8]
}

/// `items`
pub open spec fn p_items() -> Seq<u8> {
    seq![105u8, 116u8, 101u8, 109u8, 115u8]
}

/// `metadata`
pub open spec fn p_metadata() -> Seq<u8> {
    seq![109u8, 101u8, 116u8, 97u8, 100u8, 97u8, 116u8, 97u8]
}

/// `truncated`
pub open spec fn p_truncated() -> Seq<u8> {
    seq![116u8, 114u8, 117u8, 110u8, 99u8, 97u8, 116u8, 101u8, 100u8]
}

/// `reason`
pub open spec fn p_reason() -> Seq<u8> {
    seq![114u8, 101u8, 97u8, 115u8, 111u8, 110u8]
}

/// `next_cursor`
pub open spec fn p_next_cursor() -> Seq<u8> {
    seq![110u8, 101u8, 120u8, 116u8, 95u8, 99u8, 117u8, 114u8, 115u8, 111u8, 114u8]
}

/// `total_items`
pub open spec fn p_total_items() -> Seq<u8> {
    seq![116u8, 111u8, 116u8, 97u8, 108u8, 95u8, 105u8, 116u8, 101u8, 109u8, 115u8]
}

/// `response_limit`
pub open spec fn p_response_limit() -> Seq<u8> {
    seq![114u8, 101u8, 115u8, 112u8, 111u8, 110u8, 115u8, 101u8, 95u8, 108u8, 105u8, 109u8, 105u8, 116u8]
}

fn bytes_text() -> (res: Vec<u8>)
    ensures
        res@ == p_text(),
        forall|i: int| 0 <= i < res@.len() ==> res@[i] < 128,
{
    let b: [u8; 4] = [116u8, 101u8, 120u8, 116u8];
    assert(b@ =~= p_text());
    crate::bytes::to_vec(b.as_slice())
}

fn bytes_change() -> (res: Vec<u8>)
    ensures
        res@ == p_change(),
        forall|i: int| 0 <= i < res@.len() ==> res@[i] < 128,
{
    let b: [u8; 6] = [99u8, 104u8, 97u8, 110u8, 103u8, 101u8];
    assert(b@ =~= p_change());
    crate::bytes::to_vec(b.as_slice())
}

fn bytes_text_byte_offset() -> (res: Vec<u8>)
    ensures
        res@ == p_text_byte_offset(),
        forall|i: int| 0 <= i < res@.len() ==> res@[i] < 128,
{
    let b: [u8; 16] = [116u8, 101u8, 120u8, 116u8, 95u8, 98u8, 121u8, 116u8, 101u8, 95u8, 111u8, 102u8, 102u8, 115u8, 101u8, 116u8];
    assert(b@ =~= p_text_byte_offset());
    crate::bytes::to_vec(b.as_slice())
}

fn bytes_text_complete() -> (res: Vec<u8>)
    ensures
        res@ == p_text_complete(),
        forall|i: int| 0 <= i < res@.len() ==> res@[i] < 128,
{
    let b: [u8; 13] = [116u8, 101u8, 120u8, 116u8, 95u8, 99u8, 111u8, 109u8, 112u8, 108u8, 101u8, 116u8, 101u8];
    assert(b@ =~= p_text_complete());
    crate::bytes::to_vec(b.as_slice())
}

fn bytes_items() -> (res: Vec<u8>)
    ensures
        res@ == p_items(),
        forall|i: int| 0 <= i < res@.len() ==> res@[i] < 128,
{
    let b: [u8; 5] = [105u8, 116u8, 101u8, 109u8, 115u8];
    assert(b@ =~= p_items());
    crate::bytes::to_vec(b.as_slice())
}

fn bytes_metadata() -> (res: Vec<u8>)
    ensures
        res@ == p_metadata(),
        forall|i: int| 0 <= i < res@.len() ==> res@[i] < 128,
{
    let b: [u8; 8] = [109u8, 101u8, 116u8, 97u8, 100u8, 97u8, 116u8, 97u8];
    assert(b@ =~= p_metadata());
    crate::bytes::to_vec(b.as_slice())
}

fn bytes_truncated() -> (res: Vec<u8>)
    ensures
        res@ == p_truncated(),
        forall|i: int| 0 <= i < res@.len() ==> res@[i] < 128,
{
    let b: [u8; 9] = [116u8, 114u8, 117u8, 110u8, 99u8, 97u8, 116u8, 101u8, 100u8];
    assert(b@ =~= p_truncated());
    crate::bytes::to_vec(b.as_slice())
}

fn bytes_reason() -> (res: Vec<u8>)
    ensures
        res@ == p_reason(),
        forall|i: int| 0 <= i < res@.len() ==> res@[i] < 128,
{
    let b: [u8; 6] = [114u8, 101u8, 97u8, 115u8, 111u8, 110u8];
    assert(b@ =~= p_reason());
    crate::bytes::to_vec(b.as_slice())
}

fn bytes_next_cursor() -> (res: Vec<u8>)
    ensures
        res@ == p_next_cursor(),
        forall|i: int| 0 <= i < res@.len() ==> res@[i] < 128,
{
    let b: [u8; 11] = [110u8, 101u8, 120u8, 116u8, 95u8, 99u8, 117u8, 114u8, 115u8, 111u8, 114u8];
    assert(b@ =~= p_next_cursor());
    crate::bytes::to_vec(b.as_slice())
}

fn bytes_total_items() -> (res: Vec<u8>)
    ensures
        res@ == p_total_items(),
        forall|i: int| 0 <= i < res@.len() ==> res@[i] < 128,
{
    let b: [u8; 11] = [116u8, 111u8, 116u8, 97u8, 108u8, 95u8, 105u8, 116u8, 101u8, 109u8, 115u8];
    assert(b@ =~= p_total_items());
    crate::bytes::to_vec(b.as_slice())
}

fn bytes_response_limit() -> (res: Vec<u8>)
    ensures
        res@ == p_response_limit(),
        forall|i: int| 0 <= i < res@.len() ==> res@[i] < 128,
{
    let b: [u8; 14] = [114u8, 101u8, 115u8, 112u8, 111u8, 110u8, 115u8, 101u8, 95u8, 108u8, 105u8, 109u8, 105u8, 116u8];
    assert(b@ =~= p_response_limit());
    crate::bytes::to_vec(b.as_slice())
}

/// Which member of a row carries text that may be cut: 1 for `text`, 2 for
/// `text` inside `change`, 0 for none.
pub open spec fn text_kind(v: JsonV) -> int {
    match member(v, p_text()) {
        Some(JsonV::Str(_)) => 1,
        _ => match member(v, p_change()) {
            Some(c) => match member(c, p_text()) {
                Some(JsonV::Str(_)) => 2,
                _ => 0,
            },
            None => 0,
        },
    }
}

/// The text a row carries where `text_kind` says.
pub open spec fn text_at(v: JsonV, kind: int) -> Seq<u8> {
    let m = if kind == 1 {
        member(v, p_text())
    } else {
        match member(v, p_change()) {
            Some(c) => member(c, p_text()),
            None => None,
        }
    };
    match m {
        Some(JsonV::Str(t)) => t,
        _ => seq![],
    }
}

/// The row with its text replaced by `t`.
pub open spec fn with_text(v: JsonV, kind: int, t: Seq<u8>) -> JsonV {
    if kind == 1 {
        set_member(v, p_text(), JsonV::Str(t))
    } else {
        match member(v, p_change()) {
            Some(c) => set_member(v, p_change(), set_member(c, p_text(), JsonV::Str(t))),
            None => v,
        }
    }
}

/// A piece of a row's text, with where it starts and whether it ends the text.
pub open spec fn fragment(v: JsonV, kind: int, t: Seq<u8>, offset: nat, complete: bool) -> JsonV {
    set_member(
        set_member(with_text(v, kind, t), p_text_byte_offset(), JsonV::Num(offset)),
        p_text_complete(),
        JsonV::Bool(complete),
    )
}

/// Paging on from item `index` at text byte `offset`, with `used` bytes of
/// the budget spent and `out` already taken: whole items while they fit;
/// an item that does not fit, or that continues at an offset, is cut in its
/// text to one sixth of the room left, where a character starts. Gives the
/// rows and where paging stopped.
pub open spec fn page_rows(
    items: Seq<JsonV>,
    index: int,
    offset: int,
    used: int,
    max: int,
    bytes: int,
    out: Seq<JsonV>,
) -> Result<(Seq<JsonV>, int, int), Error>
    decreases items.len() - index,
{
    if !(0 <= index < items.len() && out.len() < max) {
        Ok((out, index, offset))
    } else {
        let row = items[index];
        let kind = text_kind(row);
        let size = json_bytes(row).len() + 1;
        if size + used > bytes || offset > 0 {
            if kind != 0 {
                let original = text_at(row, kind);
                if !(0 <= offset <= original.len() && at_boundary(original, offset)) {
                    Err(Error::InvalidCursor)
                } else {
                    let overhead = json_bytes(with_text(row, kind, seq![])).len() + 128;
                    let available = sat_sub(bytes, used + overhead);
                    let end = boundary_floor(
                        original,
                        if offset + available / 6 < original.len() {
                            offset + available / 6
                        } else {
                            original.len() as int
                        },
                    );
                    if end == offset && end < original.len() {
                        if out.len() == 0 {
                            Err(Error::ItemMetadataExceedsByteLimit)
                        } else {
                            Ok((out, index, offset))
                        }
                    } else {
                        let frag = fragment(
                            row,
                            kind,
                            original.subrange(offset, end),
                            offset as nat,
                            end == original.len(),
                        );
                        let used2 = used + json_bytes(frag).len() + 1;
                        if end < original.len() {
                            Ok((out.push(frag), index, end))
                        } else {
                            page_rows(items, index + 1, 0, used2, max, bytes, out.push(frag))
                        }
                    }
                }
            } else if out.len() == 0 {
                Err(Error::ItemMetadataExceedsByteLimit)
            } else {
                Ok((out, index, offset))
            }
        } else {
            page_rows(items, index + 1, 0, used + size, max, bytes, out.push(row))
        }
    }
}

/// The page itself, given the rows and where paging stopped.
pub open spec fn page_value(
    rows: Seq<JsonV>,
    metadata: JsonV,
    fp: Seq<u8>,
    index: int,
    offset: int,
    total: nat,
) -> JsonV {
    let truncated = index < total;
    JsonV::Obj(
        seq![
            (p_items(), JsonV::Arr(rows)),
            (p_metadata(), metadata),
            (p_truncated(), JsonV::Bool(truncated)),
            (p_reason(), if truncated {
                JsonV::Str(p_response_limit())
            } else {
                JsonV::Null
            }),
            (p_next_cursor(), if truncated {
                JsonV::Str(cursor_text(fp, index as nat, offset as nat))
            } else {
                JsonV::Null
            }),
            (p_total_items(), JsonV::Num(total)),
        ],
    )
}

/// A page that is returned fits the byte budget it was asked for, and holds
/// no more rows than the line budget.
pub proof fn lemma_page_within_budget(items: Seq<JsonV>, limits: Limits, cursor: Option<Cursor>, metadata: JsonV)
    ensures
        page_result(items, limits, cursor, metadata) matches Ok(v) ==> json_bytes(v).len()
            <= requested_bytes(limits),
{
}

/// What a page of `items` is: the rows from where the cursor stopped, as
/// many as the line and byte budget allow, with the metadata.
pub open spec fn page_result(
    items: Seq<JsonV>,
    limits: Limits,
    cursor: Option<Cursor>,
    metadata: JsonV,
) -> Result<JsonV, Error> {
    let fp = fingerprint_of(json_bytes(JsonV::Arr(seq![JsonV::Arr(items), metadata])));
    let (index, offset) = match cursor {
        Some(c) => (c.index as int, c.offset as int),
        None => (0, 0),
    };
    if cursor matches Some(c) && c.fingerprint@ != fp {
        Err(Error::StaleCursor)
    } else if index > items.len() {
        Err(Error::InvalidCursor)
    } else if !(1 <= requested_lines(limits) <= 2000) {
        Err(Error::InvalidLineLimit)
    } else if !(2048 <= requested_bytes(limits) <= 262144) {
        Err(Error::InvalidByteLimit)
    } else {
        match page_rows(
            items,
            index,
            offset,
            (json_bytes(metadata).len() + 1024) as int,
            requested_lines(limits),
            requested_bytes(limits),
            seq![],
        ) {
            Err(e) => Err(e),
            Ok((rows, i, o)) => {
                let v = page_value(rows, metadata, encode_utf8(fp), i, o, items.len());
                if json_bytes(v).len() > requested_bytes(limits) {
                    Err(Error::ResponseBudgetExceeded)
                } else {
                    Ok(v)
                }
            },
        }
    }
}

fn get_member<'a>(v: &'a Json, key: &[u8]) -> (res: Option<&'a Json>)
    ensures
        match member(v.jv(), key@) {
            Some(x) => res matches Some(r) && r.jv() == x,
            None => res is None,
        },
{
    match v {
        Json::Obj(fields) => {
            proof {
                crate::json::lemma_fields_view(fields@);
            }
            proof {
                crate::json::lemma_member_index(crate::json::fields_view(fields@), key@, 0);
            }
            match find_member(fields, key) {
                Some(i) => {
                    let r = &fields[i].1;
                    assert(crate::json::fields_view(fields@)[i as int].1 == fields@[i as int].1.jv());
                    assert(v.jv() == JsonV::Obj(crate::json::fields_view(fields@)));
                    assert(member_index(crate::json::fields_view(fields@), key@, 0) == Some(i as int));
                    assert(member(v.jv(), key@) == Some(r.jv()));
                    Some(r)
                },
                None => None,
            }
        },
        _ => None,
    }
}

fn row_text_kind(row: &Json) -> (res: u8)
    ensures
        res as int == text_kind(row.jv()),
{
    let t = bytes_text();
    let c = bytes_change();
    match get_member(row, t.as_slice()) {
        Some(Json::Str(_)) => {
            return 1;
        },
        _ => {},
    }
    match get_member(row, c.as_slice()) {
        Some(ch) => match get_member(ch, t.as_slice()) {
            Some(Json::Str(_)) => 2,
            _ => 0,
        },
        None => 0,
    }
}

fn row_text_bytes(row: &Json, kind: u8) -> (res: Vec<u8>)
    requires
        kind == 1 || kind == 2,
        kind as int == text_kind(row.jv()),
    ensures
        res@ == text_at(row.jv(), kind as int),
        valid_utf8(res@),
{
    let t = bytes_text();
    let c = bytes_change();
    let found = if kind == 1 {
        get_member(row, t.as_slice())
    } else {
        match get_member(row, c.as_slice()) {
            Some(ch) => get_member(ch, t.as_slice()),
            None => None,
        }
    };
    match found {
        Some(Json::Str(s)) => {
            proof {
                vstd::utf8::encode_utf8_valid_utf8(s@);
            }
            crate::bytes::to_vec(s.as_str().as_bytes())
        },
        _ => Vec::new(),
    }
}

fn row_with_text(row: &Json, kind: u8, t: &[u8]) -> (res: Json)
    requires
        kind == 1 || kind == 2,
        kind as int == text_kind(row.jv()),
        valid_utf8(t@),
    ensures
        res.jv() == with_text(row.jv(), kind as int, t@),
{
    let tk = bytes_text();
    let ck = bytes_change();
    let s = string_of(t);
    proof {
        vstd::utf8::decode_utf8_encode_utf8(t@);
    }
    if kind == 1 {
        with_member(row, tk.as_slice(), Json::Str(s))
    } else {
        match get_member(row, ck.as_slice()) {
            Some(ch) => {
                let inner = with_member(ch, tk.as_slice(), Json::Str(s));
                with_member(row, ck.as_slice(), inner)
            },
            None => clone_json(row),
        }
    }
}

fn row_fragment(row: &Json, kind: u8, t: &[u8], offset: usize, complete: bool) -> (res: Json)
    requires
        kind == 1 || kind == 2,
        kind as int == text_kind(row.jv()),
        valid_utf8(t@),
    ensures
        res.jv() == fragment(row.jv(), kind as int, t@, offset as nat, complete),
{
    let a = row_with_text(row, kind, t);
    let ok = bytes_text_byte_offset();
    let ck = bytes_text_complete();
    let b = with_member(&a, ok.as_slice(), Json::Num(offset as u128));
    with_member(&b, ck.as_slice(), Json::Bool(complete))
}

fn floor_boundary(s: &[u8], offset: usize, k: usize) -> (res: usize)
    requires
        offset <= k <= s@.len(),
        at_boundary(s@, offset as int),
    ensures
        res == boundary_floor(s@, k as int),
        offset <= res <= k,
        at_boundary(s@, res as int),
{
    let mut finish = k;
    while finish > 0 && !(finish == s.len() || !(128 <= s[finish] && s[finish] <= 191))
        invariant
            offset <= finish <= k,
            at_boundary(s@, offset as int),
            k <= s@.len(),
            boundary_floor(s@, k as int) == boundary_floor(s@, finish as int),
        decreases finish,
    {
        finish = finish - 1;
    }
    finish
}

fn page_loop(
    items: &Vec<Json>,
    index0: usize,
    offset0: usize,
    used0: usize,
    max: usize,
    bytes: usize,
) -> (res: Result<(Vec<Json>, usize, usize), Error>)
    requires
        index0 <= items@.len(),
        2048 <= bytes <= 262144,
        1 <= max <= 2000,
    ensures
        match page_rows(
            items_view(items@),
            index0 as int,
            offset0 as int,
            used0 as int,
            max as int,
            bytes as int,
            seq![],
        ) {
            Ok((rows, i, o)) => res matches Ok((v, ri, ro)) && ri == i && ro == o && items_view(v@)
                == rows,
            Err(e) => res matches Err(x) && x == e,
        },
{
    proof {
        crate::json::lemma_items_view(items@);
    }
    let ghost iv = items_view(items@);
    let ghost target = page_rows(
        iv,
        index0 as int,
        offset0 as int,
        used0 as int,
        max as int,
        bytes as int,
        seq![],
    );
    let mut index = index0;
    let mut offset = offset0;
    let mut out: Vec<Json> = Vec::new();
    let ghost mut out_v: Seq<JsonV> = seq![];
    let mut used: u128 = used0 as u128;
    let mut stop = false;
    while !stop && index < items.len() && out.len() < max
        invariant
            iv == items_view(items@),
            iv.len() == items@.len(),
            forall|k: int| 0 <= k < items@.len() ==> #[trigger] iv[k] == items@[k].jv(),
            target == page_rows(
                iv,
                index0 as int,
                offset0 as int,
                used0 as int,
                max as int,
                bytes as int,
                seq![],
            ),
            2048 <= bytes <= 262144,
            1 <= max <= 2000,
            out@.len() == out_v.len(),
            out_v.len() <= max,
            forall|k: int| 0 <= k < out_v.len() ==> #[trigger] out@[k].jv() == out_v[k],
            used <= used0 + out_v.len() * 18446744073709551617,
            target == if stop {
                Ok::<(Seq<JsonV>, int, int), Error>((out_v, index as int, offset as int))
            } else {
                page_rows(
                    iv,
                    index as int,
                    offset as int,
                    used as int,
                    max as int,
                    bytes as int,
                    out_v,
                )
            },
        decreases items@.len() - index, if stop {
            0int
        } else {
            1int
        },
    {
        let row = &items[index];
        let kind = row_text_kind(row);
        let size = to_bytes(row).len() as u128 + 1;
        if size + used > bytes as u128 || offset > 0 {
            if kind != 0 {
                let original = row_text_bytes(row, kind);
                if !(offset <= original.len() && (offset == original.len() || !(128
                    <= original[offset] && original[offset] <= 191))) {
                    return Err(Error::InvalidCursor);
                }
                let empty: Vec<u8> = Vec::new();
                proof {
                    crate::bytes::lemma_ascii_utf8(empty@);
                }
                let blank = row_with_text(row, kind, empty.as_slice());
                let overhead = to_bytes(&blank).len() as u128 + 128;
                let available: u128 = if (bytes as u128) > used + overhead {
                    bytes as u128 - (used + overhead)
                } else {
                    0
                };
                let step: usize = if available / 6 > (original.len() as u128) {
                    original.len()
                } else {
                    (available / 6) as usize
                };
                let want: usize = if original.len() - offset > step {
                    offset + step
                } else {
                    original.len()
                };
                let end = floor_boundary(original.as_slice(), offset, want);
                if end == offset && end < original.len() {
                    if out.len() == 0 {
                        return Err(Error::ItemMetadataExceedsByteLimit);
                    }
                    stop = true;
                } else {
                    proof {
                        crate::bytes::lemma_utf8_piece(original@, offset as int, end as int);
                    }
                    let piece = vstd::slice::slice_subrange(original.as_slice(), offset, end);
                    let frag = row_fragment(row, kind, piece, offset, end == original.len());
                    let fsize = to_bytes(&frag).len();
                    used = used + fsize as u128 + 1;
                    proof {
                        out_v = out_v.push(frag.jv());
                    }
                    out.push(frag);
                    if end < original.len() {
                        offset = end;
                        stop = true;
                    } else {
                        index = index + 1;
                        offset = 0;
                    }
                }
            } else {
                if out.len() == 0 {
                    return Err(Error::ItemMetadataExceedsByteLimit);
                }
                stop = true;
            }
        } else {
            let c = clone_json(row);
            used = used + size;
            proof {
                out_v = out_v.push(c.jv());
            }
            out.push(c);
            index = index + 1;
        }
    }
    proof {
        crate::json::lemma_items_view(out@);
        assert(items_view(out@) =~= out_v);
    }
    Ok((out, index, offset))
}

#[verifier::rlimit(40)]
fn page_value_json(
    rows: Vec<Json>,
    metadata: Json,
    fp: &str,
    index: usize,
    offset: usize,
    total: usize,
) -> (res: Json)
    ensures
        res.jv() == page_value(
            items_view(rows@),
            metadata.jv(),
            fp.spec_bytes(),
            index as int,
            offset as int,
            total as nat,
        ),
{
    let truncated = index < total;
    let reason = if truncated {
        let b = bytes_response_limit();
        Json::Str(crate::json::ascii_string(b.as_slice()))
    } else {
        Json::Null
    };
    let next = if truncated {
        Json::Str(continuation(fp, index, offset))
    } else {
        Json::Null
    };
    let ghost rv = items_view(rows@);
    let ghost mv = metadata.jv();
    let fields = vec![
        (crate::json::ascii_string(bytes_items().as_slice()), Json::Arr(rows)),
        (crate::json::ascii_string(bytes_metadata().as_slice()), metadata),
        (crate::json::ascii_string(bytes_truncated().as_slice()), Json::Bool(truncated)),
        (crate::json::ascii_string(bytes_reason().as_slice()), reason),
        (crate::json::ascii_string(bytes_next_cursor().as_slice()), next),
        (crate::json::ascii_string(bytes_total_items().as_slice()), Json::Num(total as u128)),
    ];
    proof {
        reveal_with_fuel(crate::json::fields_view, 7);
        assert(crate::json::fields_view(fields@) =~= page_value(
            rv,
            mv,
            fp.spec_bytes(),
            index as int,
            offset as int,
            total as nat,
        )->Obj_0);
    }
    Json::Obj(fields)
}

fn page_key(items: &Vec<Json>, metadata: &Json) -> (res: Vec<u8>)
    ensures
        res@ == json_bytes(JsonV::Arr(seq![JsonV::Arr(items_view(items@)), metadata.jv()])),
{
    let mut out: Vec<u8> = Vec::new();
    out.push(91u8);
    crate::json::write_array(items, &mut out);
    out.push(44u8);
    crate::json::write_json(metadata, &mut out);
    out.push(93u8);
    proof {
        let l = seq![JsonV::Arr(items_view(items@)), metadata.jv()];
        let a = JsonV::Arr(items_view(items@));
        assert(l.subrange(0, 1) =~= seq![a]);
        assert(crate::json::json_list(seq![a]) == json_bytes(a));
        assert(crate::json::json_list(l) == crate::json::json_list(l.subrange(0, 1)) + seq![44u8]
            + json_bytes(metadata.jv()));
        assert(json_bytes(JsonV::Arr(l)) == seq![91u8] + crate::json::json_list(l) + seq![93u8]);
        assert(out@ =~= json_bytes(JsonV::Arr(l)));
    }
    out
}

/// One page of a listing: the items from where the cursor stopped, as many
/// as the line and byte budget allow, with the metadata. An item too large
/// for the room left is cut in its text, where a character starts, and
/// continued on the next page.
#[verifier::rlimit(80)]
pub fn page(items: Vec<Json>, limits: &Limits, cursor: Option<Cursor>, metadata: Json) -> (res:
    Result<Json, Error>)
    requires
        json_bytes(metadata.jv()).len() + 1024 <= usize::MAX,
    ensures
        match page_result(items_view(items@), *limits, cursor, metadata.jv()) {
            Ok(v) => res matches Ok(j) && j.jv() == v,
            Err(e) => res matches Err(x) && x == e,
        },
{
    let n = items.len();
    let ghost iv = items_view(items@);
    let ghost mv = metadata.jv();
    proof {
        crate::json::lemma_items_view(items@);
    }
    let key = page_key(&items, &metadata);
    let fp = fingerprint(key.as_slice());
    assert(fp@ == fingerprint_of(json_bytes(JsonV::Arr(seq![JsonV::Arr(iv), mv]))));
    let cur = check_cursor(cursor, fp.as_str())?;
    if cur.index > n {
        return Err(Error::InvalidCursor);
    }
    let (max, bytes) = limits.get()?;
    let meta_len = to_bytes(&metadata).len();
    let (rows, index, offset) = page_loop(&items, cur.index, cur.offset, meta_len + 1024, max, bytes)?;
    let ghost rows_v = items_view(rows@);
    let value = page_value_json(rows, metadata, fp.as_str(), index, offset, n);
    assert(value.jv() == page_value(rows_v, mv, encode_utf8(fp@), index as int, offset as int, n as nat));
    if to_bytes(&value).len() > bytes {
        return Err(Error::ResponseBudgetExceeded);
    }
    Ok(value)
}

/// The text an item carries where `text_kind` says; empty for none.
pub open spec fn item_text(v: JsonV) -> Seq<u8> {
    let k = text_kind(v);
    if k == 0 {
        seq![]
    } else {
        text_at(v, k)
    }
}

/// The texts of a list of items.
pub open spec fn item_texts(s: Seq<JsonV>) -> Seq<Seq<u8>> {
    s.map_values(|v: JsonV| item_text(v))
}

/// A piece of an item's text carries that piece, in the same place.
proof fn lemma_fragment_text(v: JsonV, t: Seq<u8>, offset: nat, complete: bool)
    requires
        text_kind(v) != 0,
    ensures
        item_text(fragment(v, text_kind(v), t, offset, complete)) == t,
        text_kind(fragment(v, text_kind(v), t, offset, complete)) == text_kind(v),
{
    let k = text_kind(v);
    assert(v is Obj);
    assert(p_text().len() == 4 && p_text_byte_offset().len() == 16 && p_text_complete().len() == 13);
    assert(p_text() != p_text_byte_offset());
    assert(p_text() != p_text_complete());
    assert(p_change() != p_text_byte_offset());
    assert(p_change() != p_text_complete());
    assert(p_text() != p_change());
    let w = with_text(v, k, t);
    if k == 1 {
        crate::json::lemma_set_member(v, p_text(), JsonV::Str(t), p_text());
    } else {
        let c = member(v, p_change())->Some_0;
        assert(c is Obj);
        crate::json::lemma_set_member(c, p_text(), JsonV::Str(t), p_text());
        crate::json::lemma_set_member(v, p_change(), set_member(c, p_text(), JsonV::Str(t)), p_text());
        crate::json::lemma_set_member(v, p_change(), set_member(c, p_text(), JsonV::Str(t)), p_change());
    }
    assert(w is Obj);
    let w2 = set_member(w, p_text_byte_offset(), JsonV::Num(offset));
    crate::json::lemma_set_member(w, p_text_byte_offset(), JsonV::Num(offset), p_text());
    crate::json::lemma_set_member(w, p_text_byte_offset(), JsonV::Num(offset), p_change());
    crate::json::lemma_set_member(w2, p_text_complete(), JsonV::Bool(complete), p_text());
    crate::json::lemma_set_member(w2, p_text_complete(), JsonV::Bool(complete), p_change());
}

/// Law: the rows that paging gives carry, one after another, exactly the
/// text of the items between where paging started and where it stopped.
/// So the pages of a listing, followed cursor by cursor, give every text
/// back unchanged, however long.
#[verifier::spinoff_prover]
#[verifier::rlimit(60)]
pub proof fn lemma_page_rows_reassemble(
    items: Seq<JsonV>,
    index: int,
    offset: int,
    used: int,
    max: int,
    bytes: int,
    out: Seq<JsonV>,
)
    requires
        0 <= index <= items.len(),
        index < items.len() ==> 0 <= offset <= item_text(items[index]).len(),
        index == items.len() ==> offset == 0,
        page_rows(items, index, offset, used, max, bytes, out) is Ok,
    ensures
        ({
            let t = item_texts(items);
            let (rows, l, o) = page_rows(items, index, offset, used, max, bytes, out)->Ok_0;
            &&& index <= l <= items.len()
            &&& (l < items.len() ==> 0 <= o <= item_text(items[l]).len())
            &&& (l == items.len() ==> o == 0)
            &&& flat(t, index, offset) <= flat(t, l, o) <= joined(t).len()
            &&& joined(item_texts(rows)) == joined(item_texts(out)) + joined(t).subrange(
                flat(t, index, offset),
                flat(t, l, o),
            )
        }),
    decreases items.len() - index,
{
    let t = item_texts(items);
    let jt = joined(t);
    if index < items.len() {
        crate::text::lemma_joined_line(t, index, offset);
    } else {
        crate::text::lemma_joined_split(t, index);
        assert(t.subrange(index, t.len() as int) =~= Seq::<Seq<u8>>::empty());
        assert(joined(Seq::<Seq<u8>>::empty()) =~= Seq::<u8>::empty());
        assert(t.subrange(0, index) =~= t);
    }
    if !(0 <= index < items.len() && out.len() < max) {
        assert(jt.subrange(flat(t, index, offset), flat(t, index, offset)) =~= Seq::<u8>::empty());
        assert(joined(item_texts(out)) + Seq::<u8>::empty() =~= joined(item_texts(out)));
    } else {
        let row = items[index];
        let kind = text_kind(row);
        let size = json_bytes(row).len() + 1;
        assert(t[index] == item_text(row));
        if size + used > bytes || offset > 0 {
            if kind != 0 {
                let original = text_at(row, kind);
                assert(original == item_text(row));
                let overhead = json_bytes(with_text(row, kind, seq![])).len() + 128;
                let available = sat_sub(bytes, used + overhead);
                let target = if offset + available / 6 < original.len() {
                    offset + available / 6
                } else {
                    original.len() as int
                };
                crate::text::lemma_boundary_floor(original, offset, target);
                let end = boundary_floor(original, target);
                if end == offset && end < original.len() {
                    assert(jt.subrange(flat(t, index, offset), flat(t, index, offset)) =~= Seq::<u8>::empty());
                    assert(joined(item_texts(out)) + Seq::<u8>::empty() =~= joined(item_texts(out)));
                } else {
                    let piece = original.subrange(offset, end);
                    let frag = fragment(row, kind, piece, offset as nat, end == original.len());
                    lemma_fragment_text(row, piece, offset as nat, end == original.len());
                    let out2 = out.push(frag);
                    assert(item_texts(out2) =~= item_texts(out).push(piece));
                    assert(item_texts(out2).drop_last() =~= item_texts(out));
                    assert(joined(item_texts(out2)) == joined(item_texts(out)) + piece);
                    crate::text::lemma_joined_line(t, index, end);
                    assert(jt.subrange(flat(t, index, offset), flat(t, index, end)) =~= piece) by {
                        assert(jt.subrange(flat(t, index, 0), flat(t, index, end)) == original.subrange(0, end));
                        assert(jt.subrange(flat(t, index, 0), flat(t, index, offset)) == original.subrange(0, offset));
                        assert(jt.subrange(flat(t, index, offset), flat(t, index, end)) =~= jt.subrange(
                            flat(t, index, 0),
                            flat(t, index, end),
                        ).subrange(offset, end));
                    }
                    if end < original.len() {
                    } else {
                        let used2 = used + json_bytes(frag).len() + 1;
                        if index + 1 < items.len() {
                            crate::text::lemma_joined_line(t, index + 1, 0);
                        }
                        lemma_page_rows_reassemble(items, index + 1, 0, used2, max, bytes, out2);
                        let (rows, l, o) = page_rows(items, index + 1, 0, used2, max, bytes, out2)->Ok_0;
                        assert(flat(t, index + 1, 0) == flat(t, index, end));
                        assert(jt.subrange(flat(t, index, offset), flat(t, l, o)) =~= jt.subrange(
                            flat(t, index, offset),
                            flat(t, index, end),
                        ) + jt.subrange(flat(t, index + 1, 0), flat(t, l, o)));
                    }
                }
            } else {
                assert(jt.subrange(flat(t, index, offset), flat(t, index, offset)) =~= Seq::<u8>::empty());
                assert(joined(item_texts(out)) + Seq::<u8>::empty() =~= joined(item_texts(out)));
            }
        } else {
            assert(offset == 0);
            let out2 = out.push(row);
            assert(item_texts(out2) =~= item_texts(out).push(item_text(row)));
            assert(item_texts(out2).drop_last() =~= item_texts(out));
            crate::text::lemma_joined_line(t, index, item_text(row).len() as int);
            assert(item_text(row).subrange(0, item_text(row).len() as int) =~= item_text(row));
            if index + 1 < items.len() {
                crate::text::lemma_joined_line(t, index + 1, 0);
            }
            lemma_page_rows_reassemble(items, index + 1, 0, used + size, max, bytes, out2);
            let (rows, l, o) = page_rows(items, index + 1, 0, used + size, max, bytes, out2)->Ok_0;
            assert(jt.subrange(flat(t, index, 0), flat(t, l, o)) =~= jt.subrange(
                flat(t, index, 0),
                flat(t, index + 1, 0),
            ) + jt.subrange(flat(t, index + 1, 0), flat(t, l, o)));
        }
    }
}

} // verus!
