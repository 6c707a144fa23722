//! JSON values as the tools return them, and their exact serialized bytes.
use crate::bytes::append_bytes;
use crate::git::store::{decimal, decimal_bytes};
use vstd::prelude::*;
use vstd::string::StringSliceAdditionalSpecFns;
use vstd::utf8::{encode_utf8, valid_utf8};

verus! {

/// A JSON value. Object members keep the order they were given in.
#[derive(Debug)]
pub enum Json {
    Null,
    Bool(bool),
    Num(u128),
    Str(String),
    Arr(Vec<Json>),
    Obj(Vec<(String, Json)>),
}

/// The mathematical form of a JSON value; strings are their UTF-8 bytes.
pub enum JsonV {
    Null,
    Bool(bool),
    Num(nat),
    Str(Seq<u8>),
    Arr(Seq<JsonV>),
    Obj(Seq<(Seq<u8>, JsonV)>),
}

impl Json {
    /// The value this JSON value stands for.
    pub open spec fn jv(self) -> JsonV
        decreases self,
    {
        match self {
            Json::Null => JsonV::Null,
            Json::Bool(b) => JsonV::Bool(b),
            Json::Num(n) => JsonV::Num(n as nat),
            Json::Str(s) => JsonV::Str(encode_utf8(s@)),
            Json::Arr(items) => JsonV::Arr(items_view(items@)),
            Json::Obj(fields) => JsonV::Obj(fields_view(fields@)),
        }
    }
}

/// The values a sequence of JSON values stands for.
pub open spec fn items_view(s: Seq<Json>) -> Seq<JsonV>
    decreases s,
{
    if s.len() == 0 {
        seq![]
    } else {
        items_view(s.subrange(0, s.len() - 1)).push(s[s.len() - 1].jv())
    }
}

/// The members a sequence of JSON object members stands for.
pub open spec fn fields_view(s: Seq<(String, Json)>) -> Seq<(Seq<u8>, JsonV)>
    decreases s,
{
    if s.len() == 0 {
        seq![]
    } else {
        fields_view(s.subrange(0, s.len() - 1)).push(
            (encode_utf8(s[s.len() - 1].0@), s[s.len() - 1].1.jv()),
        )
    }
}

/// A lowercase hexadecimal digit.
pub open spec fn hex_lower(d: int) -> u8 {
    if d < 10 {
        (48 + d) as u8
    } else {
        (87 + d) as u8
    }
}

/// How a byte of a string is written inside JSON quotes: quote and
/// backslash escaped, the usual short escapes for backspace, form feed,
/// line feed, carriage return and tab, `\u00XX` for the other bytes below
/// 32, and every other byte as it is.
pub open spec fn escape_byte(c: u8) -> Seq<u8> {
    if c == 34 {
        seq![92u8, 34u8]
    } else if c == 92 {
        seq![92u8, 92u8]
    } else if c == 8 {
        seq![92u8, 98u8]
    } else if c == 12 {
        seq![92u8, 102u8]
    } else if c == 10 {
        seq![92u8, 110u8]
    } else if c == 13 {
        seq![92u8, 114u8]
    } else if c == 9 {
        seq![92u8, 116u8]
    } else if c < 32 {
        seq![92u8, 117u8, 48u8, 48u8, hex_lower(c as int / 16), hex_lower(c as int % 16)]
    } else {
        seq![c]
    }
}

/// The escaped form of a string's bytes.
pub open spec fn escaped(s: Seq<u8>) -> Seq<u8>
    decreases s.len(),
{
    if s.len() == 0 {
        seq![]
    } else {
        escaped(s.drop_last()) + escape_byte(s.last())
    }
}

/// A JSON string literal.
pub open spec fn json_string(s: Seq<u8>) -> Seq<u8> {
    seq![34u8] + escaped(s) + seq![34u8]
}

/// The compact serialization of a JSON value.
pub open spec fn json_bytes(v: JsonV) -> Seq<u8>
    decreases v,
{
    match v {
        JsonV::Null => seq![110u8, 117u8, 108u8, 108u8],
        JsonV::Bool(b) => if b {
            seq![116u8, 114u8, 117u8, 101u8]
        } else {
            seq![102u8, 97u8, 108u8, 115u8, 101u8]
        },
        JsonV::Num(n) => decimal(n),
        JsonV::Str(s) => json_string(s),
        JsonV::Arr(items) => seq![91u8] + json_list(items) + seq![93u8],
        JsonV::Obj(fields) => seq![123u8] + json_members(fields) + seq![125u8],
    }
}

/// Values separated by commas.
pub open spec fn json_list(s: Seq<JsonV>) -> Seq<u8>
    decreases s,
{
    if s.len() == 0 {
        seq![]
    } else if s.len() == 1 {
        json_bytes(s[0])
    } else {
        json_list(s.subrange(0, s.len() - 1)) + seq![44u8] + json_bytes(s[s.len() - 1])
    }
}

/// Object members, each a key, a colon and a value, separated by commas.
pub open spec fn json_members(s: Seq<(Seq<u8>, JsonV)>) -> Seq<u8>
    decreases s,
{
    if s.len() == 0 {
        seq![]
    } else if s.len() == 1 {
        json_string(s[0].0) + seq![58u8] + json_bytes(s[0].1)
    } else {
        json_members(s.subrange(0, s.len() - 1)) + seq![44u8] + json_string(s[s.len() - 1].0)
            + seq![58u8] + json_bytes(s[s.len() - 1].1)
    }
}

pub proof fn lemma_items_view(s: Seq<Json>)
    ensures
        items_view(s).len() == s.len(),
        forall|k: int| 0 <= k < s.len() ==> #[trigger] items_view(s)[k] == s[k].jv(),
    decreases s.len(),
{
    if s.len() > 0 {
        lemma_items_view(s.subrange(0, s.len() - 1));
    }
}

pub proof fn lemma_fields_view(s: Seq<(String, Json)>)
    ensures
        fields_view(s).len() == s.len(),
        forall|k: int|
            0 <= k < s.len() ==> #[trigger] fields_view(s)[k] == (encode_utf8(s[k].0@), s[k].1.jv()),
    decreases s.len(),
{
    if s.len() > 0 {
        lemma_fields_view(s.subrange(0, s.len() - 1));
    }
}

fn hex_digit_byte(d: u8) -> (res: u8)
    requires
        d < 16,
    ensures
        res == hex_lower(d as int),
{
    if d < 10 {
        48 + d
    } else {
        87 + d
    }
}

/// Writes the JSON string literal of `s`.
pub fn write_string(s: &[u8], out: &mut Vec<u8>)
    ensures
        final(out)@ == old(out)@ + json_string(s@),
{
    out.push(34u8);
    let mut i: usize = 0;
    while i < s.len()
        invariant
            i <= s@.len(),
            out@ == old(out)@ + seq![34u8] + escaped(s@.subrange(0, i as int)),
        decreases s@.len() - i,
    {
        let c = s[i];
        let ghost before = out@;
        if c == 34 {
            out.push(92u8);
            out.push(34u8);
        } else if c == 92 {
            out.push(92u8);
            out.push(92u8);
        } else if c == 8 {
            out.push(92u8);
            out.push(98u8);
        } else if c == 12 {
            out.push(92u8);
            out.push(102u8);
        } else if c == 10 {
            out.push(92u8);
            out.push(110u8);
        } else if c == 13 {
            out.push(92u8);
            out.push(114u8);
        } else if c == 9 {
            out.push(92u8);
            out.push(116u8);
        } else if c < 32 {
            out.push(92u8);
            out.push(117u8);
            out.push(48u8);
            out.push(48u8);
            out.push(hex_digit_byte(c / 16));
            out.push(hex_digit_byte(c % 16));
        } else {
            out.push(c);
        }
        assert(out@ =~= before + escape_byte(c));
        assert(s@.subrange(0, i + 1).drop_last() =~= s@.subrange(0, i as int));
        i = i + 1;
    }
    assert(s@.subrange(0, s@.len() as int) =~= s@);
    out.push(34u8);
}

/// Writes the compact serialization of `v`.
pub fn write_json(v: &Json, out: &mut Vec<u8>)
    ensures
        final(out)@ == old(out)@ + json_bytes(v.jv()),
    decreases v,
{
    match v {
        Json::Null => {
            out.push(110u8);
            out.push(117u8);
            out.push(108u8);
            out.push(108u8);
        },
        Json::Bool(b) => {
            if *b {
                out.push(116u8);
                out.push(114u8);
                out.push(117u8);
                out.push(101u8);
            } else {
                out.push(102u8);
                out.push(97u8);
                out.push(108u8);
                out.push(115u8);
                out.push(101u8);
            }
        },
        Json::Num(n) => {
            let digits = crate::git::store::decimal_bytes_u128(*n);
            append_bytes(out, digits.as_slice());
        },
        Json::Str(s) => {
            write_string(s.as_str().as_bytes(), out);
        },
        Json::Arr(items) => {
            proof {
                lemma_items_view(items@);
            }
            let ghost start = out@;
            out.push(91u8);
            let mut i: usize = 0;
            while i < items.len()
                invariant
                    *v == Json::Arr(*items),
                    i <= items@.len(),
                    items_view(items@).len() == items@.len(),
                    forall|k: int|
                        0 <= k < items@.len() ==> #[trigger] items_view(items@)[k] == items@[k].jv(),
                    out@ == start + seq![91u8] + json_list(
                        items_view(items@).subrange(0, i as int),
                    ),
                decreases items@.len() - i,
            {
                let ghost t = items_view(items@);
                assert(t.subrange(0, i + 1).subrange(0, i as int) =~= t.subrange(0, i as int));
                if i > 0 {
                    out.push(44u8);
                }
                proof {
                    vstd::std_specs::vec::axiom_vec_index_decreases(*items, i as int);
                    assert(decreases_to!(*v => (*v)->Arr_0));
                    assert(decreases_to!(*items => items[i as int]));
                    assert(decreases_to!(*v => items[i as int]));
                }
                write_json(&items[i], out);
                assert(t.subrange(0, i + 1)[i as int] == items@[i as int].jv());
                i = i + 1;
            }
            assert(items_view(items@).subrange(0, items@.len() as int) =~= items_view(items@));
            out.push(93u8);
        },
        Json::Obj(fields) => {
            proof {
                lemma_fields_view(fields@);
            }
            let ghost start = out@;
            out.push(123u8);
            let mut i: usize = 0;
            while i < fields.len()
                invariant
                    *v == Json::Obj(*fields),
                    i <= fields@.len(),
                    fields_view(fields@).len() == fields@.len(),
                    forall|k: int|
                        0 <= k < fields@.len() ==> #[trigger] fields_view(fields@)[k] == (
                            encode_utf8(fields@[k].0@),
                            fields@[k].1.jv(),
                        ),
                    out@ == start + seq![123u8] + json_members(
                        fields_view(fields@).subrange(0, i as int),
                    ),
                decreases fields@.len() - i,
            {
                let ghost t = fields_view(fields@);
                assert(t.subrange(0, i + 1).subrange(0, i as int) =~= t.subrange(0, i as int));
                if i > 0 {
                    out.push(44u8);
                }
                let (key, value) = &fields[i];
                write_string(key.as_str().as_bytes(), out);
                out.push(58u8);
                proof {
                    vstd::std_specs::vec::axiom_vec_index_decreases(*fields, i as int);
                    assert(decreases_to!(*v => (*v)->Obj_0));
                    assert(decreases_to!(*fields => fields[i as int]));
                    assert(decreases_to!(fields[i as int] => fields[i as int].1));
                    assert(decreases_to!(*v => fields[i as int].1));
                }
                write_json(value, out);
                assert(t.subrange(0, i + 1)[i as int] == (
                    encode_utf8(fields@[i as int].0@),
                    fields@[i as int].1.jv(),
                ));
                i = i + 1;
            }
            assert(fields_view(fields@).subrange(0, fields@.len() as int) =~= fields_view(
                fields@,
            ));
            out.push(125u8);
        },
    }
}

/// The compact serialization of `v`.
pub fn to_bytes(v: &Json) -> (res: Vec<u8>)
    ensures
        res@ == json_bytes(v.jv()),
{
    let mut out: Vec<u8> = Vec::new();
    write_json(v, &mut out);
    assert(out@ =~= json_bytes(v.jv()));
    out
}

/// Escaping distributes over concatenation.
pub proof fn lemma_escaped_concat(a: Seq<u8>, b: Seq<u8>)
    ensures
        escaped(a + b) == escaped(a) + escaped(b),
    decreases b.len(),
{
    if b.len() == 0 {
        assert(a + b =~= a);
        assert(escaped(a) + escaped(b) =~= escaped(a));
    } else {
        lemma_escaped_concat(a, b.drop_last());
        assert((a + b).drop_last() =~= a + b.drop_last());
        assert((a + b).last() == b.last());
        assert(escaped(a) + escaped(b.drop_last()) + escape_byte(b.last()) =~= escaped(a) + (
        escaped(b.drop_last()) + escape_byte(b.last())));
    }
}

proof fn lemma_escaped_high(s: Seq<u8>)
    requires
        forall|i: int| 0 <= i < s.len() ==> s[i] >= 128,
    ensures
        escaped(s) == s,
    decreases s.len(),
{
    if s.len() > 0 {
        lemma_escaped_high(s.drop_last());
        assert(s.drop_last().push(s.last()) =~= s);
        assert(escape_byte(s.last()) =~= seq![s.last()]);
    }
}

proof fn lemma_escape_byte_ascii(c: u8)
    requires
        c < 128,
    ensures
        forall|i: int| 0 <= i < escape_byte(c).len() ==> escape_byte(c)[i] < 128,
{
}

/// Escaping keeps UTF-8 valid.
pub proof fn lemma_escaped_utf8(s: Seq<u8>)
    requires
        valid_utf8(s),
    ensures
        valid_utf8(escaped(s)),
    decreases s.len(),
{
    broadcast use vstd::utf8::group_utf8_lib;

    if s.len() > 0 {
        let n = vstd::utf8::length_of_first_scalar(s);
        let head = s.subrange(0, n);
        let tail = s.subrange(n, s.len() as int);
        assert(vstd::utf8::pop_first_scalar(s) == tail);
        assert(valid_utf8(tail));
        lemma_escaped_utf8(tail);
        assert(s =~= head + tail);
        lemma_escaped_concat(head, tail);
        if n == 1 {
            assert(head =~= seq![s[0]]);
            assert(escaped(head) =~= escape_byte(s[0])) by {
                assert(head.drop_last() =~= Seq::<u8>::empty());
                assert(escaped(head.drop_last()) =~= Seq::<u8>::empty());
                assert(head.last() == s[0]);
            }
            lemma_escape_byte_ascii(s[0]);
            crate::bytes::lemma_ascii_utf8(escaped(head));
        } else {
            assert forall|i: int| 0 <= i < head.len() implies head[i] >= 128 by {}
            lemma_escaped_high(head);
            assert(vstd::utf8::is_char_boundary(s, n)) by {
                if n < s.len() {
                    assert(vstd::utf8::valid_first_scalar(tail));
                    assert(!vstd::utf8::is_continuation_byte(s[n]));
                }
            }
            assert(valid_utf8(s.subrange(0, n)));
        }
        vstd::utf8::valid_utf8_concat(escaped(head), escaped(tail));
    }
}

/// The JSON string literal of valid UTF-8 bytes is valid UTF-8.
pub proof fn lemma_json_string_utf8(s: Seq<u8>)
    requires
        valid_utf8(s),
    ensures
        valid_utf8(json_string(s)),
{
    broadcast use vstd::utf8::group_utf8_lib;

    lemma_escaped_utf8(s);
    crate::bytes::lemma_ascii_utf8(seq![34u8]);
    vstd::utf8::valid_utf8_concat(seq![34u8], escaped(s));
    vstd::utf8::valid_utf8_concat(seq![34u8] + escaped(s), seq![34u8]);
}

/// The string of some ASCII bytes.
pub fn ascii_string(b: &[u8]) -> (res: String)
    requires
        forall|i: int| 0 <= i < b@.len() ==> b@[i] < 128,
    ensures
        encode_utf8(res@) == b@,
{
    proof {
        crate::bytes::lemma_ascii_utf8(b@);
    }
    let s = crate::bytes::string_of(b);
    proof {
        vstd::utf8::decode_utf8_encode_utf8(b@);
    }
    s
}

/// A copy of a JSON value.
pub fn clone_json(v: &Json) -> (res: Json)
    ensures
        res.jv() == v.jv(),
    decreases v,
{
    match v {
        Json::Null => Json::Null,
        Json::Bool(b) => Json::Bool(*b),
        Json::Num(n) => Json::Num(*n),
        Json::Str(s) => Json::Str(s.clone()),
        Json::Arr(items) => {
            proof {
                lemma_items_view(items@);
            }
            let mut out: Vec<Json> = Vec::new();
            let mut i: usize = 0;
            while i < items.len()
                invariant
                    *v == Json::Arr(*items),
                    i <= items@.len(),
                    out@.len() == i,
                    forall|k: int| 0 <= k < i ==> #[trigger] out@[k].jv() == items@[k].jv(),
                decreases items@.len() - i,
            {
                proof {
                    vstd::std_specs::vec::axiom_vec_index_decreases(*items, i as int);
                    assert(decreases_to!(*v => (*v)->Arr_0));
                    assert(decreases_to!(*items => items[i as int]));
                }
                let c = clone_json(&items[i]);
                out.push(c);
                i = i + 1;
            }
            proof {
                lemma_items_view(out@);
                assert(items_view(out@) =~= items_view(items@));
            }
            Json::Arr(out)
        },
        Json::Obj(fields) => {
            proof {
                lemma_fields_view(fields@);
            }
            let mut out: Vec<(String, Json)> = Vec::new();
            let mut i: usize = 0;
            while i < fields.len()
                invariant
                    *v == Json::Obj(*fields),
                    i <= fields@.len(),
                    out@.len() == i,
                    forall|k: int|
                        0 <= k < i ==> #[trigger] out@[k].0@ == fields@[k].0@ && out@[k].1.jv()
                            == fields@[k].1.jv(),
                decreases fields@.len() - i,
            {
                proof {
                    vstd::std_specs::vec::axiom_vec_index_decreases(*fields, i as int);
                    assert(decreases_to!(*v => (*v)->Obj_0));
                    assert(decreases_to!(*fields => fields[i as int]));
                    assert(decreases_to!(fields[i as int] => fields[i as int].1));
                }
                let (k, value) = &fields[i];
                let c = clone_json(value);
                out.push((k.clone(), c));
                i = i + 1;
            }
            proof {
                lemma_fields_view(out@);
                assert(fields_view(out@) =~= fields_view(fields@));
            }
            Json::Obj(out)
        },
    }
}

/// Where the first member named `key` is, from `i` on.
pub open spec fn member_index(m: Seq<(Seq<u8>, JsonV)>, key: Seq<u8>, i: int) -> Option<int>
    decreases m.len() - i,
{
    if i < 0 || i >= m.len() {
        None
    } else if m[i].0 == key {
        Some(i)
    } else {
        member_index(m, key, i + 1)
    }
}

pub proof fn lemma_member_index(m: Seq<(Seq<u8>, JsonV)>, key: Seq<u8>, i: int)
    requires
        0 <= i,
    ensures
        member_index(m, key, i) matches Some(j) ==> i <= j < m.len() && m[j].0 == key,
    decreases m.len() - i,
{
    if i < m.len() && m[i].0 != key {
        lemma_member_index(m, key, i + 1);
    }
}

/// The value of the first member named `key` of an object.
pub open spec fn member(v: JsonV, key: Seq<u8>) -> Option<JsonV> {
    match v {
        JsonV::Obj(m) => match member_index(m, key, 0) {
            Some(i) => Some(m[i].1),
            None => None,
        },
        _ => None,
    }
}

/// An object with the first member named `key` set to `val`, or with the
/// member added at the end when there is none.
pub open spec fn set_member(v: JsonV, key: Seq<u8>, val: JsonV) -> JsonV {
    match v {
        JsonV::Obj(m) => match member_index(m, key, 0) {
            Some(i) => JsonV::Obj(m.update(i, (key, val))),
            None => JsonV::Obj(m.push((key, val))),
        },
        _ => v,
    }
}

/// Where the first member named `key` is.
pub fn find_member(fields: &Vec<(String, Json)>, key: &[u8]) -> (res: Option<usize>)
    ensures
        match res {
            Some(r) => member_index(fields_view(fields@), key@, 0) == Some(r as int),
            None => member_index(fields_view(fields@), key@, 0) is None,
        },
{
    proof {
        lemma_fields_view(fields@);
    }
    let mut i: usize = 0;
    while i < fields.len()
        invariant
            i <= fields@.len(),
            fields_view(fields@).len() == fields@.len(),
            forall|k: int|
                0 <= k < fields@.len() ==> #[trigger] fields_view(fields@)[k] == (
                    encode_utf8(fields@[k].0@),
                    fields@[k].1.jv(),
                ),
            member_index(fields_view(fields@), key@, 0) == member_index(
                fields_view(fields@),
                key@,
                i as int,
            ),
        decreases fields@.len() - i,
    {
        if crate::bytes::bytes_equal(fields[i].0.as_str().as_bytes(), key) {
            return Some(i);
        }
        i = i + 1;
    }
    None
}

/// A copy of an object with the member named `key` set to `val`.
pub fn with_member(v: &Json, key: &[u8], val: Json) -> (res: Json)
    requires
        forall|i: int| 0 <= i < key@.len() ==> key@[i] < 128,
    ensures
        res.jv() == set_member(v.jv(), key@, val.jv()),
{
    match v {
        Json::Obj(fields) => {
            proof {
                lemma_fields_view(fields@);
            }
            let at = find_member(fields, key);
            let ghost m = fields_view(fields@);
            let mut out: Vec<(String, Json)> = Vec::new();
            let mut i: usize = 0;
            while i < fields.len()
                invariant
                    i <= fields@.len(),
                    out@.len() == i,
                    m == fields_view(fields@),
                    m.len() == fields@.len(),
                    forall|k: int| 0 <= k < key@.len() ==> key@[k] < 128,
                    match at {
                        Some(j) => member_index(m, key@, 0) == Some(j as int),
                        None => member_index(m, key@, 0) is None,
                    },
                    forall|k: int|
                        0 <= k < fields@.len() ==> #[trigger] m[k] == (
                            encode_utf8(fields@[k].0@),
                            fields@[k].1.jv(),
                        ),
                    forall|k: int|
                        0 <= k < i ==> (encode_utf8(#[trigger] out@[k].0@), out@[k].1.jv()) == if at
                            == Some(k as usize) {
                            (key@, val.jv())
                        } else {
                            m[k]
                        },
                decreases fields@.len() - i,
            {
                if at == Some(i) {
                    let k = ascii_string(key);
                    let c = clone_json(&val);
                    out.push((k, c));
                } else {
                    let c = clone_json(&fields[i].1);
                    out.push((fields[i].0.clone(), c));
                }
                i = i + 1;
            }
            if at.is_none() {
                let k = ascii_string(key);
                out.push((k, val));
            }
            proof {
                lemma_fields_view(out@);
                match member_index(m, key@, 0) {
                    Some(j) => {
                        lemma_member_index(m, key@, 0);
                        assert(fields_view(out@) =~= m.update(j, (key@, val.jv())));
                    },
                    None => {
                        assert(fields_view(out@) =~= m.push((key@, val.jv())));
                    },
                }
            }
            Json::Obj(out)
        },
        _ => clone_json(v),
    }
}

/// Writes the compact serialization of an array of these values.
pub fn write_array(items: &Vec<Json>, out: &mut Vec<u8>)
    ensures
        final(out)@ == old(out)@ + json_bytes(JsonV::Arr(items_view(items@))),
{
    proof {
        lemma_items_view(items@);
    }
    let ghost start = out@;
    out.push(91u8);
    let mut i: usize = 0;
    while i < items.len()
        invariant
            i <= items@.len(),
            items_view(items@).len() == items@.len(),
            forall|k: int| 0 <= k < items@.len() ==> #[trigger] items_view(items@)[k] == items@[k].jv(),
            out@ == start + seq![91u8] + json_list(items_view(items@).subrange(0, i as int)),
        decreases items@.len() - i,
    {
        let ghost t = items_view(items@);
        assert(t.subrange(0, i + 1).subrange(0, i as int) =~= t.subrange(0, i as int));
        if i > 0 {
            out.push(44u8);
        }
        write_json(&items[i], out);
        assert(t.subrange(0, i + 1)[i as int] == items@[i as int].jv());
        i = i + 1;
    }
    assert(items_view(items@).subrange(0, items@.len() as int) =~= items_view(items@));
    out.push(93u8);
}

/// Where `member_index` stops, nothing before it from `i` on has the key.
pub proof fn lemma_member_index_first(m: Seq<(Seq<u8>, JsonV)>, key: Seq<u8>, i: int)
    requires
        0 <= i,
    ensures
        match member_index(m, key, i) {
            Some(j) => i <= j < m.len() && m[j].0 == key && forall|t: int| i <= t < j ==> m[t].0 != key,
            None => forall|t: int| i <= t < m.len() ==> m[t].0 != key,
        },
    decreases m.len() - i,
{
    if i < m.len() && m[i].0 != key {
        lemma_member_index_first(m, key, i + 1);
    }
}

/// The first position of a key is the one where it first stands.
proof fn lemma_member_index_is(m: Seq<(Seq<u8>, JsonV)>, key: Seq<u8>, j: int)
    requires
        0 <= j < m.len(),
        m[j].0 == key,
        forall|t: int| 0 <= t < j ==> m[t].0 != key,
    ensures
        member_index(m, key, 0) == Some(j),
{
    lemma_member_index_first(m, key, 0);
    match member_index(m, key, 0) {
        Some(k) => {
            if k < j {
                assert(m[k].0 != key);
            } else if k > j {
                assert(m[j].0 != key);
            }
        },
        None => {
            assert(m[j].0 != key);
        },
    }
}

/// A key no position holds has no member.
proof fn lemma_member_index_none(m: Seq<(Seq<u8>, JsonV)>, key: Seq<u8>)
    requires
        forall|t: int| 0 <= t < m.len() ==> m[t].0 != key,
    ensures
        member_index(m, key, 0) is None,
{
    lemma_member_index_first(m, key, 0);
    if let Some(k) = member_index(m, key, 0) {
        assert(m[k].0 != key);
    }
}

/// Setting a member of an object: that member reads back as set, the
/// others read as before.
pub proof fn lemma_set_member(v: JsonV, key: Seq<u8>, val: JsonV, key2: Seq<u8>)
    requires
        v is Obj,
    ensures
        set_member(v, key, val) is Obj,
        member(set_member(v, key, val), key2) == if key2 == key {
            Some(val)
        } else {
            member(v, key2)
        },
{
    let m = v->Obj_0;
    lemma_member_index_first(m, key, 0);
    lemma_member_index_first(m, key2, 0);
    match member_index(m, key, 0) {
        Some(i) => {
            let m2 = m.update(i, (key, val));
            if key2 == key {
                lemma_member_index_is(m2, key, i);
            } else {
                match member_index(m, key2, 0) {
                    Some(j) => {
                        assert(j != i);
                        lemma_member_index_is(m2, key2, j);
                    },
                    None => {
                        assert forall|t: int| 0 <= t < m2.len() implies m2[t].0 != key2 by {
                            if t != i {
                                assert(m2[t] == m[t]);
                            }
                        }
                        lemma_member_index_none(m2, key2);
                    },
                }
            }
        },
        None => {
            let m2 = m.push((key, val));
            if key2 == key {
                lemma_member_index_is(m2, key, m.len() as int);
            } else {
                match member_index(m, key2, 0) {
                    Some(j) => {
                        lemma_member_index_is(m2, key2, j);
                    },
                    None => {
                        assert forall|t: int| 0 <= t < m2.len() implies m2[t].0 != key2 by {
                            if t < m.len() {
                                assert(m2[t] == m[t]);
                            }
                        }
                        lemma_member_index_none(m2, key2);
                    },
                }
            }
        },
    }
}

} // verus!
