//! Byte-string helpers shared by the parsers.
use vstd::prelude::*;
use vstd::utf8::{decode_utf8, is_continuation_byte, pop_first_scalar, valid_first_scalar, valid_utf8};

verus! {

broadcast use vstd::slice::group_slice_axioms;

/// Appends the bytes of `src` to `out`.
pub fn append_bytes(out: &mut Vec<u8>, src: &[u8])
    ensures
        final(out)@ == old(out)@ + src@,
{
    let mut i: usize = 0;
    while i < src.len()
        invariant
            i <= src@.len(),
            out@ == old(out)@ + src@.subrange(0, i as int),
        decreases src@.len() - i,
    {
        out.push(src[i]);
        i = i + 1;
        assert(out@ =~= old(out)@ + src@.subrange(0, i as int));
    }
    assert(src@.subrange(0, src@.len() as int) =~= src@);
}

/// Whether two byte strings are equal.
pub fn bytes_equal(a: &[u8], b: &[u8]) -> (res: bool)
    ensures
        res == (a@ == b@),
{
    if a.len() != b.len() {
        return false;
    }
    let mut i: usize = 0;
    while i < a.len()
        invariant
            a@.len() == b@.len(),
            i <= a@.len(),
            forall|j: int| 0 <= j < i ==> a@[j] == b@[j],
        decreases a@.len() - i,
    {
        if a[i] != b[i] {
            return false;
        }
        i = i + 1;
    }
    assert(a@ =~= b@);
    true
}

/// Position of the first `c` in `b` at or after `from`.
pub open spec fn find_byte(b: Seq<u8>, c: u8, from: int) -> Option<int>
    decreases b.len() - from,
{
    if from < 0 || from >= b.len() {
        None
    } else if b[from] == c {
        Some(from)
    } else {
        find_byte(b, c, from + 1)
    }
}

pub proof fn lemma_find_byte(b: Seq<u8>, c: u8, from: int)
    requires
        0 <= from,
    ensures
        find_byte(b, c, from) matches Some(i) ==> from <= i < b.len() && b[i] == c && (forall|
            j: int,
        | from <= j < i ==> b[j] != c),
        find_byte(b, c, from) is None ==> forall|j: int| from <= j < b.len() ==> b[j] != c,
    decreases b.len() - from,
{
    if from < b.len() && b[from] != c {
        lemma_find_byte(b, c, from + 1);
    }
}

pub fn position_of(b: &[u8], c: u8, from: usize) -> (res: Option<usize>)
    ensures
        match res {
            Some(r) => find_byte(b@, c, from as int) == Some(r as int),
            None => find_byte(b@, c, from as int) is None,
        },
{
    let mut i = from;
    while i < b.len()
        invariant
            from <= i,
            find_byte(b@, c, from as int) == find_byte(b@, c, i as int),
        decreases b@.len() - i,
    {
        if b[i] == c {
            return Some(i);
        }
        i = i + 1;
    }
    None
}

/// A copy of the bytes of `b`.
pub fn to_vec(b: &[u8]) -> (res: Vec<u8>)
    ensures
        res@ == b@,
{
    let mut v: Vec<u8> = Vec::new();
    append_bytes(&mut v, b);
    assert(v@ =~= b@);
    v
}

/// Whether `b` starts with `p`.
pub open spec fn has_prefix(b: Seq<u8>, p: Seq<u8>) -> bool {
    p.len() <= b.len() && b.subrange(0, p.len() as int) == p
}

/// Whether `b` starts with `p`.
pub fn starts_with(b: &[u8], p: &[u8]) -> (res: bool)
    ensures
        res == has_prefix(b@, p@),
{
    if p.len() > b.len() {
        return false;
    }
    bytes_equal(vstd::slice::slice_subrange(b, 0, p.len()), p)
}

/// `std::str::from_utf8` followed by `to_owned`: the documentation says it
/// succeeds exactly on valid UTF-8, and the string's characters are the ones
/// the bytes encode.
#[verifier::external_body]
pub(crate) fn utf8_string(b: &[u8]) -> (res: Option<String>)
    ensures
        res is Some <==> valid_utf8(b@),
        res matches Some(s) ==> s@ == decode_utf8(b@),
{
    match std::str::from_utf8(b) {
        Ok(s) => Some(s.to_owned()),
        Err(_) => None,
    }
}

/// Whether `b` is valid UTF-8.
pub fn is_utf8(b: &[u8]) -> (res: bool)
    ensures
        res == valid_utf8(b@),
{
    utf8_string(b).is_some()
}

/// The string that valid UTF-8 bytes encode.
pub fn string_of(b: &[u8]) -> (res: String)
    requires
        valid_utf8(b@),
    ensures
        res@ == decode_utf8(b@),
{
    match utf8_string(b) {
        Some(s) => s,
        None => String::new(),
    }
}

/// A piece of valid UTF-8 cut where no character continues is valid UTF-8.
pub proof fn lemma_utf8_piece(s: Seq<u8>, i: int, j: int)
    requires
        valid_utf8(s),
        0 <= i <= j <= s.len(),
        i == s.len() || !is_continuation_byte(s[i]),
        j == s.len() || !is_continuation_byte(s[j]),
    ensures
        valid_utf8(s.subrange(i, j)),
{
    broadcast use vstd::utf8::group_utf8_lib;

    if i < s.len() {
        assert(vstd::utf8::is_char_boundary(s, i));
    }
    let t = s.subrange(i, s.len() as int);
    assert(valid_utf8(t));
    if j < s.len() {
        assert(t[j - i] == s[j]);
        assert(vstd::utf8::is_char_boundary(t, j - i));
        assert(valid_utf8(t.subrange(0, j - i)));
    } else {
        assert(t.subrange(0, j - i) =~= t);
    }
    assert(t.subrange(0, j - i) =~= s.subrange(i, j));
}

/// In valid UTF-8 the byte after an ASCII byte starts a character.
pub proof fn lemma_after_ascii(s: Seq<u8>, k: int)
    requires
        valid_utf8(s),
        0 <= k < s.len(),
        s[k] < 128,
    ensures
        k + 1 == s.len() || !is_continuation_byte(s[k + 1]),
{
    broadcast use vstd::utf8::group_utf8_lib;

    assert(!is_continuation_byte(s[k]));
    assert(vstd::utf8::is_char_boundary(s, k));
    let t = s.subrange(k, s.len() as int);
    assert(valid_utf8(t));
    assert(t[0] == s[k]);
    assert(valid_utf8(pop_first_scalar(t)));
    assert(pop_first_scalar(t) =~= s.subrange(k + 1, s.len() as int));
    if k + 1 < s.len() {
        let u = s.subrange(k + 1, s.len() as int);
        assert(u[0] == s[k + 1]);
        assert(valid_first_scalar(u));
    }
}

/// A control character other than tab, line feed and carriage return
/// starts at `i`: a C0 control or DEL, or the two-byte UTF-8 encoding of a
/// C1 control.
pub open spec fn control_at(b: Seq<u8>, i: int) -> bool {
    let c = b[i];
    (c < 32 && c != 9 && c != 10 && c != 13) || c == 127 || (c == 194 && i + 1 < b.len() && 128
        <= b[i + 1] <= 159)
}

/// No control character other than tab, line feed and carriage return.
pub open spec fn control_free(b: Seq<u8>) -> bool {
    forall|i: int| 0 <= i < b.len() ==> !#[trigger] control_at(b, i)
}

/// Whether `b` is free of control characters other than tab, line feed and
/// carriage return.
pub fn is_control_free(b: &[u8]) -> (res: bool)
    ensures
        res == control_free(b@),
{
    let mut i: usize = 0;
    while i < b.len()
        invariant
            i <= b@.len(),
            forall|j: int| 0 <= j < i ==> !#[trigger] control_at(b@, j),
        decreases b@.len() - i,
    {
        let c = b[i];
        if (c < 32 && c != 9 && c != 10 && c != 13) || c == 127 {
            assert(control_at(b@, i as int));
            return false;
        }
        if c == 194 && i + 1 < b.len() && 128 <= b[i + 1] && b[i + 1] <= 159 {
            assert(control_at(b@, i as int));
            return false;
        }
        i = i + 1;
    }
    true
}

/// ASCII bytes are valid UTF-8.
pub proof fn lemma_ascii_utf8(b: Seq<u8>)
    requires
        forall|i: int| 0 <= i < b.len() ==> b[i] < 128,
    ensures
        valid_utf8(b),
    decreases b.len(),
{
    if b.len() > 0 {
        let rest = b.subrange(1, b.len() as int);
        assert(pop_first_scalar(b) =~= rest);
        lemma_ascii_utf8(rest);
    }
}

/// Whether `k` is where a character of the valid UTF-8 `s` starts, or its end.
pub open spec fn at_boundary(s: Seq<u8>, k: int) -> bool {
    0 <= k <= s.len() && (k == s.len() || !is_continuation_byte(s[k]))
}

} // verus!
