//! The formats of commit, tag and tree objects.
use crate::bytes::{
    find_byte, has_prefix, lemma_after_ascii, lemma_find_byte, lemma_utf8_piece, position_of,
    starts_with, string_of,
};
use crate::error::Error;
use crate::git::store::{hex_chars, hex_encode, oid_bytes};
use vstd::prelude::*;
use vstd::slice::slice_subrange;
use vstd::string::StringSliceAdditionalSpecFns;
use vstd::utf8::{decode_utf8, valid_utf8};

verus! {

broadcast use vstd::slice::group_slice_axioms;

/// Where the line that starts at `pos` ends, without its line ending
/// (`\n` or `\r\n`), and where the next line starts.
pub open spec fn line_span(b: Seq<u8>, pos: int) -> (int, int) {
    match find_byte(b, 10, pos) {
        None => (b.len() as int, b.len() as int),
        Some(i) => (if i > pos && b[i - 1] == 13 {
            i - 1
        } else {
            i
        }, i + 1),
    }
}

pub proof fn lemma_line_span(b: Seq<u8>, pos: int)
    requires
        0 <= pos < b.len(),
    ensures
        pos <= line_span(b, pos).0 <= line_span(b, pos).1 <= b.len(),
        pos < line_span(b, pos).1,
        line_span(b, pos).0 < b.len() ==> b[line_span(b, pos).0] == 10 || b[line_span(
            b,
            pos,
        ).0] == 13,
        line_span(b, pos).1 < b.len() ==> b[line_span(b, pos).1 - 1] == 10,
        forall|j: int| pos <= j < line_span(b, pos).0 ==> b[j] != 10,
{
    lemma_find_byte(b, 10, pos);
}

/// `tree `
pub open spec fn tree_word() -> Seq<u8> {
    seq![116u8, 114u8, 101u8, 101u8, 32u8]
}

/// `parent `
pub open spec fn parent_word() -> Seq<u8> {
    seq![112u8, 97u8, 114u8, 101u8, 110u8, 116u8, 32u8]
}

/// `author `
pub open spec fn author_word() -> Seq<u8> {
    seq![97u8, 117u8, 116u8, 104u8, 111u8, 114u8, 32u8]
}

/// `committer `
pub open spec fn committer_word() -> Seq<u8> {
    seq![99u8, 111u8, 109u8, 109u8, 105u8, 116u8, 116u8, 101u8, 114u8, 32u8]
}

/// `encoding `
pub open spec fn encoding_word() -> Seq<u8> {
    seq![101u8, 110u8, 99u8, 111u8, 100u8, 105u8, 110u8, 103u8, 32u8]
}

/// `utf-8`
pub open spec fn utf8_word() -> Seq<u8> {
    seq![117u8, 116u8, 102u8, 45u8, 56u8]
}

/// `object `
pub open spec fn object_word() -> Seq<u8> {
    seq![111u8, 98u8, 106u8, 101u8, 99u8, 116u8, 32u8]
}

/// The ASCII lowercase of a byte.
pub open spec fn ascii_lower(c: u8) -> u8 {
    if 65 <= c <= 90 {
        (c + 32) as u8
    } else {
        c
    }
}

/// Equal up to ASCII case.
pub open spec fn eq_ignore_ascii_case(a: Seq<u8>, b: Seq<u8>) -> bool {
    a.len() == b.len() && forall|i: int| 0 <= i < a.len() ==> ascii_lower(a[i]) == ascii_lower(b[i])
}

/// The fields a commit header sets: tree, parents, author and committer.
pub open spec fn header_line(
    line: Seq<u8>,
    acc: (Seq<u8>, Seq<Seq<u8>>, Seq<u8>, Seq<u8>),
) -> Result<(Seq<u8>, Seq<Seq<u8>>, Seq<u8>, Seq<u8>), Error> {
    if has_prefix(line, tree_word()) {
        let v = line.subrange(5, line.len() as int);
        if oid_bytes(v) {
            Ok((v, acc.1, acc.2, acc.3))
        } else {
            Err(Error::InvalidTreeId)
        }
    } else if has_prefix(line, parent_word()) {
        let v = line.subrange(7, line.len() as int);
        if oid_bytes(v) {
            Ok((acc.0, acc.1.push(v), acc.2, acc.3))
        } else {
            Err(Error::InvalidParentId)
        }
    } else if has_prefix(line, author_word()) {
        Ok((acc.0, acc.1, line.subrange(7, line.len() as int), acc.3))
    } else if has_prefix(line, committer_word()) {
        Ok((acc.0, acc.1, acc.2, line.subrange(10, line.len() as int)))
    } else if has_prefix(line, encoding_word()) {
        if eq_ignore_ascii_case(line.subrange(9, line.len() as int), utf8_word()) {
            Ok(acc)
        } else {
            Err(Error::CommitEncodingUnsupported)
        }
    } else {
        Ok(acc)
    }
}

/// The fields of a commit header, read line by line from `pos`.
pub open spec fn header_fields(
    h: Seq<u8>,
    pos: int,
    acc: (Seq<u8>, Seq<Seq<u8>>, Seq<u8>, Seq<u8>),
) -> Result<(Seq<u8>, Seq<Seq<u8>>, Seq<u8>, Seq<u8>), Error>
    decreases h.len() - pos,
{
    if pos < 0 || pos >= h.len() {
        Ok(acc)
    } else {
        proof {
            lemma_line_span(h, pos);
        }
        let (end, next) = line_span(h, pos);
        match header_line(h.subrange(pos, end), acc) {
            Ok(a) => header_fields(h, next, a),
            Err(e) => Err(e),
        }
    }
}

/// The position of the first empty line's line feed pair at or after `from`.
pub open spec fn find_blank_line(d: Seq<u8>, from: int) -> Option<int>
    decreases d.len() - from,
{
    if from < 0 || from + 1 >= d.len() {
        None
    } else if d[from] == 10 && d[from + 1] == 10 {
        Some(from)
    } else {
        find_blank_line(d, from + 1)
    }
}

/// What a commit object holds: tree, parents, author, committer and
/// message, or why it is refused.
pub open spec fn commit_fields(d: Seq<u8>) -> Result<
    (Seq<u8>, Seq<Seq<u8>>, Seq<u8>, Seq<u8>, Seq<u8>),
    Error,
> {
    if !valid_utf8(d) {
        Err(Error::CommitEncodingUnsupported)
    } else if !crate::bytes::control_free(d) {
        Err(Error::BinaryCommitMetadata)
    } else {
        match find_blank_line(d, 0) {
            None => Err(Error::InvalidCommit),
            Some(i) => match header_fields(d.subrange(0, i), 0, (seq![], seq![], seq![], seq![])) {
                Err(e) => Err(e),
                Ok((t, ps, a, c)) => if !oid_bytes(t) {
                    Err(Error::InvalidCommitTree)
                } else {
                    Ok((t, ps, a, c, d.subrange(i + 2, d.len() as int)))
                },
            },
        }
    }
}

/// A commit: its id, tree, parents, author and committer lines, and message.
#[derive(Clone, Debug)]
pub struct Commit {
    pub oid: String,
    pub tree: String,
    pub parents: Vec<String>,
    pub author: String,
    pub committer: String,
    pub message: String,
}

/// Whether `c` holds these fields.
pub open spec fn commit_holds(
    c: Commit,
    oid: Seq<char>,
    f: (Seq<u8>, Seq<Seq<u8>>, Seq<u8>, Seq<u8>, Seq<u8>),
) -> bool {
    &&& c.oid@ == oid
    &&& c.tree@ == decode_utf8(f.0)
    &&& c.parents@.len() == f.1.len()
    &&& forall|k: int| 0 <= k < f.1.len() ==> #[trigger] c.parents@[k]@ == decode_utf8(f.1[k])
    &&& c.author@ == decode_utf8(f.2)
    &&& c.committer@ == decode_utf8(f.3)
    &&& c.message@ == decode_utf8(f.4)
}

proof fn lemma_find_blank_line(d: Seq<u8>, from: int)
    requires
        0 <= from,
    ensures
        find_blank_line(d, from) matches Some(i) ==> from <= i && i + 1 < d.len() && d[i] == 10
            && d[i + 1] == 10,
    decreases d.len() - from,
{
    if from + 1 < d.len() && !(d[from] == 10 && d[from + 1] == 10) {
        lemma_find_blank_line(d, from + 1);
    }
}

fn find_blank(d: &[u8]) -> (res: Option<usize>)
    ensures
        match res {
            Some(r) => find_blank_line(d@, 0) == Some(r as int) && r + 1 < d@.len() && d@[r as int]
                == 10 && d@[r + 1] == 10,
            None => find_blank_line(d@, 0) is None,
        },
{
    proof {
        lemma_find_blank_line(d@, 0);
    }
    let mut i: usize = 0;
    while d.len() > 0 && i < d.len() - 1
        invariant
            i <= d@.len(),
            find_blank_line(d@, 0) == find_blank_line(d@, i as int),
        decreases d@.len() - i,
    {
        if d[i] == 10 && d[i + 1] == 10 {
            return Some(i);
        }
        i = i + 1;
    }
    None
}

pub fn eq_ignore_case_bytes(a: &[u8], b: &[u8]) -> (res: bool)
    ensures
        res == eq_ignore_ascii_case(a@, b@),
{
    if a.len() != b.len() {
        return false;
    }
    let mut i: usize = 0;
    while i < a.len()
        invariant
            a@.len() == b@.len(),
            i <= a@.len(),
            forall|j: int| 0 <= j < i ==> ascii_lower(a@[j]) == ascii_lower(b@[j]),
        decreases a@.len() - i,
    {
        let x = if 65 <= a[i] && a[i] <= 90 {
            a[i] + 32
        } else {
            a[i]
        };
        let y = if 65 <= b[i] && b[i] <= 90 {
            b[i] + 32
        } else {
            b[i]
        };
        if x != y {
            return false;
        }
        i = i + 1;
    }
    true
}

/// Parses the data of the commit object `oid`.
pub fn parse_commit(oid: &str, d: &[u8]) -> (res: Result<Commit, Error>)
    ensures
        match commit_fields(d@) {
            Ok(f) => res matches Ok(c) && commit_holds(c, oid@, f),
            Err(e) => res matches Err(x) && x == e,
        },
{
    if !crate::bytes::is_utf8(d) {
        return Err(Error::CommitEncodingUnsupported);
    }
    if !crate::bytes::is_control_free(d) {
        return Err(Error::BinaryCommitMetadata);
    }
    let i = match find_blank(d) {
        None => return Err(Error::InvalidCommit),
        Some(i) => i,
    };
    proof {
        lemma_after_ascii(d@, i + 1);
        lemma_utf8_piece(d@, 0, i as int);
        lemma_utf8_piece(d@, i + 2, d@.len() as int);
    }
    let h = slice_subrange(d, 0, i);
    let tree_w: [u8; 5] = [116u8, 114u8, 101u8, 101u8, 32u8];
    let parent_w: [u8; 7] = [112u8, 97u8, 114u8, 101u8, 110u8, 116u8, 32u8];
    let author_w: [u8; 7] = [97u8, 117u8, 116u8, 104u8, 111u8, 114u8, 32u8];
    let committer_w: [u8; 10] = [99u8, 111u8, 109u8, 109u8, 105u8, 116u8, 116u8, 101u8, 114u8, 32u8];
    let encoding_w: [u8; 9] = [101u8, 110u8, 99u8, 111u8, 100u8, 105u8, 110u8, 103u8, 32u8];
    let utf8_w: [u8; 5] = [117u8, 116u8, 102u8, 45u8, 56u8];
    assert(tree_w@ =~= tree_word());
    assert(parent_w@ =~= parent_word());
    assert(author_w@ =~= author_word());
    assert(committer_w@ =~= committer_word());
    assert(encoding_w@ =~= encoding_word());
    assert(utf8_w@ =~= utf8_word());
    let mut tree: Vec<u8> = Vec::new();
    let mut parents: Vec<String> = Vec::new();
    let mut author = String::new();
    let mut committer = String::new();
    let ghost mut acc: (Seq<u8>, Seq<Seq<u8>>, Seq<u8>, Seq<u8>) = (seq![], seq![], seq![], seq![]);
    let mut pos: usize = 0;
    assert(tree@ =~= acc.0);
    while pos < h.len()
        invariant
            h@ == d@.subrange(0, i as int),
            valid_utf8(d@),
            crate::bytes::control_free(d@),
            find_blank_line(d@, 0) == Some(i as int),
            i + 1 < d@.len(),
            d@[i as int] == 10,
            d@[i + 1] == 10,
            valid_utf8(h@),
            pos <= h@.len(),
            pos < h@.len() ==> (pos == 0 || h@[pos - 1] == 10),
            tree_w@ == tree_word(),
            parent_w@ == parent_word(),
            author_w@ == author_word(),
            committer_w@ == committer_word(),
            encoding_w@ == encoding_word(),
            utf8_w@ == utf8_word(),
            header_fields(h@, 0, (seq![], seq![], seq![], seq![])) == header_fields(
                h@,
                pos as int,
                acc,
            ),
            tree@ == acc.0,
            parents@.len() == acc.1.len(),
            forall|k: int| 0 <= k < acc.1.len() ==> #[trigger] parents@[k]@ == decode_utf8(acc.1[k]),
            author@ == decode_utf8(acc.2),
            committer@ == decode_utf8(acc.3),
        decreases h@.len() - pos,
    {
        proof {
            lemma_line_span(h@, pos as int);
            lemma_find_byte(h@, 10, pos as int);
        }
        let (end, next) = match position_of(h, 10, pos) {
            None => (h.len(), h.len()),
            Some(k) => (if k > pos && h[k - 1] == 13 {
                k - 1
            } else {
                k
            }, k + 1),
        };
        assert((end as int, next as int) == line_span(h@, pos as int));
        let line = slice_subrange(h, pos, end);
        let ghost spec_line = h@.subrange(pos as int, end as int);
        assert(line@ == spec_line);
        if pos > 0 {
            proof {
                lemma_after_ascii(h@, pos - 1);
            }
        }
        if starts_with(line, tree_w.as_slice()) {
            let v = slice_subrange(line, 5, line.len());
            if !crate::git::store::is_oid_bytes(v) {
                assert(header_line(spec_line, acc) == Err::<
                    (Seq<u8>, Seq<Seq<u8>>, Seq<u8>, Seq<u8>),
                    Error,
                >(Error::InvalidTreeId));
                assert(header_fields(h@, pos as int, acc) == Err::<
                    (Seq<u8>, Seq<Seq<u8>>, Seq<u8>, Seq<u8>),
                    Error,
                >(Error::InvalidTreeId));
                return Err(Error::InvalidTreeId);
            }
            tree = crate::bytes::to_vec(v);
            proof {
                acc = (v@, acc.1, acc.2, acc.3);
            }
        } else if starts_with(line, parent_w.as_slice()) {
            let v = slice_subrange(line, 7, line.len());
            if !crate::git::store::is_oid_bytes(v) {
                assert(header_line(spec_line, acc) == Err::<
                    (Seq<u8>, Seq<Seq<u8>>, Seq<u8>, Seq<u8>),
                    Error,
                >(Error::InvalidParentId));
                assert(header_fields(h@, pos as int, acc) == Err::<
                    (Seq<u8>, Seq<Seq<u8>>, Seq<u8>, Seq<u8>),
                    Error,
                >(Error::InvalidParentId));
                return Err(Error::InvalidParentId);
            }
            proof {
                lemma_after_ascii(h@, pos + 6);
                lemma_utf8_piece(h@, pos + 7, end as int);
                assert(v@ =~= h@.subrange(pos + 7, end as int));
            }
            parents.push(string_of(v));
            proof {
                acc = (acc.0, acc.1.push(v@), acc.2, acc.3);
            }
        } else if starts_with(line, author_w.as_slice()) {
            let v = slice_subrange(line, 7, line.len());
            proof {
                lemma_after_ascii(h@, pos + 6);
                lemma_utf8_piece(h@, pos + 7, end as int);
                assert(v@ =~= h@.subrange(pos + 7, end as int));
            }
            author = string_of(v);
            proof {
                acc = (acc.0, acc.1, v@, acc.3);
            }
        } else if starts_with(line, committer_w.as_slice()) {
            let v = slice_subrange(line, 10, line.len());
            proof {
                lemma_after_ascii(h@, pos + 9);
                lemma_utf8_piece(h@, pos + 10, end as int);
                assert(v@ =~= h@.subrange(pos + 10, end as int));
            }
            committer = string_of(v);
            proof {
                acc = (acc.0, acc.1, acc.2, v@);
            }
        } else if starts_with(line, encoding_w.as_slice()) {
            let v = slice_subrange(line, 9, line.len());
            if !eq_ignore_case_bytes(v, utf8_w.as_slice()) {
                assert(header_line(spec_line, acc) == Err::<
                    (Seq<u8>, Seq<Seq<u8>>, Seq<u8>, Seq<u8>),
                    Error,
                >(Error::CommitEncodingUnsupported));
                assert(header_fields(h@, pos as int, acc) == Err::<
                    (Seq<u8>, Seq<Seq<u8>>, Seq<u8>, Seq<u8>),
                    Error,
                >(Error::CommitEncodingUnsupported));
                return Err(Error::CommitEncodingUnsupported);
            }
        }
        pos = next;
    }
    assert(header_fields(h@, pos as int, acc) == Ok::<
        (Seq<u8>, Seq<Seq<u8>>, Seq<u8>, Seq<u8>),
        Error,
    >(acc));
    if !crate::git::store::is_oid_bytes(tree.as_slice()) {
        return Err(Error::InvalidCommitTree);
    }
    proof {
        lemma_utf8_piece(d@, 0, i as int);
    }
    let tree_s = string_of_oid(tree.as_slice());
    let total = d.len();
    let message = string_of(slice_subrange(d, i + 2, total));
    Ok(Commit { oid: oid.to_owned(), tree: tree_s, parents, author, committer, message })
}

/// The string of forty hexadecimal digits.
pub(crate) fn string_of_oid(b: &[u8]) -> (res: String)
    requires
        oid_bytes(b@),
    ensures
        res@ == decode_utf8(b@),
{
    proof {
        crate::git::store::lemma_oid_utf8(b@);
    }
    string_of(b)
}

/// The id a tag object points at: its first line, after `object `.
pub open spec fn tag_target(d: Seq<u8>) -> Result<Seq<u8>, Error> {
    if !valid_utf8(d) {
        Err(Error::TagEncodingUnsupported)
    } else if d.len() == 0 {
        Err(Error::InvalidTag)
    } else {
        let line = d.subrange(0, line_span(d, 0).0);
        if has_prefix(line, object_word()) {
            Ok(line.subrange(7, line.len() as int))
        } else {
            Err(Error::InvalidTag)
        }
    }
}

/// Reads the id that the tag object with this data points at.
pub fn parse_tag_target(d: &[u8]) -> (res: Result<String, Error>)
    ensures
        match tag_target(d@) {
            Ok(t) => res matches Ok(s) && s@ == decode_utf8(t),
            Err(e) => res matches Err(x) && x == e,
        },
{
    if !crate::bytes::is_utf8(d) {
        return Err(Error::TagEncodingUnsupported);
    }
    if d.len() == 0 {
        return Err(Error::InvalidTag);
    }
    proof {
        lemma_line_span(d@, 0);
        lemma_find_byte(d@, 10, 0);
    }
    let end = match position_of(d, 10, 0) {
        None => d.len(),
        Some(k) => if k > 0 && d[k - 1] == 13 {
            k - 1
        } else {
            k
        },
    };
    assert(end == line_span(d@, 0).0);
    let line = slice_subrange(d, 0, end);
    let object_w: [u8; 7] = [111u8, 98u8, 106u8, 101u8, 99u8, 116u8, 32u8];
    assert(object_w@ =~= object_word());
    if !starts_with(line, object_w.as_slice()) {
        return Err(Error::InvalidTag);
    }
    let v = slice_subrange(line, 7, line.len());
    proof {
        lemma_after_ascii(d@, 6);
        lemma_utf8_piece(d@, 7, end as int);
        assert(v@ =~= d@.subrange(7, end as int));
    }
    Ok(string_of(v))
}

/// The value of a string of octal digits.
pub open spec fn octal_value(d: Seq<u8>) -> nat
    decreases d.len(),
{
    if d.len() == 0 {
        0
    } else {
        octal_value(d.drop_last()) * 8 + (d.last() - 48) as nat
    }
}

/// All bytes are octal digits.
pub open spec fn octal_digits(d: Seq<u8>) -> bool {
    forall|i: int| 0 <= i < d.len() ==> 48 <= #[trigger] d[i] <= 55
}

/// What `u32::from_str_radix(_, 8)` accepts: an optional `+`, then at least
/// one octal digit, for a value that fits in 32 bits.
pub open spec fn parse_octal(s: Seq<u8>) -> Option<nat> {
    let d = if s.len() > 0 && s[0] == 43 {
        s.subrange(1, s.len() as int)
    } else {
        s
    };
    if d.len() == 0 || !octal_digits(d) || octal_value(d) > u32::MAX {
        None
    } else {
        Some(octal_value(d))
    }
}

/// Parses an octal number as `u32::from_str_radix(_, 8)` does.
pub fn parse_octal_u32(s: &[u8]) -> (res: Option<u32>)
    ensures
        match parse_octal(s@) {
            Some(v) => res == Some(v as u32),
            None => res is None,
        },
{
    let mut i: usize = 0;
    if s.len() > 0 && s[0] == 43 {
        i = 1;
    }
    let ghost d = if s@.len() > 0 && s@[0] == 43 {
        s@.subrange(1, s@.len() as int)
    } else {
        s@
    };
    let start = i;
    if i >= s.len() {
        return None;
    }
    let mut v: u32 = 0;
    let mut overflow = false;
    while i < s.len()
        invariant
            start <= i <= s@.len(),
            start == 0 || start == 1,
            d == s@.subrange(start as int, s@.len() as int),
            d == (if s@.len() > 0 && s@[0] == 43 {
                s@.subrange(1, s@.len() as int)
            } else {
                s@
            }),
            octal_digits(s@.subrange(start as int, i as int)),
            !overflow ==> v == octal_value(s@.subrange(start as int, i as int)),
            overflow ==> octal_value(s@.subrange(start as int, i as int)) > u32::MAX,
        decreases s@.len() - i,
    {
        let c = s[i];
        if c < 48 || c > 55 {
            assert(d[i - start] == c);
            assert(!octal_digits(d));
            return None;
        }
        let ghost prev = s@.subrange(start as int, i as int);
        assert(s@.subrange(start as int, i + 1).drop_last() =~= prev);
        assert(octal_digits(s@.subrange(start as int, i + 1)));
        if !overflow {
            match v.checked_mul(8) {
                Some(t) => match t.checked_add((c - 48) as u32) {
                    Some(u) => {
                        v = u;
                    },
                    None => {
                        overflow = true;
                    },
                },
                None => {
                    overflow = true;
                },
            }
        } else {
            assert(octal_value(prev) * 8 >= octal_value(prev)) by (nonlinear_arith)
                requires
                    octal_value(prev) >= 0,
            ;
        }
        i = i + 1;
    }
    assert(s@.subrange(start as int, s@.len() as int) == d);
    if overflow {
        None
    } else {
        Some(v)
    }
}

/// The entry of tree data that starts at `p`: its mode, and where its name
/// starts and ends. The twenty bytes of its id follow the name's zero byte.
pub open spec fn tree_entry_at(d: Seq<u8>, p: int) -> Result<(nat, int, int), Error> {
    match find_byte(d, 32, p) {
        None => Err(Error::InvalidTree),
        Some(sp) => match parse_octal(d.subrange(p, sp)) {
            None => Err(Error::InvalidTreeMode),
            Some(m) => match find_byte(d, 0, sp + 1) {
                None => Err(Error::InvalidTree),
                Some(nul) => Ok((m, sp + 1, nul)),
            },
        },
    }
}

/// The name of an entry lies after where the entry starts.
pub proof fn lemma_tree_entry_at(d: Seq<u8>, p: int)
    requires
        0 <= p,
    ensures
        tree_entry_at(d, p) matches Ok((m, ns, nul)) ==> p < ns <= nul < d.len() && d[nul] == 0,
{
    lemma_find_byte(d, 32, p);
    match find_byte(d, 32, p) {
        Some(sp) => lemma_find_byte(d, 0, sp + 1),
        None => {},
    }
}

/// Reads the entry of tree data that starts at `p`.
pub fn next_tree_entry(d: &[u8], p: usize) -> (res: Result<(u32, usize, usize), Error>)
    requires
        p <= d@.len(),
    ensures
        match tree_entry_at(d@, p as int) {
            Ok((m, ns, nul)) => res matches Ok((rm, rns, rnul)) && rm == m && rns == ns && rnul
                == nul && p < ns <= nul < d@.len(),
            Err(e) => res matches Err(x) && x == e,
        },
{
    let n = d.len();
    proof {
        lemma_find_byte(d@, 32, p as int);
    }
    let sp = match position_of(d, 32, p) {
        None => return Err(Error::InvalidTree),
        Some(sp) => sp,
    };
    let mode = match parse_octal_u32(slice_subrange(d, p, sp)) {
        None => return Err(Error::InvalidTreeMode),
        Some(m) => m,
    };
    proof {
        lemma_find_byte(d@, 0, sp + 1);
    }
    let nul = match position_of(d, 0, sp + 1) {
        None => return Err(Error::InvalidTree),
        Some(n) => n,
    };
    Ok((mode, sp + 1, nul))
}

/// An entry of a tree: its path from the root, its mode and its object id.
#[derive(Clone, Debug)]
pub struct TreeEntry {
    pub path: String,
    pub mode: u32,
    pub oid: String,
}

/// The mode of a subtree.
pub const TREE_MODE: u32 = 16384;

/// The entries of the tree data `d` from `p` on, with their paths under
/// `prefix`: each name valid UTF-8, not empty, not `.` and without `/`, and
/// each path one that `path_components` accepts. Gives path, mode and raw id
/// of each entry.
pub open spec fn tree_listing(d: Seq<u8>, prefix: Seq<u8>, p: int) -> Result<
    Seq<(Seq<u8>, nat, Seq<u8>)>,
    Error,
>
    decreases d.len() - p,
{
    if p < 0 || p >= d.len() {
        Ok(seq![])
    } else {
        proof {
            lemma_tree_entry_at(d, p);
        }
        match tree_entry_at(d, p) {
            Err(e) => Err(e),
            Ok((m, ns, nul)) => {
                let name = d.subrange(ns, nul);
                let path = if prefix.len() == 0 {
                    name
                } else {
                    prefix + seq![47u8] + name
                };
                if !valid_utf8(name) {
                    Err(Error::NonUtf8GitPath)
                } else if name.contains(47u8) || name == crate::fs::dot() || name.len() == 0 {
                    Err(Error::InvalidTreePath)
                } else {
                    match crate::fs::path_components(path, false) {
                        Err(e) => Err(e),
                        Ok(_) => if nul + 21 > d.len() {
                            Err(Error::TruncatedGitData)
                        } else {
                            match tree_listing(d, prefix, nul + 21) {
                                Err(e) => Err(e),
                                Ok(rest) => Ok(
                                    seq![(path, m, d.subrange(nul + 1, nul + 21))] + rest,
                                ),
                            }
                        },
                    }
                }
            },
        }
    }
}

/// Whether `v` lists these entries: path, mode and raw id of each.
pub open spec fn entries_hold(v: Seq<TreeEntry>, items: Seq<(Seq<u8>, nat, Seq<u8>)>) -> bool {
    &&& v.len() == items.len()
    &&& forall|k: int|
        0 <= k < items.len() ==> {
            &&& #[trigger] v[k].path@ == decode_utf8(items[k].0)
            &&& v[k].mode == items[k].1
            &&& v[k].oid@ == hex_chars(items[k].2)
        }
}

/// Lists the entries of the tree data `d`, with their paths under `prefix`.
pub fn tree_entries(d: &[u8], prefix: &str) -> (res: Result<Vec<TreeEntry>, Error>)
    ensures
        match tree_listing(d@, prefix.spec_bytes(), 0) {
            Ok(items) => res matches Ok(v) && entries_hold(v@, items),
            Err(e) => res matches Err(x) && x == e,
        },
{
    let pre = prefix.as_bytes();
    proof {
        vstd::utf8::encode_utf8_valid_utf8(prefix@);
    }
    let mut out: Vec<TreeEntry> = Vec::new();
    let ghost mut done: Seq<(Seq<u8>, nat, Seq<u8>)> = seq![];
    let mut p: usize = 0;
    while p < d.len()
        invariant
            pre@ == prefix.spec_bytes(),
            valid_utf8(pre@),
            p <= d@.len(),
            tree_listing(d@, pre@, 0) == match tree_listing(d@, pre@, p as int) {
                Ok(rest) => Ok::<Seq<(Seq<u8>, nat, Seq<u8>)>, Error>(done + rest),
                Err(e) => Err::<Seq<(Seq<u8>, nat, Seq<u8>)>, Error>(e),
            },
            entries_hold(out@, done),
        decreases d@.len() - p,
    {
        proof {
            lemma_tree_entry_at(d@, p as int);
        }
        let (mode, ns, nul) = next_tree_entry(d, p)?;
        let name = slice_subrange(d, ns, nul);
        if !crate::bytes::is_utf8(name) {
            return Err(Error::NonUtf8GitPath);
        }
        let dot_a: [u8; 1] = [46u8];
        assert(dot_a@ =~= crate::fs::dot());
        if name.len() == 0 || crate::fs::has_byte(name, 47) || crate::bytes::bytes_equal(
            name,
            dot_a.as_slice(),
        ) {
            return Err(Error::InvalidTreePath);
        }
        let mut path_bytes: Vec<u8> = Vec::new();
        if pre.len() > 0 {
            crate::bytes::append_bytes(&mut path_bytes, pre);
            path_bytes.push(47u8);
        }
        crate::bytes::append_bytes(&mut path_bytes, name);
        let ghost path_spec = if pre@.len() == 0 {
            name@
        } else {
            pre@ + seq![47u8] + name@
        };
        assert(path_bytes@ =~= path_spec);
        proof {
            broadcast use vstd::utf8::group_utf8_lib;

            if pre@.len() > 0 {
                crate::bytes::lemma_ascii_utf8(seq![47u8]);
                assert(valid_utf8(pre@ + seq![47u8]));
            }
            assert(valid_utf8(path_spec));
        }
        let path = string_of(path_bytes.as_slice());
        let path_str = path.as_str();
        proof {
            broadcast use vstd::utf8::group_utf8_lib;

            assert(path_str.spec_bytes() == path_spec);
        }
        crate::fs::validate_path(path_str, false)?;
        if nul > d.len() || d.len() - nul < 21 {
            return Err(Error::TruncatedGitData);
        }
        let oid = hex_encode(slice_subrange(d, nul + 1, nul + 21));
        let ghost old_out = out@;
        assert(entries_hold(old_out, done));
        let entry = TreeEntry { path, mode, oid };
        let ghost e = entry;
        out.push(entry);
        proof {
            let item = (path_spec, mode as nat, d@.subrange(nul + 1, nul + 21));
            assert(entries_hold(out@, done.push(item))) by {
                assert forall|k: int| 0 <= k < done.len() + 1 implies {
                    &&& #[trigger] out@[k].path@ == decode_utf8(done.push(item)[k].0)
                    &&& out@[k].mode == done.push(item)[k].1
                    &&& out@[k].oid@ == hex_chars(done.push(item)[k].2)
                } by {
                    if k < done.len() {
                        assert(out@[k] == old_out[k]);
                        assert(done.push(item)[k] == done[k]);
                        assert(old_out[k].path@ == decode_utf8(done[k].0));
                    } else {
                        assert(out@[k] == e);
                        assert(e.path@ == decode_utf8(path_spec));
                        assert(e.oid@ == hex_chars(d@.subrange(nul + 1, nul + 21)));
                    }
                }
            }
            match tree_listing(d@, pre@, nul + 21) {
                Ok(r) => {
                    assert(done.push(item) + r =~= done + (seq![item] + r));
                },
                Err(_) => {},
            }
            done = done.push(item);
        }
        p = nul + 21;
    }
    assert(done + seq![] =~= done);
    Ok(out)
}

/// The first entry named `name` in the tree data `d` from `p` on: its mode
/// and raw id. Every entry before it, and it, must be well formed.
pub open spec fn tree_find_from(d: Seq<u8>, p: int, name: Seq<u8>) -> Result<
    Option<(nat, Seq<u8>)>,
    Error,
>
    decreases d.len() - p,
{
    if p < 0 || p >= d.len() {
        Ok(None)
    } else {
        proof {
            lemma_tree_entry_at(d, p);
        }
        match tree_entry_at(d, p) {
            Err(e) => Err(e),
            Ok((m, ns, nul)) => if nul + 21 > d.len() {
                Err(Error::TruncatedGitData)
            } else if d.subrange(ns, nul) == name {
                Ok(Some((m, d.subrange(nul + 1, nul + 21))))
            } else {
                tree_find_from(d, nul + 21, name)
            },
        }
    }
}

/// Finds the entry named `name` in the tree data `d`: its mode and id.
pub fn tree_find(d: &[u8], name: &[u8]) -> (res: Result<Option<(u32, String)>, Error>)
    ensures
        match tree_find_from(d@, 0, name@) {
            Ok(Some((m, raw))) => res matches Ok(Some((rm, id))) && rm == m && id@ == hex_chars(
                raw,
            ),
            Ok(None) => res matches Ok(None),
            Err(e) => res matches Err(x) && x == e,
        },
{
    let mut p: usize = 0;
    while p < d.len()
        invariant
            p <= d@.len(),
            tree_find_from(d@, 0, name@) == tree_find_from(d@, p as int, name@),
        decreases d@.len() - p,
    {
        proof {
            lemma_tree_entry_at(d@, p as int);
        }
        let (mode, ns, nul) = next_tree_entry(d, p)?;
        if nul > d.len() || d.len() - nul < 21 {
            return Err(Error::TruncatedGitData);
        }
        if crate::bytes::bytes_equal(slice_subrange(d, ns, nul), name) {
            let oid = hex_encode(slice_subrange(d, nul + 1, nul + 21));
            return Ok(Some((mode, oid)));
        }
        p = nul + 21;
    }
    Ok(None)
}

} // verus!
