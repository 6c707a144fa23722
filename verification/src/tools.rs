//! What the tools return, computed from what was read: the rows of a
//! listing, of a file search, of a tree, of a commit and its message, and
//! the selections that searches and blame are narrowed to.
use crate::fs::{Entry, Gap, Inventory};
use crate::git::objects::{Commit, TreeEntry};
use crate::json::{ascii_string, items_view, Json, JsonV};
use crate::matching::{glob_accepts, PathGlob};
use vstd::prelude::*;
use vstd::string::StringSliceAdditionalSpecFns;
use vstd::utf8::encode_utf8;

verus! {

/// `kind`
pub open spec fn w_kind() -> Seq<u8> {
    seq![107u8, 105u8, 110u8, 100u8]
}

fn word_kind() -> (res: String)
    ensures
        encode_utf8(res@) == w_kind(),
{
    let b: [u8; 4] = [107u8, 105u8, 110u8, 100u8];
    assert(b@ =~= w_kind());
    ascii_string(b.as_slice())
}

/// `entry`
pub open spec fn w_entry() -> Seq<u8> {
    seq![101u8, 110u8, 116u8, 114u8, 121u8]
}

fn word_entry() -> (res: String)
    ensures
        encode_utf8(res@) == w_entry(),
{
    let b: [u8; 5] = [101u8, 110u8, 116u8, 114u8, 121u8];
    assert(b@ =~= w_entry());
    ascii_string(b.as_slice())
}

/// `file`
pub open spec fn w_file() -> Seq<u8> {
    seq![102u8, 105u8, 108u8, 101u8]
}

fn word_file() -> (res: String)
    ensures
        encode_utf8(res@) == w_file(),
{
    let b: [u8; 4] = [102u8, 105u8, 108u8, 101u8];
    assert(b@ =~= w_file());
    ascii_string(b.as_slice())
}

/// `not_inspected`
pub open spec fn w_not_inspected() -> Seq<u8> {
    seq![110u8, 111u8, 116u8, 95u8, 105u8, 110u8, 115u8, 112u8, 101u8, 99u8, 116u8, 101u8, 100u8]
}

fn word_not_inspected() -> (res: String)
    ensures
        encode_utf8(res@) == w_not_inspected(),
{
    let b: [u8; 13] = [110u8, 111u8, 116u8, 95u8, 105u8, 110u8, 115u8, 112u8, 101u8, 99u8, 116u8, 101u8, 100u8];
    assert(b@ =~= w_not_inspected());
    ascii_string(b.as_slice())
}

/// `path`
pub open spec fn w_path() -> Seq<u8> {
    seq![112u8, 97u8, 116u8, 104u8]
}

fn word_path() -> (res: String)
    ensures
        encode_utf8(res@) == w_path(),
{
    let b: [u8; 4] = [112u8, 97u8, 116u8, 104u8];
    assert(b@ =~= w_path());
    ascii_string(b.as_slice())
}

/// `reason`
pub open spec fn w_reason() -> Seq<u8> {
    seq![114u8, 101u8, 97u8, 115u8, 111u8, 110u8]
}

fn word_reason() -> (res: String)
    ensures
        encode_utf8(res@) == w_reason(),
{
    let b: [u8; 6] = [114u8, 101u8, 97u8, 115u8, 111u8, 110u8];
    assert(b@ =~= w_reason());
    ascii_string(b.as_slice())
}

/// `modified_ns`
pub open spec fn w_modified_ns() -> Seq<u8> {
    seq![109u8, 111u8, 100u8, 105u8, 102u8, 105u8, 101u8, 100u8, 95u8, 110u8, 115u8]
}

fn word_modified_ns() -> (res: String)
    ensures
        encode_utf8(res@) == w_modified_ns(),
{
    let b: [u8; 11] = [109u8, 111u8, 100u8, 105u8, 102u8, 105u8, 101u8, 100u8, 95u8, 110u8, 115u8];
    assert(b@ =~= w_modified_ns());
    ascii_string(b.as_slice())
}

/// `size`
pub open spec fn w_size() -> Seq<u8> {
    seq![115u8, 105u8, 122u8, 101u8]
}

fn word_size() -> (res: String)
    ensures
        encode_utf8(res@) == w_size(),
{
    let b: [u8; 4] = [115u8, 105u8, 122u8, 101u8];
    assert(b@ =~= w_size());
    ascii_string(b.as_slice())
}

/// `name`
pub open spec fn w_name() -> Seq<u8> {
    seq![110u8, 97u8, 109u8, 101u8]
}

fn word_name() -> (res: String)
    ensures
        encode_utf8(res@) == w_name(),
{
    let b: [u8; 4] = [110u8, 97u8, 109u8, 101u8];
    assert(b@ =~= w_name());
    ascii_string(b.as_slice())
}

/// `oid`
pub open spec fn w_oid() -> Seq<u8> {
    seq![111u8, 105u8, 100u8]
}

fn word_oid() -> (res: String)
    ensures
        encode_utf8(res@) == w_oid(),
{
    let b: [u8; 3] = [111u8, 105u8, 100u8];
    assert(b@ =~= w_oid());
    ascii_string(b.as_slice())
}

/// `mode`
pub open spec fn w_mode() -> Seq<u8> {
    seq![109u8, 111u8, 100u8, 101u8]
}

fn word_mode() -> (res: String)
    ensures
        encode_utf8(res@) == w_mode(),
{
    let b: [u8; 4] = [109u8, 111u8, 100u8, 101u8];
    assert(b@ =~= w_mode());
    ascii_string(b.as_slice())
}

/// `readable_type`
pub open spec fn w_readable_type() -> Seq<u8> {
    seq![114u8, 101u8, 97u8, 100u8, 97u8, 98u8, 108u8, 101u8, 95u8, 116u8, 121u8, 112u8, 101u8]
}

fn word_readable_type() -> (res: String)
    ensures
        encode_utf8(res@) == w_readable_type(),
{
    let b: [u8; 13] = [114u8, 101u8, 97u8, 100u8, 97u8, 98u8, 108u8, 101u8, 95u8, 116u8, 121u8, 112u8, 101u8];
    assert(b@ =~= w_readable_type());
    ascii_string(b.as_slice())
}

/// `commit`
pub open spec fn w_commit() -> Seq<u8> {
    seq![99u8, 111u8, 109u8, 109u8, 105u8, 116u8]
}

fn word_commit() -> (res: String)
    ensures
        encode_utf8(res@) == w_commit(),
{
    let b: [u8; 6] = [99u8, 111u8, 109u8, 109u8, 105u8, 116u8];
    assert(b@ =~= w_commit());
    ascii_string(b.as_slice())
}

/// `author`
pub open spec fn w_author() -> Seq<u8> {
    seq![97u8, 117u8, 116u8, 104u8, 111u8, 114u8]
}

fn word_author() -> (res: String)
    ensures
        encode_utf8(res@) == w_author(),
{
    let b: [u8; 6] = [97u8, 117u8, 116u8, 104u8, 111u8, 114u8];
    assert(b@ =~= w_author());
    ascii_string(b.as_slice())
}

/// `committer`
pub open spec fn w_committer() -> Seq<u8> {
    seq![99u8, 111u8, 109u8, 109u8, 105u8, 116u8, 116u8, 101u8, 114u8]
}

fn word_committer() -> (res: String)
    ensures
        encode_utf8(res@) == w_committer(),
{
    let b: [u8; 9] = [99u8, 111u8, 109u8, 109u8, 105u8, 116u8, 116u8, 101u8, 114u8];
    assert(b@ =~= w_committer());
    ascii_string(b.as_slice())
}

/// `parents`
pub open spec fn w_parents() -> Seq<u8> {
    seq![112u8, 97u8, 114u8, 101u8, 110u8, 116u8, 115u8]
}

fn word_parents() -> (res: String)
    ensures
        encode_utf8(res@) == w_parents(),
{
    let b: [u8; 7] = [112u8, 97u8, 114u8, 101u8, 110u8, 116u8, 115u8];
    assert(b@ =~= w_parents());
    ascii_string(b.as_slice())
}

/// `message`
pub open spec fn w_message() -> Seq<u8> {
    seq![109u8, 101u8, 115u8, 115u8, 97u8, 103u8, 101u8]
}

fn word_message() -> (res: String)
    ensures
        encode_utf8(res@) == w_message(),
{
    let b: [u8; 7] = [109u8, 101u8, 115u8, 115u8, 97u8, 103u8, 101u8];
    assert(b@ =~= w_message());
    ascii_string(b.as_slice())
}

/// `line`
pub open spec fn w_line() -> Seq<u8> {
    seq![108u8, 105u8, 110u8, 101u8]
}

fn word_line() -> (res: String)
    ensures
        encode_utf8(res@) == w_line(),
{
    let b: [u8; 4] = [108u8, 105u8, 110u8, 101u8];
    assert(b@ =~= w_line());
    ascii_string(b.as_slice())
}

/// `text`
pub open spec fn w_text() -> Seq<u8> {
    seq![116u8, 101u8, 120u8, 116u8]
}

fn word_text() -> (res: String)
    ensures
        encode_utf8(res@) == w_text(),
{
    let b: [u8; 4] = [116u8, 101u8, 120u8, 116u8];
    assert(b@ =~= w_text());
    ascii_string(b.as_slice())
}

/// `patch_line`
pub open spec fn w_patch_line() -> Seq<u8> {
    seq![112u8, 97u8, 116u8, 99u8, 104u8, 95u8, 108u8, 105u8, 110u8, 101u8]
}

fn word_patch_line() -> (res: String)
    ensures
        encode_utf8(res@) == w_patch_line(),
{
    let b: [u8; 10] = [112u8, 97u8, 116u8, 99u8, 104u8, 95u8, 108u8, 105u8, 110u8, 101u8];
    assert(b@ =~= w_patch_line());
    ascii_string(b.as_slice())
}

/// `new_line`
pub open spec fn w_new_line() -> Seq<u8> {
    seq![110u8, 101u8, 119u8, 95u8, 108u8, 105u8, 110u8, 101u8]
}

fn word_new_line() -> (res: String)
    ensures
        encode_utf8(res@) == w_new_line(),
{
    let b: [u8; 8] = [110u8, 101u8, 119u8, 95u8, 108u8, 105u8, 110u8, 101u8];
    assert(b@ =~= w_new_line());
    ascii_string(b.as_slice())
}

/// `old_line`
pub open spec fn w_old_line() -> Seq<u8> {
    seq![111u8, 108u8, 100u8, 95u8, 108u8, 105u8, 110u8, 101u8]
}

fn word_old_line() -> (res: String)
    ensures
        encode_utf8(res@) == w_old_line(),
{
    let b: [u8; 8] = [111u8, 108u8, 100u8, 95u8, 108u8, 105u8, 110u8, 101u8];
    assert(b@ =~= w_old_line());
    ascii_string(b.as_slice())
}

/// `sign`
pub open spec fn w_sign() -> Seq<u8> {
    seq![115u8, 105u8, 103u8, 110u8]
}

fn word_sign() -> (res: String)
    ensures
        encode_utf8(res@) == w_sign(),
{
    let b: [u8; 4] = [115u8, 105u8, 103u8, 110u8];
    assert(b@ =~= w_sign());
    ascii_string(b.as_slice())
}

/// `+`
pub open spec fn w_plus() -> Seq<u8> {
    seq![43u8]
}

fn word_plus() -> (res: String)
    ensures
        encode_utf8(res@) == w_plus(),
{
    let b: [u8; 1] = [43u8];
    assert(b@ =~= w_plus());
    ascii_string(b.as_slice())
}

/// `patch_omitted`
pub open spec fn w_patch_omitted() -> Seq<u8> {
    seq![112u8, 97u8, 116u8, 99u8, 104u8, 95u8, 111u8, 109u8, 105u8, 116u8, 116u8, 101u8, 100u8]
}

fn word_patch_omitted() -> (res: String)
    ensures
        encode_utf8(res@) == w_patch_omitted(),
{
    let b: [u8; 13] = [112u8, 97u8, 116u8, 99u8, 104u8, 95u8, 111u8, 109u8, 105u8, 116u8, 116u8, 101u8, 100u8];
    assert(b@ =~= w_patch_omitted());
    ascii_string(b.as_slice())
}


/// One more row at the end of a list of rows.
proof fn lemma_push_row(s: Seq<Json>, x: Json)
    ensures
        items_view(s.push(x)) == items_view(s).push(x.jv()),
{
    assert(s.push(x).subrange(0, s.len() as int) =~= s);
}

/// The row of an entry: its kind, modification time, path and size.
pub open spec fn entry_value(e: Entry) -> JsonV {
    JsonV::Obj(
        seq![
            (w_kind(), JsonV::Str(encode_utf8(e.kind@))),
            (w_modified_ns(), JsonV::Num(e.modified_ns as nat)),
            (w_path(), JsonV::Str(encode_utf8(e.path@))),
            (w_size(), JsonV::Num(e.size as nat)),
        ],
    )
}

/// An entry as a result item of the kind `word`.
pub open spec fn listed_value(e: Entry, word: Seq<u8>) -> JsonV {
    JsonV::Obj(seq![(w_entry(), entry_value(e)), (w_kind(), JsonV::Str(word))])
}

/// A place a listing could not inspect, as a result item.
pub open spec fn gap_value(g: Gap) -> JsonV {
    JsonV::Obj(
        seq![
            (w_kind(), JsonV::Str(w_not_inspected())),
            (w_path(), JsonV::Str(encode_utf8(g.path@))),
            (w_reason(), JsonV::Str(encode_utf8(g.reason@))),
        ],
    )
}

/// The items for the places a listing could not inspect.
pub open spec fn gap_values(g: Seq<Gap>) -> Seq<JsonV> {
    g.map_values(|x: Gap| gap_value(x))
}

/// The row of an entry.
pub fn entry_row(e: &Entry) -> (res: Json)
    ensures
        res.jv() == entry_value(*e),
{
    let fields = vec![
        (word_kind(), Json::Str(e.kind.clone())),
        (word_modified_ns(), Json::Num(e.modified_ns)),
        (word_path(), Json::Str(e.path.clone())),
        (word_size(), Json::Num(e.size as u128)),
    ];
    proof {
        reveal_with_fuel(crate::json::fields_view, 5);
        assert(crate::json::fields_view(fields@) =~= entry_value(*e)->Obj_0);
    }
    Json::Obj(fields)
}

fn listed_row(e: &Entry, word: String) -> (res: Json)
    ensures
        res.jv() == listed_value(*e, encode_utf8(word@)),
{
    let fields = vec![(word_entry(), entry_row(e)), (word_kind(), Json::Str(word))];
    proof {
        reveal_with_fuel(crate::json::fields_view, 3);
        assert(crate::json::fields_view(fields@) =~= listed_value(*e, encode_utf8(word@))->Obj_0);
    }
    Json::Obj(fields)
}

fn gap_row(g: &Gap) -> (res: Json)
    ensures
        res.jv() == gap_value(*g),
{
    let fields = vec![
        (word_kind(), Json::Str(word_not_inspected())),
        (word_path(), Json::Str(g.path.clone())),
        (word_reason(), Json::Str(g.reason.clone())),
    ];
    proof {
        reveal_with_fuel(crate::json::fields_view, 4);
        assert(crate::json::fields_view(fields@) =~= gap_value(*g)->Obj_0);
    }
    Json::Obj(fields)
}

fn push_gap_rows(rows: &mut Vec<Json>, gaps: &Vec<Gap>)
    ensures
        items_view(final(rows)@) == items_view(old(rows)@) + gap_values(gaps@),
{
    let ghost start = items_view(rows@);
    let mut k: usize = 0;
    while k < gaps.len()
        invariant
            k <= gaps@.len(),
            items_view(rows@) == start + gap_values(gaps@.subrange(0, k as int)),
        decreases gaps@.len() - k,
    {
        let r = gap_row(&gaps[k]);
        proof {
            lemma_push_row(rows@, r);
            assert(gap_values(gaps@.subrange(0, k + 1)) =~= gap_values(gaps@.subrange(0, k as int)).push(
                gap_value(gaps@[k as int]),
            ));
        }
        rows.push(r);
        proof {
            assert(start + gap_values(gaps@.subrange(0, k + 1)) =~= (start + gap_values(
                gaps@.subrange(0, k as int),
            )).push(gap_value(gaps@[k as int])));
        }
        k = k + 1;
    }
    assert(gaps@.subrange(0, k as int) =~= gaps@);
}

/// The items of a directory listing: each entry, then each place not
/// inspected.
pub fn listing_rows(inv: &Inventory) -> (res: Vec<Json>)
    ensures
        items_view(res@) == inv.entries@.map_values(|e: Entry| listed_value(e, w_entry()))
            + gap_values(inv.gaps@),
{
    let mut rows: Vec<Json> = Vec::new();
    let ghost want = inv.entries@.map_values(|e: Entry| listed_value(e, w_entry()));
    let mut k: usize = 0;
    while k < inv.entries.len()
        invariant
            k <= inv.entries@.len(),
            want == inv.entries@.map_values(|e: Entry| listed_value(e, w_entry())),
            items_view(rows@) == want.subrange(0, k as int),
        decreases inv.entries@.len() - k,
    {
        let r = listed_row(&inv.entries[k], word_entry());
        proof {
            lemma_push_row(rows@, r);
            assert(want.subrange(0, k + 1) =~= want.subrange(0, k as int).push(r.jv()));
        }
        rows.push(r);
        k = k + 1;
    }
    assert(want.subrange(0, k as int) =~= want);
    push_gap_rows(&mut rows, &inv.gaps);
    rows
}


/// Whether `needle` occurs in `hay`.
pub open spec fn has_infix(hay: Seq<u8>, needle: Seq<u8>) -> bool {
    exists|i: int|
        0 <= i && i + needle.len() <= hay.len() && #[trigger] hay.subrange(i, i + needle.len())
            == needle
}

/// Whether `needle` occurs in `hay`.
pub fn contains_bytes(hay: &[u8], needle: &[u8]) -> (res: bool)
    ensures
        res == has_infix(hay@, needle@),
{
    if needle.len() > hay.len() {
        return false;
    }
    let hlen = hay.len();
    let last = hlen - needle.len();
    let mut i: usize = 0;
    loop
        invariant
            hlen == hay@.len(),
            needle@.len() <= hlen,
            last == hlen - needle@.len(),
            i <= last,
            forall|j: int| 0 <= j < i ==> #[trigger] hay@.subrange(j, j + needle@.len()) != needle@,
        decreases last - i,
    {
        if crate::bytes::bytes_equal(vstd::slice::slice_subrange(hay, i, i + needle.len()), needle) {
            assert(hay@.subrange(i as int, i + needle@.len()) == needle@);
            return true;
        }
        if i == last {
            proof {
                assert forall|j: int|
                    0 <= j && j + needle@.len() <= hay@.len() implies #[trigger] hay@.subrange(
                    j,
                    j + needle@.len(),
                ) != needle@ by {
                    assert(j <= last);
                }
            }
            return false;
        }
        i = i + 1;
    }
}

/// Where the last component of a path starts: after its last `/` before
/// `i`, or at zero.
pub open spec fn component_start(p: Seq<u8>, i: int) -> int
    decreases i,
{
    if i <= 0 {
        0
    } else if p[i - 1] == 47 {
        i
    } else {
        component_start(p, i - 1)
    }
}

/// The file name of a path: what follows its last `/`.
pub open spec fn file_name(p: Seq<u8>) -> Seq<u8> {
    p.subrange(component_start(p, p.len() as int), p.len() as int)
}

proof fn lemma_component_start(p: Seq<u8>, i: int)
    requires
        0 <= i <= p.len(),
    ensures
        0 <= component_start(p, i) <= i,
    decreases i,
{
    if i > 0 && p[i - 1] != 47 {
        lemma_component_start(p, i - 1);
    }
}

fn file_name_of(p: &[u8]) -> (res: &[u8])
    ensures
        res@ == file_name(p@),
{
    let mut i = p.len();
    while i > 0 && p[i - 1] != 47
        invariant
            i <= p@.len(),
            component_start(p@, p@.len() as int) == component_start(p@, i as int),
        decreases i,
    {
        i = i - 1;
    }
    vstd::slice::slice_subrange(p, i, p.len())
}

/// An optional string's bytes.
pub open spec fn opt_bytes(o: Option<String>) -> Option<Seq<u8>> {
    match o {
        Some(s) => Some(encode_utf8(s@)),
        None => None,
    }
}

/// The pattern of an optional glob.
pub open spec fn opt_pattern(g: Option<PathGlob>) -> Option<Seq<char>> {
    match g {
        Some(x) => Some(x.pattern()),
        None => None,
    }
}

/// Whether a glob, if there is one, accepts the path.
pub open spec fn glob_passes(g: Option<Seq<char>>, path: Seq<char>) -> bool {
    match g {
        Some(pattern) => glob_accepts(pattern, path),
        None => true,
    }
}

/// Whether a file search keeps an entry: a file whose name holds `name`,
/// whose path holds `within` and that the glob accepts, each when given.
pub open spec fn file_wanted(
    e: Entry,
    name: Option<Seq<u8>>,
    within: Option<Seq<u8>>,
    g: Option<Seq<char>>,
) -> bool {
    &&& encode_utf8(e.kind@) == w_file()
    &&& (name matches Some(n) ==> has_infix(file_name(encode_utf8(e.path@)), n))
    &&& (within matches Some(w) ==> has_infix(encode_utf8(e.path@), w))
    &&& glob_passes(g, e.path@)
}

/// The items of the entries that a file search keeps, in order.
pub open spec fn file_values(
    s: Seq<Entry>,
    name: Option<Seq<u8>>,
    within: Option<Seq<u8>>,
    g: Option<Seq<char>>,
) -> Seq<JsonV>
    decreases s.len(),
{
    if s.len() == 0 {
        seq![]
    } else {
        let rest = file_values(s.drop_last(), name, within, g);
        if file_wanted(s.last(), name, within, g) {
            rest.push(listed_value(s.last(), w_file()))
        } else {
            rest
        }
    }
}

fn glob_ok(g: &Option<PathGlob>, path: &str) -> (res: bool)
    ensures
        res == glob_passes(opt_pattern(*g), path@),
{
    match g {
        Some(x) => x.is_match(path),
        None => true,
    }
}

fn wanted(
    e: &Entry,
    name: &Option<String>,
    within: &Option<String>,
    g: &Option<PathGlob>,
) -> (res: bool)
    ensures
        res == file_wanted(*e, opt_bytes(*name), opt_bytes(*within), opt_pattern(*g)),
{
    let file_w: [u8; 4] = [102u8, 105u8, 108u8, 101u8];
    assert(file_w@ =~= w_file());
    if !crate::bytes::bytes_equal(e.kind.as_str().as_bytes(), file_w.as_slice()) {
        return false;
    }
    let p = e.path.as_str().as_bytes();
    if let Some(n) = name {
        if !contains_bytes(file_name_of(p), n.as_str().as_bytes()) {
            return false;
        }
    }
    if let Some(w) = within {
        if !contains_bytes(p, w.as_str().as_bytes()) {
            return false;
        }
    }
    glob_ok(g, e.path.as_str())
}

/// The items of a file search: each file kept, then each place not
/// inspected.
pub fn file_rows(
    inv: &Inventory,
    name: &Option<String>,
    within: &Option<String>,
    g: &Option<PathGlob>,
) -> (res: Vec<Json>)
    ensures
        items_view(res@) == file_values(
            inv.entries@,
            opt_bytes(*name),
            opt_bytes(*within),
            opt_pattern(*g),
        ) + gap_values(inv.gaps@),
{
    let ghost (n, w, gp) = (opt_bytes(*name), opt_bytes(*within), opt_pattern(*g));
    let ghost es = inv.entries@;
    let mut rows: Vec<Json> = Vec::new();
    let mut k: usize = 0;
    while k < inv.entries.len()
        invariant
            k <= es.len(),
            es == inv.entries@,
            n == opt_bytes(*name),
            w == opt_bytes(*within),
            gp == opt_pattern(*g),
            items_view(rows@) == file_values(es.subrange(0, k as int), n, w, gp),
        decreases es.len() - k,
    {
        assert(es.subrange(0, k + 1).drop_last() =~= es.subrange(0, k as int));
        if wanted(&inv.entries[k], name, within, g) {
            let r = listed_row(&inv.entries[k], word_file());
            proof {
                lemma_push_row(rows@, r);
            }
            rows.push(r);
        }
        k = k + 1;
    }
    assert(es.subrange(0, k as int) =~= es);
    push_gap_rows(&mut rows, &inv.gaps);
    rows
}

/// The paths a text search goes through, in order: each file the glob
/// accepts, then each place not inspected, which the search reports.
pub open spec fn search_paths_of(s: Seq<Entry>, g: Option<Seq<char>>) -> Seq<Seq<char>>
    decreases s.len(),
{
    if s.len() == 0 {
        seq![]
    } else {
        let rest = search_paths_of(s.drop_last(), g);
        if encode_utf8(s.last().kind@) == w_file() && glob_passes(g, s.last().path@) {
            rest.push(s.last().path@)
        } else {
            rest
        }
    }
}

/// The paths a text search goes through.
pub fn search_paths(inv: &Inventory, g: &Option<PathGlob>) -> (res: Vec<String>)
    ensures
        res@.map_values(|s: String| s@) == search_paths_of(inv.entries@, opt_pattern(*g))
            + inv.gaps@.map_values(|x: Gap| x.path@),
{
    let ghost es = inv.entries@;
    let ghost gp = opt_pattern(*g);
    let file_w: [u8; 4] = [102u8, 105u8, 108u8, 101u8];
    assert(file_w@ =~= w_file());
    let mut out: Vec<String> = Vec::new();
    let mut k: usize = 0;
    while k < inv.entries.len()
        invariant
            k <= es.len(),
            es == inv.entries@,
            gp == opt_pattern(*g),
            file_w@ == w_file(),
            out@.map_values(|s: String| s@) == search_paths_of(es.subrange(0, k as int), gp),
        decreases es.len() - k,
    {
        assert(es.subrange(0, k + 1).drop_last() =~= es.subrange(0, k as int));
        let e = &inv.entries[k];
        if crate::bytes::bytes_equal(e.kind.as_str().as_bytes(), file_w.as_slice()) && glob_ok(
            g,
            e.path.as_str(),
        ) {
            let ghost before = out@;
            out.push(e.path.clone());
            assert(out@.map_values(|s: String| s@) =~= before.map_values(|s: String| s@).push(
                e.path@,
            ));
        }
        k = k + 1;
    }
    assert(es.subrange(0, k as int) =~= es);
    let ghost mid = out@.map_values(|s: String| s@);
    let mut j: usize = 0;
    while j < inv.gaps.len()
        invariant
            j <= inv.gaps@.len(),
            out@.map_values(|s: String| s@) == mid + inv.gaps@.subrange(0, j as int).map_values(
                |x: Gap| x.path@,
            ),
        decreases inv.gaps@.len() - j,
    {
        let ghost before = out@;
        out.push(inv.gaps[j].path.clone());
        assert(out@.map_values(|s: String| s@) =~= before.map_values(|s: String| s@).push(
            inv.gaps@[j as int].path@,
        ));
        assert(inv.gaps@.subrange(0, j + 1).map_values(|x: Gap| x.path@) =~= inv.gaps@.subrange(
            0,
            j as int,
        ).map_values(|x: Gap| x.path@).push(inv.gaps@[j as int].path@));
        j = j + 1;
    }
    assert(inv.gaps@.subrange(0, j as int) =~= inv.gaps@);
    out
}


/// The row of a tree entry: its mode in octal, id, path, and whether it is
/// a regular file whose text may be read.
pub open spec fn tree_value(e: TreeEntry) -> JsonV {
    JsonV::Obj(
        seq![
            (w_mode(), JsonV::Str(crate::git::diff::octal(e.mode as nat))),
            (w_oid(), JsonV::Str(encode_utf8(e.oid@))),
            (w_path(), JsonV::Str(encode_utf8(e.path@))),
            (w_readable_type(), JsonV::Bool(crate::git::tree::regular_mode(e.mode))),
        ],
    )
}

/// The rows of the tree entries that the glob accepts, in order.
pub open spec fn tree_values(s: Seq<TreeEntry>, g: Option<Seq<char>>) -> Seq<JsonV>
    decreases s.len(),
{
    if s.len() == 0 {
        seq![]
    } else {
        let rest = tree_values(s.drop_last(), g);
        if glob_passes(g, s.last().path@) {
            rest.push(tree_value(s.last()))
        } else {
            rest
        }
    }
}

fn tree_row(e: &TreeEntry) -> (res: Json)
    ensures
        res.jv() == tree_value(*e),
{
    let fields = vec![
        (word_mode(), Json::Str(crate::git::diff::octal_string(e.mode))),
        (word_oid(), Json::Str(e.oid.clone())),
        (word_path(), Json::Str(e.path.clone())),
        (word_readable_type(), Json::Bool(e.mode == 33188 || e.mode == 33261)),
    ];
    proof {
        reveal_with_fuel(crate::json::fields_view, 5);
        assert(crate::json::fields_view(fields@) =~= tree_value(*e)->Obj_0);
    }
    Json::Obj(fields)
}

/// The rows of a revision's tree listing.
pub fn tree_rows(entries: &Vec<TreeEntry>, g: &Option<PathGlob>) -> (res: Vec<Json>)
    ensures
        items_view(res@) == tree_values(entries@, opt_pattern(*g)),
{
    let ghost es = entries@;
    let ghost gp = opt_pattern(*g);
    let mut rows: Vec<Json> = Vec::new();
    let mut k: usize = 0;
    while k < entries.len()
        invariant
            k <= es.len(),
            es == entries@,
            gp == opt_pattern(*g),
            items_view(rows@) == tree_values(es.subrange(0, k as int), gp),
        decreases es.len() - k,
    {
        assert(es.subrange(0, k + 1).drop_last() =~= es.subrange(0, k as int));
        if glob_ok(g, entries[k].path.as_str()) {
            let r = tree_row(&entries[k]);
            proof {
                lemma_push_row(rows@, r);
            }
            rows.push(r);
        }
        k = k + 1;
    }
    assert(es.subrange(0, k as int) =~= es);
    rows
}

/// Strings as JSON strings.
pub open spec fn str_values(s: Seq<String>) -> Seq<JsonV> {
    s.map_values(|x: String| JsonV::Str(encode_utf8(x@)))
}

/// The row of a commit: author, committer, id and parents.
pub open spec fn commit_value(c: Commit) -> JsonV {
    JsonV::Obj(
        seq![
            (w_author(), JsonV::Str(encode_utf8(c.author@))),
            (w_committer(), JsonV::Str(encode_utf8(c.committer@))),
            (w_kind(), JsonV::Str(w_commit())),
            (w_oid(), JsonV::Str(encode_utf8(c.oid@))),
            (w_parents(), JsonV::Arr(str_values(c.parents@))),
        ],
    )
}

/// The row of the `n`-th line of a commit's message.
pub open spec fn message_value(oid: Seq<u8>, n: nat, text: Seq<u8>) -> JsonV {
    JsonV::Obj(
        seq![
            (w_kind(), JsonV::Str(w_message())),
            (w_line(), JsonV::Num(n)),
            (w_oid(), JsonV::Str(oid)),
            (w_text(), JsonV::Str(text)),
        ],
    )
}

/// The rows of a message's lines, numbered from one.
pub open spec fn message_values(oid: Seq<u8>, lines: Seq<Seq<u8>>) -> Seq<JsonV> {
    Seq::new(lines.len(), |k: int| message_value(oid, (k + 1) as nat, lines[k]))
}

fn strings_json(s: &Vec<String>) -> (res: Json)
    ensures
        res.jv() == JsonV::Arr(str_values(s@)),
{
    let mut items: Vec<Json> = Vec::new();
    let mut k: usize = 0;
    while k < s.len()
        invariant
            k <= s@.len(),
            items_view(items@) == str_values(s@.subrange(0, k as int)),
        decreases s@.len() - k,
    {
        let x = Json::Str(s[k].clone());
        proof {
            lemma_push_row(items@, x);
            assert(str_values(s@.subrange(0, k + 1)) =~= str_values(s@.subrange(0, k as int)).push(
                x.jv(),
            ));
        }
        items.push(x);
        k = k + 1;
    }
    assert(s@.subrange(0, k as int) =~= s@);
    Json::Arr(items)
}

fn commit_row(c: &Commit) -> (res: Json)
    ensures
        res.jv() == commit_value(*c),
{
    let fields = vec![
        (word_author(), Json::Str(c.author.clone())),
        (word_committer(), Json::Str(c.committer.clone())),
        (word_kind(), Json::Str(word_commit())),
        (word_oid(), Json::Str(c.oid.clone())),
        (word_parents(), strings_json(&c.parents)),
    ];
    proof {
        reveal_with_fuel(crate::json::fields_view, 6);
        assert(crate::json::fields_view(fields@) =~= commit_value(*c)->Obj_0);
    }
    Json::Obj(fields)
}

fn message_row(oid: &str, n: usize, text: &str) -> (res: Json)
    ensures
        res.jv() == message_value(oid.spec_bytes(), n as nat, text.spec_bytes()),
{
    let fields = vec![
        (word_kind(), Json::Str(word_message())),
        (word_line(), Json::Num(n as u128)),
        (word_oid(), Json::Str(oid.to_owned())),
        (word_text(), Json::Str(text.to_owned())),
    ];
    proof {
        reveal_with_fuel(crate::json::fields_view, 5);
        assert(crate::json::fields_view(fields@) =~= message_value(
            oid.spec_bytes(),
            n as nat,
            text.spec_bytes(),
        )->Obj_0);
    }
    Json::Obj(fields)
}

/// The rows of a commit: its own row, then one per line of its message.
pub fn commit_rows(c: &Commit) -> (res: Vec<Json>)
    ensures
        items_view(res@) == seq![commit_value(*c)] + message_values(
            encode_utf8(c.oid@),
            crate::text::text_lines(encode_utf8(c.message@)),
        ),
{
    let lines = crate::text::lines(c.message.as_str());
    let ghost ls = crate::text::text_lines(encode_utf8(c.message@));
    let ghost oid = encode_utf8(c.oid@);
    let mut rows: Vec<Json> = Vec::new();
    let first = commit_row(c);
    proof {
        lemma_push_row(rows@, first);
    }
    rows.push(first);
    let mut k: usize = 0;
    while k < lines.len()
        invariant
            k <= lines@.len(),
            lines@.len() == ls.len(),
            forall|j: int| 0 <= j < lines@.len() ==> #[trigger] lines@[j].spec_bytes() == ls[j],
            oid == encode_utf8(c.oid@),
            items_view(rows@) == seq![commit_value(*c)] + message_values(oid, ls.subrange(0, k as int)),
        decreases lines@.len() - k,
    {
        let r = message_row(c.oid.as_str(), k + 1, lines[k]);
        proof {
            lemma_push_row(rows@, r);
            assert(lines@[k as int].spec_bytes() == ls[k as int]);
            assert(message_values(oid, ls.subrange(0, k + 1)) =~= message_values(
                oid,
                ls.subrange(0, k as int),
            ).push(r.jv()));
            assert(seq![commit_value(*c)] + message_values(oid, ls.subrange(0, k + 1)) =~= (seq![
                commit_value(*c),
            ] + message_values(oid, ls.subrange(0, k as int))).push(r.jv()));
        }
        rows.push(r);
        k = k + 1;
    }
    assert(ls.subrange(0, k as int) =~= ls);
    rows
}

/// The row of the `n`-th line of a file that a root commit adds.
pub open spec fn added_value(path: Seq<u8>, n: nat, text: Seq<u8>) -> JsonV {
    JsonV::Obj(
        seq![
            (w_kind(), JsonV::Str(w_patch_line())),
            (w_new_line(), JsonV::Num(n)),
            (w_old_line(), JsonV::Null),
            (w_path(), JsonV::Str(path)),
            (w_sign(), JsonV::Str(w_plus())),
            (w_text(), JsonV::Str(text)),
        ],
    )
}

fn added_row(path: &str, n: usize, text: &str) -> (res: Json)
    ensures
        res.jv() == added_value(path.spec_bytes(), n as nat, text.spec_bytes()),
{
    let fields = vec![
        (word_kind(), Json::Str(word_patch_line())),
        (word_new_line(), Json::Num(n as u128)),
        (word_old_line(), Json::Null),
        (word_path(), Json::Str(path.to_owned())),
        (word_sign(), Json::Str(word_plus())),
        (word_text(), Json::Str(text.to_owned())),
    ];
    proof {
        reveal_with_fuel(crate::json::fields_view, 7);
        assert(crate::json::fields_view(fields@) =~= added_value(
            path.spec_bytes(),
            n as nat,
            text.spec_bytes(),
        )->Obj_0);
    }
    Json::Obj(fields)
}

/// The rows of a file that a root commit adds: each of its lines, numbered
/// from one, with no old line.
pub fn added_rows(path: &str, content: &str) -> (res: Vec<Json>)
    ensures
        items_view(res@) == ({
            let ls = crate::text::text_lines(content.spec_bytes());
            Seq::new(ls.len(), |k: int| added_value(path.spec_bytes(), (k + 1) as nat, ls[k]))
        }),
{
    let lines = crate::text::lines(content);
    let ghost ls = crate::text::text_lines(content.spec_bytes());
    let ghost want = Seq::new(ls.len(), |k: int| added_value(path.spec_bytes(), (k + 1) as nat, ls[k]));
    let mut rows: Vec<Json> = Vec::new();
    let mut k: usize = 0;
    while k < lines.len()
        invariant
            k <= lines@.len(),
            lines@.len() == ls.len(),
            forall|j: int| 0 <= j < lines@.len() ==> #[trigger] lines@[j].spec_bytes() == ls[j],
            want == Seq::new(ls.len(), |k: int| added_value(path.spec_bytes(), (k + 1) as nat, ls[k])),
            items_view(rows@) == want.subrange(0, k as int),
        decreases lines@.len() - k,
    {
        let r = added_row(path, k + 1, lines[k]);
        proof {
            lemma_push_row(rows@, r);
            assert(lines@[k as int].spec_bytes() == ls[k as int]);
            assert(want.subrange(0, k + 1) =~= want.subrange(0, k as int).push(r.jv()));
        }
        rows.push(r);
        k = k + 1;
    }
    assert(want.subrange(0, k as int) =~= want);
    rows
}

/// The row of a file whose text a root commit's patch leaves out, and why.
pub open spec fn left_out_value(path: Seq<u8>, reason: Seq<u8>) -> JsonV {
    JsonV::Obj(
        seq![
            (w_kind(), JsonV::Str(w_patch_omitted())),
            (w_path(), JsonV::Str(path)),
            (w_reason(), JsonV::Str(reason)),
        ],
    )
}

/// The row of a file left out of a patch.
pub fn left_out_row(path: &str, reason: &str) -> (res: Json)
    ensures
        res.jv() == left_out_value(path.spec_bytes(), reason.spec_bytes()),
{
    let fields = vec![
        (word_kind(), Json::Str(word_patch_omitted())),
        (word_path(), Json::Str(path.to_owned())),
        (word_reason(), Json::Str(reason.to_owned())),
    ];
    proof {
        reveal_with_fuel(crate::json::fields_view, 4);
        assert(crate::json::fields_view(fields@) =~= left_out_value(
            path.spec_bytes(),
            reason.spec_bytes(),
        )->Obj_0);
    }
    Json::Obj(fields)
}

/// Whether a row's line number lies from `start` to `end`, inclusive; a
/// row without a line number lies nowhere.
pub open spec fn line_within(v: JsonV, start: nat, end: Option<nat>) -> bool {
    match crate::json::member(v, w_line()) {
        Some(JsonV::Num(k)) => start <= k && (end matches Some(e) ==> k <= e),
        _ => false,
    }
}

/// The rows whose line numbers lie from `start` to `end`, in order.
pub open spec fn rows_within(s: Seq<JsonV>, start: nat, end: Option<nat>) -> Seq<JsonV>
    decreases s.len(),
{
    if s.len() == 0 {
        seq![]
    } else {
        let rest = rows_within(s.drop_last(), start, end);
        if line_within(s.last(), start, end) {
            rest.push(s.last())
        } else {
            rest
        }
    }
}

/// An optional line number as a mathematical one.
pub open spec fn opt_nat(o: Option<usize>) -> Option<nat> {
    match o {
        Some(x) => Some(x as nat),
        None => None,
    }
}

fn row_line(row: &Json) -> (res: Option<u128>)
    ensures
        match crate::json::member(row.jv(), w_line()) {
            Some(JsonV::Num(k)) => res == Some(k as u128) && k <= u128::MAX,
            _ => res is None,
        },
{
    let line_w: [u8; 4] = [108u8, 105u8, 110u8, 101u8];
    assert(line_w@ =~= w_line());
    match row {
        Json::Obj(fields) => {
            proof {
                crate::json::lemma_fields_view(fields@);
            }
            match crate::json::find_member(fields, line_w.as_slice()) {
                Some(i) => {
                    proof {
                        crate::json::lemma_member_index(crate::json::fields_view(fields@), w_line(), 0);
                    }
                    match &fields[i].1 {
                        Json::Num(k) => Some(*k),
                        _ => None,
                    }
                },
                None => None,
            }
        },
        _ => None,
    }
}

/// The blame rows of the lines from `start` (one when not given) to `end`
/// (the last when not given).
pub fn rows_in_range(rows: &Vec<Json>, start: Option<usize>, end: Option<usize>) -> (res: Vec<Json>)
    ensures
        items_view(res@) == rows_within(
            items_view(rows@),
            match start {
                Some(s) => s as nat,
                None => 1,
            },
            opt_nat(end),
        ),
{
    let from: usize = match start {
        Some(s) => s,
        None => 1,
    };
    let ghost src = items_view(rows@);
    proof {
        crate::json::lemma_items_view(rows@);
    }
    let mut out: Vec<Json> = Vec::new();
    let mut k: usize = 0;
    while k < rows.len()
        invariant
            k <= rows@.len(),
            src == items_view(rows@),
            src.len() == rows@.len(),
            forall|j: int| 0 <= j < rows@.len() ==> #[trigger] src[j] == rows@[j].jv(),
            items_view(out@) == rows_within(src.subrange(0, k as int), from as nat, opt_nat(end)),
        decreases rows@.len() - k,
    {
        assert(src.subrange(0, k + 1).drop_last() =~= src.subrange(0, k as int));
        assert(src[k as int] == rows@[k as int].jv());
        let keep = match row_line(&rows[k]) {
            Some(l) => (from as u128) <= l && match end {
                Some(e) => l <= e as u128,
                None => true,
            },
            None => false,
        };
        if keep {
            let r = crate::json::clone_json(&rows[k]);
            proof {
                lemma_push_row(out@, r);
            }
            out.push(r);
        }
        k = k + 1;
    }
    assert(src.subrange(0, k as int) =~= src);
    out
}

/// The row of a reference: its name and the id it resolves to.
pub open spec fn ref_value(name: Seq<u8>, oid: Seq<u8>) -> JsonV {
    JsonV::Obj(seq![(w_name(), JsonV::Str(name)), (w_oid(), JsonV::Str(oid))])
}

/// The rows of the references, in order.
pub fn ref_rows(refs: &Vec<(String, String)>) -> (res: Vec<Json>)
    ensures
        items_view(res@) == refs@.map_values(
            |r: (String, String)| ref_value(encode_utf8(r.0@), encode_utf8(r.1@)),
        ),
{
    let ghost want = refs@.map_values(
        |r: (String, String)| ref_value(encode_utf8(r.0@), encode_utf8(r.1@)),
    );
    let mut rows: Vec<Json> = Vec::new();
    let mut k: usize = 0;
    while k < refs.len()
        invariant
            k <= refs@.len(),
            want == refs@.map_values(
                |r: (String, String)| ref_value(encode_utf8(r.0@), encode_utf8(r.1@)),
            ),
            items_view(rows@) == want.subrange(0, k as int),
        decreases refs@.len() - k,
    {
        let fields = vec![
            (word_name(), Json::Str(refs[k].0.clone())),
            (word_oid(), Json::Str(refs[k].1.clone())),
        ];
        proof {
            reveal_with_fuel(crate::json::fields_view, 3);
            assert(crate::json::fields_view(fields@) =~= want[k as int]->Obj_0);
        }
        let r = Json::Obj(fields);
        proof {
            lemma_push_row(rows@, r);
            assert(want.subrange(0, k + 1) =~= want.subrange(0, k as int).push(r.jv()));
        }
        rows.push(r);
        k = k + 1;
    }
    assert(want.subrange(0, k as int) =~= want);
    rows
}

} // verus!
