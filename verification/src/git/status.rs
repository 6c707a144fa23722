//! The status of a repository's work tree and index against `HEAD`, one
//! file read at a time.
use crate::error::Error;
use crate::bytes::bytes_equal;
use crate::fs::Gap;
use crate::git::history::{find_sorted, merge_sorted, strictly_sorted, strs_view};
use crate::git::objects::TreeEntry;
use crate::git::store::{hash_object, object_id};
use crate::json::{ascii_string, fields_view, items_view, Json, JsonV};
use crate::output::{FILE_LIMIT, SCAN_BYTES};
use vstd::prelude::*;
use vstd::string::StringSliceAdditionalSpecFns;
use vstd::utf8::encode_utf8;

verus! {

/// `path`
pub open spec fn w_path() -> Seq<u8> {
    seq![112u8, 97u8, 116u8, 104u8]
}

fn word_path() -> (res: String)
    ensures
        encode_utf8(res@) == w_path(),
{
    let b: [u8; 4] = [112u8, 97u8, 116u8, 104u8];
    assert(b@ =~= w_path());
    ascii_string(b.as_slice())
}

/// `reason`
pub open spec fn w_reason() -> Seq<u8> {
    seq![114u8, 101u8, 97u8, 115u8, 111u8, 110u8]
}

fn word_reason() -> (res: String)
    ensures
        encode_utf8(res@) == w_reason(),
{
    let b: [u8; 6] = [114u8, 101u8, 97u8, 115u8, 111u8, 110u8];
    assert(b@ =~= w_reason());
    ascii_string(b.as_slice())
}

/// `staged`
pub open spec fn w_staged() -> Seq<u8> {
    seq![115u8, 116u8, 97u8, 103u8, 101u8, 100u8]
}

fn word_staged() -> (res: String)
    ensures
        encode_utf8(res@) == w_staged(),
{
    let b: [u8; 6] = [115u8, 116u8, 97u8, 103u8, 101u8, 100u8];
    assert(b@ =~= w_staged());
    ascii_string(b.as_slice())
}

/// `worktree`
pub open spec fn w_worktree() -> Seq<u8> {
    seq![119u8, 111u8, 114u8, 107u8, 116u8, 114u8, 101u8, 101u8]
}

fn word_worktree() -> (res: String)
    ensures
        encode_utf8(res@) == w_worktree(),
{
    let b: [u8; 8] = [119u8, 111u8, 114u8, 107u8, 116u8, 114u8, 101u8, 101u8];
    assert(b@ =~= w_worktree());
    ascii_string(b.as_slice())
}

/// `added`
pub open spec fn w_added() -> Seq<u8> {
    seq![97u8, 100u8, 100u8, 101u8, 100u8]
}

fn word_added() -> (res: String)
    ensures
        encode_utf8(res@) == w_added(),
{
    let b: [u8; 5] = [97u8, 100u8, 100u8, 101u8, 100u8];
    assert(b@ =~= w_added());
    ascii_string(b.as_slice())
}

/// `deleted`
pub open spec fn w_deleted() -> Seq<u8> {
    seq![100u8, 101u8, 108u8, 101u8, 116u8, 101u8, 100u8]
}

fn word_deleted() -> (res: String)
    ensures
        encode_utf8(res@) == w_deleted(),
{
    let b: [u8; 7] = [100u8, 101u8, 108u8, 101u8, 116u8, 101u8, 100u8];
    assert(b@ =~= w_deleted());
    ascii_string(b.as_slice())
}

/// `modified`
pub open spec fn w_modified() -> Seq<u8> {
    seq![109u8, 111u8, 100u8, 105u8, 102u8, 105u8, 101u8, 100u8]
}

fn word_modified() -> (res: String)
    ensures
        encode_utf8(res@) == w_modified(),
{
    let b: [u8; 8] = [109u8, 111u8, 100u8, 105u8, 102u8, 105u8, 101u8, 100u8];
    assert(b@ =~= w_modified());
    ascii_string(b.as_slice())
}

/// `untracked`
pub open spec fn w_untracked() -> Seq<u8> {
    seq![117u8, 110u8, 116u8, 114u8, 97u8, 99u8, 107u8, 101u8, 100u8]
}

fn word_untracked() -> (res: String)
    ensures
        encode_utf8(res@) == w_untracked(),
{
    let b: [u8; 9] = [117u8, 110u8, 116u8, 114u8, 97u8, 99u8, 107u8, 101u8, 100u8];
    assert(b@ =~= w_untracked());
    ascii_string(b.as_slice())
}

/// `not_checked`
pub open spec fn w_not_checked() -> Seq<u8> {
    seq![110u8, 111u8, 116u8, 95u8, 99u8, 104u8, 101u8, 99u8, 107u8, 101u8, 100u8]
}

fn word_not_checked() -> (res: String)
    ensures
        encode_utf8(res@) == w_not_checked(),
{
    let b: [u8; 11] = [110u8, 111u8, 116u8, 95u8, 99u8, 104u8, 101u8, 99u8, 107u8, 101u8, 100u8];
    assert(b@ =~= w_not_checked());
    ascii_string(b.as_slice())
}

/// `status_scan_byte_limit`
pub open spec fn w_scan_limit() -> Seq<u8> {
    seq![115u8, 116u8, 97u8, 116u8, 117u8, 115u8, 95u8, 115u8, 99u8, 97u8, 110u8, 95u8, 98u8, 121u8, 116u8, 101u8, 95u8, 108u8, 105u8, 109u8, 105u8, 116u8]
}

fn word_scan_limit() -> (res: String)
    ensures
        encode_utf8(res@) == w_scan_limit(),
{
    let b: [u8; 22] = [115u8, 116u8, 97u8, 116u8, 117u8, 115u8, 95u8, 115u8, 99u8, 97u8, 110u8, 95u8, 98u8, 121u8, 116u8, 101u8, 95u8, 108u8, 105u8, 109u8, 105u8, 116u8];
    assert(b@ =~= w_scan_limit());
    ascii_string(b.as_slice())
}

/// `items`
pub open spec fn w_items() -> Seq<u8> {
    seq![105u8, 116u8, 101u8, 109u8, 115u8]
}

fn word_items() -> (res: String)
    ensures
        encode_utf8(res@) == w_items(),
{
    let b: [u8; 5] = [105u8, 116u8, 101u8, 109u8, 115u8];
    assert(b@ =~= w_items());
    ascii_string(b.as_slice())
}

/// `semantics`
pub open spec fn w_semantics() -> Seq<u8> {
    seq![115u8, 101u8, 109u8, 97u8, 110u8, 116u8, 105u8, 99u8, 115u8]
}

fn word_semantics() -> (res: String)
    ensures
        encode_utf8(res@) == w_semantics(),
{
    let b: [u8; 9] = [115u8, 101u8, 109u8, 97u8, 110u8, 116u8, 105u8, 99u8, 115u8];
    assert(b@ =~= w_semantics());
    ascii_string(b.as_slice())
}

/// `raw bytes; no gitignore, attributes, filters, or rename detection`
pub open spec fn w_semantics_text() -> Seq<u8> {
    seq![114u8, 97u8, 119u8, 32u8, 98u8, 121u8, 116u8, 101u8, 115u8, 59u8, 32u8, 110u8, 111u8, 32u8, 103u8, 105u8, 116u8, 105u8, 103u8, 110u8, 111u8, 114u8, 101u8, 44u8, 32u8, 97u8, 116u8, 116u8, 114u8, 105u8, 98u8, 117u8, 116u8, 101u8, 115u8, 44u8, 32u8, 102u8, 105u8, 108u8, 116u8, 101u8, 114u8, 115u8, 44u8, 32u8, 111u8, 114u8, 32u8, 114u8, 101u8, 110u8, 97u8, 109u8, 101u8, 32u8, 100u8, 101u8, 116u8, 101u8, 99u8, 116u8, 105u8, 111u8, 110u8]
}

fn word_semantics_text() -> (res: String)
    ensures
        encode_utf8(res@) == w_semantics_text(),
{
    let b: [u8; 65] = [114u8, 97u8, 119u8, 32u8, 98u8, 121u8, 116u8, 101u8, 115u8, 59u8, 32u8, 110u8, 111u8, 32u8, 103u8, 105u8, 116u8, 105u8, 103u8, 110u8, 111u8, 114u8, 101u8, 44u8, 32u8, 97u8, 116u8, 116u8, 114u8, 105u8, 98u8, 117u8, 116u8, 101u8, 115u8, 44u8, 32u8, 102u8, 105u8, 108u8, 116u8, 101u8, 114u8, 115u8, 44u8, 32u8, 111u8, 114u8, 32u8, 114u8, 101u8, 110u8, 97u8, 109u8, 101u8, 32u8, 100u8, 101u8, 116u8, 101u8, 99u8, 116u8, 105u8, 111u8, 110u8];
    assert(b@ =~= w_semantics_text());
    ascii_string(b.as_slice())
}


/// `blob`
pub open spec fn w_blob() -> Seq<u8> {
    seq![98u8, 108u8, 111u8, 98u8]
}

fn word_blob() -> (res: String)
    ensures
        encode_utf8(res@) == w_blob(),
{
    let b: [u8; 4] = [98u8, 108u8, 111u8, 98u8];
    assert(b@ =~= w_blob());
    ascii_string(b.as_slice())
}


/// How a path changed.
#[derive(Clone, Copy, Debug, PartialEq, Eq)]
pub enum Change {
    Added,
    Deleted,
    Modified,
    Untracked,
    NotChecked,
}

/// The word a change is reported by.
pub open spec fn change_word(c: Change) -> Seq<u8> {
    match c {
        Change::Added => w_added(),
        Change::Deleted => w_deleted(),
        Change::Modified => w_modified(),
        Change::Untracked => w_untracked(),
        Change::NotChecked => w_not_checked(),
    }
}

fn change_string(c: Change) -> (res: String)
    ensures
        encode_utf8(res@) == change_word(c),
{
    match c {
        Change::Added => word_added(),
        Change::Deleted => word_deleted(),
        Change::Modified => word_modified(),
        Change::Untracked => word_untracked(),
        Change::NotChecked => word_not_checked(),
    }
}

/// A tree or index entry as the status sees it: its mode and its id.
pub open spec fn entry_of(e: TreeEntry) -> (u32, Seq<char>) {
    (e.mode, e.oid@)
}

/// The change between the `HEAD` entry and the index entry of a path.
pub open spec fn staged_change(h: Option<(u32, Seq<char>)>, i: Option<(u32, Seq<char>)>) -> Option<
    Change,
> {
    match (h, i) {
        (None, Some(_)) => Some(Change::Added),
        (Some(_), None) => Some(Change::Deleted),
        (Some(a), Some(b)) => if a.1 != b.1 || a.0 != b.0 {
            Some(Change::Modified)
        } else {
            None
        },
        (None, None) => None,
    }
}

/// `p` lies within the unscanned place `g`: it is `g`, lies beneath it, or
/// `g` is the whole tree.
pub open spec fn within(p: Seq<u8>, g: Seq<u8>) -> bool {
    p == g || (g.len() < p.len() && p.subrange(0, g.len() as int) == g && p[g.len() as int] == 47)
        || g.len() == 0
}

/// The first unscanned place from `k` on that `p` lies within.
pub open spec fn first_gap(p: Seq<u8>, gaps: Seq<(Seq<u8>, Seq<u8>)>, k: int) -> Option<int>
    decreases gaps.len() - k,
{
    if k < 0 || k >= gaps.len() {
        None
    } else if within(p, gaps[k].0) {
        Some(k)
    } else {
        first_gap(p, gaps, k + 1)
    }
}

proof fn lemma_first_gap(p: Seq<u8>, gaps: Seq<(Seq<u8>, Seq<u8>)>, k: int)
    requires
        0 <= k,
    ensures
        first_gap(p, gaps, k) matches Some(j) ==> k <= j < gaps.len() && within(p, gaps[j].0),
    decreases gaps.len() - k,
{
    if k < gaps.len() && !within(p, gaps[k].0) {
        lemma_first_gap(p, gaps, k + 1);
    }
}

/// The work tree's change of a path that needs no read, or `None` when
/// the file must be read to tell.
pub open spec fn plain_worktree(
    p: Seq<u8>,
    indexed: bool,
    present: bool,
    gaps: Seq<(Seq<u8>, Seq<u8>)>,
    read: int,
) -> Option<(Option<Change>, Option<Seq<u8>>)> {
    if !indexed && present {
        Some((Some(Change::Untracked), None))
    } else if indexed && !present {
        match first_gap(p, gaps, 0) {
            Some(k) => Some((Some(Change::NotChecked), Some(gaps[k].1))),
            None => Some((Some(Change::Deleted), None)),
        }
    } else if indexed && present {
        if read >= SCAN_BYTES {
            Some((Some(Change::NotChecked), Some(w_scan_limit())))
        } else {
            None
        }
    } else {
        Some((None, None))
    }
}

/// A JSON string, or null.
pub open spec fn opt_str(o: Option<Seq<u8>>) -> JsonV {
    match o {
        Some(s) => JsonV::Str(s),
        None => JsonV::Null,
    }
}

/// A change as a JSON string, or null.
pub open spec fn change_str(c: Option<Change>) -> JsonV {
    match c {
        Some(c) => JsonV::Str(change_word(c)),
        None => JsonV::Null,
    }
}

/// The row of a path, if it changed at all.
pub open spec fn status_row(
    p: Seq<u8>,
    staged: Option<Change>,
    worktree: Option<Change>,
    reason: Option<Seq<u8>>,
) -> Option<JsonV> {
    if staged is Some || worktree is Some {
        Some(
            JsonV::Obj(
                seq![
                    (w_path(), JsonV::Str(p)),
                    (w_reason(), opt_str(reason)),
                    (w_staged(), change_str(staged)),
                    (w_worktree(), change_str(worktree)),
                ],
            ),
        )
    } else {
        None
    }
}

/// The row of an unscanned place.
pub open spec fn gap_row(g: (Seq<u8>, Seq<u8>)) -> JsonV {
    JsonV::Obj(
        seq![
            (w_path(), JsonV::Str(g.0)),
            (w_reason(), JsonV::Str(g.1)),
            (w_worktree(), JsonV::Str(w_not_checked())),
        ],
    )
}

/// The rows of the unscanned places.
pub open spec fn gap_rows(gaps: Seq<(Seq<u8>, Seq<u8>)>) -> Seq<JsonV> {
    gaps.map_values(|g: (Seq<u8>, Seq<u8>)| gap_row(g))
}

/// What the status compares: the paths in order, the `HEAD` tree's and
/// the index's entries by path, the work tree's files, and the places the
/// work tree scan could not enter.
pub struct StatusV {
    pub paths: Seq<Seq<u8>>,
    pub head: Map<Seq<u8>, (u32, Seq<char>)>,
    pub index: Map<Seq<u8>, (u32, Seq<char>)>,
    pub files: Set<Seq<u8>>,
    pub gaps: Seq<(Seq<u8>, Seq<u8>)>,
}

/// The entry a map holds for a path, if any.
pub open spec fn entry_at(m: Map<Seq<u8>, (u32, Seq<char>)>, p: Seq<u8>) -> Option<(u32, Seq<char>)> {
    if m.dom().contains(p) {
        Some(m[p])
    } else {
        None
    }
}

/// A string's bytes, if there is one.
pub open spec fn opt_bytes(o: Option<String>) -> Option<Seq<u8>> {
    match o {
        Some(s) => Some(encode_utf8(s@)),
        None => None,
    }
}

/// The row of path `j` when its work tree change needs no read.
pub open spec fn plain_row(v: StatusV, read: int, j: int) -> Option<JsonV> {
    let p = v.paths[j];
    match plain_worktree(p, v.index.dom().contains(p), v.files.contains(p), v.gaps, read) {
        Some((w, reason)) => status_row(
            p,
            staged_change(entry_at(v.head, p), entry_at(v.index, p)),
            w,
            reason,
        ),
        None => None,
    }
}

/// Whether path `j` needs its file read.
pub open spec fn needs_read(v: StatusV, read: int, j: int) -> bool {
    let p = v.paths[j];
    plain_worktree(p, v.index.dom().contains(p), v.files.contains(p), v.gaps, read) is None
}

/// The first path from `j` on that needs a read, or the end.
pub open spec fn next_read(v: StatusV, read: int, j: int) -> int
    decreases v.paths.len() - j,
{
    if j < 0 || j >= v.paths.len() {
        v.paths.len() as int
    } else if needs_read(v, read, j) {
        j
    } else {
        next_read(v, read, j + 1)
    }
}

/// The rows of the paths from `from` up to `to`, none of which needs a read.
pub open spec fn plain_rows(v: StatusV, read: int, from: int, to: int) -> Seq<JsonV>
    decreases to - from,
{
    if to <= from {
        seq![]
    } else {
        let before = plain_rows(v, read, from, to - 1);
        match plain_row(v, read, to - 1) {
            Some(r) => before.push(r),
            None => before,
        }
    }
}

/// The work tree's change of a file that was read: modified when its
/// content's blob id or its mode differs from the index entry.
pub open spec fn read_change(entry: (u32, Seq<char>), data: Seq<u8>, executable: bool) -> Option<Change> {
    let mode: u32 = if executable {
        33261
    } else {
        33188
    };
    if object_id(seq![98u8, 108u8, 111u8, 98u8], data) != entry.1 || mode != entry.0 {
        Some(Change::Modified)
    } else {
        None
    }
}

/// The entries of a list keyed by path.
pub open spec fn entries_map(s: Seq<TreeEntry>) -> Map<Seq<u8>, (u32, Seq<char>)> {
    Map::new(
        |p: Seq<u8>| exists|k: int| 0 <= k < s.len() && encode_utf8(#[trigger] s[k].path@) == p,
        |p: Seq<u8>|
            entry_of(
                s[choose|k: int| 0 <= k < s.len() && encode_utf8(#[trigger] s[k].path@) == p],
            ),
    )
}

/// The paths of a list of entries.
pub open spec fn entry_paths(s: Seq<TreeEntry>) -> Seq<Seq<u8>> {
    s.map_values(|e: TreeEntry| encode_utf8(e.path@))
}

/// Each entry answers for its own path.
pub proof fn lemma_entries_map(s: Seq<TreeEntry>, k: int)
    requires
        strictly_sorted(entry_paths(s)),
        0 <= k < s.len(),
    ensures
        entries_map(s).dom().contains(encode_utf8(s[k].path@)),
        entries_map(s)[encode_utf8(s[k].path@)] == entry_of(s[k]),
{
    let p = encode_utf8(s[k].path@);
    assert(encode_utf8(s[k].path@) == p);
    let k2 = choose|j: int| 0 <= j < s.len() && encode_utf8(#[trigger] s[j].path@) == p;
    if k2 != k {
        assert(entry_paths(s)[k] == p && entry_paths(s)[k2] == p);
        if k < k2 {
            assert(crate::git::history::str_less(entry_paths(s)[k], entry_paths(s)[k2]));
        } else {
            assert(crate::git::history::str_less(entry_paths(s)[k2], entry_paths(s)[k]));
        }
        crate::git::history::lemma_str_less_irreflexive(p);
    }
}

/// A path no entry has is not keyed.
pub proof fn lemma_entries_map_absent(s: Seq<TreeEntry>, p: Seq<u8>)
    requires
        !entry_paths(s).contains(p),
    ensures
        !entries_map(s).dom().contains(p),
{
    if entries_map(s).dom().contains(p) {
        let k = choose|k: int| 0 <= k < s.len() && encode_utf8(#[trigger] s[k].path@) == p;
        assert(entry_paths(s)[k] == p);
    }
}

fn paths_of(s: &Vec<TreeEntry>) -> (res: Vec<String>)
    ensures
        strs_view(res@) == entry_paths(s@),
{
    let mut out: Vec<String> = Vec::new();
    let mut i: usize = 0;
    while i < s.len()
        invariant
            i <= s@.len(),
            out@.len() == i,
            forall|t: int| 0 <= t < i ==> #[trigger] out@[t] == s@[t].path,
        decreases s@.len() - i,
    {
        out.push(s[i].path.clone());
        i = i + 1;
    }
    assert(strs_view(out@) =~= entry_paths(s@));
    out
}

fn opt_json(o: Option<String>) -> (res: Json)
    ensures
        res.jv() == opt_str(
            match o {
                Some(s) => Some(encode_utf8(s@)),
                None => None,
            },
        ),
{
    match o {
        Some(s) => Json::Str(s),
        None => Json::Null,
    }
}

fn change_json(c: Option<Change>) -> (res: Json)
    ensures
        res.jv() == change_str(c),
{
    match c {
        Some(c) => Json::Str(change_string(c)),
        None => Json::Null,
    }
}

fn status_row_json(p: &str, staged: Option<Change>, worktree: Option<Change>, reason: Option<String>) -> (res: Json)
    requires
        staged is Some || worktree is Some,
    ensures
        status_row(
            p.spec_bytes(),
            staged,
            worktree,
            match reason {
                Some(s) => Some(encode_utf8(s@)),
                None => None,
            },
        ) == Some(res.jv()),
{
    let fields = vec![
        (word_path(), Json::Str(p.to_owned())),
        (word_reason(), opt_json(reason)),
        (word_staged(), change_json(staged)),
        (word_worktree(), change_json(worktree)),
    ];
    proof {
        reveal_with_fuel(fields_view, 5);
    }
    let res = Json::Obj(fields);
    proof {
        assert(fields_view(fields@) =~= status_row(
            p.spec_bytes(),
            staged,
            worktree,
            match reason {
                Some(s) => Some(encode_utf8(s@)),
                None => None,
            },
        ).unwrap()->Obj_0);
    }
    res
}

fn gap_row_json(g: &Gap) -> (res: Json)
    ensures
        res.jv() == gap_row((encode_utf8(g.path@), encode_utf8(g.reason@))),
{
    let fields = vec![
        (word_path(), Json::Str(g.path.clone())),
        (word_reason(), Json::Str(g.reason.clone())),
        (word_worktree(), Json::Str(word_not_checked())),
    ];
    proof {
        reveal_with_fuel(fields_view, 4);
        assert(fields_view(fields@) =~= gap_row((encode_utf8(g.path@), encode_utf8(g.reason@)))->Obj_0);
    }
    Json::Obj(fields)
}

/// The unscanned places as bytes.
pub open spec fn gaps_view(g: Seq<Gap>) -> Seq<(Seq<u8>, Seq<u8>)> {
    g.map_values(|x: Gap| (encode_utf8(x.path@), encode_utf8(x.reason@)))
}

fn find_gap(p: &[u8], gaps: &Vec<Gap>) -> (res: Option<usize>)
    ensures
        res matches Some(k) ==> k < gaps@.len() && first_gap(p@, gaps_view(gaps@), 0) == Some(
            k as int,
        ),
        res is None ==> first_gap(p@, gaps_view(gaps@), 0) is None,
{
    let ghost gv = gaps_view(gaps@);
    let mut k: usize = 0;
    while k < gaps.len()
        invariant
            k <= gaps@.len(),
            gv == gaps_view(gaps@),
            first_gap(p@, gv, 0) == first_gap(p@, gv, k as int),
        decreases gaps@.len() - k,
    {
        let g = gaps[k].path.as_str().as_bytes();
        assert(g@ == gv[k as int].0);
        let inside = if g.len() == 0 {
            true
        } else if bytes_equal(p, g) {
            true
        } else if g.len() < p.len() && p[g.len()] == 47 {
            let head = vstd::slice::slice_subrange(p, 0, g.len());
            bytes_equal(head, g)
        } else {
            false
        };
        assert(inside == within(p@, g@));
        if inside {
            return Some(k);
        }
        k = k + 1;
    }
    None
}

/// A status in progress: the paths to compare, where the comparison stands,
/// how many bytes of files it has read, and the rows so far.
pub struct StatusWalk {
    paths: Vec<String>,
    head: Vec<TreeEntry>,
    head_paths: Vec<String>,
    index: Vec<TreeEntry>,
    index_paths: Vec<String>,
    files: Vec<String>,
    gaps: Vec<Gap>,
    pos: usize,
    read: u128,
    rows: Vec<Json>,
    pending: bool,
    done: bool,
}

impl StatusWalk {
    /// What is compared.
    pub closed spec fn view(&self) -> StatusV {
        StatusV {
            paths: strs_view(self.paths@),
            head: entries_map(self.head@),
            index: entries_map(self.index@),
            files: strs_view(self.files@).to_set(),
            gaps: gaps_view(self.gaps@),
        }
    }

    /// The position of the next path.
    pub closed spec fn pos(&self) -> int {
        self.pos as int
    }

    /// Bytes of files read so far.
    pub closed spec fn read(&self) -> int {
        self.read as int
    }

    /// The rows so far.
    pub closed spec fn rows(&self) -> Seq<JsonV> {
        items_view(self.rows@)
    }

    /// Whether the path at `pos` waits for its file.
    pub closed spec fn pending(&self) -> bool {
        self.pending
    }

    /// Whether every path has its row.
    pub closed spec fn done(&self) -> bool {
        self.done
    }

    /// The lists are sorted and agree with each other.
    pub closed spec fn wf(&self) -> bool {
        &&& strictly_sorted(strs_view(self.paths@))
        &&& strictly_sorted(entry_paths(self.head@))
        &&& strictly_sorted(entry_paths(self.index@))
        &&& strictly_sorted(strs_view(self.files@))
        &&& strs_view(self.head_paths@) == entry_paths(self.head@)
        &&& strs_view(self.index_paths@) == entry_paths(self.index@)
        &&& self.pos <= self.paths@.len()
        &&& (self.pending ==> self.pos < self.paths@.len() && !self.done)
        &&& (self.done ==> self.pos == self.paths@.len() && !self.pending)
        &&& (self.pending ==> self.read < SCAN_BYTES && needs_read(self.view(), self.read as int, self.pos as int))
        &&& self.read <= SCAN_BYTES + FILE_LIMIT
    }

    /// Starts a status over the `HEAD` tree's and the index's entries and
    /// the work tree's files, each in path order, and the places that the
    /// work tree scan could not enter.
    pub fn new(head: Vec<TreeEntry>, index: Vec<TreeEntry>, files: Vec<String>, gaps: Vec<Gap>) -> (res: StatusWalk)
        requires
            strictly_sorted(entry_paths(head@)),
            strictly_sorted(entry_paths(index@)),
            strictly_sorted(strs_view(files@)),
        ensures
            res.wf(),
            strictly_sorted(res.view().paths),
            forall|p: Seq<u8>| #[trigger] res.view().paths.contains(p) <==> (entry_paths(head@).contains(p)
                || entry_paths(index@).contains(p) || strs_view(files@).contains(p)),
            res.view().head == entries_map(head@),
            res.view().index == entries_map(index@),
            res.view().files == strs_view(files@).to_set(),
            res.view().gaps == gaps_view(gaps@),
            res.pos() == 0,
            res.read() == 0,
            res.rows() == Seq::<JsonV>::empty(),
            !res.pending(),
            !res.done(),
    {
        let head_paths = paths_of(&head);
        let index_paths = paths_of(&index);
        let both = merge_sorted(paths_of(&head), paths_of(&index));
        let paths = merge_sorted(both, copy_strs(&files));
        let res = StatusWalk {
            paths,
            head,
            head_paths,
            index,
            index_paths,
            files,
            gaps,
            pos: 0,
            read: 0,
            rows: Vec::new(),
            pending: false,
            done: false,
        };
        assert(res.rows() =~= Seq::<JsonV>::empty());
        res
    }
}

fn copy_strs(v: &Vec<String>) -> (res: Vec<String>)
    ensures
        res@ == v@,
{
    let mut out: Vec<String> = Vec::new();
    let mut i: usize = 0;
    while i < v.len()
        invariant
            i <= v@.len(),
            out@ == v@.subrange(0, i as int),
        decreases v@.len() - i,
    {
        out.push(v[i].clone());
        assert(out@ =~= v@.subrange(0, i + 1));
        i = i + 1;
    }
    assert(out@ =~= v@);
    out
}

impl StatusWalk {
    fn lookup(&self, p: &[u8]) -> (res: (Option<usize>, Option<usize>, bool))
        requires
            self.wf(),
        ensures
            match res.0 {
                Some(k) => k < self.head@.len() && entry_at(self.view().head, p@) == Some(
                    entry_of(self.head@[k as int]),
                ),
                None => entry_at(self.view().head, p@) is None,
            },
            match res.1 {
                Some(k) => k < self.index@.len() && entry_at(self.view().index, p@) == Some(
                    entry_of(self.index@[k as int]),
                ) && self.view().index.dom().contains(p@),
                None => entry_at(self.view().index, p@) is None && !self.view().index.dom().contains(
                    p@,
                ),
            },
            res.2 == self.view().files.contains(p@),
    {
        assert(strs_view(self.head_paths@).len() == self.head_paths@.len());
        assert(entry_paths(self.head@).len() == self.head@.len());
        assert(strs_view(self.index_paths@).len() == self.index_paths@.len());
        assert(entry_paths(self.index@).len() == self.index@.len());
        let h = find_sorted(&self.head_paths, p);
        let i = find_sorted(&self.index_paths, p);
        let f = find_sorted(&self.files, p);
        proof {
            match h {
                Some(k) => {
                    assert(entry_paths(self.head@)[k as int] == p@);
                    lemma_entries_map(self.head@, k as int);
                },
                None => lemma_entries_map_absent(self.head@, p@),
            }
            match i {
                Some(k) => {
                    assert(entry_paths(self.index@)[k as int] == p@);
                    lemma_entries_map(self.index@, k as int);
                },
                None => lemma_entries_map_absent(self.index@, p@),
            }
            match f {
                Some(k) => assert(strs_view(self.files@)[k as int] == p@),
                None => {},
            }
        }
        (h, i, f.is_some())
    }

    fn decide(&self, p: &[u8]) -> (res: (Option<Change>, Option<usize>, Option<(Option<Change>, Option<String>)>))
        requires
            self.wf(),
        ensures
            res.0 == staged_change(entry_at(self.view().head, p@), entry_at(self.view().index, p@)),
            match res.1 {
                Some(k) => k < self.index@.len() && self.view().index.dom().contains(p@)
                    && self.view().index[p@] == entry_of(self.index@[k as int]),
                None => !self.view().index.dom().contains(p@),
            },
            match plain_worktree(
                p@,
                self.view().index.dom().contains(p@),
                self.view().files.contains(p@),
                self.view().gaps,
                self.read as int,
            ) {
                Some((w, r)) => res.2 matches Some((w2, r2)) && w2 == w && opt_bytes(r2) == r,
                None => res.2 is None,
            },
    {
        let ghost v = self.view();
        let (h, i, present) = self.lookup(p);
        let staged: Option<Change> = match (h, i) {
            (None, Some(_)) => Some(Change::Added),
            (Some(_), None) => Some(Change::Deleted),
            (Some(a), Some(b)) => {
                let same = self.head[a].mode == self.index[b].mode && bytes_equal(
                    self.head[a].oid.as_str().as_bytes(),
                    self.index[b].oid.as_str().as_bytes(),
                );
                proof {
                    vstd::utf8::encode_utf8_decode_utf8(self.head@[a as int].oid@);
                    vstd::utf8::encode_utf8_decode_utf8(self.index@[b as int].oid@);
                }
                if same {
                    None
                } else {
                    Some(Change::Modified)
                }
            },
            (None, None) => None,
        };
        let indexed = i.is_some();
        let plain: Option<(Option<Change>, Option<String>)> = if !indexed && present {
            Some((Some(Change::Untracked), None))
        } else if indexed && !present {
            proof {
                lemma_first_gap(p@, v.gaps, 0);
            }
            match find_gap(p, &self.gaps) {
                Some(k) => {
                    let r = self.gaps[k].reason.clone();
                    assert(v.gaps[k as int].1 == encode_utf8(r@));
                    assert(first_gap(p@, v.gaps, 0) == Some(k as int));
                    assert(plain_worktree(p@, indexed, present, v.gaps, self.read as int) == Some((Some(Change::NotChecked), Some(encode_utf8(r@)))));
                    Some((Some(Change::NotChecked), Some(r)))
                },
                None => Some((Some(Change::Deleted), None)),
            }
        } else if indexed && present {
            if self.read >= SCAN_BYTES as u128 {
                let r = word_scan_limit();
                assert(plain_worktree(p@, indexed, present, v.gaps, self.read as int) == Some((Some(Change::NotChecked), Some(encode_utf8(r@)))));
                Some((Some(Change::NotChecked), Some(r)))
            } else {
                None
            }
        } else {
            Some((None, None))
        };
        assert(v.index.dom().contains(p@) == indexed);
        assert(v.files.contains(p@) == present);
        (staged, i, plain)
    }

    /// Compares the paths that need no read, up to the next one that does,
    /// and names it; when none is left, adds the rows of the unscanned
    /// places and returns `None`.
    pub fn next(&mut self) -> (res: Option<String>)
        requires
            old(self).wf(),
            !old(self).pending(),
            !old(self).done(),
        ensures
            final(self).wf(),
            final(self).view() == old(self).view(),
            final(self).read() == old(self).read(),
            ({
                let v = old(self).view();
                let u = next_read(v, old(self).read(), old(self).pos());
                let plain = old(self).rows() + plain_rows(v, old(self).read(), old(self).pos(), u);
                if u < v.paths.len() {
                    res matches Some(p) && encode_utf8(p@) == v.paths[u] && final(self).pos() == u
                        && final(self).pending() && final(self).rows() == plain
                } else {
                    res is None && final(self).done() && final(self).rows() == plain + gap_rows(
                        v.gaps,
                    )
                }
            }),
    {
        let ghost v = self.view();
        let ghost rd = self.read as int;
        let ghost start = self.pos as int;
        let ghost rows0 = self.rows();
        while self.pos < self.paths.len()
            invariant
                self.wf(),
                !self.pending,
                !self.done,
                self.view() == v,
                self.read == rd,
                rows0 == old(self).rows(),
                v == old(self).view(),
                rd == old(self).read(),
                start == old(self).pos(),
                start <= self.pos,
                next_read(v, rd, start) == next_read(v, rd, self.pos as int),
                self.rows() == rows0 + plain_rows(v, rd, start, self.pos as int),
            decreases self.paths@.len() - self.pos,
        {
            let pstr = self.paths[self.pos].as_str();
            let p = pstr.as_bytes();
            assert(p@ == v.paths[self.pos as int]);
            let (staged, _, plain) = self.decide(p);
            match plain {
                None => {
                    self.pending = true;
                    proof {
                        assert(next_read(v, rd, self.pos as int) == self.pos);
                    }
                    return Some(self.paths[self.pos].clone());
                },
                Some((w, reason)) => {
                    assert(!needs_read(v, rd, self.pos as int));
                    let ghost before = self.rows();
                    if staged.is_some() || w.is_some() {
                        let row = status_row_json(pstr, staged, w, reason);
                        let ghost raw = self.rows@;
                        self.rows.push(row);
                        proof {
                            crate::json::lemma_items_view(raw);
                            crate::json::lemma_items_view(self.rows@);
                            assert(self.rows() =~= before.push(row.jv()));
                        }
                    }
                    self.pos = self.pos + 1;
                },
            }
        }
        let mut k: usize = 0;
        let ghost gv = v.gaps;
        let ghost mid = self.rows();
        while k < self.gaps.len()
            invariant
                k <= self.gaps@.len(),
                self.wf(),
                !self.pending,
                !self.done,
                self.view() == v,
                self.read == rd,
                gv == v.gaps,
                gv == gaps_view(self.gaps@),
                self.pos == self.paths@.len(),
                self.rows() == mid + gap_rows(gv).subrange(0, k as int),
            decreases self.gaps@.len() - k,
        {
            let row = gap_row_json(&self.gaps[k]);
            let ghost raw = self.rows@;
            let ghost before = self.rows();
            self.rows.push(row);
            proof {
                crate::json::lemma_items_view(raw);
                crate::json::lemma_items_view(self.rows@);
                assert(self.rows() =~= before.push(row.jv()));
                assert(gap_rows(gv).subrange(0, k + 1) =~= gap_rows(gv).subrange(0, k as int).push(
                    gap_row(gv[k as int]),
                ));
                assert(mid + gap_rows(gv).subrange(0, k + 1) =~= (mid + gap_rows(gv).subrange(
                    0,
                    k as int,
                )).push(gap_row(gv[k as int])));
            }
            k = k + 1;
        }
        assert(gap_rows(gv).subrange(0, gv.len() as int) =~= gap_rows(gv));
        self.done = true;
        None
    }

    /// Hands in the file of the path that `next` named: its bytes and
    /// whether it is executable, or why it could not be read.
    pub fn feed(&mut self, got: Result<(&[u8], bool), &str>)
        requires
            old(self).wf(),
            old(self).pending(),
            got matches Ok((d, _)) ==> d@.len() <= FILE_LIMIT,
        ensures
            final(self).wf(),
            final(self).view() == old(self).view(),
            !final(self).pending(),
            !final(self).done(),
            final(self).pos() == old(self).pos() + 1,
            ({
                let v = old(self).view();
                let p = v.paths[old(self).pos()];
                let staged = staged_change(entry_at(v.head, p), entry_at(v.index, p));
                let (w, reason, read) = match got {
                    Ok((d, x)) => (read_change(v.index[p], d@, x), None::<Seq<u8>>, old(self).read()
                        + d@.len()),
                    Err(e) => (Some(Change::NotChecked), Some(e.spec_bytes()), old(self).read()
                        + FILE_LIMIT),
                };
                &&& final(self).read() == read
                &&& final(self).rows() == match status_row(p, staged, w, reason) {
                    Some(r) => old(self).rows().push(r),
                    None => old(self).rows(),
                }
            }),
    {
        let ghost v = self.view();
        let n = self.paths.len();
        assert(self.pos < n);
        let pos = self.pos;
        let pstr = self.paths[self.pos].as_str();
        let p = pstr.as_bytes();
        assert(p@ == v.paths[self.pos as int]);
        let (staged, i, _) = self.decide(p);
        let k = match i {
            Some(k) => k,
            None => {
                assert(false);
                0
            },
        };
        let (w, reason): (Option<Change>, Option<String>) = match got {
            Ok((d, executable)) => {
                self.read = self.read + d.len() as u128;
                let kind = word_blob();
                let id = hash_object(kind.as_str(), d);
                let mode: u32 = if executable {
                    33261
                } else {
                    33188
                };
                let same = mode == self.index[k].mode && crate::bytes::bytes_equal(
                    id.as_str().as_bytes(),
                    self.index[k].oid.as_str().as_bytes(),
                );
                proof {
                    vstd::utf8::encode_utf8_decode_utf8(id@);
                    vstd::utf8::encode_utf8_decode_utf8(self.index@[k as int].oid@);
                }
                if same {
                    (None, None)
                } else {
                    (Some(Change::Modified), None)
                }
            },
            Err(e) => {
                self.read = self.read + FILE_LIMIT as u128;
                (Some(Change::NotChecked), Some(e.to_owned()))
            },
        };
        let ghost before = self.rows();
        if staged.is_some() || w.is_some() {
            let row = status_row_json(pstr, staged, w, reason);
            let ghost raw = self.rows@;
            self.rows.push(row);
            proof {
                crate::json::lemma_items_view(raw);
                crate::json::lemma_items_view(self.rows@);
                assert(self.rows() =~= before.push(row.jv()));
            }
        }
        self.pos = pos + 1;
        self.pending = false;
    }

    /// The status: its rows and what it compares.
    pub fn finish(self) -> (res: Json)
        requires
            self.done(),
        ensures
            res.jv() == JsonV::Obj(
                seq![
                    (w_items(), JsonV::Arr(self.rows())),
                    (w_semantics(), JsonV::Str(w_semantics_text())),
                ],
            ),
    {
        let ghost rows = self.rows();
        let fields = vec![
            (word_items(), Json::Arr(self.rows)),
            (word_semantics(), Json::Str(word_semantics_text())),
        ];
        proof {
            reveal_with_fuel(fields_view, 3);
            assert(fields_view(fields@) =~= seq![
                (w_items(), JsonV::Arr(rows)),
                (w_semantics(), JsonV::Str(w_semantics_text())),
            ]);
        }
        Json::Obj(fields)
    }
}

} // verus!
