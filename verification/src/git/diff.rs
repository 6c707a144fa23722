//! Differences between two sets of files: which paths changed, and the
//! changed lines of each, grouped in hunks.
use crate::bytes::{append_bytes, bytes_equal};
use crate::error::Error;
use crate::git::history::{find_sorted, merge_sorted, strictly_sorted, strs_view};
use crate::git::objects::TreeEntry;
use crate::git::status::{entries_map, entry_at, entry_paths, lemma_entries_map, lemma_entries_map_absent};
use crate::json::{ascii_string, fields_view, items_view, Json, JsonV};
use crate::matching::{glob_accepts, PathGlob};
use crate::output::{FILE_LIMIT, SCAN_BYTES};
use vstd::prelude::*;
use vstd::string::StringSliceAdditionalSpecFns;
use vstd::utf8::encode_utf8;

verus! {

/// `kind`
pub open spec fn w_kind() -> Seq<u8> {
    seq![107u8, 105u8, 110u8, 100u8]
}

fn word_kind() -> (res: String)
    ensures
        encode_utf8(res@) == w_kind(),
{
    let b: [u8; 4] = [107u8, 105u8, 110u8, 100u8];
    assert(b@ =~= w_kind());
    ascii_string(b.as_slice())
}

/// `path`
pub open spec fn w_path() -> Seq<u8> {
    seq![112u8, 97u8, 116u8, 104u8]
}

fn word_path() -> (res: String)
    ensures
        encode_utf8(res@) == w_path(),
{
    let b: [u8; 4] = [112u8, 97u8, 116u8, 104u8];
    assert(b@ =~= w_path());
    ascii_string(b.as_slice())
}

/// `reason`
pub open spec fn w_reason() -> Seq<u8> {
    seq![114u8, 101u8, 97u8, 115u8, 111u8, 110u8]
}

fn word_reason() -> (res: String)
    ensures
        encode_utf8(res@) == w_reason(),
{
    let b: [u8; 6] = [114u8, 101u8, 97u8, 115u8, 111u8, 110u8];
    assert(b@ =~= w_reason());
    ascii_string(b.as_slice())
}

/// `file`
pub open spec fn w_file() -> Seq<u8> {
    seq![102u8, 105u8, 108u8, 101u8]
}

fn word_file() -> (res: String)
    ensures
        encode_utf8(res@) == w_file(),
{
    let b: [u8; 4] = [102u8, 105u8, 108u8, 101u8];
    assert(b@ =~= w_file());
    ascii_string(b.as_slice())
}

/// `new_mode`
pub open spec fn w_new_mode() -> Seq<u8> {
    seq![110u8, 101u8, 119u8, 95u8, 109u8, 111u8, 100u8, 101u8]
}

fn word_new_mode() -> (res: String)
    ensures
        encode_utf8(res@) == w_new_mode(),
{
    let b: [u8; 8] = [110u8, 101u8, 119u8, 95u8, 109u8, 111u8, 100u8, 101u8];
    assert(b@ =~= w_new_mode());
    ascii_string(b.as_slice())
}

/// `old_mode`
pub open spec fn w_old_mode() -> Seq<u8> {
    seq![111u8, 108u8, 100u8, 95u8, 109u8, 111u8, 100u8, 101u8]
}

fn word_old_mode() -> (res: String)
    ensures
        encode_utf8(res@) == w_old_mode(),
{
    let b: [u8; 8] = [111u8, 108u8, 100u8, 95u8, 109u8, 111u8, 100u8, 101u8];
    assert(b@ =~= w_old_mode());
    ascii_string(b.as_slice())
}

/// `hunk`
pub open spec fn w_hunk() -> Seq<u8> {
    seq![104u8, 117u8, 110u8, 107u8]
}

fn word_hunk() -> (res: String)
    ensures
        encode_utf8(res@) == w_hunk(),
{
    let b: [u8; 4] = [104u8, 117u8, 110u8, 107u8];
    assert(b@ =~= w_hunk());
    ascii_string(b.as_slice())
}

/// `patch_line`
pub open spec fn w_patch_line() -> Seq<u8> {
    seq![112u8, 97u8, 116u8, 99u8, 104u8, 95u8, 108u8, 105u8, 110u8, 101u8]
}

fn word_patch_line() -> (res: String)
    ensures
        encode_utf8(res@) == w_patch_line(),
{
    let b: [u8; 10] = [112u8, 97u8, 116u8, 99u8, 104u8, 95u8, 108u8, 105u8, 110u8, 101u8];
    assert(b@ =~= w_patch_line());
    ascii_string(b.as_slice())
}

/// `new_line`
pub open spec fn w_new_line() -> Seq<u8> {
    seq![110u8, 101u8, 119u8, 95u8, 108u8, 105u8, 110u8, 101u8]
}

fn word_new_line() -> (res: String)
    ensures
        encode_utf8(res@) == w_new_line(),
{
    let b: [u8; 8] = [110u8, 101u8, 119u8, 95u8, 108u8, 105u8, 110u8, 101u8];
    assert(b@ =~= w_new_line());
    ascii_string(b.as_slice())
}

/// `old_line`
pub open spec fn w_old_line() -> Seq<u8> {
    seq![111u8, 108u8, 100u8, 95u8, 108u8, 105u8, 110u8, 101u8]
}

fn word_old_line() -> (res: String)
    ensures
        encode_utf8(res@) == w_old_line(),
{
    let b: [u8; 8] = [111u8, 108u8, 100u8, 95u8, 108u8, 105u8, 110u8, 101u8];
    assert(b@ =~= w_old_line());
    ascii_string(b.as_slice())
}

/// `sign`
pub open spec fn w_sign() -> Seq<u8> {
    seq![115u8, 105u8, 103u8, 110u8]
}

fn word_sign() -> (res: String)
    ensures
        encode_utf8(res@) == w_sign(),
{
    let b: [u8; 4] = [115u8, 105u8, 103u8, 110u8];
    assert(b@ =~= w_sign());
    ascii_string(b.as_slice())
}

/// `text`
pub open spec fn w_text() -> Seq<u8> {
    seq![116u8, 101u8, 120u8, 116u8]
}

fn word_text() -> (res: String)
    ensures
        encode_utf8(res@) == w_text(),
{
    let b: [u8; 4] = [116u8, 101u8, 120u8, 116u8];
    assert(b@ =~= w_text());
    ascii_string(b.as_slice())
}

/// `patch_omitted`
pub open spec fn w_patch_omitted() -> Seq<u8> {
    seq![112u8, 97u8, 116u8, 99u8, 104u8, 95u8, 111u8, 109u8, 105u8, 116u8, 116u8, 101u8, 100u8]
}

fn word_patch_omitted() -> (res: String)
    ensures
        encode_utf8(res@) == w_patch_omitted(),
{
    let b: [u8; 13] = [112u8, 97u8, 116u8, 99u8, 104u8, 95u8, 111u8, 109u8, 105u8, 116u8, 116u8, 101u8, 100u8];
    assert(b@ =~= w_patch_omitted());
    ascii_string(b.as_slice())
}

/// `left: `
pub open spec fn w_left_label() -> Seq<u8> {
    seq![108u8, 101u8, 102u8, 116u8, 58u8, 32u8]
}

fn word_left_label() -> (res: String)
    ensures
        encode_utf8(res@) == w_left_label(),
{
    let b: [u8; 6] = [108u8, 101u8, 102u8, 116u8, 58u8, 32u8];
    assert(b@ =~= w_left_label());
    ascii_string(b.as_slice())
}

/// `; right: `
pub open spec fn w_right_label() -> Seq<u8> {
    seq![59u8, 32u8, 114u8, 105u8, 103u8, 104u8, 116u8, 58u8, 32u8]
}

fn word_right_label() -> (res: String)
    ensures
        encode_utf8(res@) == w_right_label(),
{
    let b: [u8; 9] = [59u8, 32u8, 114u8, 105u8, 103u8, 104u8, 116u8, 58u8, 32u8];
    assert(b@ =~= w_right_label());
    ascii_string(b.as_slice())
}

/// `-`
pub open spec fn w_minus() -> Seq<u8> {
    seq![45u8]
}

fn word_minus() -> (res: String)
    ensures
        encode_utf8(res@) == w_minus(),
{
    let b: [u8; 1] = [45u8];
    assert(b@ =~= w_minus());
    ascii_string(b.as_slice())
}

/// `+`
pub open spec fn w_plus() -> Seq<u8> {
    seq![43u8]
}

fn word_plus() -> (res: String)
    ensures
        encode_utf8(res@) == w_plus(),
{
    let b: [u8; 1] = [43u8];
    assert(b@ =~= w_plus());
    ascii_string(b.as_slice())
}

/// ` `
pub open spec fn w_space() -> Seq<u8> {
    seq![32u8]
}

fn word_space() -> (res: String)
    ensures
        encode_utf8(res@) == w_space(),
{
    let b: [u8; 1] = [32u8];
    assert(b@ =~= w_space());
    ascii_string(b.as_slice())
}


/// The first line terminator (`\n` or `\r`) at or after `p`, or the end.
pub open spec fn next_terminator(s: Seq<u8>, p: int) -> int
    decreases s.len() - p,
{
    if p < 0 || p >= s.len() {
        s.len() as int
    } else if s[p] == 10 || s[p] == 13 {
        p
    } else {
        next_terminator(s, p + 1)
    }
}

/// `next_terminator` stays within the text.
pub proof fn lemma_next_terminator(s: Seq<u8>, p: int)
    requires
        0 <= p <= s.len(),
    ensures
        p <= next_terminator(s, p) <= s.len(),
    decreases s.len() - p,
{
    if p < s.len() && !(s[p] == 10 || s[p] == 13) {
        lemma_next_terminator(s, p + 1);
    }
}

/// The lines of a text as the line diff splits it from `p` on: each ends
/// after `\n`, `\r\n` or a lone `\r`; the last may have no terminator.
pub open spec fn diff_lines_from(s: Seq<u8>, p: int) -> Seq<Seq<u8>>
    decreases s.len() - p,
{
    if p < 0 || p >= s.len() {
        seq![]
    } else {
        proof {
            lemma_next_terminator(s, p);
        }
        let k = next_terminator(s, p);
        if k == s.len() {
            seq![s.subrange(p, s.len() as int)]
        } else {
            let e = if s[k] == 13 && k + 1 < s.len() && s[k + 1] == 10 {
                k + 2
            } else {
                k + 1
            };
            seq![s.subrange(p, e)] + diff_lines_from(s, e)
        }
    }
}

/// One line of a hunk: removed (`-`), added (`+`) or kept (` `), its
/// number on either side counted from zero, and its text.
#[derive(Clone, Debug)]
pub struct LineChange {
    pub sign: u8,
    pub old_index: Option<usize>,
    pub new_index: Option<usize>,
    pub text: String,
}

/// A change shows the line it names on its side.
pub open spec fn change_fits(l: Seq<Seq<u8>>, r: Seq<Seq<u8>>, c: LineChange) -> bool {
    if c.sign == 45 {
        c.old_index matches Some(i) && i < l.len() && c.new_index is None && encode_utf8(c.text@)
            == l[i as int]
    } else if c.sign == 43 {
        c.new_index matches Some(j) && j < r.len() && c.old_index is None && encode_utf8(c.text@)
            == r[j as int]
    } else if c.sign == 32 {
        c.old_index matches Some(i) && c.new_index matches Some(j) && i < l.len() && j < r.len()
            && encode_utf8(c.text@) == l[i as int] && l[i as int] == r[j as int]
    } else {
        false
    }
}

/// The groups show lines of the two texts, each side's in ascending order.
pub open spec fn groups_fit(l: Seq<Seq<u8>>, r: Seq<Seq<u8>>, g: Seq<Seq<LineChange>>) -> bool {
    &&& forall|i: int, k: int| 0 <= i < g.len() && 0 <= k < g[i].len() ==> change_fits(l, r, #[trigger] g[i][k])
    &&& forall|i1: int, k1: int, i2: int, k2: int|
        0 <= i1 < g.len() && 0 <= k1 < g[i1].len() && 0 <= i2 < g.len() && 0 <= k2 < g[i2].len()
            && (i1 < i2 || (i1 == i2 && k1 < k2)) ==> ((#[trigger] g[i1][k1]).old_index matches Some(
            a,
        ) && (#[trigger] g[i2][k2]).old_index matches Some(b) ==> a < b) && (g[i1][k1].new_index matches Some(
            a,
        ) && g[i2][k2].new_index matches Some(b) ==> a < b)
}

/// Whether a change of the groups removes line `i` of the old text.
pub open spec fn removed(g: Seq<Seq<LineChange>>, i: int) -> bool {
    exists|a: int, k: int|
        0 <= a < g.len() && 0 <= k < g[a].len() && (#[trigger] g[a][k]).sign == 45
            && g[a][k].old_index == Some(i as usize)
}

/// Whether a change of the groups adds line `j` of the new text.
pub open spec fn added(g: Seq<Seq<LineChange>>, j: int) -> bool {
    exists|a: int, k: int|
        0 <= a < g.len() && 0 <= k < g[a].len() && (#[trigger] g[a][k]).sign == 43
            && g[a][k].new_index == Some(j as usize)
}

/// The first `n` old lines that no change removes, in order.
pub open spec fn left_old(l: Seq<Seq<u8>>, g: Seq<Seq<LineChange>>, n: nat) -> Seq<Seq<u8>>
    decreases n,
{
    if n == 0 {
        seq![]
    } else {
        let rest = left_old(l, g, (n - 1) as nat);
        if removed(g, n - 1) {
            rest
        } else {
            rest.push(l[n - 1])
        }
    }
}

/// The first `n` new lines that no change adds, in order.
pub open spec fn left_new(r: Seq<Seq<u8>>, g: Seq<Seq<LineChange>>, n: nat) -> Seq<Seq<u8>>
    decreases n,
{
    if n == 0 {
        seq![]
    } else {
        let rest = left_new(r, g, (n - 1) as nat);
        if added(g, n - 1) {
            rest
        } else {
            rest.push(r[n - 1])
        }
    }
}

/// The groups hold every change of an edit script from `l` to `r`: without
/// the old lines they remove and the new lines they add, both texts are the
/// same lines. Equal texts may give no group; texts that differ give a
/// change for each line in which they differ.
pub open spec fn groups_complete(l: Seq<Seq<u8>>, r: Seq<Seq<u8>>, g: Seq<Seq<LineChange>>) -> bool {
    left_old(l, g, l.len()) == left_new(r, g, r.len())
}

/// Whether changes `i` to `j` of a group, both included, are all kept
/// lines.
pub open spec fn kept_run(gr: Seq<LineChange>, i: int, j: int) -> bool {
    forall|k: int| i <= k <= j ==> (#[trigger] gr[k]).sign == 32
}

/// A hunk with at most `n` lines of context: it removes or adds some line,
/// opens and closes with at most `n` kept lines, and keeps at most `2 * n`
/// lines in a row anywhere.
pub open spec fn hunk_shaped(gr: Seq<LineChange>, n: int) -> bool {
    &&& exists|k: int| 0 <= k < gr.len() && (#[trigger] gr[k]).sign != 32
    &&& forall|j: int| 0 <= j < gr.len() && #[trigger] kept_run(gr, 0, j) ==> j + 1 <= n
    &&& forall|i: int|
        0 <= i < gr.len() && #[trigger] kept_run(gr, i, gr.len() - 1) ==> gr.len() - i <= n
    &&& forall|i: int, j: int| 0 <= i <= j < gr.len() && #[trigger] kept_run(gr, i, j) ==> j - i + 1 <= 2 * n
}

/// `similar::TextDiff` of the lines of two texts, with a deadline of 250
/// milliseconds, grouped by `grouped_ops(3)` into hunks with three lines
/// of context, each group's changes as `iter_changes` yields them. The
/// crate's source tokenizes lines at `\n`, `\r\n` and `\r`, keeps each
/// line's terminator, and yields ops in ascending order on both sides, a
/// removed line from the old text, an added one from the new and a kept
/// one from the old. Its ops form an edit script from the old lines to the
/// new ones whatever the deadline, and `group_diff_ops` puts every op that
/// is not an equal range into some group. Adjacent equal ranges are merged
/// (`Replace` sits under `Compact` in `capture_diff_deadline`), so each run
/// of kept lines in a group is one equal range: `group_diff_ops` trims the
/// first and last to three lines, splits a group at any longer than six,
/// and drops a group that would hold only an equal range. Which lines the
/// script keeps depends on the deadline and is left unsaid.
#[verifier::external_body]
fn diff_groups(a: &str, b: &str) -> (res: Vec<Vec<LineChange>>)
    ensures
        forall|k: int| 0 <= k < res@.len() ==> hunk_shaped(#[trigger] res@[k]@, 3),
        groups_fit(diff_lines_from(a.spec_bytes(), 0), diff_lines_from(b.spec_bytes(), 0), res@.map_values(|g: Vec<LineChange>| g@)),
        groups_complete(diff_lines_from(a.spec_bytes(), 0), diff_lines_from(b.spec_bytes(), 0), res@.map_values(|g: Vec<LineChange>| g@)),
{
    let diff = similar::TextDiff::configure()
        .timeout(std::time::Duration::from_millis(250))
        .diff_lines(a, b);
    let groups = diff.grouped_ops(3);
    groups.iter().map(|group| group.iter().flat_map(|op| diff.iter_changes(op)).map(|c| LineChange {
        sign: match c.tag() {
            similar::ChangeTag::Delete => 45,
            similar::ChangeTag::Insert => 43,
            similar::ChangeTag::Equal => 32,
        },
        old_index: c.old_index(),
        new_index: c.new_index(),
        text: c.value().to_owned(),
    }).collect()).collect()
}

/// How many lines both texts open with, counting on from line `i`.
pub open spec fn shared_prefix(l: Seq<Seq<u8>>, r: Seq<Seq<u8>>, i: int) -> int
    decreases l.len() - i,
{
    if 0 <= i < l.len() && i < r.len() && l[i] == r[i] {
        shared_prefix(l, r, i + 1)
    } else {
        i
    }
}

/// How many lines both texts close with, counting on from the `k`-th last
/// and leaving out the first `p` lines of either.
pub open spec fn shared_suffix(l: Seq<Seq<u8>>, r: Seq<Seq<u8>>, p: int, k: int) -> int
    decreases l.len() - k,
{
    if 0 <= p && 0 <= k && l.len() - 1 - k >= p && r.len() - 1 - k >= p && l[l.len() - 1 - k]
        == r[r.len() - 1 - k] {
        shared_suffix(l, r, p, k + 1)
    } else {
        k
    }
}

/// How many lines any line diff of two texts keeps at least: those the texts
/// open with and those they close with after that.
pub open spec fn kept_floor(l: Seq<Seq<u8>>, r: Seq<Seq<u8>>) -> int {
    shared_prefix(l, r, 0) + shared_suffix(l, r, shared_prefix(l, r, 0), 0)
}

/// How many changes keep a line, with its number on both sides.
pub open spec fn kept_count(c: Seq<LineChange>) -> int
    decreases c.len(),
{
    if c.len() == 0 {
        0
    } else {
        kept_count(c.drop_last()) + if c.last().sign == 32 && c.last().old_index is Some
            && c.last().new_index is Some {
            1int
        } else {
            0int
        }
    }
}

/// `similar::TextDiff` of the lines of two texts, with a deadline of 250
/// milliseconds: every change that `iter_all_changes` yields, in order. The
/// crate's source tokenizes lines as for `diff_groups`, yields each side's
/// lines in ascending order, and keeps a line only where the two lines are
/// equal. Whatever the deadline, every path of the crate's Myers diff
/// (`capture_ops_pretrimmed`, `diff_deadline_pretrimmed`, `diff_reduced`)
/// emits the lines both texts open with, and then those they close with, as
/// equal ranges before and after it searches the middle; the `Compact` hook
/// only shifts insert and delete ranges, which keeps the number of equal
/// lines, and `iter_all_changes` yields each line of an equal range as a
/// kept change with both line numbers. So at least `kept_floor` lines are
/// kept. Which other lines the edit script keeps depends on the deadline
/// and is left unsaid.
#[verifier::external_body]
pub(crate) fn all_line_changes(a: &str, b: &str) -> (res: Vec<LineChange>)
    ensures
        groups_fit(diff_lines_from(a.spec_bytes(), 0), diff_lines_from(b.spec_bytes(), 0), seq![res@]),
        kept_count(res@) >= kept_floor(diff_lines_from(a.spec_bytes(), 0), diff_lines_from(b.spec_bytes(), 0)),
{
    let diff = similar::TextDiff::configure()
        .timeout(std::time::Duration::from_millis(250))
        .diff_lines(a, b);
    diff.iter_all_changes().map(|c| LineChange {
        sign: match c.tag() {
            similar::ChangeTag::Delete => 45,
            similar::ChangeTag::Insert => 43,
            similar::ChangeTag::Equal => 32,
        },
        old_index: c.old_index(),
        new_index: c.new_index(),
        text: c.value().to_owned(),
    }).collect()
}

/// The octal digits of a number.
pub open spec fn octal(n: nat) -> Seq<u8>
    decreases n,
{
    if n < 8 {
        seq![(48 + n) as u8]
    } else {
        octal(n / 8) + seq![(48 + n % 8) as u8]
    }
}

proof fn lemma_octal_ascii(n: nat)
    ensures
        forall|i: int| 0 <= i < octal(n).len() ==> #[trigger] octal(n)[i] < 128,
    decreases n,
{
    if n >= 8 {
        lemma_octal_ascii(n / 8);
        let a = octal(n / 8);
        assert(octal(n) == a + seq![(48 + n % 8) as u8]);
        assert forall|i: int| 0 <= i < octal(n).len() implies #[trigger] octal(n)[i] < 128 by {
            if i < a.len() {
                assert(octal(n)[i] == a[i]);
            }
        }
    }
}

/// A mode written in octal, as `format!("{:o}")` does.
pub fn octal_string(n: u32) -> (res: String)
    ensures
        encode_utf8(res@) == octal(n as nat),
{
    let mut digits: Vec<u8> = Vec::new();
    let mut m = n;
    let ghost mut tail: Seq<u8> = seq![];
    while m >= 8
        invariant
            octal(n as nat) == octal(m as nat) + tail,
            digits@ == tail.reverse(),
        decreases m,
    {
        let d = (48 + m % 8) as u8;
        proof {
            assert(octal(m as nat) == octal((m / 8) as nat) + seq![d]);
            assert(octal((m / 8) as nat) + seq![d] + tail =~= octal((m / 8) as nat) + (seq![d] + tail));
            assert((seq![d] + tail).reverse() =~= tail.reverse().push(d));
            tail = seq![d] + tail;
        }
        digits.push(d);
        m = m / 8;
    }
    let d = (48 + m) as u8;
    digits.push(d);
    proof {
        assert(octal(m as nat) == seq![d]);
        assert((seq![d] + tail).reverse() =~= tail.reverse().push(d));
        tail = seq![d] + tail;
    }
    assert(octal(n as nat) =~= tail);
    let mut out: Vec<u8> = Vec::new();
    let mut i = digits.len();
    while i > 0
        invariant
            i <= digits@.len(),
            digits@ == tail.reverse(),
            out@ == tail.subrange(0, (digits@.len() - i) as int),
        decreases i,
    {
        i = i - 1;
        out.push(digits[i]);
        proof {
            assert(tail.subrange(0, (digits@.len() - i) as int) =~= tail.subrange(
                0,
                (digits@.len() - i - 1) as int,
            ).push(tail[(digits@.len() - i - 1) as int]));
        }
    }
    assert(out@ =~= octal(n as nat));
    proof {
        lemma_octal_ascii(n as nat);
    }
    ascii_string(out.as_slice())
}

/// A line number counted from one, or null.
pub open spec fn line_num(o: Option<usize>) -> JsonV {
    match o {
        Some(i) => JsonV::Num((i + 1) as nat),
        None => JsonV::Null,
    }
}

/// The sign a change is shown with.
pub open spec fn sign_word(c: u8) -> Seq<u8> {
    if c == 45 {
        w_minus()
    } else if c == 43 {
        w_plus()
    } else {
        w_space()
    }
}

/// The row of one line of a hunk.
pub open spec fn line_row(p: Seq<u8>, c: LineChange) -> JsonV {
    JsonV::Obj(
        seq![
            (w_kind(), JsonV::Str(w_patch_line())),
            (w_new_line(), line_num(c.new_index)),
            (w_old_line(), line_num(c.old_index)),
            (w_path(), JsonV::Str(p)),
            (w_sign(), JsonV::Str(sign_word(c.sign))),
            (w_text(), JsonV::Str(encode_utf8(c.text@))),
        ],
    )
}

/// The row that opens a hunk.
pub open spec fn hunk_row(p: Seq<u8>) -> JsonV {
    JsonV::Obj(seq![(w_kind(), JsonV::Str(w_hunk())), (w_path(), JsonV::Str(p))])
}

/// The rows of the hunks: each opened by its row, then one row per line.
pub open spec fn patch_rows(p: Seq<u8>, g: Seq<Seq<LineChange>>) -> Seq<JsonV>
    decreases g.len(),
{
    if g.len() == 0 {
        seq![]
    } else {
        patch_rows(p, g.drop_last()) + seq![hunk_row(p)] + g.last().map_values(
            |c: LineChange| line_row(p, c),
        )
    }
}

/// A mode in octal, or null.
pub open spec fn mode_str(m: Option<u32>) -> JsonV {
    match m {
        Some(m) => JsonV::Str(octal(m as nat)),
        None => JsonV::Null,
    }
}

/// The row that opens a changed file.
pub open spec fn file_row(p: Seq<u8>, old_mode: Option<u32>, new_mode: Option<u32>) -> JsonV {
    JsonV::Obj(
        seq![
            (w_kind(), JsonV::Str(w_file())),
            (w_new_mode(), mode_str(new_mode)),
            (w_old_mode(), mode_str(old_mode)),
            (w_path(), JsonV::Str(p)),
        ],
    )
}

/// Why a load failed: the object is missing, or another refusal in words.
#[derive(Clone, Debug)]
pub enum Failure {
    MissingObject,
    Other(String),
}

/// A side's text as loaded: present, absent, or failed.
pub type Loaded = Result<Option<String>, Failure>;

/// The words of a failure, empty for a loaded side.
pub open spec fn failure_text(l: Result<Option<String>, Failure>) -> Seq<u8> {
    match l {
        Err(Failure::Other(s)) => encode_utf8(s@),
        _ => seq![],
    }
}

/// A loaded side's text, empty when absent.
pub open spec fn content(l: Result<Option<String>, Failure>) -> Seq<u8> {
    match l {
        Ok(Some(s)) => encode_utf8(s@),
        _ => seq![],
    }
}

/// The row of a file whose patch could not be shown.
pub open spec fn omitted_row(p: Seq<u8>, left: Seq<u8>, right: Seq<u8>) -> JsonV {
    JsonV::Obj(
        seq![
            (w_kind(), JsonV::Str(w_patch_omitted())),
            (w_path(), JsonV::Str(p)),
            (w_reason(), JsonV::Str(w_left_label() + left + w_right_label() + right)),
        ],
    )
}

fn num_json(o: Option<usize>) -> (res: Json)
    ensures
        res.jv() == line_num(o),
{
    match o {
        Some(i) => Json::Num(i as u128 + 1),
        None => Json::Null,
    }
}

fn sign_string(c: u8) -> (res: String)
    ensures
        encode_utf8(res@) == sign_word(c),
{
    if c == 45 {
        word_minus()
    } else if c == 43 {
        word_plus()
    } else {
        word_space()
    }
}

fn line_json(p: &str, c: &LineChange) -> (res: Json)
    ensures
        res.jv() == line_row(p.spec_bytes(), *c),
{
    let fields = vec![
        (word_kind(), Json::Str(word_patch_line())),
        (word_new_line(), num_json(c.new_index)),
        (word_old_line(), num_json(c.old_index)),
        (word_path(), Json::Str(p.to_owned())),
        (word_sign(), Json::Str(sign_string(c.sign))),
        (word_text(), Json::Str(c.text.clone())),
    ];
    proof {
        reveal_with_fuel(fields_view, 7);
        assert(fields_view(fields@) =~= line_row(p.spec_bytes(), *c)->Obj_0);
    }
    Json::Obj(fields)
}

fn hunk_json(p: &str) -> (res: Json)
    ensures
        res.jv() == hunk_row(p.spec_bytes()),
{
    let fields = vec![(word_kind(), Json::Str(word_hunk())), (word_path(), Json::Str(p.to_owned()))];
    proof {
        reveal_with_fuel(fields_view, 3);
        assert(fields_view(fields@) =~= hunk_row(p.spec_bytes())->Obj_0);
    }
    Json::Obj(fields)
}

fn mode_json(m: Option<u32>) -> (res: Json)
    ensures
        res.jv() == mode_str(m),
{
    match m {
        Some(m) => Json::Str(octal_string(m)),
        None => Json::Null,
    }
}

fn file_json(p: &str, old_mode: Option<u32>, new_mode: Option<u32>) -> (res: Json)
    ensures
        res.jv() == file_row(p.spec_bytes(), old_mode, new_mode),
{
    let fields = vec![
        (word_kind(), Json::Str(word_file())),
        (word_new_mode(), mode_json(new_mode)),
        (word_old_mode(), mode_json(old_mode)),
        (word_path(), Json::Str(p.to_owned())),
    ];
    proof {
        reveal_with_fuel(fields_view, 5);
        assert(fields_view(fields@) =~= file_row(p.spec_bytes(), old_mode, new_mode)->Obj_0);
    }
    Json::Obj(fields)
}

fn failure_string(l: &Result<Option<String>, Failure>) -> (res: Vec<u8>)
    ensures
        res@ == failure_text(*l),
{
    let mut out: Vec<u8> = Vec::new();
    match l {
        Err(Failure::Other(s)) => {
            append_bytes(&mut out, s.as_str().as_bytes());
            assert(out@ =~= encode_utf8(s@));
        },
        _ => {
            assert(out@ =~= seq![]);
        },
    }
    out
}

fn omitted_json(p: &str, left: &Result<Option<String>, Failure>, right: &Result<Option<String>, Failure>) -> (res: Json)
    ensures
        res.jv() == omitted_row(p.spec_bytes(), failure_text(*left), failure_text(*right)),
{
    let mut reason: Vec<u8> = Vec::new();
    let l1 = word_left_label();
    append_bytes(&mut reason, l1.as_str().as_bytes());
    append_bytes(&mut reason, failure_string(left).as_slice());
    let l2 = word_right_label();
    append_bytes(&mut reason, l2.as_str().as_bytes());
    append_bytes(&mut reason, failure_string(right).as_slice());
    let ghost want = w_left_label() + failure_text(*left) + w_right_label() + failure_text(*right);
    assert(reason@ =~= want);
    proof {
        vstd::utf8::encode_utf8_valid_utf8(p@);
        let a = w_left_label();
        let b = failure_text(*left);
        let c = w_right_label();
        let d = failure_text(*right);
        crate::bytes::lemma_ascii_utf8(a);
        crate::bytes::lemma_ascii_utf8(c);
        match left {
            Err(Failure::Other(s)) => vstd::utf8::encode_utf8_valid_utf8(s@),
            _ => crate::bytes::lemma_ascii_utf8(b),
        }
        match right {
            Err(Failure::Other(s)) => vstd::utf8::encode_utf8_valid_utf8(s@),
            _ => crate::bytes::lemma_ascii_utf8(d),
        }
        vstd::utf8::valid_utf8_concat(a, b);
        vstd::utf8::valid_utf8_concat(a + b, c);
        vstd::utf8::valid_utf8_concat(a + b + c, d);
    }
    let text = crate::bytes::string_of(reason.as_slice());
    proof {
        vstd::utf8::decode_utf8_encode_utf8(reason@);
    }
    let fields = vec![
        (word_kind(), Json::Str(word_patch_omitted())),
        (word_path(), Json::Str(p.to_owned())),
        (word_reason(), Json::Str(text)),
    ];
    proof {
        reveal_with_fuel(fields_view, 4);
        assert(fields_view(fields@) =~= omitted_row(
            p.spec_bytes(),
            failure_text(*left),
            failure_text(*right),
        )->Obj_0);
    }
    Json::Obj(fields)
}

/// Appends the rows of the hunks to `rows`.
fn push_patch(rows: &mut Vec<Json>, p: &str, groups: &Vec<Vec<LineChange>>)
    ensures
        items_view(final(rows)@) == items_view(old(rows)@) + patch_rows(
            p.spec_bytes(),
            groups@.map_values(|g: Vec<LineChange>| g@),
        ),
{
    let ghost gs = groups@.map_values(|g: Vec<LineChange>| g@);
    let ghost start = items_view(rows@);
    let mut i: usize = 0;
    while i < groups.len()
        invariant
            i <= groups@.len(),
            gs == groups@.map_values(|g: Vec<LineChange>| g@),
            items_view(rows@) == start + patch_rows(p.spec_bytes(), gs.subrange(0, i as int)),
        decreases groups@.len() - i,
    {
        let ghost mid = items_view(rows@);
        let ghost raw = rows@;
        rows.push(hunk_json(p));
        proof {
            crate::json::lemma_items_view(raw);
            crate::json::lemma_items_view(rows@);
            assert(items_view(rows@) =~= mid.push(hunk_row(p.spec_bytes())));
        }
        let group = &groups[i];
        let mut k: usize = 0;
        while k < group.len()
            invariant
                k <= group@.len(),
                items_view(rows@) == mid + seq![hunk_row(p.spec_bytes())] + group@.subrange(0, k as int).map_values(
                    |c: LineChange| line_row(p.spec_bytes(), c),
                ),
            decreases group@.len() - k,
        {
            let ghost before = items_view(rows@);
            let ghost raw2 = rows@;
            rows.push(line_json(p, &group[k]));
            proof {
                crate::json::lemma_items_view(raw2);
                crate::json::lemma_items_view(rows@);
                assert(items_view(rows@) =~= before.push(line_row(p.spec_bytes(), group@[k as int])));
                assert(group@.subrange(0, k + 1).map_values(|c: LineChange| line_row(p.spec_bytes(), c))
                    =~= group@.subrange(0, k as int).map_values(|c: LineChange| line_row(p.spec_bytes(), c)).push(
                    line_row(p.spec_bytes(), group@[k as int]),
                ));
            }
            k = k + 1;
        }
        proof {
            assert(group@.subrange(0, group@.len() as int) =~= group@);
            let pre = gs.subrange(0, i + 1);
            assert(pre.drop_last() =~= gs.subrange(0, i as int));
            assert(pre.last() == group@);
        }
        i = i + 1;
    }
    assert(gs.subrange(0, gs.len() as int) =~= gs);
}

/// The mode of an entry, if there is one.
pub open spec fn mode_of(e: Option<(u32, Seq<char>)>) -> Option<u32> {
    match e {
        Some(x) => Some(x.0),
        None => None,
    }
}

/// What a diff compares: the paths in order, the old and new entries by
/// path (no new entries when the new side is the work tree), and the
/// path filter's glob, if any.
pub struct DiffV {
    pub paths: Seq<Seq<u8>>,
    pub old: Map<Seq<u8>, (u32, Seq<char>)>,
    pub new: Map<Seq<u8>, (u32, Seq<char>)>,
    pub has_new: bool,
    pub filter: Option<Seq<char>>,
}

/// Path `j` is passed over: the filter rejects it, or both sides hold the
/// same id and mode for it.
pub open spec fn passed_over(v: DiffV, j: int) -> bool {
    let p = v.paths[j];
    (v.filter matches Some(g) && !glob_accepts(g, vstd::utf8::decode_utf8(p))) || (v.has_new
        && v.old.dom().contains(p) && v.new.dom().contains(p) && v.old[p] == v.new[p])
}

/// The first path from `j` on that is not passed over, or the end.
pub open spec fn next_change(v: DiffV, j: int) -> int
    decreases v.paths.len() - j,
{
    if j < 0 || j >= v.paths.len() {
        v.paths.len() as int
    } else if !passed_over(v, j) {
        j
    } else {
        next_change(v, j + 1)
    }
}

/// Comparing a list of tree entries with itself finds nothing to compare:
/// for a walk over the paths of one list on both sides, from any position
/// every path left is passed over, so `next` names none and the diff has no
/// rows.
pub proof fn lemma_identical_trees_no_change(entries: Seq<TreeEntry>, v: DiffV, j: int)
    requires
        v.has_new,
        v.old == entries_map(entries),
        v.new == entries_map(entries),
        forall|p: Seq<u8>| #[trigger] v.paths.contains(p) <==> entry_paths(entries).contains(p),
    ensures
        next_change(v, j) == v.paths.len(),
    decreases v.paths.len() - j,
{
    if 0 <= j < v.paths.len() {
        let p = v.paths[j];
        assert(v.paths.contains(p));
        let k = choose|k: int| 0 <= k < entry_paths(entries).len() && entry_paths(entries)[k] == p;
        assert(encode_utf8(entries[k].path@) == p);
        assert(v.old.dom().contains(p));
        assert(passed_over(v, j));
        lemma_identical_trees_no_change(entries, v, j + 1);
    }
}

/// A diff in progress, one path at a time: `next` names a path whose sides
/// must be loaded, `open_file` records a work tree file's mode and size,
/// and `feed` hands in the loaded sides.
pub struct DiffWalk {
    paths: Vec<String>,
    old: Vec<TreeEntry>,
    old_paths: Vec<String>,
    new: Vec<TreeEntry>,
    new_paths: Vec<String>,
    has_new: bool,
    filter: Option<PathGlob>,
    pos: usize,
    budget: u128,
    work_mode: Option<u32>,
    rows: Vec<Json>,
    pending: bool,
}

fn copy_paths(v: &Vec<String>) -> (res: Vec<String>)
    ensures
        res@ == v@,
{
    let mut out: Vec<String> = Vec::new();
    let mut i: usize = 0;
    while i < v.len()
        invariant
            i <= v@.len(),
            out@ == v@.subrange(0, i as int),
        decreases v@.len() - i,
    {
        out.push(v[i].clone());
        assert(out@ =~= v@.subrange(0, i + 1));
        i = i + 1;
    }
    assert(out@ =~= v@);
    out
}

fn entry_list_paths(s: &Vec<TreeEntry>) -> (res: Vec<String>)
    ensures
        strs_view(res@) == entry_paths(s@),
{
    let mut out: Vec<String> = Vec::new();
    let mut i: usize = 0;
    while i < s.len()
        invariant
            i <= s@.len(),
            out@.len() == i,
            forall|t: int| 0 <= t < i ==> #[trigger] out@[t] == s@[t].path,
        decreases s@.len() - i,
    {
        out.push(s[i].path.clone());
        i = i + 1;
    }
    assert(strs_view(out@) =~= entry_paths(s@));
    out
}

impl DiffWalk {
    /// What is compared.
    pub closed spec fn view(&self) -> DiffV {
        DiffV {
            paths: strs_view(self.paths@),
            old: entries_map(self.old@),
            new: entries_map(self.new@),
            has_new: self.has_new,
            filter: match self.filter {
                Some(g) => Some(g.pattern()),
                None => None,
            },
        }
    }

    /// The position of the next path.
    pub closed spec fn pos(&self) -> int {
        self.pos as int
    }

    /// Bytes compared so far.
    pub closed spec fn budget(&self) -> int {
        self.budget as int
    }

    /// The mode of the work tree file of the pending path, once recorded.
    pub closed spec fn work_mode(&self) -> Option<u32> {
        self.work_mode
    }

    /// The rows so far.
    pub closed spec fn rows(&self) -> Seq<JsonV> {
        items_view(self.rows@)
    }

    /// Whether the path at `pos` waits for its sides.
    pub closed spec fn pending(&self) -> bool {
        self.pending
    }

    /// The lists are sorted and agree with each other.
    pub closed spec fn wf(&self) -> bool {
        &&& strictly_sorted(strs_view(self.paths@))
        &&& strictly_sorted(entry_paths(self.old@))
        &&& strictly_sorted(entry_paths(self.new@))
        &&& strs_view(self.old_paths@) == entry_paths(self.old@)
        &&& strs_view(self.new_paths@) == entry_paths(self.new@)
        &&& (!self.has_new ==> self.new@.len() == 0)
        &&& self.pos <= self.paths@.len()
        &&& (self.pending ==> self.pos < self.paths@.len())
        &&& self.budget <= SCAN_BYTES
    }

    /// Starts a diff of the old entries against the new ones (`Some`), or
    /// against the work tree (`None`), over the paths the filter accepts.
    pub fn new(old: Vec<TreeEntry>, new: Option<Vec<TreeEntry>>, filter: Option<PathGlob>) -> (res: DiffWalk)
        requires
            strictly_sorted(entry_paths(old@)),
            new matches Some(n) ==> strictly_sorted(entry_paths(n@)),
        ensures
            res.wf(),
            strictly_sorted(res.view().paths),
            forall|p: Seq<u8>| #[trigger] res.view().paths.contains(p) <==> (entry_paths(old@).contains(p)
                || (new matches Some(n) && entry_paths(n@).contains(p))),
            res.view().old == entries_map(old@),
            res.view().has_new == new is Some,
            new matches Some(n) ==> res.view().new == entries_map(n@),
            res.view().filter == match filter {
                Some(g) => Some(g.pattern()),
                None => None,
            },
            res.pos() == 0,
            res.budget() == 0,
            res.rows() == Seq::<JsonV>::empty(),
            !res.pending(),
    {
        let has_new = new.is_some();
        let new_list = match new {
            Some(n) => n,
            None => Vec::new(),
        };
        let old_paths = entry_list_paths(&old);
        let new_paths = entry_list_paths(&new_list);
        let paths = merge_sorted(copy_paths(&old_paths), copy_paths(&new_paths));
        let res = DiffWalk {
            paths,
            old,
            old_paths,
            new: new_list,
            new_paths,
            has_new,
            filter,
            pos: 0,
            budget: 0,
            work_mode: None,
            rows: Vec::new(),
            pending: false,
        };
        assert(res.rows() =~= Seq::<JsonV>::empty());
        res
    }

    fn lookup(&self, p: &[u8]) -> (res: (Option<usize>, Option<usize>))
        requires
            self.wf(),
        ensures
            match res.0 {
                Some(k) => k < self.old@.len() && entry_at(self.view().old, p@) == Some(
                    crate::git::status::entry_of(self.old@[k as int]),
                ) && encode_utf8(self.old@[k as int].path@) == p@,
                None => entry_at(self.view().old, p@) is None,
            },
            match res.1 {
                Some(k) => k < self.new@.len() && entry_at(self.view().new, p@) == Some(
                    crate::git::status::entry_of(self.new@[k as int]),
                ) && encode_utf8(self.new@[k as int].path@) == p@,
                None => entry_at(self.view().new, p@) is None,
            },
    {
        assert(strs_view(self.old_paths@).len() == self.old_paths@.len());
        assert(entry_paths(self.old@).len() == self.old@.len());
        assert(strs_view(self.new_paths@).len() == self.new_paths@.len());
        assert(entry_paths(self.new@).len() == self.new@.len());
        let o = find_sorted(&self.old_paths, p);
        let n = find_sorted(&self.new_paths, p);
        proof {
            match o {
                Some(k) => {
                    assert(entry_paths(self.old@)[k as int] == p@);
                    lemma_entries_map(self.old@, k as int);
                },
                None => lemma_entries_map_absent(self.old@, p@),
            }
            match n {
                Some(k) => {
                    assert(entry_paths(self.new@)[k as int] == p@);
                    lemma_entries_map(self.new@, k as int);
                },
                None => lemma_entries_map_absent(self.new@, p@),
            }
        }
        (o, n)
    }

    /// The old entry of the pending path, if it has one.
    pub fn before(&self) -> (res: Option<&TreeEntry>)
        requires
            self.wf(),
            self.pending(),
        ensures
            match entry_at(self.view().old, self.view().paths[self.pos()]) {
                Some(e) => res matches Some(x) && crate::git::status::entry_of(*x) == e
                    && encode_utf8(x.path@) == self.view().paths[self.pos()],
                None => res is None,
            },
    {
        let p = self.paths[self.pos].as_str().as_bytes();
        assert(p@ == self.view().paths[self.pos()]);
        let (o, _) = self.lookup(p);
        match o {
            Some(k) => {
                proof {
                    assert(entry_paths(self.old@)[k as int] == encode_utf8(self.old@[k as int].path@));
                    lemma_entries_map(self.old@, k as int);
                }
                Some(&self.old[k])
            },
            None => None,
        }
    }

    /// The new entry of the pending path, if it has one.
    pub fn after(&self) -> (res: Option<&TreeEntry>)
        requires
            self.wf(),
            self.pending(),
        ensures
            match entry_at(self.view().new, self.view().paths[self.pos()]) {
                Some(e) => res matches Some(x) && crate::git::status::entry_of(*x) == e
                    && encode_utf8(x.path@) == self.view().paths[self.pos()],
                None => res is None,
            },
    {
        let p = self.paths[self.pos].as_str().as_bytes();
        assert(p@ == self.view().paths[self.pos()]);
        let (_, n) = self.lookup(p);
        match n {
            Some(k) => {
                proof {
                    lemma_entries_map(self.new@, k as int);
                }
                Some(&self.new[k])
            },
            None => None,
        }
    }

    /// Passes over the paths the filter rejects or that did not change,
    /// and names the next one to compare.
    pub fn next(&mut self) -> (res: Option<String>)
        requires
            old(self).wf(),
            !old(self).pending(),
        ensures
            final(self).wf(),
            final(self).view() == old(self).view(),
            final(self).budget() == old(self).budget(),
            final(self).rows() == old(self).rows(),
            final(self).work_mode() is None,
            ({
                let v = old(self).view();
                let u = next_change(v, old(self).pos());
                if u < v.paths.len() {
                    res matches Some(p) && encode_utf8(p@) == v.paths[u] && final(self).pos() == u
                        && final(self).pending()
                } else {
                    res is None && final(self).pos() == v.paths.len() && !final(self).pending()
                }
            }),
    {
        let ghost v = self.view();
        let ghost start = self.pos as int;
        self.work_mode = None;
        while self.pos < self.paths.len()
            invariant
                self.wf(),
                !self.pending,
                self.view() == v,
                v == old(self).view(),
                self.budget == old(self).budget(),
                self.rows() == old(self).rows(),
                self.work_mode is None,
                start == old(self).pos(),
                next_change(v, start) == next_change(v, self.pos as int),
            decreases self.paths@.len() - self.pos,
        {
            let pstr = self.paths[self.pos].as_str();
            let p = pstr.as_bytes();
            assert(p@ == v.paths[self.pos as int]);
            proof {
                vstd::utf8::encode_utf8_decode_utf8(pstr@);
            }
            let rejected = match &self.filter {
                Some(g) => !g.is_match(pstr),
                None => false,
            };
            let unchanged = if self.has_new {
                let (o, n) = self.lookup(p);
                match (o, n) {
                    (Some(a), Some(b)) => {
                        proof {
                            vstd::utf8::encode_utf8_decode_utf8(self.old@[a as int].oid@);
                            vstd::utf8::encode_utf8_decode_utf8(self.new@[b as int].oid@);
                        }
                        self.old[a].mode == self.new[b].mode && bytes_equal(
                            self.old[a].oid.as_str().as_bytes(),
                            self.new[b].oid.as_str().as_bytes(),
                        )
                    },
                    _ => false,
                }
            } else {
                false
            };
            if !rejected && !unchanged {
                assert(!passed_over(v, self.pos as int));
                self.pending = true;
                return Some(self.paths[self.pos].clone());
            }
            assert(passed_over(v, self.pos as int));
            self.pos = self.pos + 1;
        }
        None
    }

    /// Records the mode and size of the pending path's work tree file; the
    /// size counts toward the bytes a diff may read.
    pub fn open_file(&mut self, executable: bool, len: u64) -> (res: Result<(), Error>)
        requires
            old(self).wf(),
            old(self).pending(),
            !old(self).view().has_new,
        ensures
            final(self).view() == old(self).view(),
            final(self).pos() == old(self).pos(),
            final(self).rows() == old(self).rows(),
            final(self).pending(),
            final(self).work_mode() == Some(if executable {
                33261u32
            } else {
                33188u32
            }),
            ({
                let b = old(self).budget() + if len < FILE_LIMIT {
                    len as int
                } else {
                    FILE_LIMIT as int
                };
                if b <= SCAN_BYTES {
                    res is Ok && final(self).budget() == b && final(self).wf()
                } else {
                    res == Err::<(), Error>(Error::DiffScanBudgetExceeded)
                }
            }),
    {
        self.work_mode = Some(if executable {
            33261
        } else {
            33188
        });
        let add: u128 = if len < FILE_LIMIT as u64 {
            len as u128
        } else {
            FILE_LIMIT as u128
        };
        if self.budget + add > SCAN_BYTES as u128 {
            return Err(Error::DiffScanBudgetExceeded);
        }
        self.budget = self.budget + add;
        Ok(())
    }
}

impl DiffWalk {
    /// Hands in the pending path's two sides: a missing object fails the
    /// diff; another failure gives a row that says why the patch is not
    /// shown; equal sides of equal mode give nothing; else the file's row
    /// and its hunks, within the budget of bytes compared and of rows.
    pub fn feed(&mut self, left: Result<Option<String>, Failure>, right: Result<Option<String>, Failure>) -> (res: Result<(), Error>)
        requires
            old(self).wf(),
            old(self).pending(),
        ensures
            final(self).view() == old(self).view(),
            ({
                let v = old(self).view();
                let p = v.paths[old(self).pos()];
                let before = entry_at(v.old, p);
                let new_mode = if v.has_new {
                    mode_of(entry_at(v.new, p))
                } else {
                    old(self).work_mode()
                };
                let a = content(left);
                let b = content(right);
                let next_ok = final(self).wf() && final(self).pos() == old(self).pos() + 1
                    && !final(self).pending();
                if left matches Err(Failure::MissingObject) || right matches Err(Failure::MissingObject) {
                    res == Err::<(), Error>(Error::MissingObject)
                } else if left is Err || right is Err {
                    &&& res is Ok
                    &&& next_ok
                    &&& final(self).budget() == old(self).budget()
                    &&& final(self).rows() == old(self).rows().push(
                        omitted_row(p, failure_text(left), failure_text(right)),
                    )
                } else if a == b && mode_of(before) == new_mode {
                    res is Ok && next_ok && final(self).budget() == old(self).budget()
                        && final(self).rows() == old(self).rows()
                } else if old(self).budget() + a.len() + b.len() > SCAN_BYTES {
                    res == Err::<(), Error>(Error::DiffScanBudgetExceeded)
                } else {
                    &&& final(self).budget() == old(self).budget() + a.len() + b.len()
                    &&& exists|g: Seq<Seq<LineChange>>|
                        groups_fit(diff_lines_from(a, 0), diff_lines_from(b, 0), g)
                            && groups_complete(diff_lines_from(a, 0), diff_lines_from(b, 0), g)
                            && (forall|k: int| 0 <= k < g.len() ==> hunk_shaped(#[trigger] g[k], 3))
                            && final(self).rows() == old(self).rows().push(
                            file_row(p, mode_of(before), new_mode),
                        ) + patch_rows(p, g)
                    &&& (if final(self).rows().len() > 100000 {
                        res == Err::<(), Error>(Error::DiffOutputScanLimit)
                    } else {
                        res is Ok && next_ok
                    })
                }
            }),
    {
        let ghost v = self.view();
        let n = self.paths.len();
        let pos = self.pos;
        let pstr = self.paths[pos].as_str();
        let p = pstr.as_bytes();
        assert(p@ == v.paths[pos as int]);
        let missing_left = match &left {
            Err(Failure::MissingObject) => true,
            _ => false,
        };
        let missing_right = match &right {
            Err(Failure::MissingObject) => true,
            _ => false,
        };
        if missing_left || missing_right {
            return Err(Error::MissingObject);
        }
        if left.is_err() || right.is_err() {
            let row = omitted_json(pstr, &left, &right);
            let ghost raw = self.rows@;
            let ghost before_rows = self.rows();
            self.rows.push(row);
            proof {
                crate::json::lemma_items_view(raw);
                crate::json::lemma_items_view(self.rows@);
                assert(self.rows() =~= before_rows.push(row.jv()));
            }
            self.pos = pos + 1;
            self.pending = false;
            return Ok(());
        }
        let (o, nw) = self.lookup(p);
        let old_mode: Option<u32> = match o {
            Some(k) => Some(self.old[k].mode),
            None => None,
        };
        let new_mode: Option<u32> = if self.has_new {
            match nw {
                Some(k) => Some(self.new[k].mode),
                None => None,
            }
        } else {
            self.work_mode
        };
        let empty = String::new();
        let a: &String = match &left {
            Ok(Some(s)) => s,
            _ => &empty,
        };
        let b: &String = match &right {
            Ok(Some(s)) => s,
            _ => &empty,
        };
        assert(encode_utf8(a@) == content(left)) by {
            assert(encode_utf8(empty@) =~= seq![]);
        }
        assert(encode_utf8(b@) == content(right)) by {
            assert(encode_utf8(empty@) =~= seq![]);
        }
        let same_mode = match (old_mode, new_mode) {
            (Some(x), Some(y)) => x == y,
            (None, None) => true,
            _ => false,
        };
        if same_mode && bytes_equal(a.as_str().as_bytes(), b.as_str().as_bytes()) {
            self.pos = pos + 1;
            self.pending = false;
            return Ok(());
        }
        let add = a.as_str().as_bytes().len() as u128 + b.as_str().as_bytes().len() as u128;
        if self.budget + add > SCAN_BYTES as u128 {
            return Err(Error::DiffScanBudgetExceeded);
        }
        self.budget = self.budget + add;
        let ghost start = self.rows();
        let row = file_json(pstr, old_mode, new_mode);
        let ghost raw = self.rows@;
        self.rows.push(row);
        proof {
            crate::json::lemma_items_view(raw);
            crate::json::lemma_items_view(self.rows@);
            assert(self.rows() =~= start.push(row.jv()));
        }
        let groups = diff_groups(a.as_str(), b.as_str());
        push_patch(&mut self.rows, pstr, &groups);
        let ghost gs = groups@.map_values(|g: Vec<LineChange>| g@);
        assert(groups_fit(diff_lines_from(content(left), 0), diff_lines_from(content(right), 0), gs));
        assert(groups_complete(diff_lines_from(content(left), 0), diff_lines_from(content(right), 0), gs));
        assert forall|k: int| 0 <= k < gs.len() implies hunk_shaped(#[trigger] gs[k], 3) by {
            assert(gs[k] == groups@[k]@);
        }
        if self.rows.len() > 100000 {
            proof {
                crate::json::lemma_items_view(self.rows@);
            }
            return Err(Error::DiffOutputScanLimit);
        }
        proof {
            crate::json::lemma_items_view(self.rows@);
        }
        self.pos = pos + 1;
        self.pending = false;
        Ok(())
    }

    /// The rows of the diff.
    pub fn finish(self) -> (res: Vec<Json>)
        ensures
            items_view(res@) == self.rows(),
    {
        self.rows
    }
}


/// Which two sides a diff compares.
#[derive(Clone, Copy, Debug, PartialEq, Eq, Structural)]
pub enum DiffScope {
    /// The index against the work tree.
    Worktree,
    /// `HEAD`'s tree against the index.
    Staged,
    /// The trees of two revisions.
    Revisions,
}

/// One side of a diff: the index, `HEAD`'s tree (none when there is no
/// `HEAD`), or the tree of a revision.
#[derive(Debug)]
pub enum Side {
    Index,
    Head,
    Revision(String),
}

/// The old side a diff of this scope reads first: the index, `HEAD`'s
/// tree, or revision `from`, which a diff of revisions must name.
pub open spec fn old_side_of(scope: DiffScope, from: Option<Seq<char>>) -> Result<SideV, Error> {
    match scope {
        DiffScope::Worktree => Ok(SideV::Index),
        DiffScope::Staged => Ok(SideV::Head),
        DiffScope::Revisions => match from {
            None => Err(Error::FromRequired),
            Some(f) => Ok(SideV::Revision(f)),
        },
    }
}

/// The new side a diff of this scope reads once the old side is read: none
/// for the work tree, the index, or revision `to`, which a diff of
/// revisions must name.
pub open spec fn new_side_of(scope: DiffScope, to: Option<Seq<char>>) -> Result<Option<SideV>, Error> {
    match scope {
        DiffScope::Worktree => Ok(None),
        DiffScope::Staged => Ok(Some(SideV::Index)),
        DiffScope::Revisions => match to {
            None => Err(Error::ToRequired),
            Some(t) => Ok(Some(SideV::Revision(t))),
        },
    }
}

/// A side as a value.
pub enum SideV {
    Index,
    Head,
    Revision(Seq<char>),
}

/// The value of a side.
pub open spec fn side_view(s: Side) -> SideV {
    match s {
        Side::Index => SideV::Index,
        Side::Head => SideV::Head,
        Side::Revision(r) => SideV::Revision(r@),
    }
}

/// The sides a diff of this scope compares: the index against the work
/// tree, `HEAD` against the index, or revision `from` against revision
/// `to`. A missing `from` is refused at once; a missing `to` only once the
/// old side has been read, so the old side's own refusal comes first.
pub fn diff_sides(scope: DiffScope, from: Option<&str>, to: Option<&str>) -> (res: Result<
    (Side, Result<Option<Side>, Error>),
    Error,
>)
    ensures
        match old_side_of(
            scope,
            match from {
                Some(f) => Some(f@),
                None => None,
            },
        ) {
            Err(e) => res == Err::<(Side, Result<Option<Side>, Error>), Error>(e),
            Ok(a) => res matches Ok((x, y)) && side_view(x) == a && match (
                y,
                new_side_of(
                    scope,
                    match to {
                        Some(t) => Some(t@),
                        None => None,
                    },
                ),
            ) {
                (Ok(Some(y)), Ok(Some(b))) => side_view(y) == b,
                (Ok(None), Ok(None)) => true,
                (Err(e1), Err(e2)) => e1 == e2,
                _ => false,
            },
        },
{
    let old = match scope {
        DiffScope::Worktree => Side::Index,
        DiffScope::Staged => Side::Head,
        DiffScope::Revisions => match from {
            None => return Err(Error::FromRequired),
            Some(f) => Side::Revision(f.to_owned()),
        },
    };
    let new = match scope {
        DiffScope::Worktree => Ok(None),
        DiffScope::Staged => Ok(Some(Side::Index)),
        DiffScope::Revisions => match to {
            None => Err(Error::ToRequired),
            Some(t) => Ok(Some(Side::Revision(t.to_owned()))),
        },
    };
    Ok((old, new))
}

} // verus!
