//! Search through history: the added and removed lines of each commit's
//! diff against its first parent, and every line of a root commit.
use crate::bytes::bytes_equal;
use crate::error::Error;
use crate::git::diff::Failure;
use crate::json::{ascii_string, fields_view, find_member, items_view, member, Json, JsonV};
use crate::matching::{regex_accepts, Matcher};
use crate::text::text_lines;
use vstd::prelude::*;
use vstd::string::StringSliceAdditionalSpecFns;
use vstd::utf8::{decode_utf8, encode_utf8};

verus! {

/// `kind`
pub open spec fn w_kind() -> Seq<u8> {
    seq![107u8, 105u8, 110u8, 100u8]
}

fn word_kind() -> (res: String)
    ensures
        encode_utf8(res@) == w_kind(),
{
    let b: [u8; 4] = [107u8, 105u8, 110u8, 100u8];
    assert(b@ =~= w_kind());
    ascii_string(b.as_slice())
}

/// `patch_omitted`
pub open spec fn w_patch_omitted() -> Seq<u8> {
    seq![112u8, 97u8, 116u8, 99u8, 104u8, 95u8, 111u8, 109u8, 105u8, 116u8, 116u8, 101u8, 100u8]
}

fn word_patch_omitted() -> (res: String)
    ensures
        encode_utf8(res@) == w_patch_omitted(),
{
    let b: [u8; 13] = [112u8, 97u8, 116u8, 99u8, 104u8, 95u8, 111u8, 109u8, 105u8, 116u8, 116u8, 101u8, 100u8];
    assert(b@ =~= w_patch_omitted());
    ascii_string(b.as_slice())
}

/// `sign`
pub open spec fn w_sign() -> Seq<u8> {
    seq![115u8, 105u8, 103u8, 110u8]
}

fn word_sign() -> (res: String)
    ensures
        encode_utf8(res@) == w_sign(),
{
    let b: [u8; 4] = [115u8, 105u8, 103u8, 110u8];
    assert(b@ =~= w_sign());
    ascii_string(b.as_slice())
}

/// `text`
pub open spec fn w_text() -> Seq<u8> {
    seq![116u8, 101u8, 120u8, 116u8]
}

fn word_text() -> (res: String)
    ensures
        encode_utf8(res@) == w_text(),
{
    let b: [u8; 4] = [116u8, 101u8, 120u8, 116u8];
    assert(b@ =~= w_text());
    ascii_string(b.as_slice())
}

/// `+`
pub open spec fn w_plus() -> Seq<u8> {
    seq![43u8]
}

fn word_plus() -> (res: String)
    ensures
        encode_utf8(res@) == w_plus(),
{
    let b: [u8; 1] = [43u8];
    assert(b@ =~= w_plus());
    ascii_string(b.as_slice())
}

/// `-`
pub open spec fn w_minus() -> Seq<u8> {
    seq![45u8]
}

fn word_minus() -> (res: String)
    ensures
        encode_utf8(res@) == w_minus(),
{
    let b: [u8; 1] = [45u8];
    assert(b@ =~= w_minus());
    ascii_string(b.as_slice())
}

/// `commit`
pub open spec fn w_commit() -> Seq<u8> {
    seq![99u8, 111u8, 109u8, 109u8, 105u8, 116u8]
}

fn word_commit() -> (res: String)
    ensures
        encode_utf8(res@) == w_commit(),
{
    let b: [u8; 6] = [99u8, 111u8, 109u8, 109u8, 105u8, 116u8];
    assert(b@ =~= w_commit());
    ascii_string(b.as_slice())
}

/// `coverage`
pub open spec fn w_coverage() -> Seq<u8> {
    seq![99u8, 111u8, 118u8, 101u8, 114u8, 97u8, 103u8, 101u8]
}

fn word_coverage() -> (res: String)
    ensures
        encode_utf8(res@) == w_coverage(),
{
    let b: [u8; 8] = [99u8, 111u8, 118u8, 101u8, 114u8, 97u8, 103u8, 101u8];
    assert(b@ =~= w_coverage());
    ascii_string(b.as_slice())
}

/// `not_searched`
pub open spec fn w_not_searched() -> Seq<u8> {
    seq![110u8, 111u8, 116u8, 95u8, 115u8, 101u8, 97u8, 114u8, 99u8, 104u8, 101u8, 100u8]
}

fn word_not_searched() -> (res: String)
    ensures
        encode_utf8(res@) == w_not_searched(),
{
    let b: [u8; 12] = [110u8, 111u8, 116u8, 95u8, 115u8, 101u8, 97u8, 114u8, 99u8, 104u8, 101u8, 100u8];
    assert(b@ =~= w_not_searched());
    ascii_string(b.as_slice())
}

/// `detail`
pub open spec fn w_detail() -> Seq<u8> {
    seq![100u8, 101u8, 116u8, 97u8, 105u8, 108u8]
}

fn word_detail() -> (res: String)
    ensures
        encode_utf8(res@) == w_detail(),
{
    let b: [u8; 6] = [100u8, 101u8, 116u8, 97u8, 105u8, 108u8];
    assert(b@ =~= w_detail());
    ascii_string(b.as_slice())
}

/// `change`
pub open spec fn w_change() -> Seq<u8> {
    seq![99u8, 104u8, 97u8, 110u8, 103u8, 101u8]
}

fn word_change() -> (res: String)
    ensures
        encode_utf8(res@) == w_change(),
{
    let b: [u8; 6] = [99u8, 104u8, 97u8, 110u8, 103u8, 101u8];
    assert(b@ =~= w_change());
    ascii_string(b.as_slice())
}

/// `new_line`
pub open spec fn w_new_line() -> Seq<u8> {
    seq![110u8, 101u8, 119u8, 95u8, 108u8, 105u8, 110u8, 101u8]
}

fn word_new_line() -> (res: String)
    ensures
        encode_utf8(res@) == w_new_line(),
{
    let b: [u8; 8] = [110u8, 101u8, 119u8, 95u8, 108u8, 105u8, 110u8, 101u8];
    assert(b@ =~= w_new_line());
    ascii_string(b.as_slice())
}

/// `path`
pub open spec fn w_path() -> Seq<u8> {
    seq![112u8, 97u8, 116u8, 104u8]
}

fn word_path() -> (res: String)
    ensures
        encode_utf8(res@) == w_path(),
{
    let b: [u8; 4] = [112u8, 97u8, 116u8, 104u8];
    assert(b@ =~= w_path());
    ascii_string(b.as_slice())
}

/// `reason`
pub open spec fn w_reason() -> Seq<u8> {
    seq![114u8, 101u8, 97u8, 115u8, 111u8, 110u8]
}

fn word_reason() -> (res: String)
    ensures
        encode_utf8(res@) == w_reason(),
{
    let b: [u8; 6] = [114u8, 101u8, 97u8, 115u8, 111u8, 110u8];
    assert(b@ =~= w_reason());
    ascii_string(b.as_slice())
}


/// The hit a diff row gives, if any: a patch that was not shown is a place
/// not searched; an added or removed line whose text matches is a change.
pub open spec fn diff_hit(commit: Seq<u8>, r: JsonV, pattern: Seq<char>) -> Option<JsonV> {
    if member(r, w_kind()) == Some(JsonV::Str(w_patch_omitted())) {
        Some(
            JsonV::Obj(
                seq![
                    (w_commit(), JsonV::Str(commit)),
                    (w_coverage(), JsonV::Str(w_not_searched())),
                    (w_detail(), r),
                ],
            ),
        )
    } else if (member(r, w_sign()) == Some(JsonV::Str(w_plus())) || member(r, w_sign()) == Some(
        JsonV::Str(w_minus()),
    )) && (member(r, w_text()) matches Some(JsonV::Str(t)) && regex_accepts(pattern, decode_utf8(t))) {
        Some(JsonV::Obj(seq![(w_change(), r), (w_commit(), JsonV::Str(commit))]))
    } else {
        None
    }
}

/// The hits of a commit's diff rows, in order.
pub open spec fn diff_hits(commit: Seq<u8>, rows: Seq<JsonV>, pattern: Seq<char>) -> Seq<JsonV>
    decreases rows.len(),
{
    if rows.len() == 0 {
        seq![]
    } else {
        let before = diff_hits(commit, rows.drop_last(), pattern);
        match diff_hit(commit, rows.last(), pattern) {
            Some(h) => before.push(h),
            None => before,
        }
    }
}

/// The hit of line `n` (counted from zero) of a root commit's file.
pub open spec fn line_hit(commit: Seq<u8>, path: Seq<u8>, n: int, line: Seq<u8>) -> JsonV {
    JsonV::Obj(
        seq![
            (
                w_change(),
                JsonV::Obj(
                    seq![
                        (w_new_line(), JsonV::Num((n + 1) as nat)),
                        (w_path(), JsonV::Str(path)),
                        (w_sign(), JsonV::Str(w_plus())),
                        (w_text(), JsonV::Str(line)),
                    ],
                ),
            ),
            (w_commit(), JsonV::Str(commit)),
        ],
    )
}

/// The hits among the first `k` lines of a root commit's file.
pub open spec fn file_hits(commit: Seq<u8>, path: Seq<u8>, lines: Seq<Seq<u8>>, pattern: Seq<char>, k: int) -> Seq<JsonV>
    decreases k,
{
    if k <= 0 {
        seq![]
    } else {
        let before = file_hits(commit, path, lines, pattern, k - 1);
        if regex_accepts(pattern, decode_utf8(lines[k - 1])) {
            before.push(line_hit(commit, path, k - 1, lines[k - 1]))
        } else {
            before
        }
    }
}

/// The row of a root commit's file that could not be searched.
pub open spec fn unsearched_row(commit: Seq<u8>, path: Seq<u8>, reason: Seq<u8>) -> JsonV {
    JsonV::Obj(
        seq![
            (w_commit(), JsonV::Str(commit)),
            (w_coverage(), JsonV::Str(w_not_searched())),
            (w_path(), JsonV::Str(path)),
            (w_reason(), JsonV::Str(reason)),
        ],
    )
}

fn str_member<'a>(v: &'a Json, key: &[u8]) -> (res: Option<&'a String>)
    ensures
        match member(v.jv(), key@) {
            Some(JsonV::Str(s)) => res matches Some(x) && encode_utf8(x@) == s,
            _ => res is None,
        },
{
    match v {
        Json::Obj(fields) => {
            proof {
                crate::json::lemma_fields_view(fields@);
                crate::json::lemma_member_index(fields_view(fields@), key@, 0);
            }
            match find_member(fields, key) {
                Some(i) => match &fields[i].1 {
                    Json::Str(s) => Some(s),
                    _ => None,
                },
                None => None,
            }
        },
        _ => None,
    }
}

/// A search through history in progress: its matcher, the commits looked
/// at, and the hits so far.
pub struct HistorySearch {
    matcher: Matcher,
    rows: Vec<Json>,
    steps: usize,
}

impl HistorySearch {
    /// The pattern searched for.
    pub closed spec fn pattern(&self) -> Seq<char> {
        self.matcher.pattern()
    }

    /// The hits so far.
    pub closed spec fn rows(&self) -> Seq<JsonV> {
        items_view(self.rows@)
    }

    /// Commits looked at.
    pub closed spec fn steps(&self) -> int {
        self.steps as int
    }

    /// Starts a search for the matcher's pattern.
    pub fn new(matcher: Matcher) -> (res: HistorySearch)
        ensures
            res.pattern() == matcher.pattern(),
            res.rows() == Seq::<JsonV>::empty(),
            res.steps() == 0,
    {
        let res = HistorySearch { matcher, rows: Vec::new(), steps: 0 };
        assert(res.rows() =~= Seq::<JsonV>::empty());
        res
    }

    /// Counts one more commit; at most a thousand are looked at.
    pub fn begin_commit(&mut self) -> (res: Result<(), Error>)
        ensures
            final(self).pattern() == old(self).pattern(),
            final(self).rows() == old(self).rows(),
            old(self).steps() >= 1000 ==> res == Err::<(), Error>(Error::HistorySearchLimit),
            old(self).steps() < 1000 ==> res is Ok && final(self).steps() == old(self).steps() + 1,
    {
        if self.steps >= 1000 {
            return Err(Error::HistorySearchLimit);
        }
        self.steps = self.steps + 1;
        Ok(())
    }

    /// Takes the hits of a commit's diff against its first parent.
    pub fn take_diff(&mut self, commit: &str, diff: Vec<Json>)
        ensures
            final(self).pattern() == old(self).pattern(),
            final(self).steps() == old(self).steps(),
            final(self).rows() == old(self).rows() + diff_hits(commit.spec_bytes(), items_view(diff@), old(self).pattern()),
    {
        let ghost start = self.rows();
        let ghost dv = items_view(diff@);
        proof {
            crate::json::lemma_items_view(diff@);
        }
        let mut diff = diff;
        let mut taken: Vec<Json> = Vec::new();
        let n = diff.len();
        let mut i: usize = 0;
        while i < n
            invariant
                n == diff@.len(),
                i <= n,
                dv == items_view(diff@),
                dv.len() == n,
                forall|k: int| 0 <= k < n ==> #[trigger] dv[k] == diff@[k].jv(),
                self.rows() == start + diff_hits(commit.spec_bytes(), dv.subrange(0, i as int), self.pattern()),
                self.pattern() == old(self).pattern(),
                self.steps == old(self).steps(),
            decreases n - i,
        {
            let r = &diff[i];
            assert(r.jv() == dv[i as int]);
            let kind = str_member(r, word_kind().as_str().as_bytes());
            let omitted = match kind {
                Some(k) => bytes_equal(k.as_str().as_bytes(), word_patch_omitted().as_str().as_bytes()),
                None => false,
            };
            let ghost pre = dv.subrange(0, i as int);
            assert(dv.subrange(0, i + 1).drop_last() =~= pre);
            assert(dv.subrange(0, i + 1).last() == dv[i as int]);
            let ghost hit = diff_hit(commit.spec_bytes(), dv[i as int], self.pattern());
            if omitted {
                assert(member(dv[i as int], w_kind()) == Some(JsonV::Str(w_patch_omitted())));
                let row = crate::json::clone_json(r);
                let fields = vec![
                    (word_commit(), Json::Str(commit.to_owned())),
                    (word_coverage(), Json::Str(word_not_searched())),
                    (word_detail(), row),
                ];
                proof {
                    reveal_with_fuel(fields_view, 4);
                }
                let out = Json::Obj(fields);
                assert(Some(out.jv()) == hit) by {
                    assert(fields_view(fields@) =~= hit.unwrap()->Obj_0);
                }
                let ghost raw = self.rows@;
                let ghost before = self.rows();
                self.rows.push(out);
                proof {
                    crate::json::lemma_items_view(raw);
                    crate::json::lemma_items_view(self.rows@);
                    assert(self.rows() =~= before.push(out.jv()));
                }
            } else {
                assert(member(dv[i as int], w_kind()) != Some(JsonV::Str(w_patch_omitted())));
                let sign = str_member(r, word_sign().as_str().as_bytes());
                let signed = match sign {
                    Some(s) => bytes_equal(s.as_str().as_bytes(), word_plus().as_str().as_bytes())
                        || bytes_equal(s.as_str().as_bytes(), word_minus().as_str().as_bytes()),
                    None => false,
                };
                let matched = if signed {
                    match str_member(r, word_text().as_str().as_bytes()) {
                        Some(t) => {
                            proof {
                                vstd::utf8::encode_utf8_decode_utf8(t@);
                            }
                            self.matcher.is_match(t.as_str())
                        },
                        None => false,
                    }
                } else {
                    false
                };
                if matched {
                    let row = crate::json::clone_json(r);
                    let fields = vec![(word_change(), row), (word_commit(), Json::Str(commit.to_owned()))];
                    proof {
                        reveal_with_fuel(fields_view, 3);
                    }
                    let out = Json::Obj(fields);
                    assert(Some(out.jv()) == hit) by {
                        assert(fields_view(fields@) =~= hit.unwrap()->Obj_0);
                    }
                    let ghost raw = self.rows@;
                    let ghost before = self.rows();
                    self.rows.push(out);
                    proof {
                        crate::json::lemma_items_view(raw);
                        crate::json::lemma_items_view(self.rows@);
                        assert(self.rows() =~= before.push(out.jv()));
                    }
                } else {
                    assert(hit is None);
                }
            }
            i = i + 1;
        }
        assert(dv.subrange(0, n as int) =~= dv);
    }

    /// Takes the hits of a root commit's file: the lines of its text that
    /// match, or the reason it could not be searched; a missing object
    /// fails the search.
    pub fn take_root_file(&mut self, commit: &str, path: &str, loaded: Result<&str, Failure>) -> (res: Result<(), Error>)
        ensures
            final(self).pattern() == old(self).pattern(),
            final(self).steps() == old(self).steps(),
            match loaded {
                Ok(t) => res is Ok && final(self).rows() == old(self).rows() + file_hits(
                    commit.spec_bytes(),
                    path.spec_bytes(),
                    text_lines(t.spec_bytes()),
                    old(self).pattern(),
                    text_lines(t.spec_bytes()).len() as int,
                ),
                Err(Failure::MissingObject) => res == Err::<(), Error>(Error::MissingObject),
                Err(Failure::Other(why)) => res is Ok && final(self).rows() == old(self).rows().push(
                    unsearched_row(commit.spec_bytes(), path.spec_bytes(), encode_utf8(why@)),
                ),
            },
    {
        match loaded {
            Err(Failure::MissingObject) => Err(Error::MissingObject),
            Err(Failure::Other(why)) => {
                let fields = vec![
                    (word_commit(), Json::Str(commit.to_owned())),
                    (word_coverage(), Json::Str(word_not_searched())),
                    (word_path(), Json::Str(path.to_owned())),
                    (word_reason(), Json::Str(why)),
                ];
                proof {
                    reveal_with_fuel(fields_view, 5);
                }
                let out = Json::Obj(fields);
                assert(out.jv() == unsearched_row(commit.spec_bytes(), path.spec_bytes(), encode_utf8(why@))) by {
                    assert(fields_view(fields@) =~= unsearched_row(commit.spec_bytes(), path.spec_bytes(), encode_utf8(why@))->Obj_0);
                }
                let ghost raw = self.rows@;
                let ghost before = self.rows();
                self.rows.push(out);
                proof {
                    crate::json::lemma_items_view(raw);
                    crate::json::lemma_items_view(self.rows@);
                    assert(self.rows() =~= before.push(out.jv()));
                }
                Ok(())
            },
            Ok(t) => {
                let lines = crate::text::lines(t);
                let ghost tl = text_lines(t.spec_bytes());
                let ghost start = self.rows();
                let mut k: usize = 0;
                while k < lines.len()
                    invariant
                        k <= lines@.len(),
                        lines@.len() == tl.len(),
                        tl == text_lines(t.spec_bytes()),
                        forall|j: int| 0 <= j < lines@.len() ==> #[trigger] lines@[j].spec_bytes() == tl[j],
                        self.rows() == start + file_hits(commit.spec_bytes(), path.spec_bytes(), tl, self.pattern(), k as int),
                        self.pattern() == old(self).pattern(),
                        self.steps == old(self).steps(),
                        start == old(self).rows(),
                    decreases lines@.len() - k,
                {
                    let line = lines[k];
                    proof {
                        vstd::utf8::encode_utf8_decode_utf8(line@);
                    }
                    assert(line.spec_bytes() == tl[k as int]);
                    if self.matcher.is_match(line) {
                        let change = vec![
                            (word_new_line(), Json::Num(k as u128 + 1)),
                            (word_path(), Json::Str(path.to_owned())),
                            (word_sign(), Json::Str(word_plus())),
                            (word_text(), Json::Str(line.to_owned())),
                        ];
                        proof {
                            reveal_with_fuel(fields_view, 5);
                        }
                        let fields = vec![(word_change(), Json::Obj(change)), (word_commit(), Json::Str(commit.to_owned()))];
                        let out = Json::Obj(fields);
                        assert(out.jv() == line_hit(commit.spec_bytes(), path.spec_bytes(), k as int, tl[k as int])) by {
                            assert(fields_view(change@) =~= seq![
                                (w_new_line(), JsonV::Num((k + 1) as nat)),
                                (w_path(), JsonV::Str(path.spec_bytes())),
                                (w_sign(), JsonV::Str(w_plus())),
                                (w_text(), JsonV::Str(tl[k as int])),
                            ]);
                            assert(fields_view(fields@) =~= line_hit(commit.spec_bytes(), path.spec_bytes(), k as int, tl[k as int])->Obj_0);
                        }
                        let ghost raw = self.rows@;
                        let ghost before = self.rows();
                        self.rows.push(out);
                        proof {
                            crate::json::lemma_items_view(raw);
                            crate::json::lemma_items_view(self.rows@);
                            assert(self.rows() =~= before.push(out.jv()));
                        }
                    }
                    k = k + 1;
                }
                Ok(())
            },
        }
    }

    /// Ends a commit; at most a hundred thousand hits are returned.
    pub fn end_commit(&self) -> (res: Result<(), Error>)
        ensures
            res is Err <==> self.rows().len() > 100000,
            res is Err ==> res == Err::<(), Error>(Error::HistoryResultLimit),
    {
        proof {
            crate::json::lemma_items_view(self.rows@);
        }
        if self.rows.len() > 100000 {
            Err(Error::HistoryResultLimit)
        } else {
            Ok(())
        }
    }

    /// The hits.
    pub fn finish(self) -> (res: Vec<Json>)
        ensures
            items_view(res@) == self.rows(),
    {
        self.rows
    }
}

/// Removed lines are searched as added ones are: a diff row that is no
/// omitted patch, whose sign is `-` or `+` and whose text the pattern
/// matches, is a hit that shows the row and the commit; and a commit's hits
/// grow by that hit when the row comes next in its diff.
pub proof fn lemma_changed_lines_hit(
    commit: Seq<u8>,
    rows: Seq<JsonV>,
    r: JsonV,
    t: Seq<u8>,
    pattern: Seq<char>,
)
    requires
        member(r, w_kind()) != Some(JsonV::Str(w_patch_omitted())),
        member(r, w_sign()) == Some(JsonV::Str(w_minus())) || member(r, w_sign()) == Some(
            JsonV::Str(w_plus()),
        ),
        member(r, w_text()) == Some(JsonV::Str(t)),
        regex_accepts(pattern, decode_utf8(t)),
    ensures
        diff_hit(commit, r, pattern) == Some(
            JsonV::Obj(seq![(w_change(), r), (w_commit(), JsonV::Str(commit))]),
        ),
        diff_hits(commit, rows.push(r), pattern) == diff_hits(commit, rows, pattern).push(
            JsonV::Obj(seq![(w_change(), r), (w_commit(), JsonV::Str(commit))]),
        ),
{
    assert(rows.push(r).drop_last() =~= rows);
}

/// A row whose sign is neither `+` nor `-` and that is no omitted patch is
/// no hit, whatever its text.
pub proof fn lemma_unchanged_lines_miss(commit: Seq<u8>, r: JsonV, pattern: Seq<char>)
    requires
        member(r, w_kind()) != Some(JsonV::Str(w_patch_omitted())),
        member(r, w_sign()) != Some(JsonV::Str(w_minus())),
        member(r, w_sign()) != Some(JsonV::Str(w_plus())),
    ensures
        diff_hit(commit, r, pattern) is None,
{
}

} // verus!
