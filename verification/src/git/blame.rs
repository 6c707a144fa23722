//! Line ownership: for each line of a file, the commit that last changed it,
//! found by walking first parents back one diff at a time.
use crate::error::Error;
use crate::git::diff::{diff_lines_from, kept_count, kept_floor, shared_prefix, shared_suffix};
use crate::json::{ascii_string, fields_view, items_view, Json, JsonV};
use crate::text::text_lines;
use vstd::prelude::*;
use vstd::string::StringSliceAdditionalSpecFns;
use vstd::utf8::encode_utf8;

verus! {

/// `commit`
pub open spec fn w_commit() -> Seq<u8> {
    seq![99u8, 111u8, 109u8, 109u8, 105u8, 116u8]
}

fn word_commit() -> (res: String)
    ensures
        encode_utf8(res@) == w_commit(),
{
    let b: [u8; 6] = [99u8, 111u8, 109u8, 109u8, 105u8, 116u8];
    assert(b@ =~= w_commit());
    ascii_string(b.as_slice())
}

/// `line`
pub open spec fn w_line() -> Seq<u8> {
    seq![108u8, 105u8, 110u8, 101u8]
}

fn word_line() -> (res: String)
    ensures
        encode_utf8(res@) == w_line(),
{
    let b: [u8; 4] = [108u8, 105u8, 110u8, 101u8];
    assert(b@ =~= w_line());
    ascii_string(b.as_slice())
}

/// `original_line`
pub open spec fn w_original_line() -> Seq<u8> {
    seq![111u8, 114u8, 105u8, 103u8, 105u8, 110u8, 97u8, 108u8, 95u8, 108u8, 105u8, 110u8, 101u8]
}

fn word_original_line() -> (res: String)
    ensures
        encode_utf8(res@) == w_original_line(),
{
    let b: [u8; 13] = [111u8, 114u8, 105u8, 103u8, 105u8, 110u8, 97u8, 108u8, 95u8, 108u8, 105u8, 110u8, 101u8];
    assert(b@ =~= w_original_line());
    ascii_string(b.as_slice())
}

/// `path`
pub open spec fn w_path() -> Seq<u8> {
    seq![112u8, 97u8, 116u8, 104u8]
}

fn word_path() -> (res: String)
    ensures
        encode_utf8(res@) == w_path(),
{
    let b: [u8; 4] = [112u8, 97u8, 116u8, 104u8];
    assert(b@ =~= w_path());
    ascii_string(b.as_slice())
}

/// `text`
pub open spec fn w_text() -> Seq<u8> {
    seq![116u8, 101u8, 120u8, 116u8]
}

fn word_text() -> (res: String)
    ensures
        encode_utf8(res@) == w_text(),
{
    let b: [u8; 4] = [116u8, 101u8, 120u8, 116u8];
    assert(b@ =~= w_text());
    ascii_string(b.as_slice())
}


/// The lines two texts share, as pairs of line numbers (old, new) counted
/// from zero: each pair names equal lines, and both numbers ascend.
pub open spec fn pairs_fit(l: Seq<Seq<u8>>, r: Seq<Seq<u8>>, p: Seq<(usize, usize)>) -> bool {
    &&& forall|k: int| 0 <= k < p.len() ==> (#[trigger] p[k]).0 < l.len() && p[k].1 < r.len() && l[p[k].0 as int] == r[p[k].1 as int]
    &&& forall|a: int, b: int| 0 <= a < b < p.len() ==> (#[trigger] p[a]).0 < (#[trigger] p[b]).0 && p[a].1 < p[b].1
}

/// `shared_prefix` counts on from where it starts, up to the shorter text.
proof fn lemma_shared_prefix_bounds(l: Seq<Seq<u8>>, r: Seq<Seq<u8>>, i: int)
    requires
        0 <= i <= l.len(),
    ensures
        i <= shared_prefix(l, r, i) <= l.len(),
    decreases l.len() - i,
{
    if i < l.len() && i < r.len() && l[i] == r[i] {
        lemma_shared_prefix_bounds(l, r, i + 1);
    }
}

/// A text with lines added on top of `l` closes with all of `l` that is left
/// after the first `q` lines.
proof fn lemma_suffix_of_added_on_top(l: Seq<Seq<u8>>, top: Seq<Seq<u8>>, q: int, k: int)
    requires
        0 <= q <= l.len(),
        0 <= k <= l.len() - q,
    ensures
        shared_suffix(l, top + l, q, k) == l.len() - q,
    decreases l.len() - q - k,
{
    let r = top + l;
    if k < l.len() - q {
        assert(r[r.len() - 1 - k] == l[l.len() - 1 - k]);
        lemma_suffix_of_added_on_top(l, top, q, k + 1);
    }
}

/// Old line numbers that strictly ascend below `n` and are at least `n` in
/// number are exactly 0, 1, 2, ...
proof fn lemma_ascending_cover(p: Seq<(usize, usize)>, n: int, t: int)
    requires
        forall|k: int| 0 <= k < p.len() ==> (#[trigger] p[k]).0 < n,
        forall|a: int, b: int| 0 <= a < b < p.len() ==> (#[trigger] p[a]).0 < (#[trigger] p[b]).0,
        p.len() >= n,
        0 <= n,
        0 <= t <= p.len(),
    ensures
        forall|k: int| 0 <= k < t ==> (#[trigger] p[k]).0 >= k,
        t == p.len() ==> p.len() == n && forall|k: int| 0 <= k < p.len() ==> (#[trigger] p[k]).0 == k,
    decreases t,
{
    if t > 0 {
        lemma_ascending_cover(p, n, t - 1);
        if t >= 2 {
            assert(p[t - 2].0 < p[t - 1].0);
        }
        assert(p[t - 1].0 >= t - 1);
    }
    if t == p.len() {
        if p.len() > 0 {
            assert(p[p.len() - 1].0 >= p.len() - 1);
        }
        assert(p.len() == n);
        lemma_ascending_top(p, n, 0);
    }
}

/// From the top down: the `k`-th of `n` strictly ascending numbers below `n`
/// is at most `k`.
proof fn lemma_ascending_top(p: Seq<(usize, usize)>, n: int, t: int)
    requires
        forall|k: int| 0 <= k < p.len() ==> (#[trigger] p[k]).0 < n,
        forall|a: int, b: int| 0 <= a < b < p.len() ==> (#[trigger] p[a]).0 < (#[trigger] p[b]).0,
        forall|k: int| 0 <= k < p.len() ==> (#[trigger] p[k]).0 >= k,
        p.len() == n,
        0 <= t <= p.len(),
    ensures
        forall|k: int| t <= k < p.len() ==> (#[trigger] p[k]).0 == k,
    decreases p.len() - t,
{
    if t < p.len() {
        lemma_ascending_top(p, n, t + 1);
        if t + 1 < p.len() {
            assert(p[t].0 < p[t + 1].0);
        }
        assert(p[t].0 >= t);
    }
}

/// Lines that only moved down keep their commit: where the current text is
/// the parent's with lines added on top, the line pairs a blame step carries
/// back pair every line of the parent, in order (old line `i` is the `i`-th
/// pair), so the only current lines left for the commit are the added ones.
pub proof fn lemma_lines_added_on_top(l: Seq<Seq<u8>>, top: Seq<Seq<u8>>, p: Seq<(usize, usize)>)
    requires
        pairs_fit(l, top + l, p),
        p.len() >= kept_floor(l, top + l),
    ensures
        p.len() == l.len(),
        forall|k: int| 0 <= k < p.len() ==> (#[trigger] p[k]).0 == k,
{
    let r = top + l;
    lemma_shared_prefix_bounds(l, r, 0);
    let q = shared_prefix(l, r, 0);
    lemma_suffix_of_added_on_top(l, top, q, 0);
    assert(kept_floor(l, r) == l.len());
    lemma_ascending_cover(p, l.len() as int, p.len() as int);
}

/// Whether one of the first `n` changes shows the line pair `p`.
spec fn shown_before(changes: Seq<crate::git::diff::LineChange>, n: int, p: (usize, usize)) -> bool {
    exists|u: int| 0 <= u < n && #[trigger] changes[u].old_index == Some(p.0) && changes[u].new_index == Some(p.1)
}

/// The old and new line numbers of the changes that keep a line, in order.
pub open spec fn kept_spec(c: Seq<crate::git::diff::LineChange>) -> Seq<(usize, usize)>
    decreases c.len(),
{
    if c.len() == 0 {
        seq![]
    } else {
        let rest = kept_spec(c.drop_last());
        let x = c.last();
        if x.sign == 32 && x.old_index is Some && x.new_index is Some {
            rest.push((x.old_index->0, x.new_index->0))
        } else {
            rest
        }
    }
}

/// The kept pairs are one for each change that keeps a line.
proof fn lemma_kept_spec_len(c: Seq<crate::git::diff::LineChange>)
    ensures
        kept_spec(c).len() == kept_count(c),
    decreases c.len(),
{
    if c.len() > 0 {
        lemma_kept_spec_len(c.drop_last());
    }
}

/// The line pairs of the changes that keep a line, in order; of changes
/// that fit the two texts' lines, these pairs name equal lines and ascend.
fn kept_pairs(
    changes: &Vec<crate::git::diff::LineChange>,
    Ghost(l): Ghost<Seq<Seq<u8>>>,
    Ghost(r): Ghost<Seq<Seq<u8>>>,
) -> (res: Vec<(usize, usize)>)
    requires
        crate::git::diff::groups_fit(l, r, seq![changes@]),
    ensures
        res@ == kept_spec(changes@),
        pairs_fit(l, r, res@),
{
    let ghost g = seq![changes@];
    assert(g[0] == changes@);
    let mut out: Vec<(usize, usize)> = Vec::new();
    let mut k: usize = 0;
    while k < changes.len()
        invariant
            k <= changes@.len(),
            g == seq![changes@],
            crate::git::diff::groups_fit(l, r, g),
            pairs_fit(l, r, out@),
            out@ == kept_spec(changes@.subrange(0, k as int)),
            forall|t: int| 0 <= t < out@.len() ==> shown_before(changes@, k as int, #[trigger] out@[t]),
        decreases changes@.len() - k,
    {
        assert(g[0][k as int] == changes@[k as int]);
        assert(changes@.subrange(0, k + 1).drop_last() =~= changes@.subrange(0, k as int));
        if changes[k].sign == 32 {
            match (changes[k].old_index, changes[k].new_index) {
                (Some(a), Some(b)) => {
                    let ghost before = out@;
                    out.push((a, b));
                    proof {
                        assert(crate::git::diff::change_fits(l, r, g[0][k as int]));
                        assert forall|x: int, y: int| 0 <= x < y < out@.len() implies (#[trigger] out@[x]).0 < (#[trigger] out@[y]).0 && out@[x].1 < out@[y].1 by {
                            if y == before.len() {
                                assert(shown_before(changes@, k as int, before[x]));
                                let u = choose|u: int| 0 <= u < k && #[trigger] changes@[u].old_index == Some(before[x].0) && changes@[u].new_index == Some(before[x].1);
                                assert(g[0][u] == changes@[u]);
                                assert(0 <= u < g[0].len() && 0 <= k < g[0].len() && u < k);
                            } else {
                                assert(out@[x] == before[x] && out@[y] == before[y]);
                            }
                        }
                        assert forall|t: int| 0 <= t < out@.len() implies shown_before(changes@, k + 1, #[trigger] out@[t]) by {
                            if t < before.len() {
                                assert(out@[t] == before[t]);
                                assert(shown_before(changes@, k as int, before[t]));
                            } else {
                                assert(changes@[k as int].old_index == Some(out@[t].0));
                            }
                        }
                    }
                },
                _ => {},
            }
        }
        proof {
            assert forall|t: int| 0 <= t < out@.len() implies shown_before(changes@, k + 1, #[trigger] out@[t]) by {
                if shown_before(changes@, k as int, out@[t]) {
                    let u = choose|u: int| 0 <= u < k && #[trigger] changes@[u].old_index == Some(out@[t].0) && changes@[u].new_index == Some(out@[t].1);
                    assert(0 <= u < k + 1);
                }
            }
        }
        k = k + 1;
    }
    assert(changes@.subrange(0, k as int) =~= changes@);
    out
}

/// The old and new line numbers of the lines that a line diff of the two
/// texts keeps, in order: at least the lines both texts open with and close
/// with. Which other lines the diff keeps rests on its deadline, so of the
/// result only what holds of every diff is stated.
fn equal_lines(old: &str, new: &str) -> (res: Vec<(usize, usize)>)
    ensures
        pairs_fit(diff_lines_from(old.spec_bytes(), 0), diff_lines_from(new.spec_bytes(), 0), res@),
        res@.len() >= kept_floor(diff_lines_from(old.spec_bytes(), 0), diff_lines_from(new.spec_bytes(), 0)),
{
    let changes = crate::git::diff::all_line_changes(old, new);
    proof {
        lemma_kept_spec_len(changes@);
    }
    kept_pairs(
        &changes,
        Ghost(diff_lines_from(old.spec_bytes(), 0)),
        Ghost(diff_lines_from(new.spec_bytes(), 0)),
    )
}

/// The older line number that a pair gives line `n` of the newer text.
pub open spec fn mapped(p: Seq<(usize, usize)>, n: nat) -> Option<nat> {
    if exists|k: int| 0 <= k < p.len() && #[trigger] p[k].1 == n {
        Some(p[choose|k: int| 0 <= k < p.len() && #[trigger] p[k].1 == n].0 as nat)
    } else {
        None
    }
}

fn find_new(p: &Vec<(usize, usize)>, n: usize) -> (res: Option<usize>)
    requires
        forall|a: int, b: int| 0 <= a < b < p@.len() ==> (#[trigger] p@[a]).1 < (#[trigger] p@[b]).1,
    ensures
        match res {
            Some(k) => k < p@.len() && p@[k as int].1 == n,
            None => forall|k: int| 0 <= k < p@.len() ==> (#[trigger] p@[k]).1 != n,
        },
{
    let mut lo: usize = 0;
    let mut hi: usize = p.len();
    while lo < hi
        invariant
            lo <= hi <= p@.len(),
            forall|a: int, b: int| 0 <= a < b < p@.len() ==> (#[trigger] p@[a]).1 < (#[trigger] p@[b]).1,
            forall|k: int| 0 <= k < lo ==> (#[trigger] p@[k]).1 < n,
            forall|k: int| hi <= k < p@.len() ==> (#[trigger] p@[k]).1 > n,
        decreases hi - lo,
    {
        let mid = lo + (hi - lo) / 2;
        let v = p[mid].1;
        if v == n {
            return Some(mid);
        } else if v < n {
            assert forall|k: int| 0 <= k < mid + 1 implies (#[trigger] p@[k]).1 < n by {
                if k < mid {
                    assert(p@[k].1 < p@[mid as int].1);
                }
            }
            lo = mid + 1;
        } else {
            assert forall|k: int| mid <= k < p@.len() implies (#[trigger] p@[k]).1 > n by {
                if k > mid {
                    assert(p@[mid as int].1 < p@[k].1);
                }
            }
            hi = mid;
        }
    }
    None
}

/// Where each line of a file came from so far: its number in the version
/// being looked at (or none once its commit is found), the commit that
/// owns it, and its number in that commit's version.
pub struct BlameV {
    pub positions: Seq<Option<nat>>,
    pub owners: Seq<Seq<u8>>,
    pub sources: Seq<nat>,
}

/// One step back: lines the pairs carry to the older version move there;
/// the others belong to `commit`.
pub open spec fn blame_step(b: BlameV, p: Seq<(usize, usize)>, commit: Seq<u8>) -> BlameV {
    BlameV {
        positions: b.positions.map_values(|o: Option<nat>| match o {
            Some(l) => mapped(p, l),
            None => None,
        }),
        owners: Seq::new(b.owners.len(), |n: int| match b.positions[n] {
            Some(l) => if mapped(p, l) is Some {
                b.owners[n]
            } else {
                commit
            },
            None => b.owners[n],
        }),
        sources: Seq::new(b.sources.len(), |n: int| match b.positions[n] {
            Some(l) => match mapped(p, l) {
                Some(o) => o + 1,
                None => b.sources[n],
            },
            None => b.sources[n],
        }),
    }
}

/// Every line still traced belongs to `commit`.
pub open spec fn settle(b: BlameV, commit: Seq<u8>) -> BlameV {
    BlameV {
        positions: b.positions.map_values(|o: Option<nat>| None::<nat>),
        owners: Seq::new(b.owners.len(), |n: int| if b.positions[n] is Some {
            commit
        } else {
            b.owners[n]
        }),
        sources: b.sources,
    }
}

/// No line is traced any more.
pub open spec fn all_settled(b: BlameV) -> bool {
    forall|n: int| 0 <= n < b.positions.len() ==> #[trigger] b.positions[n] is None
}

/// A blame in progress.
pub struct BlameWalk {
    path: String,
    lines: Vec<String>,
    positions: Vec<Option<usize>>,
    owners: Vec<String>,
    sources: Vec<usize>,
    current: String,
    steps: usize,
    done: bool,
}

impl BlameWalk {
    /// Where each line stands.
    pub closed spec fn state(&self) -> BlameV {
        BlameV {
            positions: self.positions@.map_values(|o: Option<usize>| match o {
                Some(l) => Some(l as nat),
                None => None,
            }),
            owners: self.owners@.map_values(|s: String| encode_utf8(s@)),
            sources: self.sources@.map_values(|x: usize| x as nat),
        }
    }

    /// The text of the version being looked at.
    pub closed spec fn current(&self) -> Seq<u8> {
        encode_utf8(self.current@)
    }

    /// The file's lines.
    pub closed spec fn lines(&self) -> Seq<Seq<u8>> {
        self.lines@.map_values(|s: String| encode_utf8(s@))
    }

    /// The file's path.
    pub closed spec fn path(&self) -> Seq<u8> {
        encode_utf8(self.path@)
    }

    /// Steps taken.
    pub closed spec fn steps(&self) -> int {
        self.steps as int
    }

    /// Whether every line has its commit.
    pub closed spec fn done(&self) -> bool {
        self.done
    }

    /// The lists agree in length.
    pub closed spec fn wf(&self) -> bool {
        &&& self.positions@.len() == self.lines@.len()
        &&& self.owners@.len() == self.lines@.len()
        &&& self.sources@.len() == self.lines@.len()
        &&& self.steps <= 1000
        &&& forall|n: int| 0 <= n < self.sources@.len() ==> #[trigger] self.sources@[n] <= usize::MAX - 0
        &&& forall|n: int| 0 <= n < self.positions@.len() ==> (#[trigger] self.positions@[n] matches Some(l) ==> l < usize::MAX)
    }

    /// Whether every line has its commit.
    pub fn is_done(&self) -> (res: bool)
        ensures
            res == self.done(),
    {
        self.done
    }

    /// Starts a blame of `text`, the file at `path` in the starting commit.
    pub fn new(path: String, text: &str) -> (res: BlameWalk)
        ensures
            res.wf(),
            res.path() == encode_utf8(path@),
            res.lines() == text_lines(text.spec_bytes()),
            res.current() == text.spec_bytes(),
            res.steps() == 0,
            !res.done(),
            res.state().positions.len() == res.lines().len(),
            forall|n: int| 0 <= n < res.lines().len() ==> #[trigger] res.state().positions[n] == Some(n as nat)
                && res.state().owners[n] == Seq::<u8>::empty() && res.state().sources[n] == n + 1,
    {
        let parts = crate::text::lines(text);
        let mut lines: Vec<String> = Vec::new();
        let mut positions: Vec<Option<usize>> = Vec::new();
        let mut owners: Vec<String> = Vec::new();
        let mut sources: Vec<usize> = Vec::new();
        let mut i: usize = 0;
        while i < parts.len()
            invariant
                i <= parts@.len(),
                parts@.len() == text_lines(text.spec_bytes()).len(),
                forall|k: int| 0 <= k < parts@.len() ==> #[trigger] parts@[k].spec_bytes() == text_lines(text.spec_bytes())[k],
                lines@.len() == i,
                positions@.len() == i,
                owners@.len() == i,
                sources@.len() == i,
                forall|k: int| 0 <= k < i ==> encode_utf8((#[trigger] lines@[k])@) == text_lines(text.spec_bytes())[k],
                forall|k: int| 0 <= k < i ==> #[trigger] positions@[k] == Some(k as usize),
                forall|k: int| 0 <= k < i ==> encode_utf8((#[trigger] owners@[k])@) == Seq::<u8>::empty(),
                forall|k: int| 0 <= k < i ==> #[trigger] sources@[k] == k + 1,
            decreases parts@.len() - i,
        {
            let ghost old_lines = lines@;
            let line = parts[i].to_owned();
            assert(encode_utf8(line@) == parts@[i as int].spec_bytes());
            lines.push(line);
            proof {
                assert forall|k: int| 0 <= k < i + 1 implies encode_utf8((#[trigger] lines@[k])@) == text_lines(text.spec_bytes())[k] by {
                    if k < i {
                        assert(lines@[k] == old_lines[k]);
                    }
                }
            }
            positions.push(Some(i));
            let e = String::new();
            assert(encode_utf8(e@) =~= Seq::<u8>::empty());
            owners.push(e);
            sources.push(i + 1);
            i = i + 1;
        }
        let res = BlameWalk {
            path,
            lines,
            positions,
            owners,
            sources,
            current: text.to_owned(),
            steps: 0,
            done: false,
        };
        assert(res.lines() =~= text_lines(text.spec_bytes()));
        res
    }

    /// Looks one commit back: `commit` is the version being looked at, and
    /// `parent` the file's text in its first parent (empty where the parent
    /// lacks the file), or `None` for a root commit.
    pub fn step(&mut self, commit: &str, parent: Option<&str>) -> (res: Result<(), Error>)
        requires
            old(self).wf(),
            !old(self).done(),
        ensures
            old(self).steps() + 1 > 1000 ==> res == Err::<(), Error>(Error::BlameHistoryLimit),
            old(self).steps() + 1 <= 1000 ==> res is Ok && final(self).wf() && final(self).steps() == old(self).steps() + 1
                && final(self).lines() == old(self).lines() && final(self).path() == old(self).path()
                && exists|p: Seq<(usize, usize)>| #[trigger] blame_after(
                    old(self).state(),
                    old(self).current(),
                    commit.spec_bytes(),
                    opt_text(parent),
                    p,
                    final(self).state(),
                    final(self).done(),
                    final(self).current(),
                ),
    {
        if self.steps >= 1000 {
            return Err(Error::BlameHistoryLimit);
        }
        self.steps = self.steps + 1;
        let empty = String::new();
        let prev: &str = match parent {
            Some(t) => t,
            None => empty.as_str(),
        };
        proof {
            assert(encode_utf8(empty@) =~= Seq::<u8>::empty());
        }
        let plen = prev.as_bytes().len();
        assert(prev.spec_bytes().len() == plen);
        let pairs = equal_lines(prev, self.current.as_str());
        proof {
            lemma_lines_bound(prev.spec_bytes(), 0);
        }
        let ghost b0 = self.state();
        let ghost b1 = blame_step(b0, pairs@, commit.spec_bytes());
        let n = self.positions.len();
        let mut k: usize = 0;
        let mut any = false;
        while k < n
            invariant
                n == self.positions@.len(),
                k <= n,
                self.wf(),
                self.steps == old(self).steps() + 1,
                self.lines@ == old(self).lines@,
                self.path == old(self).path,
                self.current == old(self).current,
                !self.done,
                b0 == old(self).state(),
                self.lines@.len() == n,
                b0.positions.len() == n,
                b0.owners.len() == n,
                b0.sources.len() == n,
                b1 == blame_step(b0, pairs@, commit.spec_bytes()),
                pairs_fit(diff_lines_from(prev.spec_bytes(), 0), diff_lines_from(old(self).current(), 0), pairs@),
                pairs@.len() >= kept_floor(diff_lines_from(prev.spec_bytes(), 0), diff_lines_from(old(self).current(), 0)),
                diff_lines_from(prev.spec_bytes(), 0).len() <= prev.spec_bytes().len(),
                prev.spec_bytes().len() <= usize::MAX,
                forall|j: int| k <= j < n ==> #[trigger] self.state().positions[j] == b0.positions[j],
                forall|j: int| k <= j < n ==> #[trigger] self.state().owners[j] == b0.owners[j],
                forall|j: int| k <= j < n ==> #[trigger] self.state().sources[j] == b0.sources[j],
                forall|j: int| 0 <= j < k ==> #[trigger] self.state().positions[j] == b1.positions[j],
                forall|j: int| 0 <= j < k ==> #[trigger] self.state().owners[j] == b1.owners[j],
                forall|j: int| 0 <= j < k ==> #[trigger] self.state().sources[j] == b1.sources[j],
                any == exists|j: int| 0 <= j < k && #[trigger] b1.positions[j] is Some,
            decreases n - k,
        {
            let ghost before = self.state();
            assert(self.state().positions[k as int] == b0.positions[k as int]);
            assert(self.state().owners[k as int] == b0.owners[k as int]);
            assert(self.state().sources[k as int] == b0.sources[k as int]);
            match self.positions[k] {
                Some(line) => {
                    assert(before.positions[k as int] == Some(line as nat));
                    match find_new(&pairs, line) {
                        Some(t) => {
                            let o = pairs[t].0;
                            proof {
                                assert(pairs@[t as int].1 == line);
                                assert(mapped(pairs@, line as nat) == Some(pairs@[t as int].0 as nat)) by {
                                    let c = choose|c: int| 0 <= c < pairs@.len() && #[trigger] pairs@[c].1 == line as nat;
                                    if c != t {
                                        if c < t {
                                            assert(pairs@[c].1 < pairs@[t as int].1);
                                        } else {
                                            assert(pairs@[t as int].1 < pairs@[c].1);
                                        }
                                    }
                                }
                            }
                            self.positions.set(k, Some(o));
                            self.sources.set(k, o + 1);
                            any = true;
                            assert(self.positions@[k as int] == Some(o));
                            assert(self.state().positions[k as int] == Some(o as nat));
                            assert(b0.positions[k as int] == Some(line as nat));
                            assert(b1.positions[k as int] == Some(o as nat));
                        },
                        None => {
                            proof {
                                assert(mapped(pairs@, line as nat) is None);
                            }
                            self.positions.set(k, None);
                            self.owners.set(k, commit.to_owned());
                            assert(self.state().positions[k as int] == None::<nat>);
                            assert(b0.positions[k as int] == Some(line as nat));
                            assert(b1.positions[k as int] == None::<nat>);
                            assert(self.state().owners[k as int] == commit.spec_bytes());
                            assert(b1.owners[k as int] == commit.spec_bytes());
                        },
                    }
                },
                None => {},
            }
            proof {
                assert(self.state().positions[k as int] == b1.positions[k as int]);
                assert(self.state().owners[k as int] == b1.owners[k as int]);
                assert(self.state().sources[k as int] == b1.sources[k as int]);
                assert forall|j: int| 0 <= j < k + 1 implies #[trigger] self.state().positions[j] == b1.positions[j] by {
                    if j < k {
                        assert(self.state().positions[j] == before.positions[j]);
                    }
                }
                assert forall|j: int| 0 <= j < k + 1 implies #[trigger] self.state().owners[j] == b1.owners[j] by {
                    if j < k {
                        assert(self.state().owners[j] == before.owners[j]);
                    }
                }
                assert forall|j: int| 0 <= j < k + 1 implies #[trigger] self.state().sources[j] == b1.sources[j] by {
                    if j < k {
                        assert(self.state().sources[j] == before.sources[j]);
                    }
                }
                assert forall|j: int| k + 1 <= j < n implies #[trigger] self.state().positions[j] == b0.positions[j] by {
                    assert(self.state().positions[j] == before.positions[j]);
                }
                assert forall|j: int| k + 1 <= j < n implies #[trigger] self.state().owners[j] == b0.owners[j] by {
                    assert(self.state().owners[j] == before.owners[j]);
                }
                assert forall|j: int| k + 1 <= j < n implies #[trigger] self.state().sources[j] == b0.sources[j] by {
                    assert(self.state().sources[j] == before.sources[j]);
                }
                if any {
                    assert(exists|j: int| 0 <= j < k + 1 && #[trigger] b1.positions[j] is Some) by {
                        if exists|j: int| 0 <= j < k && #[trigger] b1.positions[j] is Some {
                            let j = choose|j: int| 0 <= j < k && #[trigger] b1.positions[j] is Some;
                            assert(b1.positions[j] is Some);
                        } else {
                            assert(b1.positions[k as int] is Some);
                        }
                    }
                }
            }
            k = k + 1;
        }
        proof {
            assert(self.state().positions =~= b1.positions);
            assert(self.state().owners =~= b1.owners);
            assert(self.state().sources =~= b1.sources);
        }
        if !any {
            assert(all_settled(b1));
            self.done = true;
            assert(blame_after(old(self).state(), old(self).current(), commit.spec_bytes(), opt_text(parent), pairs@, self.state(), self.done(), self.current()));
            return Ok(());
        }
        assert(!all_settled(b1));
        match parent {
            Some(t) => {
                self.current = t.to_owned();
                assert(blame_after(old(self).state(), old(self).current(), commit.spec_bytes(), opt_text(parent), pairs@, self.state(), self.done(), self.current()));
                Ok(())
            },
            None => {
                let ghost mid = self.state();
                let mut j: usize = 0;
                while j < n
                    invariant
                        n == self.positions@.len(),
                        j <= n,
                        self.wf(),
                        self.steps == old(self).steps() + 1,
                        self.lines@ == old(self).lines@,
                        self.path == old(self).path,
                        self.current == old(self).current,
                        !self.done,
                        mid == b1,
                        mid.positions.len() == n,
                        mid.owners.len() == n,
                        forall|t: int| j <= t < n ==> #[trigger] self.state().positions[t] == mid.positions[t],
                        forall|t: int| j <= t < n ==> #[trigger] self.state().owners[t] == mid.owners[t],
                        forall|t: int| 0 <= t < j ==> #[trigger] self.state().positions[t] == None::<nat>,
                        forall|t: int| 0 <= t < j ==> #[trigger] self.state().owners[t] == settle(mid, commit.spec_bytes()).owners[t],
                        self.state().sources == mid.sources,
                    decreases n - j,
                {
                    let ghost before = self.state();
                    assert(self.state().positions[j as int] == mid.positions[j as int]);
                    assert(self.state().owners[j as int] == mid.owners[j as int]);
                    if self.positions[j].is_some() {
                        self.owners.set(j, commit.to_owned());
                        self.positions.set(j, None);
                    }
                    proof {
                        assert(self.state().positions[j as int] == None::<nat>);
                        assert(self.state().owners[j as int] == settle(mid, commit.spec_bytes()).owners[j as int]);
                        assert forall|t: int| 0 <= t < j + 1 implies #[trigger] self.state().positions[t] == None::<nat> by {
                            if t < j {
                                assert(self.state().positions[t] == before.positions[t]);
                            }
                        }
                        assert forall|t: int| 0 <= t < j + 1 implies #[trigger] self.state().owners[t] == settle(mid, commit.spec_bytes()).owners[t] by {
                            if t < j {
                                assert(self.state().owners[t] == before.owners[t]);
                            }
                        }
                        assert forall|t: int| j + 1 <= t < n implies #[trigger] self.state().positions[t] == mid.positions[t] by {
                            assert(self.state().positions[t] == before.positions[t]);
                        }
                        assert forall|t: int| j + 1 <= t < n implies #[trigger] self.state().owners[t] == mid.owners[t] by {
                            assert(self.state().owners[t] == before.owners[t]);
                        }
                        assert(self.state().sources =~= before.sources);
                    }
                    j = j + 1;
                }
                proof {
                    let s = settle(mid, commit.spec_bytes());
                    assert(self.state().positions =~= s.positions);
                    assert(self.state().owners =~= s.owners);
                }
                self.done = true;
                assert(blame_after(old(self).state(), old(self).current(), commit.spec_bytes(), opt_text(parent), pairs@, self.state(), self.done(), self.current()));
                Ok(())
            },
        }
    }

    /// The rows of the blame: each line with its number, its text, the
    /// commit that owns it and its number there.
    pub fn finish(self) -> (res: Vec<Json>)
        requires
            self.wf(),
        ensures
            items_view(res@).len() == self.lines().len(),
            forall|n: int| 0 <= n < self.lines().len() ==> #[trigger] items_view(res@)[n] == blame_row(
                self.path(),
                n,
                self.lines()[n],
                self.state().owners[n],
                self.state().sources[n],
            ),
    {
        let mut out: Vec<Json> = Vec::new();
        let mut n: usize = 0;
        while n < self.lines.len()
            invariant
                self.wf(),
                n <= self.lines@.len(),
                items_view(out@).len() == n,
                forall|t: int| 0 <= t < n ==> #[trigger] items_view(out@)[t] == blame_row(
                    self.path(),
                    t,
                    self.lines()[t],
                    self.state().owners[t],
                    self.state().sources[t],
                ),
            decreases self.lines@.len() - n,
        {
            let fields = vec![
                (word_commit(), Json::Str(self.owners[n].clone())),
                (word_line(), Json::Num(n as u128 + 1)),
                (word_original_line(), Json::Num(self.sources[n] as u128)),
                (word_path(), Json::Str(self.path.clone())),
                (word_text(), Json::Str(self.lines[n].clone())),
            ];
            proof {
                reveal_with_fuel(fields_view, 6);
                assert(fields_view(fields@) =~= blame_row(self.path(), n as int, self.lines()[n as int], self.state().owners[n as int], self.state().sources[n as int])->Obj_0);
            }
            let ghost before = items_view(out@);
            let ghost raw = out@;
            out.push(Json::Obj(fields));
            proof {
                crate::json::lemma_items_view(raw);
                crate::json::lemma_items_view(out@);
                assert forall|t: int| 0 <= t < n + 1 implies #[trigger] items_view(out@)[t] == blame_row(
                    self.path(),
                    t,
                    self.lines()[t],
                    self.state().owners[t],
                    self.state().sources[t],
                ) by {
                    if t < n {
                        assert(out@[t] == raw[t]);
                        assert(items_view(raw)[t] == raw[t].jv());
                    }
                }
            }
            n = n + 1;
        }
        out
    }
}

/// The bytes of a text, if there is one.
pub open spec fn opt_text(t: Option<&str>) -> Option<Seq<u8>> {
    match t {
        Some(t) => Some(t.spec_bytes()),
        None => None,
    }
}

/// What one step back gives, for the shared lines `p` of the parent's text
/// (empty for a root commit) and the current one: the lines carried back, or
/// every line settled once none is left to trace or no parent is left.
pub open spec fn blame_after(
    b0: BlameV,
    cur: Seq<u8>,
    commit: Seq<u8>,
    parent: Option<Seq<u8>>,
    p: Seq<(usize, usize)>,
    b: BlameV,
    done: bool,
    cur2: Seq<u8>,
) -> bool {
    let prev = match parent {
        Some(t) => t,
        None => Seq::<u8>::empty(),
    };
    let b1 = blame_step(b0, p, commit);
    &&& pairs_fit(diff_lines_from(prev, 0), diff_lines_from(cur, 0), p)
    &&& p.len() >= kept_floor(diff_lines_from(prev, 0), diff_lines_from(cur, 0))
    &&& if all_settled(b1) {
        b == b1 && done
    } else if parent is None {
        b == settle(b1, commit) && done
    } else {
        b == b1 && !done && cur2 == prev
    }
}

/// Once a blame is done, no line is left without its commit.
pub proof fn lemma_blame_done_settled(
    b0: BlameV,
    cur: Seq<u8>,
    commit: Seq<u8>,
    parent: Option<Seq<u8>>,
    p: Seq<(usize, usize)>,
    b: BlameV,
    cur2: Seq<u8>,
)
    requires
        blame_after(b0, cur, commit, parent, p, b, true, cur2),
    ensures
        all_settled(b),
{
}

/// The row of line `n` (counted from zero).
pub open spec fn blame_row(path: Seq<u8>, n: int, text: Seq<u8>, owner: Seq<u8>, source: nat) -> JsonV {
    JsonV::Obj(
        seq![
            (w_commit(), JsonV::Str(owner)),
            (w_line(), JsonV::Num((n + 1) as nat)),
            (w_original_line(), JsonV::Num(source)),
            (w_path(), JsonV::Str(path)),
            (w_text(), JsonV::Str(text)),
        ],
    )
}

/// A text has no more diff lines than bytes.
proof fn lemma_lines_bound(s: Seq<u8>, p: int)
    requires
        0 <= p <= s.len(),
    ensures
        diff_lines_from(s, p).len() <= s.len() - p,
    decreases s.len() - p,
{
    if p < s.len() {
        crate::git::diff::lemma_next_terminator(s, p);
        let k = crate::git::diff::next_terminator(s, p);
        if k < s.len() {
            let e = if s[k] == 13 && k + 1 < s.len() && s[k + 1] == 10 {
                k + 2
            } else {
                k + 1
            };
            lemma_lines_bound(s, e);
        }
    }
}

} // verus!
