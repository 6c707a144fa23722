//! A directory tree's listing, one directory read at a time, with the
//! places it could not cover.
use crate::bytes::bytes_equal;
use crate::error::Error;
use crate::fs::{Entry, Gap, Inventory};
use crate::git::objects::TreeEntry;
use crate::git::status::entry_paths;
use crate::git::history::strictly_sorted;
use crate::git::history::str_less;
use crate::git::objects::{eq_ignore_case_bytes, ascii_lower};
use crate::json::ascii_string;
use crate::output::SCAN_LIMIT;
use vstd::prelude::*;
use vstd::string::StringSliceAdditionalSpecFns;
use vstd::utf8::encode_utf8;

verus! {

broadcast use vstd::seq_lib::group_to_multiset_ensures;

/// `directory`
pub open spec fn w_directory() -> Seq<u8> {
    seq![100u8, 105u8, 114u8, 101u8, 99u8, 116u8, 111u8, 114u8, 121u8]
}

fn word_directory() -> (res: String)
    ensures
        encode_utf8(res@) == w_directory(),
{
    let b: [u8; 9] = [100u8, 105u8, 114u8, 101u8, 99u8, 116u8, 111u8, 114u8, 121u8];
    assert(b@ =~= w_directory());
    ascii_string(b.as_slice())
}

/// `entry_scan_limit`
pub open spec fn w_entry_scan_limit() -> Seq<u8> {
    seq![101u8, 110u8, 116u8, 114u8, 121u8, 95u8, 115u8, 99u8, 97u8, 110u8, 95u8, 108u8, 105u8, 109u8, 105u8, 116u8]
}

fn word_entry_scan_limit() -> (res: String)
    ensures
        encode_utf8(res@) == w_entry_scan_limit(),
{
    let b: [u8; 16] = [101u8, 110u8, 116u8, 114u8, 121u8, 95u8, 115u8, 99u8, 97u8, 110u8, 95u8, 108u8, 105u8, 109u8, 105u8, 116u8];
    assert(b@ =~= w_entry_scan_limit());
    ascii_string(b.as_slice())
}

/// `entry_scan_limit; narrow directory scope`
pub open spec fn w_scope_limit() -> Seq<u8> {
    seq![101u8, 110u8, 116u8, 114u8, 121u8, 95u8, 115u8, 99u8, 97u8, 110u8, 95u8, 108u8, 105u8, 109u8, 105u8, 116u8, 59u8, 32u8, 110u8, 97u8, 114u8, 114u8, 111u8, 119u8, 32u8, 100u8, 105u8, 114u8, 101u8, 99u8, 116u8, 111u8, 114u8, 121u8, 32u8, 115u8, 99u8, 111u8, 112u8, 101u8]
}

fn word_scope_limit() -> (res: String)
    ensures
        encode_utf8(res@) == w_scope_limit(),
{
    let b: [u8; 40] = [101u8, 110u8, 116u8, 114u8, 121u8, 95u8, 115u8, 99u8, 97u8, 110u8, 95u8, 108u8, 105u8, 109u8, 105u8, 116u8, 59u8, 32u8, 110u8, 97u8, 114u8, 114u8, 111u8, 119u8, 32u8, 100u8, 105u8, 114u8, 101u8, 99u8, 116u8, 111u8, 114u8, 121u8, 32u8, 115u8, 99u8, 111u8, 112u8, 101u8];
    assert(b@ =~= w_scope_limit());
    ascii_string(b.as_slice())
}

/// `depth_limit`
pub open spec fn w_depth_limit() -> Seq<u8> {
    seq![100u8, 101u8, 112u8, 116u8, 104u8, 95u8, 108u8, 105u8, 109u8, 105u8, 116u8]
}

fn word_depth_limit() -> (res: String)
    ensures
        encode_utf8(res@) == w_depth_limit(),
{
    let b: [u8; 11] = [100u8, 101u8, 112u8, 116u8, 104u8, 95u8, 108u8, 105u8, 109u8, 105u8, 116u8];
    assert(b@ =~= w_depth_limit());
    ascii_string(b.as_slice())
}

/// `.git`
pub open spec fn w_dot_git() -> Seq<u8> {
    seq![46u8, 103u8, 105u8, 116u8]
}

fn word_dot_git() -> (res: String)
    ensures
        encode_utf8(res@) == w_dot_git(),
{
    let b: [u8; 4] = [46u8, 103u8, 105u8, 116u8];
    assert(b@ =~= w_dot_git());
    ascii_string(b.as_slice())
}


/// A value listed by a key: a path.
pub trait Keyed: Sized {
    /// The key's bytes.
    spec fn key_view(&self) -> Seq<u8>;

    /// The key.
    fn key(&self) -> (res: &str)
        ensures
            res.spec_bytes() == self.key_view(),
    ;
}

impl Keyed for Entry {
    open spec fn key_view(&self) -> Seq<u8> {
        encode_utf8(self.path@)
    }

    fn key(&self) -> (res: &str) {
        self.path.as_str()
    }
}

impl Keyed for Gap {
    open spec fn key_view(&self) -> Seq<u8> {
        encode_utf8(self.path@)
    }

    fn key(&self) -> (res: &str) {
        self.path.as_str()
    }
}

/// The order of keys holds: no later key comes before an earlier one.
pub open spec fn key_sorted<T: Keyed>(s: Seq<T>) -> bool {
    forall|i: int, j: int| 0 <= i < j < s.len() ==> !str_less((#[trigger] s[j]).key_view(), (#[trigger] s[i]).key_view())
}

/// Sorts by key, keeping the order of equal keys.
pub fn sort_keyed<T: Keyed>(v: Vec<T>) -> (res: Vec<T>)
    ensures
        key_sorted(res@),
        res@.to_multiset() == v@.to_multiset(),
{
    let ghost orig = v@;
    let mut v = v;
    let mut out: Vec<T> = Vec::new();
    while v.len() > 0
        invariant
            key_sorted(out@),
            v@.to_multiset().add(out@.to_multiset()) == orig.to_multiset(),
        decreases v@.len(),
    {
        let ghost vb = v@;
        let x = v.pop().unwrap();
        assert(vb =~= v@.push(x));
        let xb = x.key().as_bytes();
        let mut lo: usize = 0;
        let mut hi: usize = out.len();
        while lo < hi
            invariant
                lo <= hi <= out@.len(),
                key_sorted(out@),
                xb@ == x.key_view(),
                forall|t: int| 0 <= t < lo ==> str_less((#[trigger] out@[t]).key_view(), xb@),
                forall|t: int| hi <= t < out@.len() ==> !str_less((#[trigger] out@[t]).key_view(), xb@),
            decreases hi - lo,
        {
            let mid = lo + (hi - lo) / 2;
            if crate::git::history::bytes_less(out[mid].key().as_bytes(), xb) {
                proof {
                    assert forall|t: int| 0 <= t < mid + 1 implies str_less((#[trigger] out@[t]).key_view(), xb@) by {
                        if t < mid {
                            let a = out@[t].key_view();
                            let b = out@[mid as int].key_view();
                            assert(!str_less(b, a));
                            if a != b {
                                crate::git::history::lemma_str_less_total(a, b);
                                crate::git::history::lemma_str_less_transitive(a, b, xb@);
                            }
                        }
                    }
                }
                lo = mid + 1;
            } else {
                proof {
                    assert forall|t: int| mid <= t < out@.len() implies !str_less((#[trigger] out@[t]).key_view(), xb@) by {
                        if t > mid {
                            let a = out@[mid as int].key_view();
                            let b = out@[t].key_view();
                            assert(!str_less(b, a));
                            if str_less(b, xb@) {
                                if a == b {
                                } else {
                                    crate::git::history::lemma_str_less_total(a, b);
                                    crate::git::history::lemma_str_less_transitive(a, b, xb@);
                                }
                            }
                        }
                    }
                }
                hi = mid;
            }
        }
        let ghost ob = out@;
        out.insert(lo, x);
        proof {
            assert(out@ == ob.insert(lo as int, x));
            assert forall|i: int, j: int| 0 <= i < j < out@.len() implies !str_less(
                (#[trigger] out@[j]).key_view(),
                (#[trigger] out@[i]).key_view(),
            ) by {
                let k = xb@;
                if j < lo {
                    assert(out@[i] == ob[i] && out@[j] == ob[j]);
                } else if j == lo {
                    assert(out@[i] == ob[i]);
                    assert(str_less(ob[i].key_view(), k));
                    if str_less(k, ob[i].key_view()) {
                        crate::git::history::lemma_str_less_transitive(k, ob[i].key_view(), k);
                        crate::git::history::lemma_str_less_irreflexive(k);
                    }
                } else if i == lo {
                    assert(out@[j] == ob[j - 1]);
                } else if i < lo {
                    assert(out@[i] == ob[i] && out@[j] == ob[j - 1]);
                    if j - 1 >= lo {
                        assert(str_less(ob[i].key_view(), k));
                        assert(!str_less(ob[j - 1].key_view(), k));
                        if str_less(ob[j - 1].key_view(), ob[i].key_view()) {
                            crate::git::history::lemma_str_less_transitive(ob[j - 1].key_view(), ob[i].key_view(), k);
                        }
                    }
                } else {
                    assert(out@[i] == ob[i - 1] && out@[j] == ob[j - 1]);
                }
            }
            vstd::seq_lib::to_multiset_insert(ob, lo as int, x);
            vstd::seq_lib::to_multiset_build(v@, x);
        }
    }
    assert(v@.to_multiset() =~= vstd::multiset::Multiset::empty());
    out
}

/// A path without its trailing slashes.
pub open spec fn trim_slashes(b: Seq<u8>) -> Seq<u8>
    decreases b.len(),
{
    if b.len() > 0 && b.last() == 47 {
        trim_slashes(b.drop_last())
    } else {
        b
    }
}

/// The path of `name` inside `base`: the name alone at the top.
pub open spec fn inside(base: Seq<u8>, name: Seq<u8>) -> Seq<u8> {
    if base.len() == 0 || base == seq![46u8] {
        name
    } else {
        base + seq![47u8] + name
    }
}

/// `.git`, in any case.
pub open spec fn is_git_dir(name: Seq<u8>) -> bool {
    name.len() == 4 && name.map_values(|c: u8| ascii_lower(c)) == seq![46u8, 103u8, 105u8, 116u8]
}

/// The paths to look at for the names of a directory, skipping `.git`.
pub open spec fn relatives(base: Seq<u8>, names: Seq<Seq<u8>>) -> Seq<Seq<u8>>
    decreases names.len(),
{
    if names.len() == 0 {
        seq![]
    } else {
        let before = relatives(base, names.drop_last());
        if is_git_dir(names.last()) {
            before
        } else {
            before.push(inside(base, names.last()))
        }
    }
}

/// The gaps of directories left on the stack once the entry budget is spent,
/// in the order they are popped.
pub open spec fn spent_gaps(stack: Seq<(Seq<u8>, nat)>) -> Seq<(Seq<u8>, Seq<u8>)>
    decreases stack.len(),
{
    if stack.len() == 0 {
        seq![]
    } else {
        seq![(stack.last().0, w_entry_scan_limit())] + spent_gaps(stack.drop_last())
    }
}

/// The unscanned places as bytes.
pub open spec fn gap_pairs(g: Seq<Gap>) -> Seq<(Seq<u8>, Seq<u8>)> {
    g.map_values(|x: Gap| (encode_utf8(x.path@), encode_utf8(x.reason@)))
}

/// A listing in progress: the directories still to read, with their depth;
/// the entries counted so far; what was found; the directory being read and
/// the paths of its names still to look at.
#[derive(Debug)]
pub struct InventoryWalk {
    depth: usize,
    stack: Vec<(String, usize)>,
    visited: usize,
    entries: Vec<Entry>,
    gaps: Vec<Gap>,
    base: String,
    level: usize,
    listing: bool,
    pending: Vec<String>,
    next: usize,
}

impl InventoryWalk {
    /// The directories still to read, the last first.
    pub closed spec fn stack(&self) -> Seq<(Seq<u8>, nat)> {
        self.stack@.map_values(|x: (String, usize)| (encode_utf8(x.0@), x.1 as nat))
    }

    /// Names counted so far.
    pub closed spec fn visited(&self) -> int {
        self.visited as int
    }

    /// The entries found.
    pub closed spec fn entries(&self) -> Seq<Entry> {
        self.entries@
    }

    /// The places not covered.
    pub closed spec fn gaps(&self) -> Seq<(Seq<u8>, Seq<u8>)> {
        gap_pairs(self.gaps@)
    }

    /// The directory being read, and its depth.
    pub closed spec fn base(&self) -> (Seq<u8>, nat) {
        (encode_utf8(self.base@), self.level as nat)
    }

    /// The places not covered, as found.
    pub closed spec fn gap_list(&self) -> Seq<Gap> {
        self.gaps@
    }

    /// Whether the directory named last waits for its names.
    pub closed spec fn listing(&self) -> bool {
        self.listing
    }

    /// The paths still to look at.
    pub closed spec fn pending(&self) -> Seq<Seq<u8>> {
        self.pending@.subrange(self.next as int, self.pending@.len() as int).map_values(|s: String| encode_utf8(s@))
    }

    /// How deep the listing goes.
    pub closed spec fn depth(&self) -> int {
        self.depth as int
    }

    /// The counts stay in range.
    pub closed spec fn wf(&self) -> bool {
        &&& 1 <= self.depth <= 32
        &&& self.visited <= SCAN_LIMIT
        &&& self.next <= self.pending@.len()
        &&& self.level < self.depth
        &&& forall|k: int| 0 <= k < self.stack@.len() ==> (#[trigger] self.stack@[k]).1 < self.depth
    }

    /// Starts a listing of `path`, `depth` levels deep (one to thirty-two).
    pub fn start(path: &str, depth: usize) -> (res: Result<InventoryWalk, Error>)
        ensures
            !(1 <= depth <= 32) ==> res == Err::<InventoryWalk, Error>(Error::InvalidDepth),
            (1 <= depth <= 32) ==> (res matches Ok(w) && w.wf() && w.stack() == seq![(trim_slashes(path.spec_bytes()), 0nat)]
                && w.visited() == 0 && w.entries().len() == 0 && w.gaps().len() == 0 && !w.listing()
                && w.pending().len() == 0 && w.depth() == depth),
    {
        if depth < 1 || depth > 32 {
            return Err(Error::InvalidDepth);
        }
        let b = path.as_bytes();
        let mut end = b.len();
        assert(b@.subrange(0, end as int) =~= b@);
        while end > 0 && b[end - 1] == 47
            invariant
                end <= b@.len(),
                trim_slashes(b@) == trim_slashes(b@.subrange(0, end as int)),
                forall|k: int| end <= k < b@.len() ==> b@[k] == 47,
            decreases end,
        {
            assert(b@.subrange(0, end as int).drop_last() =~= b@.subrange(0, end - 1));
            end = end - 1;
        }
        assert(trim_slashes(b@.subrange(0, end as int)) == b@.subrange(0, end as int));
        proof {
            vstd::utf8::encode_utf8_valid_utf8(path@);
            if end < b@.len() {
                assert(b@[end as int] == 47);
            }
            crate::bytes::lemma_utf8_piece(b@, 0, end as int);
        }
        let trimmed = crate::bytes::string_of(vstd::slice::slice_subrange(b, 0, end));
        proof {
            vstd::utf8::decode_utf8_encode_utf8(b@.subrange(0, end as int));
        }
        let mut stack = Vec::new();
        stack.push((trimmed, 0usize));
        let w = InventoryWalk {
            depth,
            stack,
            visited: 0,
            entries: Vec::new(),
            gaps: Vec::new(),
            base: String::new(),
            level: 0,
            listing: false,
            pending: Vec::new(),
            next: 0,
        };
        assert(w.stack() =~= seq![(trim_slashes(path.spec_bytes()), 0nat)]);
        assert(w.pending() =~= Seq::<Seq<u8>>::empty());
        Ok(w)
    }

    /// The next directory to read, when no path waits to be looked at; once
    /// the entry budget is spent, the rest become gaps and `None` comes.
    pub fn next_dir(&mut self) -> (res: Option<String>)
        requires
            old(self).wf(),
            !old(self).listing(),
            old(self).pending().len() == 0,
        ensures
            final(self).wf(),
            final(self).visited() == old(self).visited(),
            final(self).entries() == old(self).entries(),
            final(self).depth() == old(self).depth(),
            final(self).pending().len() == 0,
            old(self).stack().len() == 0 ==> res is None && final(self).stack() == old(self).stack()
                && final(self).gaps() == old(self).gaps() && !final(self).listing(),
            old(self).stack().len() > 0 && old(self).visited() >= SCAN_LIMIT ==> res is None
                && final(self).stack().len() == 0 && final(self).gaps() == old(self).gaps() + spent_gaps(
                old(self).stack(),
            ) && !final(self).listing(),
            old(self).stack().len() > 0 && old(self).visited() < SCAN_LIMIT ==> (res matches Some(p)
                && encode_utf8(p@) == old(self).stack().last().0 && final(self).base() == old(self).stack().last()
                && final(self).stack() == old(self).stack().drop_last() && final(self).gaps() == old(self).gaps()
                && final(self).listing()),
    {
        if self.stack.len() == 0 {
            return None;
        }
        if self.visited < SCAN_LIMIT {
            let ghost st = self.stack();
            let (base, level) = self.stack.pop().unwrap();
            proof {
                assert(self.stack() =~= st.drop_last());
            }
            self.base = base;
            self.level = level;
            self.listing = true;
            return Some(self.base.clone());
        }
        let ghost st0 = self.stack();
        let ghost g0 = self.gaps();
        while self.stack.len() > 0
            invariant
                self.wf(),
                self.visited >= SCAN_LIMIT,
                !self.listing,
                self.visited == old(self).visited(),
                self.entries@ == old(self).entries(),
                self.depth == old(self).depth(),
                self.pending() == old(self).pending(),
                g0 + spent_gaps(st0) == self.gaps() + spent_gaps(self.stack()),
            decreases self.stack@.len(),
        {
            let ghost st = self.stack();
            let ghost gb = self.gaps();
            let (base, _) = self.stack.pop().unwrap();
            let gap = Gap { path: base, reason: word_entry_scan_limit() };
            self.gaps.push(gap);
            proof {
                assert(self.stack() =~= st.drop_last());
                assert(self.gaps() =~= gb.push((st.last().0, w_entry_scan_limit())));
                assert(spent_gaps(st) == seq![(st.last().0, w_entry_scan_limit())] + spent_gaps(st.drop_last()));
                assert(gb + spent_gaps(st) =~= gb.push((st.last().0, w_entry_scan_limit())) + spent_gaps(st.drop_last()));
            }
        }
        assert(self.gaps() =~= g0 + spent_gaps(st0));
        None
    }

    /// How many names the directory being read may still count.
    pub fn listing_limit(&self) -> (res: usize)
        requires
            self.wf(),
        ensures
            res == SCAN_LIMIT - self.visited(),
    {
        SCAN_LIMIT - self.visited
    }

    /// The directory being read could not be read, for this reason.
    pub fn dir_failed(&mut self, reason: String)
        requires
            old(self).wf(),
            old(self).listing(),
        ensures
            final(self).wf(),
            !final(self).listing(),
            final(self).gaps() == old(self).gaps().push((old(self).base().0, encode_utf8(reason@))),
            final(self).stack() == old(self).stack(),
            final(self).visited() == old(self).visited(),
            final(self).entries() == old(self).entries(),
            final(self).pending() == old(self).pending(),
            final(self).depth() == old(self).depth(),
    {
        let ghost g = self.gaps();
        self.gaps.push(Gap { path: self.base.clone(), reason });
        self.listing = false;
        assert(self.gaps() =~= g.push((old(self).base().0, encode_utf8(reason@))));
    }

    /// The names of the directory being read, and whether they are all of
    /// them; each counts toward the entry budget.
    pub fn listed(&mut self, names: Vec<String>, complete: bool)
        requires
            old(self).wf(),
            old(self).listing(),
            old(self).pending().len() == 0,
            names@.len() <= SCAN_LIMIT - old(self).visited(),
        ensures
            final(self).wf(),
            !final(self).listing(),
            final(self).gaps() == if complete {
                old(self).gaps()
            } else {
                old(self).gaps().push((old(self).base().0, w_scope_limit()))
            },
            final(self).visited() == old(self).visited() + names@.len(),
            final(self).pending() == relatives(old(self).base().0, names@.map_values(|s: String| encode_utf8(s@))),
            final(self).stack() == old(self).stack(),
            final(self).entries() == old(self).entries(),
            final(self).base() == old(self).base(),
            final(self).depth() == old(self).depth(),
    {
        if !complete {
            let ghost g = self.gaps();
            self.gaps.push(Gap { path: self.base.clone(), reason: word_scope_limit() });
            assert(self.gaps() =~= g.push((old(self).base().0, w_scope_limit())));
        }
        let ghost nv = names@.map_values(|s: String| encode_utf8(s@));
        let ghost bv = encode_utf8(self.base@);
        let bb = self.base.as_str().as_bytes();
        let top = bb.len() == 0 || (bb.len() == 1 && bb[0] == 46);
        assert(top == (bv.len() == 0 || bv == seq![46u8])) by {
            if bv.len() == 1 && bv[0] == 46 {
                assert(bv =~= seq![46u8]);
            }
        }
        let dot_git = word_dot_git();
        let mut pending: Vec<String> = Vec::new();
        let mut i: usize = 0;
        while i < names.len()
            invariant
                i <= names@.len(),
                nv == names@.map_values(|s: String| encode_utf8(s@)),
                bv == encode_utf8(self.base@),
                bb@ == bv,
                top == (bv.len() == 0 || bv == seq![46u8]),
                encode_utf8(dot_git@) == w_dot_git(),
                pending@.map_values(|s: String| encode_utf8(s@)) == relatives(bv, nv.subrange(0, i as int)),
            decreases names@.len() - i,
        {
            let name = names[i].as_str().as_bytes();
            assert(name@ == nv[i as int]);
            assert(nv.subrange(0, i + 1).drop_last() =~= nv.subrange(0, i as int));
            assert(nv.subrange(0, i + 1).last() == nv[i as int]);
            let skip = eq_ignore_case_bytes(name, dot_git.as_str().as_bytes());
            assert(skip == is_git_dir(name@)) by {
                assert(w_dot_git() =~= seq![46u8, 103u8, 105u8, 116u8]);
                if name@.len() == 4 {
                    if skip {
                        assert(name@.map_values(|c: u8| ascii_lower(c)) =~= seq![46u8, 103u8, 105u8, 116u8]);
                    } else {
                        if is_git_dir(name@) {
                            assert forall|k: int| 0 <= k < 4 implies ascii_lower(#[trigger] name@[k]) == ascii_lower(w_dot_git()[k]) by {
                                assert(name@.map_values(|c: u8| ascii_lower(c))[k] == ascii_lower(name@[k]));
                            }
                        }
                    }
                }
            }
            let ghost before = pending@.map_values(|s: String| encode_utf8(s@));
            if !skip {
                let rel = if top {
                    names[i].clone()
                } else {
                    let mut v: Vec<u8> = Vec::new();
                    crate::bytes::append_bytes(&mut v, bb);
                    v.push(47u8);
                    crate::bytes::append_bytes(&mut v, name);
                    assert(v@ =~= bv + seq![47u8] + name@);
                    proof {
                        vstd::utf8::encode_utf8_valid_utf8(self.base@);
                        vstd::utf8::encode_utf8_valid_utf8(names@[i as int]@);
                        crate::bytes::lemma_ascii_utf8(seq![47u8]);
                        vstd::utf8::valid_utf8_concat(bv, seq![47u8]);
                        vstd::utf8::valid_utf8_concat(bv + seq![47u8], name@);
                    }
                    let s = crate::bytes::string_of(v.as_slice());
                    proof {
                        vstd::utf8::decode_utf8_encode_utf8(v@);
                    }
                    s
                };
                assert(encode_utf8(rel@) == inside(bv, name@));
                pending.push(rel);
                assert(pending@.map_values(|s: String| encode_utf8(s@)) =~= before.push(inside(bv, name@)));
            }
            i = i + 1;
        }
        assert(nv.subrange(0, names@.len() as int) =~= nv);
        self.visited = self.visited + names.len();
        self.pending = pending;
        self.next = 0;
        self.listing = false;
        assert(self.pending() =~= pending@.map_values(|s: String| encode_utf8(s@)));
    }

    /// The next path to look at, if any.
    pub fn next_path(&self) -> (res: Option<&str>)
        requires
            self.wf(),
        ensures
            self.pending().len() == 0 ==> res is None,
            self.pending().len() > 0 ==> (res matches Some(p) && p.spec_bytes() == self.pending()[0]),
    {
        if self.next < self.pending.len() {
            Some(self.pending[self.next].as_str())
        } else {
            None
        }
    }

    /// What looking at the next path found: its entry, or why it could not
    /// be looked at. A directory within the depth is read later; one at the
    /// depth becomes a gap.
    pub fn found(&mut self, got: Result<Entry, String>)
        requires
            old(self).wf(),
            old(self).pending().len() > 0,
        ensures
            final(self).wf(),
            final(self).pending() == old(self).pending().drop_first(),
            final(self).visited() == old(self).visited(),
            final(self).listing() == old(self).listing(),
            final(self).base() == old(self).base(),
            final(self).depth() == old(self).depth(),
            ({
                let rel = old(self).pending()[0];
                let (lvl, d) = (old(self).base().1, old(self).depth());
                match got {
                    Ok(e) => {
                        &&& final(self).entries() == old(self).entries().push(e)
                        &&& if encode_utf8(e.kind@) == w_directory() {
                            if lvl + 1 < d {
                                final(self).stack() == old(self).stack().push((rel, lvl + 1))
                                    && final(self).gaps() == old(self).gaps()
                            } else {
                                final(self).stack() == old(self).stack() && final(self).gaps()
                                    == old(self).gaps().push((rel, w_depth_limit()))
                            }
                        } else {
                            final(self).stack() == old(self).stack() && final(self).gaps() == old(self).gaps()
                        }
                    },
                    Err(why) => final(self).entries() == old(self).entries() && final(self).stack()
                        == old(self).stack() && final(self).gaps() == old(self).gaps().push(
                        (rel, encode_utf8(why@)),
                    ),
                }
            }),
    {
        let ghost pend = self.pending();
        let plen = self.pending.len();
        assert(self.next < plen);
        let rel = self.pending[self.next].clone();
        assert(encode_utf8(rel@) == pend[0]);
        self.next = self.next + 1;
        assert(self.pending() =~= pend.drop_first());
        let ghost st = self.stack();
        let ghost g = self.gaps();
        match got {
            Ok(e) => {
                let dir = word_directory();
                if bytes_equal(e.kind.as_str().as_bytes(), dir.as_str().as_bytes()) {
                    if self.level + 1 < self.depth {
                        self.stack.push((rel, self.level + 1));
                        assert(self.stack() =~= st.push((pend[0], (old(self).base().1 + 1) as nat)));
                    } else {
                        self.gaps.push(Gap { path: rel, reason: word_depth_limit() });
                        assert(self.gaps() =~= g.push((pend[0], w_depth_limit())));
                    }
                }
                self.entries.push(e);
            },
            Err(why) => {
                self.gaps.push(Gap { path: rel, reason: why });
                assert(self.gaps() =~= g.push((pend[0], encode_utf8(why@))));
            },
        }
    }

    /// The listing: its entries and gaps, each in path order.
    pub fn finish(self) -> (res: Inventory)
        ensures
            key_sorted(res.entries@),
            key_sorted(res.gaps@),
            res.entries@.to_multiset() == self.entries().to_multiset(),
            res.gaps@.to_multiset() == self.gap_list().to_multiset(),
            gap_pairs(self.gap_list()) == self.gaps(),
    {
        Inventory { entries: sort_keyed(self.entries), gaps: sort_keyed(self.gaps) }
    }
}

impl Keyed for TreeEntry {
    open spec fn key_view(&self) -> Seq<u8> {
        encode_utf8(self.path@)
    }

    fn key(&self) -> (res: &str) {
        self.path.as_str()
    }
}

/// Entries in path order, one per path, each one of the entries given.
#[verifier::spinoff_prover]
#[verifier::rlimit(80)]
fn entries_in_path_order(v: Vec<TreeEntry>) -> (res: Vec<TreeEntry>)
    ensures
        strictly_sorted(entry_paths(res@)),
        forall|p: Seq<u8>| #[trigger] entry_paths(res@).contains(p) <==> entry_paths(v@).contains(p),
        forall|k: int| 0 <= k < res@.len() ==> v@.contains(#[trigger] res@[k]),
{
    let ghost orig = v@;
    let s = sort_keyed(v);
    let ghost sv = s@;
    proof {
        assert forall|k: int| 0 <= k < sv.len() implies orig.contains(#[trigger] sv[k]) by {
            vstd::seq_lib::to_multiset_contains(sv, sv[k]);
            vstd::seq_lib::to_multiset_contains(orig, sv[k]);
        }
        assert forall|k: int| 0 <= k < orig.len() implies sv.contains(#[trigger] orig[k]) by {
            vstd::seq_lib::to_multiset_contains(sv, orig[k]);
            vstd::seq_lib::to_multiset_contains(orig, orig[k]);
        }
    }
    let mut out: Vec<TreeEntry> = Vec::new();
    let mut i: usize = 0;
    while i < s.len()
        invariant
            sv == s@,
            key_sorted(sv),
            i <= sv.len(),
            strictly_sorted(entry_paths(out@)),
            forall|k: int| 0 <= k < out@.len() ==> sv.contains(#[trigger] out@[k]),
            forall|p: Seq<u8>| #[trigger] entry_paths(out@).contains(p) <==> entry_paths(sv.subrange(0, i as int)).contains(p),
            i > 0 ==> out@.len() > 0 && entry_paths(out@).last() == sv[i - 1].key_view(),
            i == 0 ==> out@.len() == 0,
        decreases sv.len() - i,
    {
        let ghost before = out@;
        let x = TreeEntry { path: s[i].path.clone(), mode: s[i].mode, oid: s[i].oid.clone() };
        assert(x == sv[i as int]);
        let same = out.len() > 0 && bytes_equal(out[out.len() - 1].path.as_str().as_bytes(), x.path.as_str().as_bytes());
        if same {
            let last = out.len() - 1;
            out.set(last, x);
        } else {
            out.push(x);
        }
        proof {
            let pb = entry_paths(before);
            let pa = entry_paths(out@);
            let xp = sv[i as int].key_view();
            if i > 0 {
                assert(!str_less(sv[i as int].key_view(), sv[i - 1].key_view()));
            }
            if !same && i > 0 {
                assert(pb.last() == sv[i - 1].key_view());
                assert(pb.last() != xp);
                crate::git::history::lemma_str_less_total(pb.last(), xp);
            }
            assert(pa =~= if same { pb.update(pb.len() - 1, xp) } else { pb.push(xp) });
            if !same && pb.len() > 0 {
                assert(str_less(pb.last(), xp));
            }
            assert forall|a: int, b: int| 0 <= a < b < pa.len() implies str_less(#[trigger] pa[a], #[trigger] pa[b]) by {
                if same {
                    if b < pb.len() - 1 {
                        assert(pa[a] == pb[a] && pa[b] == pb[b]);
                    } else {
                        assert(pa[b] == xp && xp == pb[pb.len() - 1]);
                        assert(pa[a] == pb[a]);
                        assert(str_less(pb[a], pb[pb.len() - 1]));
                    }
                } else {
                    if b < pb.len() {
                        assert(pa[a] == pb[a] && pa[b] == pb[b]);
                    } else {
                        assert(pa[b] == xp);
                        assert(pa[a] == pb[a]);
                        if a < pb.len() - 1 {
                            assert(str_less(pb[a], pb[pb.len() - 1]));
                            crate::git::history::lemma_str_less_transitive(pb[a], pb[pb.len() - 1], xp);
                        }
                    }
                }
            }
            assert forall|k: int| 0 <= k < out@.len() implies sv.contains(#[trigger] out@[k]) by {
                if k < before.len() && !(same && k == before.len() - 1) {
                    assert(out@[k] == before[k]);
                } else {
                    assert(out@[k] == sv[i as int]);
                }
            }
            let pre = entry_paths(sv.subrange(0, i as int));
            let post = entry_paths(sv.subrange(0, i + 1));
            assert(post =~= pre.push(xp));
            assert forall|p: Seq<u8>| #[trigger] pa.contains(p) <==> post.contains(p) by {
                if pa.contains(p) {
                    let t = choose|t: int| 0 <= t < pa.len() && pa[t] == p;
                    if pa[t] == xp {
                        assert(post[i as int] == xp);
                    } else {
                        assert(pb[t] == p);
                        assert(pb.contains(p));
                        let u = choose|u: int| 0 <= u < pre.len() && pre[u] == p;
                        assert(post[u] == p);
                    }
                }
                if post.contains(p) {
                    let u = choose|u: int| 0 <= u < post.len() && post[u] == p;
                    if u == i {
                        assert(pa[pa.len() - 1] == xp);
                    } else {
                        assert(pre[u] == p);
                        assert(pb.contains(p));
                        let t = choose|t: int| 0 <= t < pb.len() && pb[t] == p;
                        if same && t == pb.len() - 1 {
                            assert(pb[t] == sv[i - 1].key_view());
                            assert(pa[t] == xp);
                            assert(p == xp);
                        } else {
                            assert(pa[t] == p);
                        }
                    }
                }
            }
        }
        i = i + 1;
    }
    assert(sv.subrange(0, sv.len() as int) =~= sv);
    proof {
        assert forall|p: Seq<u8>| #[trigger] entry_paths(sv).contains(p) <==> entry_paths(orig).contains(p) by {
            if entry_paths(sv).contains(p) {
                let t = choose|t: int| 0 <= t < sv.len() && entry_paths(sv)[t] == p;
                assert(orig.contains(sv[t]));
                let u = choose|u: int| 0 <= u < orig.len() && orig[u] == sv[t];
                assert(entry_paths(orig)[u] == p);
            }
            if entry_paths(orig).contains(p) {
                let t = choose|t: int| 0 <= t < orig.len() && entry_paths(orig)[t] == p;
                assert(sv.contains(orig[t]));
                let u = choose|u: int| 0 <= u < sv.len() && sv[u] == orig[t];
                assert(entry_paths(sv)[u] == p);
            }
        }
        assert forall|k: int| 0 <= k < out@.len() implies orig.contains(#[trigger] out@[k]) by {
            assert(sv.contains(out@[k]));
            let u = choose|u: int| 0 <= u < sv.len() && sv[u] == out@[k];
            assert(orig.contains(sv[u]));
        }
    }
    out
}


/// Whether `x` is the last entry of `v` with its path.
pub open spec fn kept_last(v: Seq<TreeEntry>, x: TreeEntry) -> bool {
    exists|i: int| last_of_path(v, i) && v[i] == x
}

/// Whether the entry at `i` is the last of `v` with its path.
pub open spec fn last_of_path(v: Seq<TreeEntry>, i: int) -> bool {
    &&& 0 <= i < v.len()
    &&& forall|j: int| i < j < v.len() ==> #[trigger] entry_paths(v)[j] != entry_paths(v)[i]
}

fn path_order_holds(v: &Vec<TreeEntry>) -> (res: bool)
    ensures
        res == strictly_sorted(entry_paths(v@)),
{
    let ghost p = entry_paths(v@);
    let mut i: usize = 1;
    if v.len() == 0 {
        return true;
    }
    while i < v.len()
        invariant
            1 <= i <= v@.len(),
            p == entry_paths(v@),
            strictly_sorted(p.subrange(0, i as int)),
        decreases v@.len() - i,
    {
        assert(p[i - 1] == encode_utf8(v@[i - 1].path@) && p[i as int] == encode_utf8(v@[i as int].path@));
        if !crate::git::history::bytes_less(v[i - 1].path.as_str().as_bytes(), v[i].path.as_str().as_bytes()) {
            assert(!strictly_sorted(p)) by {
                assert(!str_less(p[i - 1], p[i as int]));
            }
            return false;
        }
        proof {
            let q = p.subrange(0, i + 1);
            assert forall|a: int, b: int| 0 <= a < b < q.len() implies str_less(#[trigger] q[a], #[trigger] q[b]) by {
                if b < i {
                    assert(q[a] == p.subrange(0, i as int)[a] && q[b] == p.subrange(0, i as int)[b]);
                } else if a < i - 1 {
                    assert(str_less(p.subrange(0, i as int)[a], p.subrange(0, i as int)[i - 1]));
                    crate::git::history::lemma_str_less_transitive(p[a], p[i - 1], p[i as int]);
                }
            }
        }
        i = i + 1;
    }
    assert(p.subrange(0, i as int) =~= p);
    true
}

/// Entries in path order, one per path: the path order and the choice that
/// a map keyed by path gives, where an entry put in later replaces one put
/// in earlier with the same path.
pub fn sorted_entries(v: Vec<TreeEntry>) -> (res: Vec<TreeEntry>)
    ensures
        strictly_sorted(entry_paths(res@)),
        forall|p: Seq<u8>| #[trigger] entry_paths(res@).contains(p) <==> entry_paths(v@).contains(p),
        forall|k: int| 0 <= k < res@.len() ==> kept_last(v@, #[trigger] res@[k]),
{
    let ghost orig = v@;
    let ghost po = entry_paths(orig);
    if path_order_holds(&v) {
        proof {
            assert forall|k: int| 0 <= k < orig.len() implies last_of_path(orig, k) by {
                assert forall|j: int| k < j < orig.len() implies #[trigger] po[j] != po[k] by {
                    assert(str_less(po[k], po[j]));
                    crate::git::history::lemma_str_less_irreflexive(po[k]);
                }
            }
            assert forall|k: int| 0 <= k < v@.len() implies kept_last(v@, #[trigger] v@[k]) by {
                assert(last_of_path(v@, k) && v@[k] == v@[k]);
            }
        }
        return v;
    }
    let mut seen: Vec<String> = Vec::new();
    let mut kept: Vec<TreeEntry> = Vec::new();
    let mut i: usize = v.len();
    while i > 0
        invariant
            i <= orig.len(),
            orig == v@,
            po == entry_paths(orig),
            strictly_sorted(crate::git::history::strs_view(seen@)),
            forall|p: Seq<u8>| #[trigger] crate::git::history::strs_view(seen@).contains(p) <==> exists|j: int| i <= j < orig.len() && po[j] == p,
            forall|p: Seq<u8>| #[trigger] entry_paths(kept@).contains(p) <==> crate::git::history::strs_view(seen@).contains(p),
            forall|t: int| 0 <= t < kept@.len() ==> kept_last(orig, #[trigger] kept@[t]),
        decreases i,
    {
        i = i - 1;
        let ghost sb = crate::git::history::strs_view(seen@);
        let ghost kb = kept@;
        assert(po[i as int] == encode_utf8(orig[i as int].path@));
        match crate::git::history::find_sorted(&seen, v[i].path.as_str().as_bytes()) {
            Some(_) => {
                proof {
                    assert forall|p: Seq<u8>| #[trigger] sb.contains(p) <==> exists|j: int| i <= j < orig.len() && po[j] == p by {
                        if exists|j: int| i <= j < orig.len() && po[j] == p {
                            let j = choose|j: int| i <= j < orig.len() && po[j] == p;
                            if j == i {
                                assert(sb.contains(po[i as int]));
                            } else {
                                assert(exists|j2: int| i + 1 <= j2 < orig.len() && po[j2] == p);
                            }
                        }
                    }
                }
            },
            None => {
                let e = TreeEntry { path: v[i].path.clone(), mode: v[i].mode, oid: v[i].oid.clone() };
                assert(e == orig[i as int]);
                proof {
                    assert(!sb.contains(po[i as int]));
                    assert forall|j: int| i < j < orig.len() implies #[trigger] po[j] != po[i as int] by {
                        if po[j] == po[i as int] {
                            assert(sb.contains(po[j]));
                        }
                    }
                    assert(last_of_path(orig, i as int));
                }
                kept.push(e);
                crate::git::history::insert_sorted(&mut seen, v[i].path.clone());
                proof {
                    let sa = crate::git::history::strs_view(seen@);
                    assert(entry_paths(kept@) =~= entry_paths(kb).push(po[i as int]));
                    assert forall|p: Seq<u8>| #[trigger] sa.contains(p) <==> exists|j: int| i <= j < orig.len() && po[j] == p by {
                        if exists|j: int| i <= j < orig.len() && po[j] == p {
                            let j = choose|j: int| i <= j < orig.len() && po[j] == p;
                            if j > i {
                                assert(exists|j2: int| i + 1 <= j2 < orig.len() && po[j2] == p);
                            }
                        }
                        if sb.contains(p) {
                            let j = choose|j: int| i + 1 <= j < orig.len() && po[j] == p;
                        }
                    }
                    assert forall|p: Seq<u8>| #[trigger] entry_paths(kept@).contains(p) <==> sa.contains(p) by {
                        if entry_paths(kept@).contains(p) {
                            let t = choose|t: int| 0 <= t < kept@.len() && entry_paths(kept@)[t] == p;
                            if t < kb.len() {
                                assert(entry_paths(kb)[t] == p);
                                assert(entry_paths(kb).contains(p));
                            }
                        }
                        if entry_paths(kb).contains(p) {
                            let t = choose|t: int| 0 <= t < kb.len() && entry_paths(kb)[t] == p;
                            assert(entry_paths(kept@)[t] == p);
                        }
                        if p == po[i as int] {
                            assert(entry_paths(kept@)[kb.len() as int] == p);
                        }
                    }
                    assert forall|t: int| 0 <= t < kept@.len() implies kept_last(orig, #[trigger] kept@[t]) by {
                        if t < kb.len() {
                            assert(kept@[t] == kb[t]);
                        } else {
                            assert(kept@[t] == orig[i as int]);
                            assert(last_of_path(orig, i as int) && orig[i as int] == orig[i as int]);
                        }
                    }
                }
            },
        }
    }
    let ghost kv = kept@;
    let res = entries_in_path_order(kept);
    proof {
        assert forall|p: Seq<u8>| #[trigger] entry_paths(res@).contains(p) <==> entry_paths(orig).contains(p) by {
            if entry_paths(orig).contains(p) {
                let j = choose|j: int| 0 <= j < orig.len() && entry_paths(orig)[j] == p;
                assert(po[j] == p);
            }
        }
        assert forall|k: int| 0 <= k < res@.len() implies kept_last(orig, #[trigger] res@[k]) by {
            assert(kv.contains(res@[k]));
            let t = choose|t: int| 0 <= t < kv.len() && kv[t] == res@[k];
            assert(kept_last(orig, kv[t]));
        }
    }
    res
}

} // verus!
