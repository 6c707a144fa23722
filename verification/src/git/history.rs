//! Commit history: the byte order of names, the walk of a log, and the
//! merge bases of two logs.
use crate::error::Error;
use crate::git::objects::Commit;
use crate::bytes::{bytes_equal, to_vec};
use crate::git::store::lex_less;
use vstd::prelude::*;
use vstd::utf8::encode_utf8;

verus! {

/// The order of `str`: bytewise, a proper prefix first.
pub open spec fn str_less(a: Seq<u8>, b: Seq<u8>) -> bool {
    lex_less(a, b) || (a.len() < b.len() && a == b.subrange(0, a.len() as int))
}

/// The order is irreflexive.
pub proof fn lemma_str_less_irreflexive(a: Seq<u8>)
    ensures
        !str_less(a, a),
{
    if lex_less(a, a) {
        let k = choose|k: int|
            0 <= k < a.len() && k < a.len() && a[k] < a[k] && (forall|j: int|
                0 <= j < k ==> a[j] == a[j]);
        assert(a[k] < a[k]);
    }
}

/// The order is transitive.
pub proof fn lemma_str_less_transitive(a: Seq<u8>, b: Seq<u8>, c: Seq<u8>)
    requires
        str_less(a, b),
        str_less(b, c),
    ensures
        str_less(a, c),
{
    if lex_less(a, b) {
        let k1 = choose|k: int|
            0 <= k < a.len() && k < b.len() && a[k] < b[k] && (forall|j: int|
                0 <= j < k ==> a[j] == b[j]);
        if lex_less(b, c) {
            let k2 = choose|k: int|
                0 <= k < b.len() && k < c.len() && b[k] < c[k] && (forall|j: int|
                    0 <= j < k ==> b[j] == c[j]);
            let k = if k1 < k2 {
                k1
            } else {
                k2
            };
            assert(0 <= k < a.len() && k < c.len() && a[k] < c[k] && (forall|j: int|
                0 <= j < k ==> a[j] == c[j]));
        } else {
            assert(b[k1] == c[k1]);
            assert(0 <= k1 < a.len() && k1 < c.len() && a[k1] < c[k1] && (forall|j: int|
                0 <= j < k1 ==> a[j] == c[j]));
        }
    } else {
        if lex_less(b, c) {
            let k2 = choose|k: int|
                0 <= k < b.len() && k < c.len() && b[k] < c[k] && (forall|j: int|
                    0 <= j < k ==> b[j] == c[j]);
            if k2 < a.len() {
                assert(a[k2] == b[k2]);
                assert(0 <= k2 < a.len() && k2 < c.len() && a[k2] < c[k2] && (forall|j: int|
                    0 <= j < k2 ==> a[j] == c[j]));
            } else {
                assert forall|j: int| 0 <= j < a.len() implies a[j] == c.subrange(
                    0,
                    a.len() as int,
                )[j] by {
                    assert(a[j] == b[j]);
                }
                assert(a =~= c.subrange(0, a.len() as int));
            }
        } else {
            assert forall|j: int| 0 <= j < a.len() implies a[j] == c.subrange(
                0,
                a.len() as int,
            )[j] by {
                assert(a[j] == b[j]);
            }
            assert(a =~= c.subrange(0, a.len() as int));
        }
    }
}

/// Two different byte strings are ordered one way or the other.
pub proof fn lemma_str_less_total(a: Seq<u8>, b: Seq<u8>)
    requires
        a != b,
    ensures
        str_less(a, b) || str_less(b, a),
{
    let n = if a.len() < b.len() {
        a.len()
    } else {
        b.len()
    };
    if exists|k: int| 0 <= k < n && a[k] != b[k] {
        let k0 = choose|k: int| 0 <= k < n && a[k] != b[k];
        lemma_first_difference(a, b, k0);
    } else {
        if a.len() < b.len() {
            assert(a =~= b.subrange(0, a.len() as int));
        } else if b.len() < a.len() {
            assert(b =~= a.subrange(0, b.len() as int));
        } else {
            assert(a =~= b);
        }
    }
}

proof fn lemma_first_difference(a: Seq<u8>, b: Seq<u8>, k0: int)
    requires
        0 <= k0 < a.len(),
        k0 < b.len(),
        a[k0] != b[k0],
    ensures
        lex_less(a, b) || lex_less(b, a),
    decreases k0,
{
    if exists|j: int| 0 <= j < k0 && a[j] != b[j] {
        let j = choose|j: int| 0 <= j < k0 && a[j] != b[j];
        lemma_first_difference(a, b, j);
    } else {
        if a[k0] < b[k0] {
            assert(0 <= k0 < a.len() && k0 < b.len() && a[k0] < b[k0] && (forall|j: int|
                0 <= j < k0 ==> a[j] == b[j]));
        } else {
            assert(0 <= k0 < b.len() && k0 < a.len() && b[k0] < a[k0] && (forall|j: int|
                0 <= j < k0 ==> b[j] == a[j]));
        }
    }
}

/// Whether `a` comes before `b` in the order of `str`.
pub fn bytes_less(a: &[u8], b: &[u8]) -> (res: bool)
    ensures
        res == str_less(a@, b@),
{
    let mut i: usize = 0;
    while i < a.len() && i < b.len()
        invariant
            i <= a@.len(),
            i <= b@.len(),
            forall|j: int| 0 <= j < i ==> a@[j] == b@[j],
        decreases a@.len() - i,
    {
        if a[i] != b[i] {
            if a[i] < b[i] {
                assert(0 <= i < a@.len() && i < b@.len() && a@[i as int] < b@[i as int] && (forall|
                    j: int,
                | 0 <= j < i ==> a@[j] == b@[j]));
                return true;
            } else {
                assert(!lex_less(a@, b@)) by {
                    if lex_less(a@, b@) {
                        let k = choose|k: int|
                            0 <= k < a@.len() && k < b@.len() && a@[k] < b@[k] && (forall|j: int|
                                0 <= j < k ==> a@[j] == b@[j]);
                        if k < i {
                            assert(a@[k] == b@[k]);
                        } else if k > i {
                            assert(a@[i as int] == b@[i as int]);
                        }
                    }
                }
                assert(!(a@.len() < b@.len() && a@ == b@.subrange(0, a@.len() as int))) by {
                    if a@.len() < b@.len() {
                        assert(b@.subrange(0, a@.len() as int)[i as int] == b@[i as int]);
                    }
                }
                return false;
            }
        }
        i = i + 1;
    }
    assert(!lex_less(a@, b@)) by {
        if lex_less(a@, b@) {
            let k = choose|k: int|
                0 <= k < a@.len() && k < b@.len() && a@[k] < b@[k] && (forall|j: int|
                    0 <= j < k ==> a@[j] == b@[j]);
            assert(a@[k] == b@[k]);
        }
    }
    if a.len() < b.len() {
        assert(a@ =~= b@.subrange(0, a@.len() as int));
        true
    } else {
        false
    }
}

/// A commit as a walk sees it: its id and its parents' ids.
pub open spec fn node_of(c: Commit) -> (Seq<u8>, Seq<Seq<u8>>) {
    (encode_utf8(c.oid@), strs_view(c.parents@))
}

/// The ids and parents of a list of commits.
pub open spec fn nodes_of(s: Seq<Commit>) -> Seq<(Seq<u8>, Seq<Seq<u8>>)> {
    s.map_values(|c: Commit| node_of(c))
}

/// The last position before `n` that holds `id`, or -1.
pub open spec fn last_index(g: Seq<(Seq<u8>, Seq<Seq<u8>>)>, id: Seq<u8>, n: int) -> int
    decreases n,
{
    if n <= 0 {
        -1
    } else if g[n - 1].0 == id {
        n - 1
    } else {
        last_index(g, id, n - 1)
    }
}

/// `last_index` finds `id` exactly where it is last.
pub proof fn lemma_last_index(g: Seq<(Seq<u8>, Seq<Seq<u8>>)>, id: Seq<u8>, n: int)
    requires
        0 <= n <= g.len(),
    ensures
        -1 <= last_index(g, id, n) < n,
        last_index(g, id, n) >= 0 ==> g[last_index(g, id, n)].0 == id,
        forall|k: int| last_index(g, id, n) < k < n ==> #[trigger] g[k].0 != id,
    decreases n,
{
    if n > 0 {
        lemma_last_index(g, id, n - 1);
    }
}

/// The parents that the graph records for `id`: those of its last entry.
pub open spec fn parents_in(g: Seq<(Seq<u8>, Seq<Seq<u8>>)>, id: Seq<u8>) -> Option<Seq<Seq<u8>>> {
    let k = last_index(g, id, g.len() as int);
    if k >= 0 {
        Some(g[k].1)
    } else {
        None
    }
}

/// Whether a list of commits holds `id`.
pub open spec fn listed(g: Seq<(Seq<u8>, Seq<Seq<u8>>)>, id: Seq<u8>) -> bool {
    exists|k: int| 0 <= k < g.len() && #[trigger] g[k].0 == id
}

/// `x` is a parent of `y` in the graph.
pub open spec fn step(g: Seq<(Seq<u8>, Seq<Seq<u8>>)>, y: Seq<u8>, x: Seq<u8>) -> bool {
    parents_in(g, y) matches Some(ps) && ps.contains(x)
}

/// Each id of `p` is a parent of the one before it.
pub open spec fn is_path(g: Seq<(Seq<u8>, Seq<Seq<u8>>)>, p: Seq<Seq<u8>>) -> bool {
    p.len() >= 2 && forall|i: int| 0 <= i < p.len() - 1 ==> step(g, #[trigger] p[i], p[i + 1])
}

/// In both logs.
pub open spec fn common(
    l: Seq<(Seq<u8>, Seq<Seq<u8>>)>,
    r: Seq<(Seq<u8>, Seq<Seq<u8>>)>,
    x: Seq<u8>,
) -> bool {
    listed(r, x) && listed(l, x)
}

/// A strict ancestor of a commit that is in both logs.
pub open spec fn below_common(
    l: Seq<(Seq<u8>, Seq<Seq<u8>>)>,
    r: Seq<(Seq<u8>, Seq<Seq<u8>>)>,
    x: Seq<u8>,
) -> bool {
    exists|p: Seq<Seq<u8>>|
        #[trigger] is_path(l + r, p) && common(l, r, p[0]) && p[p.len() - 1] == x
}

/// Some strict ancestor of a common commit is in neither log.
pub open spec fn ancestor_missing(
    l: Seq<(Seq<u8>, Seq<Seq<u8>>)>,
    r: Seq<(Seq<u8>, Seq<Seq<u8>>)>,
) -> bool {
    exists|x: Seq<u8>| #[trigger] below_common(l, r, x) && parents_in(l + r, x) is None
}

/// A merge base: in both logs, and no strict ancestor of a commit in both.
pub open spec fn is_merge_base(
    l: Seq<(Seq<u8>, Seq<Seq<u8>>)>,
    r: Seq<(Seq<u8>, Seq<Seq<u8>>)>,
    x: Seq<u8>,
) -> bool {
    common(l, r, x) && !below_common(l, r, x)
}

/// Each element comes before the next.
pub open spec fn strictly_sorted(s: Seq<Seq<u8>>) -> bool {
    forall|i: int, j: int| 0 <= i < j < s.len() ==> str_less(#[trigger] s[i], #[trigger] s[j])
}

/// The bytes of a list of strings.
pub open spec fn strs_view(s: Seq<String>) -> Seq<Seq<u8>> {
    s.map_values(|x: String| encode_utf8(x@))
}

/// Whether the marks cover `x`: some marked entry holds it.
pub open spec fn marked(g: Seq<(Seq<u8>, Seq<Seq<u8>>)>, vis: Seq<bool>, x: Seq<u8>) -> bool {
    exists|k: int| 0 <= k < g.len() && k < vis.len() && vis[k] && #[trigger] g[k].0 == x
}

/// Whether `x` waits in the queue from `head` on.
pub open spec fn queued(q: Seq<Seq<u8>>, head: int, x: Seq<u8>) -> bool {
    exists|j: int| head <= j < q.len() && #[trigger] q[j] == x
}

/// Number of marks set.
pub open spec fn count_marks(s: Seq<bool>) -> nat
    decreases s.len(),
{
    if s.len() == 0 {
        0
    } else {
        count_marks(s.drop_last()) + if s.last() {
            1nat
        } else {
            0nat
        }
    }
}

proof fn lemma_count_marks(s: Seq<bool>, i: int)
    requires
        0 <= i < s.len(),
        !s[i],
    ensures
        count_marks(s.update(i, true)) == count_marks(s) + 1,
        count_marks(s) < s.len(),
    decreases s.len(),
{
    let t = s.update(i, true);
    if i == s.len() - 1 {
        assert(t.drop_last() =~= s.drop_last());
        lemma_count_bound(s.drop_last());
    } else {
        assert(t.drop_last() =~= s.drop_last().update(i, true));
        lemma_count_marks(s.drop_last(), i);
    }
}

proof fn lemma_count_bound(s: Seq<bool>)
    ensures
        count_marks(s) <= s.len(),
    decreases s.len(),
{
    if s.len() > 0 {
        lemma_count_bound(s.drop_last());
    }
}

/// The walk's marks and queue account for every ancestor found so far.
pub open spec fn walk_inv(
    l: Seq<(Seq<u8>, Seq<Seq<u8>>)>,
    r: Seq<(Seq<u8>, Seq<Seq<u8>>)>,
    vis: Seq<bool>,
    q: Seq<Seq<u8>>,
    head: int,
) -> bool {
    let g = l + r;
    &&& vis.len() == g.len()
    &&& 0 <= head <= q.len()
    &&& forall|k: int| 0 <= k < g.len() && #[trigger] vis[k] ==> last_index(g, g[k].0, g.len() as int) == k
    &&& forall|k: int| 0 <= k < g.len() && #[trigger] vis[k] ==> below_common(l, r, g[k].0)
    &&& forall|j: int| head <= j < q.len() ==> below_common(l, r, #[trigger] q[j])
    &&& forall|k: int, p: Seq<u8>|
        0 <= k < g.len() && #[trigger] vis[k] && #[trigger] g[k].1.contains(p) ==> marked(g, vis, p)
            || queued(q, head, p)
    &&& forall|c: Seq<u8>, p: Seq<u8>|
        #[trigger] common(l, r, c) && #[trigger] step(g, c, p) ==> marked(g, vis, p) || queued(
            q,
            head,
            p,
        )
}

/// A path extended by a parent is a path.
proof fn lemma_path_push(g: Seq<(Seq<u8>, Seq<Seq<u8>>)>, p: Seq<Seq<u8>>, x: Seq<u8>)
    requires
        is_path(g, p),
        step(g, p[p.len() - 1], x),
    ensures
        is_path(g, p.push(x)),
        p.push(x)[0] == p[0],
{
    let q = p.push(x);
    assert forall|i: int| 0 <= i < q.len() - 1 implies step(g, #[trigger] q[i], q[i + 1]) by {
        if i < p.len() - 1 {
            assert(q[i] == p[i] && q[i + 1] == p[i + 1]);
        }
    }
}

/// Once the queue is empty, every ancestor of a common commit is marked.
proof fn lemma_walk_complete(
    l: Seq<(Seq<u8>, Seq<Seq<u8>>)>,
    r: Seq<(Seq<u8>, Seq<Seq<u8>>)>,
    vis: Seq<bool>,
    q: Seq<Seq<u8>>,
    p: Seq<Seq<u8>>,
)
    requires
        walk_inv(l, r, vis, q, q.len() as int),
        is_path(l + r, p),
        common(l, r, p[0]),
    ensures
        marked(l + r, vis, p[p.len() - 1]),
    decreases p.len(),
{
    let g = l + r;
    let x = p[p.len() - 1];
    let y = p[p.len() - 2];
    assert(step(g, p[p.len() - 2], p[p.len() - 2 + 1]));
    if p.len() == 2 {
        assert(step(g, p[0], x));
        assert(!queued(q, q.len() as int, x));
    } else {
        let pre = p.drop_last();
        assert forall|i: int| 0 <= i < pre.len() - 1 implies step(g, #[trigger] pre[i], pre[i + 1]) by {
            assert(pre[i] == p[i] && pre[i + 1] == p[i + 1]);
            assert(step(g, p[i], p[i + 1]));
        }
        lemma_walk_complete(l, r, vis, q, pre);
        let k = choose|k: int| 0 <= k < g.len() && k < vis.len() && vis[k] && #[trigger] g[k].0 == y;
        assert(vis[k]);
        lemma_last_index(g, y, g.len() as int);
        assert(parents_in(g, y) == Some(g[k].1));
        assert(g[k].1.contains(x));
        assert(!queued(q, q.len() as int, x));
    }
}

/// A queued id at `head` whose entry is marked already can be dropped.
proof fn lemma_walk_skip(
    l: Seq<(Seq<u8>, Seq<Seq<u8>>)>,
    r: Seq<(Seq<u8>, Seq<Seq<u8>>)>,
    vis: Seq<bool>,
    q: Seq<Seq<u8>>,
    head: int,
    k: int,
)
    requires
        walk_inv(l, r, vis, q, head),
        head < q.len(),
        0 <= k < (l + r).len(),
        (l + r)[k].0 == q[head],
        vis[k],
    ensures
        walk_inv(l, r, vis, q, head + 1),
{
    let g = l + r;
    assert(marked(g, vis, q[head]));
    assert forall|x: Seq<u8>| #[trigger] queued(q, head, x) implies marked(g, vis, x) || queued(
        q,
        head + 1,
        x,
    ) by {
        let j = choose|j: int| head <= j < q.len() && #[trigger] q[j] == x;
        if j > head {
            assert(q[j] == x);
        }
    }
}

/// Marking the entry of the id at `head` and queueing its parents keeps the
/// walk accountable.
#[verifier::spinoff_prover]
#[verifier::rlimit(50)]
proof fn lemma_walk_mark(
    l: Seq<(Seq<u8>, Seq<Seq<u8>>)>,
    r: Seq<(Seq<u8>, Seq<Seq<u8>>)>,
    vis: Seq<bool>,
    q: Seq<Seq<u8>>,
    head: int,
    k: int,
)
    requires
        walk_inv(l, r, vis, q, head),
        head < q.len(),
        k == last_index(l + r, q[head], (l + r).len() as int),
        k >= 0,
        !vis[k],
    ensures
        walk_inv(l, r, vis.update(k, true), q + (l + r)[k].1, head + 1),
{
    let g = l + r;
    let x = q[head];
    let v2 = vis.update(k, true);
    let q2 = q + g[k].1;
    lemma_last_index(g, x, g.len() as int);
    assert(g[k].0 == x);
    assert(parents_in(g, x) == Some(g[k].1));
    assert(below_common(l, r, x));
    let px = choose|p: Seq<Seq<u8>>| #[trigger] is_path(g, p) && common(l, r, p[0]) && p[p.len() - 1] == x;
    assert forall|y: Seq<u8>| #[trigger] marked(g, vis, y) implies marked(g, v2, y) by {
        let i = choose|i: int| 0 <= i < g.len() && i < vis.len() && vis[i] && #[trigger] g[i].0 == y;
        assert(v2[i]);
    }
    assert(marked(g, v2, x)) by {
        assert(v2[k] && g[k].0 == x);
    }
    assert forall|y: Seq<u8>| #[trigger] queued(q, head, y) implies marked(g, v2, y) || queued(
        q2,
        head + 1,
        y,
    ) by {
        let j = choose|j: int| head <= j < q.len() && #[trigger] q[j] == y;
        if j > head {
            assert(q2[j] == y);
        }
    }
    assert forall|y: Seq<u8>| #[trigger] g[k].1.contains(y) implies queued(q2, head + 1, y) by {
        let i = choose|i: int| 0 <= i < g[k].1.len() && g[k].1[i] == y;
        assert(q2[q.len() + i] == y);
    }
    assert forall|i: int| 0 <= i < g.len() && #[trigger] v2[i] implies last_index(
        g,
        g[i].0,
        g.len() as int,
    ) == i by {
        if i != k {
            assert(vis[i]);
        }
    }
    assert forall|i: int| 0 <= i < g.len() && #[trigger] v2[i] implies below_common(l, r, g[i].0) by {
        if i != k {
            assert(vis[i]);
        }
    }
    assert forall|j: int| head + 1 <= j < q2.len() implies below_common(l, r, #[trigger] q2[j]) by {
        if j < q.len() {
            assert(q2[j] == q[j]);
        } else {
            let y = q2[j];
            assert(g[k].1[j - q.len()] == y);
            assert(step(g, px[px.len() - 1], y));
            lemma_path_push(g, px, y);
            assert(px.push(y)[px.push(y).len() - 1] == y);
        }
    }
    assert forall|i: int, y: Seq<u8>|
        0 <= i < g.len() && #[trigger] v2[i] && #[trigger] g[i].1.contains(y) implies marked(
        g,
        v2,
        y,
    ) || queued(q2, head + 1, y) by {
        if i != k {
            assert(vis[i]);
            if marked(g, vis, y) {
            } else {
                assert(queued(q, head, y));
            }
        }
    }
    assert forall|c: Seq<u8>, y: Seq<u8>|
        #[trigger] common(l, r, c) && #[trigger] step(g, c, y) implies marked(g, v2, y) || queued(
        q2,
        head + 1,
        y,
    ) by {
        if marked(g, vis, y) {
        } else {
            assert(queued(q, head, y));
        }
    }
}

/// An id at `head` that the graph lacks is a missing ancestor.
proof fn lemma_walk_missing(
    l: Seq<(Seq<u8>, Seq<Seq<u8>>)>,
    r: Seq<(Seq<u8>, Seq<Seq<u8>>)>,
    vis: Seq<bool>,
    q: Seq<Seq<u8>>,
    head: int,
)
    requires
        walk_inv(l, r, vis, q, head),
        head < q.len(),
        last_index(l + r, q[head], (l + r).len() as int) < 0,
    ensures
        ancestor_missing(l, r),
{
    assert(below_common(l, r, q[head]));
    assert(parents_in(l + r, q[head]) is None);
}

fn node_id<'a>(left: &'a Vec<Commit>, right: &'a Vec<Commit>, k: usize) -> (res: &'a [u8])
    requires
        k < left@.len() + right@.len(),
    ensures
        res@ == (nodes_of(left@) + nodes_of(right@))[k as int].0,
{
    if k < left.len() {
        left[k].oid.as_str().as_bytes()
    } else {
        right[k - left.len()].oid.as_str().as_bytes()
    }
}

fn node_parents<'a>(left: &'a Vec<Commit>, right: &'a Vec<Commit>, k: usize) -> (res: &'a Vec<
    String,
>)
    requires
        k < left@.len() + right@.len(),
    ensures
        strs_view(res@) == (nodes_of(left@) + nodes_of(right@))[k as int].1,
{
    if k < left.len() {
        &left[k].parents
    } else {
        &right[k - left.len()].parents
    }
}

fn last_pos(left: &Vec<Commit>, right: &Vec<Commit>, id: &[u8]) -> (res: Option<usize>)
    requires
        left@.len() + right@.len() <= usize::MAX,
    ensures
        match res {
            Some(k) => k as int == last_index(
                nodes_of(left@) + nodes_of(right@),
                id@,
                (left@.len() + right@.len()) as int,
            ),
            None => last_index(
                nodes_of(left@) + nodes_of(right@),
                id@,
                (left@.len() + right@.len()) as int,
            ) < 0,
        },
{
    let ghost g = nodes_of(left@) + nodes_of(right@);
    let n = left.len() + right.len();
    let mut k = n;
    while k > 0
        invariant
            k <= n,
            n == left@.len() + right@.len(),
            g == nodes_of(left@) + nodes_of(right@),
            g.len() == n,
            last_index(g, id@, n as int) == last_index(g, id@, k as int),
        decreases k,
    {
        if bytes_equal(node_id(left, right, k - 1), id) {
            return Some(k - 1);
        }
        k = k - 1;
    }
    None
}

fn in_log(log: &Vec<Commit>, id: &[u8]) -> (res: bool)
    ensures
        res == listed(nodes_of(log@), id@),
{
    let mut k: usize = 0;
    while k < log.len()
        invariant
            k <= log@.len(),
            forall|i: int| 0 <= i < k ==> #[trigger] nodes_of(log@)[i].0 != id@,
        decreases log@.len() - k,
    {
        if bytes_equal(log[k].oid.as_str().as_bytes(), id) {
            assert(nodes_of(log@)[k as int].0 == id@);
            return true;
        }
        k = k + 1;
    }
    false
}

proof fn lemma_strs_append(a: Seq<String>, b: Seq<String>)
    ensures
        strs_view(a + b) == strs_view(a) + strs_view(b),
{
    assert(strs_view(a + b) =~= strs_view(a) + strs_view(b));
}

fn push_all(queue: &mut Vec<String>, ps: &Vec<String>)
    ensures
        final(queue)@ == old(queue)@ + ps@,
{
    let ghost start = queue@;
    let mut i: usize = 0;
    while i < ps.len()
        invariant
            i <= ps@.len(),
            queue@ == start + ps@.subrange(0, i as int),
        decreases ps@.len() - i,
    {
        queue.push(ps[i].clone());
        assert(start + ps@.subrange(0, i + 1) =~= (start + ps@.subrange(0, i as int)).push(ps@[i as int]));
        i = i + 1;
    }
    assert(ps@.subrange(0, ps@.len() as int) =~= ps@);
}

/// Walks the parents of the queued ids until the queue is empty.
fn walk(left: &Vec<Commit>, right: &Vec<Commit>, vis: Vec<bool>, queue: Vec<String>) -> (res: Result<
    (Vec<bool>, Vec<String>),
    Error,
>)
    requires
        left@.len() + right@.len() <= usize::MAX,
        walk_inv(nodes_of(left@), nodes_of(right@), vis@, strs_view(queue@), 0),
    ensures
        match res {
            Ok((v, q)) => walk_inv(
                nodes_of(left@),
                nodes_of(right@),
                v@,
                strs_view(q@),
                q@.len() as int,
            ),
            Err(e) => e == Error::MissingAncestor && ancestor_missing(
                nodes_of(left@),
                nodes_of(right@),
            ),
        },
{
    let ghost l = nodes_of(left@);
    let ghost r = nodes_of(right@);
    let ghost g = l + r;
    let n = left.len() + right.len();
    let mut vis = vis;
    let mut queue = queue;
    let mut head: usize = 0;
    while head < queue.len()
        invariant
            l == nodes_of(left@),
            r == nodes_of(right@),
            g == l + r,
            n == g.len(),
            n == left@.len() + right@.len(),
            walk_inv(l, r, vis@, strs_view(queue@), head as int),
        decreases n - count_marks(vis@), queue@.len() - head,
    {
        let x = queue[head].as_str().as_bytes();
        assert(x@ == strs_view(queue@)[head as int]);
        match last_pos(left, right, x) {
            None => {
                proof {
                    lemma_walk_missing(l, r, vis@, strs_view(queue@), head as int);
                }
                return Err(Error::MissingAncestor);
            },
            Some(k) => {
                proof {
                    lemma_last_index(g, x@, g.len() as int);
                }
                if vis[k] {
                    proof {
                        lemma_walk_skip(l, r, vis@, strs_view(queue@), head as int, k as int);
                    }
                    head = head + 1;
                } else {
                    proof {
                        lemma_walk_mark(l, r, vis@, strs_view(queue@), head as int, k as int);
                        lemma_count_marks(vis@, k as int);
                    }
                    vis.set(k, true);
                    let ps = node_parents(left, right, k);
                    let ghost old_q = queue@;
                    push_all(&mut queue, ps);
                    proof {
                        lemma_strs_append(old_q, ps@);
                    }
                    head = head + 1;
                }
            },
        }
    }
    Ok((vis, queue))
}

/// After the walk, an entry of an id is marked exactly when the id is a
/// strict ancestor of a common commit.
proof fn lemma_walk_decides(
    l: Seq<(Seq<u8>, Seq<Seq<u8>>)>,
    r: Seq<(Seq<u8>, Seq<Seq<u8>>)>,
    vis: Seq<bool>,
    q: Seq<Seq<u8>>,
    x: Seq<u8>,
)
    requires
        walk_inv(l, r, vis, q, q.len() as int),
    ensures
        below_common(l, r, x) ==> parents_in(l + r, x) is Some,
        last_index(l + r, x, (l + r).len() as int) >= 0 ==> (vis[last_index(
            l + r,
            x,
            (l + r).len() as int,
        )] <==> below_common(l, r, x)),
{
    let g = l + r;
    lemma_last_index(g, x, g.len() as int);
    let k = last_index(g, x, g.len() as int);
    if below_common(l, r, x) {
        let p = choose|p: Seq<Seq<u8>>| #[trigger] is_path(g, p) && common(l, r, p[0]) && p[p.len() - 1] == x;
        lemma_walk_complete(l, r, vis, q, p);
        let i = choose|i: int| 0 <= i < g.len() && i < vis.len() && vis[i] && #[trigger] g[i].0 == x;
        assert(vis[i]);
        assert(last_index(g, g[i].0, g.len() as int) == i);
    }
    if k >= 0 && vis[k] {
        assert(below_common(l, r, g[k].0));
    }
}

/// Whether the queue holds every parent of the common commits among the
/// first `j` entries of the right log, and only ancestors of common commits.
pub open spec fn seeded(
    l: Seq<(Seq<u8>, Seq<Seq<u8>>)>,
    r: Seq<(Seq<u8>, Seq<Seq<u8>>)>,
    j: int,
    q: Seq<Seq<u8>>,
) -> bool {
    &&& forall|i: int| 0 <= i < q.len() ==> below_common(l, r, #[trigger] q[i])
    &&& forall|i: int, p: Seq<u8>|
        0 <= i < j && listed(l, r[i].0) && #[trigger] step(l + r, r[i].0, p) ==> queued(q, 0, p)
}

fn seed(left: &Vec<Commit>, right: &Vec<Commit>) -> (res: (Vec<bool>, Vec<String>))
    requires
        left@.len() + right@.len() <= usize::MAX,
    ensures
        walk_inv(nodes_of(left@), nodes_of(right@), res.0@, strs_view(res.1@), 0),
{
    let ghost l = nodes_of(left@);
    let ghost r = nodes_of(right@);
    let ghost g = l + r;
    let n = left.len() + right.len();
    let mut vis: Vec<bool> = Vec::new();
    while vis.len() < n
        invariant
            vis@.len() <= n,
            forall|i: int| 0 <= i < vis@.len() ==> !#[trigger] vis@[i],
        decreases n - vis@.len(),
    {
        vis.push(false);
    }
    let mut queue: Vec<String> = Vec::new();
    let mut j: usize = 0;
    while j < right.len()
        invariant
            l == nodes_of(left@),
            r == nodes_of(right@),
            g == l + r,
            n == g.len(),
            n == left@.len() + right@.len(),
            j <= right@.len(),
            seeded(l, r, j as int, strs_view(queue@)),
        decreases right@.len() - j,
    {
        let id = right[j].oid.as_str().as_bytes();
        assert(id@ == r[j as int].0);
        assert(g[left@.len() + j] == r[j as int]);
        if in_log(left, id) {
            proof {
                lemma_last_index(g, id@, n as int);
            }
            let k = match last_pos(left, right, id) {
                Some(k) => k,
                None => {
                    proof {
                        assert(g[left@.len() + j].0 == id@);
                    }
                    0
                },
            };
            assert(k as int == last_index(g, id@, n as int));
            assert(parents_in(g, id@) == Some(g[k as int].1));
            let ps = node_parents(left, right, k);
            let ghost old_q = strs_view(queue@);
            let ghost old_raw = queue@;
            push_all(&mut queue, ps);
            proof {
                lemma_strs_append(old_raw, ps@);
                let q2 = strs_view(queue@);
                assert(common(l, r, id@)) by {
                    assert(r[j as int].0 == id@);
                }
                assert forall|i: int| 0 <= i < q2.len() implies below_common(l, r, #[trigger] q2[i]) by {
                    if i < old_q.len() {
                        assert(q2[i] == old_q[i]);
                    } else {
                        let y = q2[i];
                        assert(g[k as int].1[i - old_q.len()] == y);
                        assert(step(g, id@, y));
                        let path = seq![id@, y];
                        assert(is_path(g, path)) by {
                            assert forall|t: int| 0 <= t < path.len() - 1 implies step(
                                g,
                                #[trigger] path[t],
                                path[t + 1],
                            ) by {
                                assert(t == 0);
                            }
                        }
                        assert(path[0] == id@ && path[path.len() - 1] == y);
                    }
                }
                assert forall|i: int, p: Seq<u8>|
                    0 <= i < j + 1 && listed(l, r[i].0) && #[trigger] step(g, r[i].0, p) implies queued(
                    q2,
                    0,
                    p,
                ) by {
                    if i < j {
                        let t = choose|t: int| 0 <= t < old_q.len() && #[trigger] old_q[t] == p;
                        assert(q2[t] == p);
                    } else {
                        assert(r[i].0 == id@);
                        let ps2 = g[k as int].1;
                        assert(ps2.contains(p));
                        let t = choose|t: int| 0 <= t < ps2.len() && ps2[t] == p;
                        assert(q2[old_q.len() + t] == p);
                    }
                }
            }
        } else {
            proof {
                let q2 = strs_view(queue@);
                assert forall|i: int, p: Seq<u8>|
                    0 <= i < j + 1 && listed(l, r[i].0) && #[trigger] step(g, r[i].0, p) implies queued(
                    q2,
                    0,
                    p,
                ) by {
                    if i == j {
                        assert(r[i].0 == id@);
                    }
                }
            }
        }
        j = j + 1;
    }
    proof {
        let q = strs_view(queue@);
        assert forall|c: Seq<u8>, p: Seq<u8>|
            #[trigger] common(l, r, c) && #[trigger] step(g, c, p) implies marked(g, vis@, p) || queued(
            q,
            0,
            p,
        ) by {
            let i = choose|i: int| 0 <= i < r.len() && #[trigger] r[i].0 == c;
            assert(step(g, r[i].0, p));
        }
    }
    (vis, queue)
}

/// Adds `x` to a strictly sorted list unless it is there already.
pub(crate) fn insert_sorted(out: &mut Vec<String>, x: String)
    requires
        strictly_sorted(strs_view(old(out)@)),
    ensures
        strictly_sorted(strs_view(final(out)@)),
        forall|y: Seq<u8>| #[trigger] strs_view(final(out)@).contains(y) <==> (strs_view(
            old(out)@,
        ).contains(y) || y == encode_utf8(x@)),
{
    let ghost v = strs_view(out@);
    let xb = x.as_str().as_bytes();
    let mut i: usize = 0;
    while i < out.len() && bytes_less(out[i].as_str().as_bytes(), xb)
        invariant
            i <= out@.len(),
            v == strs_view(out@),
            xb@ == encode_utf8(x@),
            forall|t: int| 0 <= t < i ==> str_less(#[trigger] v[t], xb@),
        decreases out@.len() - i,
    {
        i = i + 1;
    }
    if i < out.len() && bytes_equal(out[i].as_str().as_bytes(), xb) {
        assert(v[i as int] == encode_utf8(out@[i as int]@));
        assert(v[i as int] == xb@);
        return;
    }
    proof {
        if i < v.len() {
            assert(!str_less(v[i as int], xb@));
            assert(v[i as int] != xb@);
            lemma_str_less_total(v[i as int], xb@);
        }
    }
    out.insert(i, x);
    proof {
        let w = strs_view(out@);
        assert(w =~= v.insert(i as int, xb@));
        assert forall|a: int, b: int| 0 <= a < b < w.len() implies str_less(
            #[trigger] w[a],
            #[trigger] w[b],
        ) by {
            if b < i {
                assert(w[a] == v[a] && w[b] == v[b]);
            } else if b == i {
                assert(w[a] == v[a]);
            } else if a == i {
                assert(w[b] == v[b - 1]);
                if b - 1 > i {
                    assert(str_less(v[i as int], v[b - 1]));
                    lemma_str_less_transitive(xb@, v[i as int], v[b - 1]);
                }
            } else if a < i {
                assert(w[a] == v[a] && w[b] == v[b - 1]);
            } else {
                assert(w[a] == v[a - 1] && w[b] == v[b - 1]);
            }
        }
        assert forall|y: Seq<u8>| #[trigger] w.contains(y) <==> (v.contains(y) || y == xb@) by {
            if w.contains(y) {
                let t = choose|t: int| 0 <= t < w.len() && w[t] == y;
                if t < i {
                    assert(v[t] == y);
                } else if t > i {
                    assert(v[t - 1] == y);
                }
            }
            if v.contains(y) {
                let t = choose|t: int| 0 <= t < v.len() && v[t] == y;
                if t < i {
                    assert(w[t] == y);
                } else {
                    assert(w[t + 1] == y);
                }
            }
            if y == xb@ {
                assert(w[i as int] == y);
            }
        }
    }
}

/// The merge bases of two logs: the commits in both that are no strict
/// ancestor of a commit in both, in the order of their ids, or the error
/// for an ancestor that neither log holds.
pub fn merge_bases(left: &Vec<Commit>, right: &Vec<Commit>) -> (res: Result<Vec<String>, Error>)
    requires
        left@.len() + right@.len() <= usize::MAX,
    ensures
        match res {
            Ok(v) => !ancestor_missing(nodes_of(left@), nodes_of(right@)) && strictly_sorted(
                strs_view(v@),
            ) && forall|x: Seq<u8>| #[trigger]
                strs_view(v@).contains(x) <==> is_merge_base(nodes_of(left@), nodes_of(right@), x),
            Err(e) => e == Error::MissingAncestor && ancestor_missing(
                nodes_of(left@),
                nodes_of(right@),
            ),
        },
{
    let ghost l = nodes_of(left@);
    let ghost r = nodes_of(right@);
    let ghost g = l + r;
    let n = left.len() + right.len();
    let (vis, queue) = seed(left, right);
    let (vis, queue) = match walk(left, right, vis, queue) {
        Ok(state) => state,
        Err(e) => return Err(e),
    };
    let ghost q = strs_view(queue@);
    assert(!ancestor_missing(l, r)) by {
        assert forall|x: Seq<u8>| #[trigger] below_common(l, r, x) implies parents_in(g, x) is Some by {
            lemma_walk_decides(l, r, vis@, q, x);
        }
    }
    let mut out: Vec<String> = Vec::new();
    let mut j: usize = 0;
    while j < right.len()
        invariant
            l == nodes_of(left@),
            r == nodes_of(right@),
            g == l + r,
            n == g.len(),
            n == left@.len() + right@.len(),
            j <= right@.len(),
            walk_inv(l, r, vis@, q, q.len() as int),
            strictly_sorted(strs_view(out@)),
            forall|x: Seq<u8>| #[trigger]
                strs_view(out@).contains(x) <==> ((exists|i: int| 0 <= i < j && #[trigger] r[i].0 == x)
                    && listed(l, x) && !below_common(l, r, x)),
        decreases right@.len() - j,
    {
        let id = right[j].oid.as_str().as_bytes();
        assert(id@ == r[j as int].0);
        assert(g[left@.len() + j] == r[j as int]);
        let ghost before = strs_view(out@);
        let mut added = false;
        if in_log(left, id) {
            proof {
                lemma_last_index(g, id@, n as int);
                lemma_walk_decides(l, r, vis@, q, id@);
            }
            match last_pos(left, right, id) {
                Some(k) => {
                    if !vis[k] {
                        insert_sorted(&mut out, right[j].oid.clone());
                        added = true;
                    }
                },
                None => {
                    proof {
                        assert(g[left@.len() + j].0 == id@);
                    }
                },
            }
        }
        proof {
            let after = strs_view(out@);
            assert forall|x: Seq<u8>| #[trigger]
                after.contains(x) <==> ((exists|i: int| 0 <= i < j + 1 && #[trigger] r[i].0 == x)
                    && listed(l, x) && !below_common(l, r, x)) by {
                if x == id@ {
                    assert(r[j as int].0 == x);
                } else {
                    if exists|i: int| 0 <= i < j + 1 && #[trigger] r[i].0 == x {
                        let i = choose|i: int| 0 <= i < j + 1 && #[trigger] r[i].0 == x;
                        assert(i < j);
                    }
                }
                if !added {
                    assert(after == before);
                }
            }
        }
        j = j + 1;
    }
    proof {
        assert forall|x: Seq<u8>| #[trigger]
            strs_view(out@).contains(x) <==> is_merge_base(l, r, x) by {
            if listed(r, x) {
                let i = choose|i: int| 0 <= i < r.len() && #[trigger] r[i].0 == x;
                assert(r[i].0 == x);
            }
        }
    }
    Ok(out)
}

/// The first position from `h` on whose id is not among `seen`, or the end.
pub open spec fn next_unseen(q: Seq<Seq<u8>>, h: int, seen: Seq<Seq<u8>>) -> int
    decreases q.len() - h,
{
    if h < 0 || h >= q.len() {
        q.len() as int
    } else if !seen.contains(q[h]) {
        h
    } else {
        next_unseen(q, h + 1, seen)
    }
}

proof fn lemma_next_unseen(q: Seq<Seq<u8>>, h: int, seen: Seq<Seq<u8>>)
    requires
        0 <= h <= q.len(),
    ensures
        h <= next_unseen(q, h, seen) <= q.len(),
        next_unseen(q, h, seen) < q.len() ==> !seen.contains(q[next_unseen(q, h, seen)]),
        forall|j: int| h <= j < next_unseen(q, h, seen) ==> seen.contains(#[trigger] q[j]),
    decreases q.len() - h,
{
    if h < q.len() && seen.contains(q[h]) {
        lemma_next_unseen(q, h + 1, seen);
    }
}

/// A breadth-first walk of a commit's history, one commit load at a time:
/// `next` names the commit to load, `feed` hands it in.
pub struct LogWalk {
    queue: Vec<String>,
    head: usize,
    seen: Vec<String>,
    commits: Vec<Commit>,
    max: usize,
}

impl LogWalk {
    /// The ids queued so far, in order.
    pub closed spec fn queue(&self) -> Seq<Seq<u8>> {
        strs_view(self.queue@)
    }

    /// How far the queue has been taken.
    pub closed spec fn head(&self) -> int {
        self.head as int
    }

    /// The ids handed out, in order.
    pub closed spec fn seen(&self) -> Seq<Seq<u8>> {
        strs_view(self.seen@)
    }

    /// The commits fed in, in order.
    pub closed spec fn commits(&self) -> Seq<Commit> {
        self.commits@
    }

    /// The most commits the walk returns.
    pub closed spec fn max(&self) -> int {
        self.max as int
    }

    /// Every id is handed out once, each commit fed answers one of them,
    /// and every parent of a fed commit is handed out or still queued.
    pub closed spec fn wf(&self) -> bool {
        &&& self.head <= self.queue@.len()
        &&& self.seen().no_duplicates()
        &&& self.commits@.len() <= self.seen@.len() <= self.commits@.len() + 1
        &&& self.commits@.len() <= self.max
        &&& forall|j: int| 0 <= j < self.head ==> self.seen().contains(#[trigger] self.queue()[j])
        &&& forall|i: int, p: Seq<u8>|
            0 <= i < self.commits@.len() && #[trigger] node_of(self.commits@[i]).1.contains(p)
                ==> #[trigger] self.queue().contains(p)
    }

    /// Starts a walk at `first` that fails past `max` commits.
    pub fn new(first: String, max: usize) -> (res: LogWalk)
        ensures
            res.wf(),
            res.queue() == seq![encode_utf8(first@)],
            res.head() == 0,
            res.seen().len() == 0,
            res.commits().len() == 0,
            res.max() == max,
    {
        let mut queue = Vec::new();
        queue.push(first);
        let res = LogWalk { queue, head: 0, seen: Vec::new(), commits: Vec::new(), max };
        assert(res.queue() =~= seq![encode_utf8(first@)]);
        res
    }

    /// The next commit to load: the first queued id not handed out before,
    /// or `None` once the queue holds no such id.
    pub fn next(&mut self) -> (res: Result<Option<String>, Error>)
        requires
            old(self).wf(),
            old(self).seen().len() == old(self).commits().len(),
        ensures
            final(self).queue() == old(self).queue(),
            final(self).commits() == old(self).commits(),
            final(self).max() == old(self).max(),
            ({
                let u = next_unseen(old(self).queue(), old(self).head(), old(self).seen());
                if u == old(self).queue().len() {
                    res matches Ok(None) && final(self).head() == u && final(self).seen() == old(
                        self,
                    ).seen() && final(self).wf()
                } else if old(self).commits().len() >= old(self).max() {
                    res == Err::<Option<String>, Error>(Error::HistoryWalkLimit)
                } else {
                    res matches Ok(Some(id)) && encode_utf8(id@) == old(self).queue()[u]
                        && final(self).head() == u + 1 && final(self).seen() == old(self).seen().push(
                        old(self).queue()[u],
                    ) && final(self).wf()
                }
            }),
    {
        let ghost q = self.queue();
        let ghost h0 = self.head as int;
        proof {
            lemma_next_unseen(q, h0, self.seen());
        }
        while self.head < self.queue.len()
            invariant
                self.wf(),
                self.seen().len() == self.commits().len(),
                q == self.queue(),
                q == old(self).queue(),
                h0 == old(self).head(),
                self.seen() == old(self).seen(),
                self.commits() == old(self).commits(),
                self.max() == old(self).max(),
                h0 <= self.head,
                next_unseen(q, h0, self.seen()) == next_unseen(q, self.head as int, self.seen()),
            decreases self.queue@.len() - self.head,
        {
            proof {
                lemma_next_unseen(q, self.head as int, self.seen());
            }
            let id = self.queue[self.head].as_str().as_bytes();
            assert(id@ == q[self.head as int]);
            let mut found = false;
            let mut k: usize = 0;
            while k < self.seen.len()
                invariant
                    k <= self.seen@.len(),
                    id@ == q[self.head as int],
                    !found ==> forall|t: int| 0 <= t < k ==> #[trigger] self.seen()[t] != id@,
                    found ==> self.seen().contains(id@),
                decreases self.seen@.len() - k,
            {
                if bytes_equal(self.seen[k].as_str().as_bytes(), id) {
                    assert(self.seen()[k as int] == id@);
                    found = true;
                }
                k = k + 1;
            }
            if found {
                self.head = self.head + 1;
            } else {
                assert(!self.seen().contains(id@));
                let pick = self.queue[self.head].clone();
                let ghost old_seen = self.seen();
                self.seen.push(self.queue[self.head].clone());
                self.head = self.head + 1;
                proof {
                    assert(self.seen() =~= old_seen.push(id@));
                    assert forall|j: int| 0 <= j < self.head implies self.seen().contains(
                        #[trigger] self.queue()[j],
                    ) by {
                        if j < self.head - 1 {
                            assert(old_seen.contains(q[j]));
                            let t = choose|t: int| 0 <= t < old_seen.len() && old_seen[t] == q[j];
                            assert(self.seen()[t] == q[j]);
                        } else {
                            assert(self.seen()[old_seen.len() as int] == q[j]);
                        }
                    }
                }
                if self.commits.len() >= self.max {
                    return Err(Error::HistoryWalkLimit);
                }
                return Ok(Some(pick));
            }
        }
        Ok(None)
    }

    /// Hands in the commit that `next` named.
    pub fn feed(&mut self, c: Commit)
        requires
            old(self).wf(),
            old(self).seen().len() == old(self).commits().len() + 1,
            old(self).commits().len() < old(self).max(),
        ensures
            final(self).wf(),
            final(self).queue() == old(self).queue() + node_of(c).1,
            final(self).head() == old(self).head(),
            final(self).seen() == old(self).seen(),
            final(self).commits() == old(self).commits().push(c),
            final(self).max() == old(self).max(),
    {
        let ghost q0 = self.queue();
        let ghost raw = self.queue@;
        let ghost c0 = self.commits@;
        assert(forall|i: int, p: Seq<u8>|
            0 <= i < c0.len() && #[trigger] node_of(c0[i]).1.contains(p) ==> q0.contains(p));
        push_all(&mut self.queue, &c.parents);
        proof {
            lemma_strs_append(raw, c.parents@);
        }
        self.commits.push(c);
        proof {
            let q = self.queue();
            assert(q == q0 + node_of(c).1);
            assert forall|j: int| 0 <= j < self.head implies self.seen().contains(#[trigger] q[j]) by {
                assert(q[j] == q0[j]);
            }
            assert forall|i: int, p: Seq<u8>|
                0 <= i < self.commits@.len() && #[trigger] node_of(self.commits@[i]).1.contains(p)
                    implies #[trigger] q.contains(p) by {
                if i < c0.len() {
                    assert(self.commits@[i] == c0[i]);
                    assert(q0.contains(p));
                    let t = choose|t: int| 0 <= t < q0.len() && q0[t] == p;
                    assert(q[t] == p);
                } else {
                    let ps = node_of(c).1;
                    let t = choose|t: int| 0 <= t < ps.len() && ps[t] == p;
                    assert(q[q0.len() + t] == p);
                }
            }
        }
    }

    /// The commits fed in, in the order they were reached.
    pub fn finish(self) -> (res: Vec<Commit>)
        ensures
            res@ == self.commits(),
    {
        self.commits
    }
}

/// Once the walk has run dry, every parent of a commit it returned was
/// handed out by it, and no id twice.
pub proof fn lemma_log_closed(w: LogWalk, i: int, p: Seq<u8>)
    requires
        w.wf(),
        w.head() == w.queue().len(),
        0 <= i < w.commits().len(),
        node_of(w.commits()[i]).1.contains(p),
    ensures
        w.seen().contains(p),
        w.seen().no_duplicates(),
        w.commits().len() <= w.max(),
{
    assert(w.queue().contains(p));
    let j = choose|j: int| 0 <= j < w.queue().len() && w.queue()[j] == p;
    assert(w.seen().contains(w.queue()[j]));
}

/// No merge base is a strict ancestor of another: the merge bases of two
/// logs are pairwise unrelated.
pub proof fn lemma_merge_bases_unrelated(
    l: Seq<(Seq<u8>, Seq<Seq<u8>>)>,
    r: Seq<(Seq<u8>, Seq<Seq<u8>>)>,
    x: Seq<u8>,
    y: Seq<u8>,
    p: Seq<Seq<u8>>,
)
    requires
        is_merge_base(l, r, x),
        is_merge_base(l, r, y),
        is_path(l + r, p),
        p[0] == y,
    ensures
        p[p.len() - 1] != x,
{
    if p[p.len() - 1] == x {
        assert(is_path(l + r, p) && common(l, r, p[0]) && p[p.len() - 1] == x);
        assert(below_common(l, r, x));
    }
}

/// Merges two strictly sorted lists of names into one, each name once.
pub fn merge_sorted(a: Vec<String>, b: Vec<String>) -> (res: Vec<String>)
    requires
        strictly_sorted(strs_view(a@)),
        strictly_sorted(strs_view(b@)),
    ensures
        strictly_sorted(strs_view(res@)),
        forall|x: Seq<u8>| #[trigger] strs_view(res@).contains(x) <==> (strs_view(a@).contains(x)
            || strs_view(b@).contains(x)),
{
    let ghost va = strs_view(a@);
    let ghost vb = strs_view(b@);
    let mut out: Vec<String> = Vec::new();
    let mut i: usize = 0;
    let mut j: usize = 0;
    while i < a.len() || j < b.len()
        invariant
            va == strs_view(a@),
            vb == strs_view(b@),
            strictly_sorted(va),
            strictly_sorted(vb),
            i <= a@.len(),
            j <= b@.len(),
            strictly_sorted(strs_view(out@)),
            forall|x: Seq<u8>| #[trigger] strs_view(out@).contains(x) <==> (va.subrange(0, i as int).contains(x)
                || vb.subrange(0, j as int).contains(x)),
            forall|t: int, u: int| 0 <= t < out@.len() && i <= u < va.len() ==> str_less(
                #[trigger] strs_view(out@)[t],
                #[trigger] va[u],
            ),
            forall|t: int, u: int| 0 <= t < out@.len() && j <= u < vb.len() ==> str_less(
                #[trigger] strs_view(out@)[t],
                #[trigger] vb[u],
            ),
        decreases a@.len() + b@.len() - i - j,
    {
        let ghost before = strs_view(out@);
        let take_a: bool;
        let take_b: bool;
        if i < a.len() && j < b.len() {
            let x = a[i].as_str().as_bytes();
            let y = b[j].as_str().as_bytes();
            assert(x@ == va[i as int] && y@ == vb[j as int]);
            if bytes_less(x, y) {
                take_a = true;
                take_b = false;
            } else if bytes_equal(x, y) {
                take_a = true;
                take_b = true;
            } else {
                proof {
                    lemma_str_less_total(x@, y@);
                }
                take_a = false;
                take_b = true;
            }
        } else if i < a.len() {
            take_a = true;
            take_b = false;
        } else {
            take_a = false;
            take_b = true;
        }
        let ghost pick = if take_a {
            va[i as int]
        } else {
            vb[j as int]
        };
        if take_a {
            out.push(a[i].clone());
        } else {
            out.push(b[j].clone());
        }
        let ghost oi = i;
        let ghost oj = j;
        if take_a {
            i = i + 1;
        }
        if take_b {
            j = j + 1;
        }
        proof {
            let w = strs_view(out@);
            assert(w =~= before.push(pick));
            assert(forall|u: int| i <= u < va.len() ==> str_less(pick, #[trigger] va[u])) by {
                assert forall|u: int| i <= u < va.len() implies str_less(pick, #[trigger] va[u]) by {
                    if take_a {
                        assert(str_less(va[oi as int], va[u]));
                    } else {
                        assert(str_less(vb[oj as int], va[oi as int]) || vb[oj as int] == va[oi as int]);
                        if u > oi {
                            assert(str_less(va[oi as int], va[u]));
                            if str_less(vb[oj as int], va[oi as int]) {
                                lemma_str_less_transitive(vb[oj as int], va[oi as int], va[u]);
                            }
                        }
                    }
                }
            }
            assert(forall|u: int| j <= u < vb.len() ==> str_less(pick, #[trigger] vb[u])) by {
                assert forall|u: int| j <= u < vb.len() implies str_less(pick, #[trigger] vb[u]) by {
                    if take_b {
                        assert(str_less(vb[oj as int], vb[u]));
                        if take_a {
                            assert(pick == vb[oj as int] || oj < vb.len());
                        }
                    } else {
                        assert(str_less(va[oi as int], vb[oj as int]));
                        if u > oj {
                            assert(str_less(vb[oj as int], vb[u]));
                            lemma_str_less_transitive(va[oi as int], vb[oj as int], vb[u]);
                        }
                    }
                }
            }
            assert forall|s: int, t: int| 0 <= s < t < w.len() implies str_less(
                #[trigger] w[s],
                #[trigger] w[t],
            ) by {
                if t < before.len() {
                    assert(w[s] == before[s] && w[t] == before[t]);
                } else {
                    assert(w[s] == before[s]);
                    if take_a {
                        assert(str_less(before[s], va[oi as int]));
                    } else {
                        assert(str_less(before[s], vb[oj as int]));
                    }
                }
            }
            assert forall|t: int, u: int| 0 <= t < w.len() && i <= u < va.len() implies str_less(
                #[trigger] w[t],
                #[trigger] va[u],
            ) by {
                if t < before.len() {
                    assert(w[t] == before[t]);
                }
            }
            assert forall|t: int, u: int| 0 <= t < w.len() && j <= u < vb.len() implies str_less(
                #[trigger] w[t],
                #[trigger] vb[u],
            ) by {
                if t < before.len() {
                    assert(w[t] == before[t]);
                }
            }
            assert forall|x: Seq<u8>| #[trigger] w.contains(x) <==> (va.subrange(0, i as int).contains(x)
                || vb.subrange(0, j as int).contains(x)) by {
                let pa = va.subrange(0, oi as int);
                let pb = vb.subrange(0, oj as int);
                let na = va.subrange(0, i as int);
                let nb = vb.subrange(0, j as int);
                if w.contains(x) {
                    let t = choose|t: int| 0 <= t < w.len() && w[t] == x;
                    if t < before.len() {
                        assert(before[t] == x);
                        assert(before.contains(x));
                        if pa.contains(x) {
                            let q = choose|q: int| 0 <= q < pa.len() && pa[q] == x;
                            assert(na[q] == x);
                        } else {
                            assert(pb.contains(x));
                            let q = choose|q: int| 0 <= q < pb.len() && pb[q] == x;
                            assert(nb[q] == x);
                        }
                    } else {
                        if take_a {
                            assert(na[oi as int] == x);
                        } else {
                            assert(nb[oj as int] == x);
                        }
                    }
                }
                if na.contains(x) {
                    let q = choose|q: int| 0 <= q < na.len() && na[q] == x;
                    if q < oi {
                        assert(pa[q] == x);
                        assert(before.contains(x));
                        let t = choose|t: int| 0 <= t < before.len() && before[t] == x;
                        assert(w[t] == x);
                    } else {
                        assert(w[before.len() as int] == x);
                    }
                }
                if nb.contains(x) {
                    let q = choose|q: int| 0 <= q < nb.len() && nb[q] == x;
                    if q < oj {
                        assert(pb[q] == x);
                        assert(before.contains(x));
                        let t = choose|t: int| 0 <= t < before.len() && before[t] == x;
                        assert(w[t] == x);
                    } else {
                        assert(w[before.len() as int] == x);
                    }
                }
            }
        }
    }
    proof {
        assert(va.subrange(0, va.len() as int) =~= va);
        assert(vb.subrange(0, vb.len() as int) =~= vb);
    }
    out
}

/// Where `x` stands in a strictly sorted list of names, if it is there.
pub fn find_sorted(v: &Vec<String>, x: &[u8]) -> (res: Option<usize>)
    requires
        strictly_sorted(strs_view(v@)),
    ensures
        match res {
            Some(k) => k < v@.len() && strs_view(v@)[k as int] == x@,
            None => !strs_view(v@).contains(x@),
        },
{
    let ghost w = strs_view(v@);
    let mut lo: usize = 0;
    let mut hi: usize = v.len();
    while lo < hi
        invariant
            w == strs_view(v@),
            strictly_sorted(w),
            lo <= hi <= v@.len(),
            forall|t: int| 0 <= t < lo ==> str_less(#[trigger] w[t], x@),
            forall|t: int| hi <= t < w.len() ==> str_less(x@, #[trigger] w[t]),
        decreases hi - lo,
    {
        let mid = lo + (hi - lo) / 2;
        let y = v[mid].as_str().as_bytes();
        assert(y@ == w[mid as int]);
        if bytes_equal(y, x) {
            return Some(mid);
        }
        if bytes_less(y, x) {
            proof {
                assert forall|t: int| 0 <= t < mid + 1 implies str_less(#[trigger] w[t], x@) by {
                    if t < mid {
                        lemma_str_less_transitive(w[t], w[mid as int], x@);
                    }
                }
            }
            lo = mid + 1;
        } else {
            proof {
                lemma_str_less_total(y@, x@);
                assert forall|t: int| mid <= t < w.len() implies str_less(x@, #[trigger] w[t]) by {
                    if t > mid {
                        lemma_str_less_transitive(x@, w[mid as int], w[t]);
                    }
                }
            }
            hi = mid;
        }
    }
    proof {
        assert forall|t: int| 0 <= t < w.len() implies #[trigger] w[t] != x@ by {
            if t < lo {
                assert(str_less(w[t], x@));
                lemma_str_less_irreflexive(x@);
            } else {
                assert(str_less(x@, w[t]));
                lemma_str_less_irreflexive(x@);
            }
        }
    }
    None
}

/// Every id that the list records more than once is recorded with one list
/// of parents, as two reads of one commit from one store are.
pub open spec fn same_parents(g: Seq<(Seq<u8>, Seq<Seq<u8>>)>) -> bool {
    forall|i: int, j: int|
        0 <= i < g.len() && 0 <= j < g.len() && #[trigger] g[i].0 == #[trigger] g[j].0 ==> g[i].1
            == g[j].1
}

/// Joining two logs in either order records the same parents for each id.
proof fn lemma_parents_swap(
    l: Seq<(Seq<u8>, Seq<Seq<u8>>)>,
    r: Seq<(Seq<u8>, Seq<Seq<u8>>)>,
    x: Seq<u8>,
)
    requires
        same_parents(l + r),
    ensures
        parents_in(l + r, x) == parents_in(r + l, x),
{
    let g = l + r;
    let h = r + l;
    lemma_last_index(g, x, g.len() as int);
    lemma_last_index(h, x, h.len() as int);
    let a = last_index(g, x, g.len() as int);
    let b = last_index(h, x, h.len() as int);
    if a >= 0 {
        let b0 = if a < l.len() { r.len() + a } else { a - l.len() };
        assert(h[b0] == g[a]);
        assert(b >= 0);
        let a1 = if b < r.len() { l.len() + b } else { b - r.len() };
        assert(g[a1] == h[b]);
        assert(g[a].1 == g[a1].1);
    } else if b >= 0 {
        let a1 = if b < r.len() { l.len() + b } else { b - r.len() };
        assert(g[a1] == h[b]);
        assert(g[a1].0 == x);
    }
}

/// Whether `x` lies below a commit common to both logs does not depend on
/// their order.
proof fn lemma_below_common_swap(
    l: Seq<(Seq<u8>, Seq<Seq<u8>>)>,
    r: Seq<(Seq<u8>, Seq<Seq<u8>>)>,
    x: Seq<u8>,
)
    requires
        same_parents(l + r),
    ensures
        below_common(l, r, x) == below_common(r, l, x),
{
    assert forall|p: Seq<Seq<u8>>| #[trigger] is_path(l + r, p) == is_path(r + l, p) by {
        assert forall|i: int| 0 <= i < p.len() - 1 implies step(l + r, #[trigger] p[i], p[i + 1])
            == step(r + l, p[i], p[i + 1]) by {
            lemma_parents_swap(l, r, p[i]);
        }
    }
    if below_common(l, r, x) {
        let p = choose|p: Seq<Seq<u8>>|
            #[trigger] is_path(l + r, p) && common(l, r, p[0]) && p[p.len() - 1] == x;
        assert(is_path(r + l, p) && common(r, l, p[0]));
    }
    if below_common(r, l, x) {
        let p = choose|p: Seq<Seq<u8>>|
            #[trigger] is_path(r + l, p) && common(r, l, p[0]) && p[p.len() - 1] == x;
        assert(is_path(l + r, p) && common(l, r, p[0]));
    }
}

/// Two strictly sorted lists that hold the same names are the same list.
proof fn lemma_sorted_unique(v: Seq<Seq<u8>>, w: Seq<Seq<u8>>)
    requires
        strictly_sorted(v),
        strictly_sorted(w),
        forall|x: Seq<u8>| #![trigger v.contains(x)] #![trigger w.contains(x)] v.contains(x) <==> w.contains(x),
    ensures
        v == w,
    decreases v.len(),
{
    if v.len() == 0 {
        if w.len() > 0 {
            assert(w.contains(w[0]));
        }
        assert(v =~= w);
    } else {
        assert(v.contains(v[0]));
        assert(w.len() > 0);
        assert(w.contains(w[0]));
        let k = choose|k: int| 0 <= k < w.len() && w[k] == v[0];
        let m = choose|m: int| 0 <= m < v.len() && v[m] == w[0];
        if v[0] != w[0] {
            assert(k > 0 && m > 0);
            assert(str_less(w[0], w[k]));
            assert(str_less(v[0], v[m]));
            lemma_str_less_transitive(v[0], w[0], v[0]);
            lemma_str_less_irreflexive(v[0]);
        }
        let v1 = v.drop_first();
        let w1 = w.drop_first();
        assert forall|x: Seq<u8>| #![trigger v1.contains(x)] #![trigger w1.contains(x)] v1.contains(x) <==> w1.contains(x) by {
            if v1.contains(x) {
                let t = choose|t: int| 0 <= t < v1.len() && v1[t] == x;
                assert(v[t + 1] == x && v.contains(x));
                let u = choose|u: int| 0 <= u < w.len() && w[u] == x;
                if u == 0 {
                    assert(str_less(v[0], v[t + 1]));
                    lemma_str_less_irreflexive(v[0]);
                }
                assert(w1[u - 1] == x);
            }
            if w1.contains(x) {
                let t = choose|t: int| 0 <= t < w1.len() && w1[t] == x;
                assert(w[t + 1] == x && w.contains(x));
                let u = choose|u: int| 0 <= u < v.len() && v[u] == x;
                if u == 0 {
                    assert(str_less(w[0], w[t + 1]));
                    lemma_str_less_irreflexive(w[0]);
                }
                assert(v1[u - 1] == x);
            }
        }
        assert(strictly_sorted(v1) && strictly_sorted(w1)) by {
            assert forall|i: int, j: int| 0 <= i < j < v1.len() implies str_less(
                #[trigger] v1[i],
                #[trigger] v1[j],
            ) by {
                assert(v1[i] == v[i + 1] && v1[j] == v[j + 1]);
            }
            assert forall|i: int, j: int| 0 <= i < j < w1.len() implies str_less(
                #[trigger] w1[i],
                #[trigger] w1[j],
            ) by {
                assert(w1[i] == w[i + 1] && w1[j] == w[j + 1]);
            }
        }
        lemma_sorted_unique(v1, w1);
        assert(v =~= w) by {
            assert(v.len() == w.len());
            assert forall|i: int| 0 <= i < v.len() implies v[i] == w[i] by {
                if i > 0 {
                    assert(v[i] == v1[i - 1] && w[i] == w1[i - 1]);
                }
            }
        }
    }
}

/// The merge bases of two logs do not depend on which log is named first:
/// for logs that agree on the parents of the commits they share, the
/// missing-ancestor refusal comes in both orders or in neither, and the
/// lists of merge bases that the two orders give are equal.
pub proof fn lemma_merge_bases_symmetric(
    l: Seq<(Seq<u8>, Seq<Seq<u8>>)>,
    r: Seq<(Seq<u8>, Seq<Seq<u8>>)>,
    v: Seq<Seq<u8>>,
    w: Seq<Seq<u8>>,
)
    requires
        same_parents(l + r),
        strictly_sorted(v),
        strictly_sorted(w),
        forall|x: Seq<u8>| #[trigger] v.contains(x) <==> is_merge_base(l, r, x),
        forall|x: Seq<u8>| #[trigger] w.contains(x) <==> is_merge_base(r, l, x),
    ensures
        ancestor_missing(l, r) == ancestor_missing(r, l),
        v == w,
{
    assert forall|x: Seq<u8>| #[trigger] below_common(l, r, x) == below_common(r, l, x) by {
        lemma_below_common_swap(l, r, x);
    }
    assert forall|x: Seq<u8>| #[trigger] parents_in(l + r, x) == parents_in(r + l, x) by {
        lemma_parents_swap(l, r, x);
    }
    if ancestor_missing(l, r) {
        let x = choose|x: Seq<u8>| #[trigger] below_common(l, r, x) && parents_in(l + r, x) is None;
        assert(below_common(r, l, x) && parents_in(r + l, x) is None);
    }
    if ancestor_missing(r, l) {
        let x = choose|x: Seq<u8>| #[trigger] below_common(r, l, x) && parents_in(r + l, x) is None;
        assert(below_common(l, r, x) && parents_in(l + r, x) is None);
    }
    assert forall|x: Seq<u8>| #[trigger] v.contains(x) <==> w.contains(x) by {
        assert(is_merge_base(l, r, x) == is_merge_base(r, l, x));
    }
    lemma_sorted_unique(v, w);
}

/// No path leads from a commit back to itself.
pub open spec fn acyclic(g: Seq<(Seq<u8>, Seq<Seq<u8>>)>) -> bool {
    forall|p: Seq<Seq<u8>>| #[trigger] is_path(g, p) ==> p[0] != p[p.len() - 1]
}

/// `x` is a strict ancestor of `y`: a path leads from `y` to `x`.
pub open spec fn reaches(g: Seq<(Seq<u8>, Seq<Seq<u8>>)>, y: Seq<u8>, x: Seq<u8>) -> bool {
    exists|p: Seq<Seq<u8>>| #[trigger] is_path(g, p) && p[0] == y && p[p.len() - 1] == x
}

/// Two paths that meet make one.
proof fn lemma_path_concat(g: Seq<(Seq<u8>, Seq<Seq<u8>>)>, p: Seq<Seq<u8>>, q: Seq<Seq<u8>>)
    requires
        is_path(g, p),
        is_path(g, q),
        p[p.len() - 1] == q[0],
    ensures
        is_path(g, p + q.drop_first()),
        (p + q.drop_first())[0] == p[0],
        (p + q.drop_first())[(p + q.drop_first()).len() - 1] == q[q.len() - 1],
{
    let t = p + q.drop_first();
    assert forall|i: int| 0 <= i < t.len() - 1 implies step(g, #[trigger] t[i], t[i + 1]) by {
        if i < p.len() - 1 {
            assert(t[i] == p[i] && t[i + 1] == p[i + 1]);
        } else {
            let j = i - p.len() + 1;
            assert(t[i] == q[j]);
            assert(t[i + 1] == q[j + 1]);
        }
    }
}

/// The common commits at or below `c`'s descendants: those in both logs
/// that are `c` or have `c` as an ancestor.
pub open spec fn common_above(
    l: Seq<(Seq<u8>, Seq<Seq<u8>>)>,
    r: Seq<(Seq<u8>, Seq<Seq<u8>>)>,
    c: Seq<u8>,
) -> Set<Seq<u8>> {
    Set::new(|y: Seq<u8>| common(l, r, y) && (y == c || reaches(l + r, y, c)))
}

/// Every commit in both logs is a merge base or an ancestor of one, where
/// no path of the logs' graph leads from a commit back to itself.
pub proof fn lemma_common_below_merge_base(
    l: Seq<(Seq<u8>, Seq<Seq<u8>>)>,
    r: Seq<(Seq<u8>, Seq<Seq<u8>>)>,
    c: Seq<u8>,
)
    requires
        acyclic(l + r),
        common(l, r, c),
    ensures
        exists|x: Seq<u8>| #[trigger] is_merge_base(l, r, x) && (x == c || reaches(l + r, x, c)),
    decreases common_above(l, r, c).len(),
{
    let g = l + r;
    let ids = l.map_values(|e: (Seq<u8>, Seq<Seq<u8>>)| e.0).to_set();
    vstd::seq_lib::seq_to_set_is_finite(l.map_values(|e: (Seq<u8>, Seq<Seq<u8>>)| e.0));
    let uc = common_above(l, r, c);
    assert(uc.subset_of(ids)) by {
        assert forall|y: Seq<u8>| uc.contains(y) implies ids.contains(y) by {
            let k = choose|k: int| 0 <= k < l.len() && #[trigger] l[k].0 == y;
            assert(l.map_values(|e: (Seq<u8>, Seq<Seq<u8>>)| e.0)[k] == y);
        }
    }
    vstd::set_lib::lemma_len_subset(uc, ids);
    if is_merge_base(l, r, c) {
        assert(is_merge_base(l, r, c) && c == c);
    } else {
        let p = choose|p: Seq<Seq<u8>>| #[trigger] is_path(g, p) && common(l, r, p[0]) && p[p.len() - 1] == c;
        let p0 = p[0];
        assert(p0 != c);
        let up = common_above(l, r, p0);
        assert(uc.contains(c));
        assert(up.subset_of(uc.remove(c))) by {
            assert forall|y: Seq<u8>| up.contains(y) implies uc.remove(c).contains(y) by {
                if y == p0 {
                    assert(reaches(g, y, c));
                } else {
                    let q = choose|q: Seq<Seq<u8>>| #[trigger] is_path(g, q) && q[0] == y && q[q.len() - 1] == p0;
                    lemma_path_concat(g, q, p);
                    assert(reaches(g, y, c));
                    if y == c {
                        lemma_path_concat(g, p, q);
                        assert(is_path(g, p + q.drop_first()));
                    }
                }
            }
        }
        vstd::set_lib::lemma_len_subset(up, uc.remove(c));
        lemma_common_below_merge_base(l, r, p0);
        let x = choose|x: Seq<u8>| #[trigger] is_merge_base(l, r, x) && (x == p0 || reaches(g, x, p0));
        if x == p0 {
            assert(reaches(g, x, c));
        } else {
            let q = choose|q: Seq<Seq<u8>>| #[trigger] is_path(g, q) && q[0] == x && q[q.len() - 1] == p0;
            lemma_path_concat(g, q, p);
            assert(reaches(g, x, c));
        }
        assert(is_merge_base(l, r, x) && (x == c || reaches(g, x, c)));
    }
}

} // verus!
