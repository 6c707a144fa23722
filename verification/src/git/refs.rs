//! References: the packed-refs file, symbolic references, and revision
//! expressions.
use crate::bytes::{find_byte, has_prefix, lemma_after_ascii, lemma_find_byte, lemma_utf8_piece, position_of, starts_with, string_of};
use crate::error::Error;
use crate::git::objects::{ascii_lower, line_span, lemma_line_span};
use crate::bytes::{append_bytes, bytes_equal};
use crate::git::store::{hex_chars, hex_encode, index_count, index_entry, is_hex_digit, is_oid, oid_bytes, u32_at};
use crate::git::history::{
    bytes_less, lemma_str_less_irreflexive, lemma_str_less_total, lemma_str_less_transitive,
    str_less, strictly_sorted, strs_view,
};
use crate::output::SCAN_LIMIT;
use crate::git::objects::Commit;
use vstd::prelude::*;
use vstd::slice::slice_subrange;
use vstd::string::StringSliceAdditionalSpecFns;
use vstd::utf8::{decode_utf8, encode_utf8, valid_utf8};

verus! {

broadcast use vstd::slice::group_slice_axioms;

/// `refs/`
pub open spec fn refs_word() -> Seq<u8> {
    seq![114u8, 101u8, 102u8, 115u8, 47u8]
}

/// What one line of a packed-refs file adds: nothing for an empty line, a
/// comment or a peeled id; else an id, a space and a name under `refs/`.
pub open spec fn packed_line(line: Seq<u8>) -> Result<Option<(Seq<u8>, Seq<u8>)>, Error> {
    if line.len() == 0 || line[0] == 35 || line[0] == 94 {
        Ok(None)
    } else {
        match find_byte(line, 32, 0) {
            None => Err(Error::InvalidPackedRefs),
            Some(sp) => {
                let id = line.subrange(0, sp);
                let name = line.subrange(sp + 1, line.len() as int);
                if !oid_bytes(id) {
                    Err(Error::UnsupportedObjectFormatOrInvalidRef)
                } else if crate::fs::path_components(name, true) is Err {
                    Err(crate::fs::path_components(name, true)->Err_0)
                } else if !has_prefix(name, refs_word()) {
                    Err(Error::InvalidRef)
                } else {
                    Ok(Some((name, id)))
                }
            },
        }
    }
}

/// The references a packed-refs file lists from `pos` on, after `acc`: name
/// and id of each.
pub open spec fn packed_refs_from(d: Seq<u8>, pos: int, acc: Seq<(Seq<u8>, Seq<u8>)>) -> Result<
    Seq<(Seq<u8>, Seq<u8>)>,
    Error,
>
    decreases d.len() - pos,
{
    if pos < 0 || pos >= d.len() {
        Ok(acc)
    } else {
        proof {
            lemma_line_span(d, pos);
        }
        let (end, next) = line_span(d, pos);
        match packed_line(d.subrange(pos, end)) {
            Err(e) => Err(e),
            Ok(None) => packed_refs_from(d, next, acc),
            Ok(Some(r)) => packed_refs_from(d, next, acc.push(r)),
        }
    }
}

/// The references a packed-refs file lists, in its order.
pub open spec fn packed_refs(d: Seq<u8>) -> Result<Seq<(Seq<u8>, Seq<u8>)>, Error> {
    if !valid_utf8(d) {
        Err(Error::NonUtf8Refs)
    } else {
        packed_refs_from(d, 0, seq![])
    }
}

/// Every reference a packed-refs file lists from `pos` on is named under
/// `refs/` and holds a full object id, given that those before it are.
proof fn lemma_packed_from_shape(d: Seq<u8>, pos: int, acc: Seq<(Seq<u8>, Seq<u8>)>)
    requires
        forall|k: int| 0 <= k < acc.len() ==> has_prefix((#[trigger] acc[k]).0, refs_word()) && oid_bytes(acc[k].1),
    ensures
        packed_refs_from(d, pos, acc) matches Ok(s) ==> forall|k: int|
            0 <= k < s.len() ==> has_prefix((#[trigger] s[k]).0, refs_word()) && oid_bytes(s[k].1),
    decreases d.len() - pos,
{
    if 0 <= pos < d.len() {
        lemma_line_span(d, pos);
        let (end, next) = line_span(d, pos);
        match packed_line(d.subrange(pos, end)) {
            Err(_) => {},
            Ok(None) => lemma_packed_from_shape(d, next, acc),
            Ok(Some(r)) => {
                let a = acc.push(r);
                assert forall|k: int| 0 <= k < a.len() implies has_prefix((#[trigger] a[k]).0, refs_word())
                    && oid_bytes(a[k].1) by {
                    if k < acc.len() {
                        assert(a[k] == acc[k]);
                    }
                }
                lemma_packed_from_shape(d, next, a);
            },
        }
    }
}

/// Every reference a packed-refs file lists is named under `refs/` and
/// holds a full object id.
pub proof fn lemma_packed_refs_shape(d: Seq<u8>)
    ensures
        packed_refs(d) matches Ok(s) ==> forall|k: int|
            0 <= k < s.len() ==> has_prefix((#[trigger] s[k]).0, refs_word()) && oid_bytes(s[k].1),
{
    lemma_packed_from_shape(d, 0, seq![]);
}

/// Whether these name and id strings hold these bytes.
pub open spec fn pairs_hold(v: Seq<(String, String)>, s: Seq<(Seq<u8>, Seq<u8>)>) -> bool {
    &&& v.len() == s.len()
    &&& forall|k: int|
        0 <= k < s.len() ==> encode_utf8(#[trigger] v[k].0@) == s[k].0 && encode_utf8(v[k].1@)
            == s[k].1
}

proof fn lemma_pairs_push(
    before: Seq<(String, String)>,
    after: Seq<(String, String)>,
    s: Seq<(Seq<u8>, Seq<u8>)>,
    r: (Seq<u8>, Seq<u8>),
)
    requires
        pairs_hold(before, s),
        after.len() == before.len() + 1,
        forall|k: int| 0 <= k < before.len() ==> after[k] == before[k],
        encode_utf8(after[before.len() as int].0@) == r.0,
        encode_utf8(after[before.len() as int].1@) == r.1,
    ensures
        pairs_hold(after, s.push(r)),
{
    assert forall|k: int| 0 <= k < s.len() + 1 implies encode_utf8(#[trigger] after[k].0@)
        == s.push(r)[k].0 && encode_utf8(after[k].1@) == s.push(r)[k].1 by {
        if k < s.len() {
            assert(after[k] == before[k]);
        }
    }
}

/// Reads a packed-refs file: the name and id of each reference, in order.
pub fn parse_packed_refs(d: &[u8]) -> (res: Result<Vec<(String, String)>, Error>)
    ensures
        match packed_refs(d@) {
            Ok(s) => res matches Ok(v) && pairs_hold(v@, s),
            Err(e) => res matches Err(x) && x == e,
        },
{
    if !crate::bytes::is_utf8(d) {
        return Err(Error::NonUtf8Refs);
    }
    let refs_a: [u8; 5] = [114u8, 101u8, 102u8, 115u8, 47u8];
    assert(refs_a@ =~= refs_word());
    let mut out: Vec<(String, String)> = Vec::new();
    let ghost mut acc: Seq<(Seq<u8>, Seq<u8>)> = seq![];
    let mut pos: usize = 0;
    while pos < d.len()
        invariant
            valid_utf8(d@),
            refs_a@ == refs_word(),
            pos <= d@.len(),
            pos < d@.len() ==> (pos == 0 || d@[pos - 1] == 10),
            packed_refs(d@) == packed_refs_from(d@, pos as int, acc),
            pairs_hold(out@, acc),
        decreases d@.len() - pos,
    {
        proof {
            lemma_line_span(d@, pos as int);
            lemma_find_byte(d@, 10, pos as int);
            if pos > 0 {
                lemma_after_ascii(d@, pos - 1);
            }
        }
        let (end, next) = match position_of(d, 10, pos) {
            None => (d.len(), d.len()),
            Some(k) => (if k > pos && d[k - 1] == 13 {
                k - 1
            } else {
                k
            }, k + 1),
        };
        assert((end as int, next as int) == line_span(d@, pos as int));
        let line = slice_subrange(d, pos, end);
        if !(line.len() == 0 || line[0] == 35 || line[0] == 94) {
            proof {
                lemma_find_byte(line@, 32, 0);
            }
            let sp = match position_of(line, 32, 0) {
                None => return Err(Error::InvalidPackedRefs),
                Some(sp) => sp,
            };
            let id = slice_subrange(line, 0, sp);
            let name = slice_subrange(line, sp + 1, line.len());
            if !crate::git::store::is_oid_bytes(id) {
                return Err(Error::UnsupportedObjectFormatOrInvalidRef);
            }
            proof {
                lemma_after_ascii(d@, pos + sp);
                lemma_utf8_piece(d@, pos + sp + 1, end as int);
                assert(name@ =~= d@.subrange(pos + sp + 1, end as int));
                crate::git::store::lemma_oid_utf8(id@);
            }
            let name_s = string_of(name);
            let name_str = name_s.as_str();
            proof {
                vstd::utf8::decode_utf8_encode_utf8(name@);
            }
            match crate::fs::validate_path(name_str, true) {
                Err(e) => return Err(e),
                Ok(_) => {},
            }
            if !starts_with(name, refs_a.as_slice()) {
                return Err(Error::InvalidRef);
            }
            let id_s = string_of(id);
            proof {
                vstd::utf8::decode_utf8_encode_utf8(id@);
            }
            let ghost old_out = out@;
            out.push((name_s, id_s));
            proof {
                let r = (name@, id@);
                lemma_pairs_push(old_out, out@, acc, r);
                acc = acc.push(r);
            }
        }
        pos = next;
    }
    Ok(out)
}

/// `ref: `
pub open spec fn ref_word() -> Seq<u8> {
    seq![114u8, 101u8, 102u8, 58u8, 32u8]
}

/// The value of the first reference from `k` on named `name` that is still
/// present.
pub open spec fn ref_lookup(names: Seq<Seq<u8>>, vals: Seq<Option<Seq<u8>>>, name: Seq<u8>, k: int) -> Option<
    Seq<u8>,
>
    decreases names.len() - k,
{
    if k < 0 || k >= names.len() || k >= vals.len() {
        None
    } else if names[k] == name && vals[k] is Some {
        vals[k]
    } else {
        ref_lookup(names, vals, name, k + 1)
    }
}

/// Following a reference's value through symbolic references, at most
/// `steps` times: the value reached, or `None` when a target is missing.
pub open spec fn follow(names: Seq<Seq<u8>>, vals: Seq<Option<Seq<u8>>>, value: Seq<u8>, steps: nat) -> Result<
    Option<Seq<u8>>,
    Error,
>
    decreases steps,
{
    if steps == 0 || !has_prefix(value, ref_word()) {
        Ok(Some(value))
    } else {
        let target = value.subrange(5, value.len() as int);
        match crate::fs::path_components(target, true) {
            Err(e) => Err(e),
            Ok(_) => match ref_lookup(names, vals, target, 0) {
                Some(v) => follow(names, vals, v, (steps - 1) as nat),
                None => Ok(None),
            },
        }
    }
}

/// The references from the `i`-th on resolved in order, each against the
/// values as they stand after those before it: an object id, lowercased;
/// removed when it is empty or leads to a missing reference.
pub open spec fn resolve_from(names: Seq<Seq<u8>>, vals: Seq<Option<Seq<u8>>>, i: int) -> Result<
    Seq<Option<Seq<u8>>>,
    Error,
>
    decreases names.len() - i,
{
    if i < 0 || i >= names.len() || i >= vals.len() {
        Ok(vals)
    } else {
        match vals[i] {
            None => resolve_from(names, vals, i + 1),
            Some(v) => match follow(names, vals, v, 16) {
                Err(e) => Err(e),
                Ok(None) => resolve_from(names, vals.update(i, None), i + 1),
                Ok(Some(w)) => if w.len() == 0 {
                    resolve_from(names, vals.update(i, None), i + 1)
                } else if !oid_bytes(w) {
                    Err(Error::InvalidOrCyclicRef)
                } else {
                    resolve_from(
                        names,
                        vals.update(i, Some(Seq::new(w.len(), |k: int| ascii_lower(w[k])))),
                        i + 1,
                    )
                },
            },
        }
    }
}

/// The entries that are still present, in order.
pub open spec fn present(names: Seq<Seq<u8>>, vals: Seq<Option<Seq<u8>>>) -> Seq<(Seq<u8>, Seq<u8>)>
    decreases names.len(),
{
    if names.len() == 0 || vals.len() < names.len() {
        seq![]
    } else {
        let rest = present(names.drop_last(), vals.subrange(0, names.len() - 1));
        match vals[names.len() - 1] {
            Some(v) => rest.push((names.last(), v)),
            None => rest,
        }
    }
}

fn lookup_ref(names: &Vec<Vec<u8>>, vals: &Vec<Option<Vec<u8>>>, name: &[u8]) -> (res: Option<Vec<u8>>)
    requires
        names@.len() == vals@.len(),
    ensures
        res matches Some(r) ==> ref_lookup(names_view(names@), vals_view(vals@), name@, 0) == Some(r@),
        res is None ==> ref_lookup(names_view(names@), vals_view(vals@), name@, 0) is None,
{
    let mut k: usize = 0;
    while k < names.len()
        invariant
            names@.len() == vals@.len(),
            k <= names@.len(),
            ref_lookup(names_view(names@), vals_view(vals@), name@, 0) == ref_lookup(
                names_view(names@),
                vals_view(vals@),
                name@,
                k as int,
            ),
        decreases names@.len() - k,
    {
        if crate::bytes::bytes_equal(names[k].as_slice(), name) {
            match &vals[k] {
                Some(v) => {
                    return Some(crate::bytes::to_vec(v.as_slice()));
                },
                None => {},
            }
        }
        k = k + 1;
    }
    None
}

/// The bytes of each name.
pub open spec fn names_view(v: Seq<Vec<u8>>) -> Seq<Seq<u8>> {
    Seq::new(v.len(), |k: int| v[k]@)
}

/// The bytes of each value that is present.
pub open spec fn vals_view(v: Seq<Option<Vec<u8>>>) -> Seq<Option<Seq<u8>>> {
    Seq::new(
        v.len(),
        |k: int|
            match v[k] {
                Some(x) => Some(x@),
                None => None,
            },
    )
}

/// Every value present is valid UTF-8.
pub open spec fn vals_utf8(v: Seq<Option<Seq<u8>>>) -> bool {
    forall|k: int| 0 <= k < v.len() ==> (#[trigger] v[k] matches Some(x) ==> valid_utf8(x))
}

proof fn lemma_lookup_utf8(names: Seq<Seq<u8>>, vals: Seq<Option<Seq<u8>>>, name: Seq<u8>, k: int)
    requires
        vals_utf8(vals),
        0 <= k,
    ensures
        ref_lookup(names, vals, name, k) matches Some(v) ==> valid_utf8(v),
    decreases names.len() - k,
{
    if k < names.len() && k < vals.len() && !(names[k] == name && vals[k] is Some) {
        lemma_lookup_utf8(names, vals, name, k + 1);
    }
}

fn follow_ref(names: &Vec<Vec<u8>>, vals: &Vec<Option<Vec<u8>>>, init: Vec<u8>) -> (res: Result<
    Option<Vec<u8>>,
    Error,
>)
    requires
        names@.len() == vals@.len(),
        vals_utf8(vals_view(vals@)),
        valid_utf8(init@),
    ensures
        match follow(names_view(names@), vals_view(vals@), init@, 16) {
            Ok(Some(w)) => res matches Ok(Some(r)) && r@ == w,
            Ok(None) => res matches Ok(None),
            Err(e) => res matches Err(x) && x == e,
        },
{
    let ref_a: [u8; 5] = [114u8, 101u8, 102u8, 58u8, 32u8];
    assert(ref_a@ =~= ref_word());
    let ghost v0 = init@;
    let ghost target_spec = follow(names_view(names@), vals_view(vals@), init@, 16);
    let mut value = init;
    let mut steps: usize = 16;
    while steps > 0 && starts_with(value.as_slice(), ref_a.as_slice())
        invariant
            names@.len() == vals@.len(),
            vals_utf8(vals_view(vals@)),
            valid_utf8(value@),
            ref_a@ == ref_word(),
            steps <= 16,
            v0 == init@,
            target_spec == follow(names_view(names@), vals_view(vals@), v0, 16),
            target_spec == follow(names_view(names@), vals_view(vals@), value@, steps as nat),
        decreases steps,
    {
        let target = slice_subrange(value.as_slice(), 5, value.len());
        proof {
            lemma_after_ascii(value@, 4);
            lemma_utf8_piece(value@, 5, value@.len() as int);
        }
        let t = string_of(target);
        let ts = t.as_str();
        proof {
            vstd::utf8::decode_utf8_encode_utf8(target@);
            assert(ts.spec_bytes() == target@);
            assert(target@ == value@.subrange(5, value@.len() as int));
        }
        let ghost nv = names_view(names@);
        let ghost vv = vals_view(vals@);
        assert(has_prefix(value@, ref_word()));
        assert(follow(nv, vv, value@, steps as nat) == match crate::fs::path_components(
            target@,
            true,
        ) {
            Err(e) => Err::<Option<Seq<u8>>, Error>(e),
            Ok(_) => match ref_lookup(nv, vv, target@, 0) {
                Some(v) => follow(nv, vv, v, (steps - 1) as nat),
                None => Ok::<Option<Seq<u8>>, Error>(None),
            },
        });
        match crate::fs::validate_path(ts, true) {
            Err(e) => {
                assert(crate::fs::path_components(target@, true) == Err::<Seq<Seq<u8>>, Error>(e));
                assert(follow(nv, vv, value@, steps as nat) == Err::<Option<Seq<u8>>, Error>(e));
                assert(target_spec == Err::<Option<Seq<u8>>, Error>(e));
                return Err(e);
            },
            Ok(_) => {},
        }
        proof {
            lemma_lookup_utf8(names_view(names@), vals_view(vals@), target@, 0);
        }
        match lookup_ref(names, vals, target) {
            Some(v) => {
                value = v;
            },
            None => return Ok(None),
        }
        steps = steps - 1;
    }
    Ok(Some(value))
}

/// Forty hexadecimal digits, none of them an upper-case letter.
pub open spec fn lower_oid(b: Seq<u8>) -> bool {
    oid_bytes(b) && forall|k: int| 0 <= k < b.len() ==> !(65 <= #[trigger] b[k] <= 90)
}

/// Resolution from the `i`-th reference on leaves each reference either
/// removed or a full object id in lower case, given that those before it
/// already are.
proof fn lemma_resolved_lower(names: Seq<Seq<u8>>, vals: Seq<Option<Seq<u8>>>, i: int)
    requires
        0 <= i,
        names.len() == vals.len(),
        forall|j: int| 0 <= j < i && j < vals.len() && (#[trigger] vals[j]) is Some ==> lower_oid(vals[j]->Some_0),
    ensures
        resolve_from(names, vals, i) matches Ok(r) ==> r.len() == vals.len() && forall|j: int|
            0 <= j < r.len() && (#[trigger] r[j]) is Some ==> lower_oid(r[j]->Some_0),
    decreases names.len() - i,
{
    if i >= names.len() {
    } else {
        match vals[i] {
            None => lemma_resolved_lower(names, vals, i + 1),
            Some(v) => match follow(names, vals, v, 16) {
                Err(_) => {},
                Ok(None) => {
                    let u = vals.update(i, None);
                    assert forall|j: int| 0 <= j < i + 1 && j < u.len() && (#[trigger] u[j]) is Some implies lower_oid(u[j]->Some_0) by {
                        assert(u[j] == vals[j]);
                    }
                    lemma_resolved_lower(names, u, i + 1);
                },
                Ok(Some(w)) => {
                    if w.len() == 0 {
                        let u = vals.update(i, None);
                        assert forall|j: int| 0 <= j < i + 1 && j < u.len() && (#[trigger] u[j]) is Some implies lower_oid(u[j]->Some_0) by {
                            assert(u[j] == vals[j]);
                        }
                        lemma_resolved_lower(names, u, i + 1);
                    } else if oid_bytes(w) {
                        let lw = Seq::new(w.len(), |k: int| ascii_lower(w[k]));
                        assert(lower_oid(lw)) by {
                            assert forall|k: int| 0 <= k < 40 implies is_hex_digit(#[trigger] lw[k]) by {
                                assert(is_hex_digit(w[k]));
                            }
                        }
                        let u = vals.update(i, Some(lw));
                        assert forall|j: int| 0 <= j < i + 1 && j < u.len() && (#[trigger] u[j]) is Some implies lower_oid(u[j]->Some_0) by {
                            if j < i {
                                assert(u[j] == vals[j]);
                            }
                        }
                        lemma_resolved_lower(names, u, i + 1);
                    }
                },
            },
        }
    }
}

/// The values that `present` keeps are those held.
proof fn lemma_present_lower(names: Seq<Seq<u8>>, vals: Seq<Option<Seq<u8>>>)
    requires
        forall|j: int| 0 <= j < vals.len() && (#[trigger] vals[j]) is Some ==> lower_oid(vals[j]->Some_0),
    ensures
        forall|m: int| 0 <= m < present(names, vals).len() ==> lower_oid(#[trigger] present(names, vals)[m].1),
    decreases names.len(),
{
    if names.len() == 0 || vals.len() < names.len() {
    } else {
        let sub = vals.subrange(0, names.len() - 1);
        assert forall|j: int| 0 <= j < sub.len() && (#[trigger] sub[j]) is Some implies lower_oid(sub[j]->Some_0) by {
            assert(sub[j] == vals[j]);
        }
        lemma_present_lower(names.drop_last(), sub);
        let rest = present(names.drop_last(), sub);
        match vals[names.len() - 1] {
            Some(v) => {
                assert forall|m: int| 0 <= m < rest.len() + 1 implies lower_oid(#[trigger] rest.push((names.last(), v))[m].1) by {
                    if m < rest.len() {
                        assert(rest.push((names.last(), v))[m] == rest[m]);
                    }
                }
            },
            None => {},
        }
    }
}

/// Whether `x` is one of `names`.
pub open spec fn named_in(names: Seq<Seq<u8>>, x: Seq<u8>) -> bool {
    exists|k: int| 0 <= k < names.len() && #[trigger] names[k] == x
}

/// The names that `present` keeps are names it was given.
proof fn lemma_present_names(names: Seq<Seq<u8>>, vals: Seq<Option<Seq<u8>>>)
    ensures
        forall|m: int| 0 <= m < present(names, vals).len() ==> named_in(names, (#[trigger] present(names, vals)[m]).0),
    decreases names.len(),
{
    if names.len() == 0 || vals.len() < names.len() {
        assert(present(names, vals).len() == 0);
    } else {
        let sub = vals.subrange(0, names.len() - 1);
        let front = names.drop_last();
        lemma_present_names(front, sub);
        let rest = present(front, sub);
        assert forall|m: int| 0 <= m < present(names, vals).len() implies named_in(names, (#[trigger] present(names, vals)[m]).0) by {
            let pm = present(names, vals)[m];
            if m < rest.len() {
                assert(pm == rest[m]);
                assert(named_in(front, rest[m].0));
                let k = choose|k: int| 0 <= k < front.len() && #[trigger] front[k] == rest[m].0;
                assert(names[k] == front[k]);
            } else {
                let k = names.len() - 1;
                assert(vals[k] is Some);
                assert(present(names, vals) == rest.push((names.last(), vals[k]->Some_0)));
                assert(names[k] == pm.0);
            }
        }
    }
}

/// Whether one of the references is named `n`.
pub open spec fn ref_named(refs: Seq<(String, String)>, n: Seq<char>) -> bool {
    exists|j: int| 0 <= j < refs.len() && #[trigger] refs[j].0@ == n
}

/// A name whose bytes are among the references' names' bytes is one of
/// their names.
proof fn lemma_ref_named(refs: Seq<(String, String)>, names: Seq<Seq<u8>>, n: Seq<char>, b: Seq<u8>)
    requires
        names == Seq::new(refs.len(), |k: int| encode_utf8(refs[k].0@)),
        named_in(names, b),
        encode_utf8(n) == b,
    ensures
        ref_named(refs, n),
{
    let j = choose|j: int| 0 <= j < names.len() && #[trigger] names[j] == b;
    assert(names[j] == encode_utf8(refs[j].0@));
    vstd::utf8::encode_utf8_decode_utf8(refs[j].0@);
    vstd::utf8::encode_utf8_decode_utf8(n);
    assert(refs[j].0@ == n);
}

/// Resolves references: each, in the order given, to the object id it
/// leads to through symbolic references, lowercased; those that are empty
/// or lead to a missing reference are left out.
#[verifier::spinoff_prover]
pub fn resolve_refs(refs: Vec<(String, String)>) -> (res: Result<Vec<(String, String)>, Error>)
    ensures
        ({
            let names = Seq::new(refs@.len(), |k: int| encode_utf8(refs@[k].0@));
            let vals = Seq::new(refs@.len(), |k: int| Some(encode_utf8(refs@[k].1@)));
            match resolve_from(names, vals, 0) {
                Ok(r) => res matches Ok(v) && pairs_hold(v@, present(names, r)),
                Err(e) => res matches Err(x) && x == e,
            }
        }),
        res matches Ok(v) ==> forall|k: int| 0 <= k < v@.len() ==> lower_oid(encode_utf8(#[trigger] v@[k].1@)),
        res matches Ok(v) ==> forall|k: int| 0 <= k < v@.len() ==> ref_named(refs@, (#[trigger] v@[k]).0@),
{
    let mut names: Vec<Vec<u8>> = Vec::new();
    let mut vals: Vec<Option<Vec<u8>>> = Vec::new();
    let mut i: usize = 0;
    while i < refs.len()
        invariant
            i <= refs@.len(),
            names@.len() == i,
            vals@.len() == i,
            forall|k: int| 0 <= k < i ==> #[trigger] names@[k]@ == encode_utf8(refs@[k].0@),
            forall|k: int| 0 <= k < i ==> (#[trigger] vals@[k] matches Some(x) && x@ == encode_utf8(refs@[k].1@)),
        decreases refs@.len() - i,
    {
        names.push(crate::bytes::to_vec(refs[i].0.as_str().as_bytes()));
        vals.push(Some(crate::bytes::to_vec(refs[i].1.as_str().as_bytes())));
        i = i + 1;
    }
    let ghost names_s = Seq::new(refs@.len(), |k: int| encode_utf8(refs@[k].0@));
    let ghost vals_s = Seq::new(refs@.len(), |k: int| Some(encode_utf8(refs@[k].1@)));
    assert(names_view(names@) =~= names_s);
    assert(vals_view(vals@) =~= vals_s);
    assert(vals_utf8(vals_s)) by {
        assert forall|k: int| 0 <= k < vals_s.len() implies (#[trigger] vals_s[k] matches Some(x)
            ==> valid_utf8(x)) by {
            vstd::utf8::encode_utf8_valid_utf8(refs@[k].1@);
        }
    }
    assert forall|k: int| 0 <= k < names_s.len() implies valid_utf8(#[trigger] names_s[k]) by {
        vstd::utf8::encode_utf8_valid_utf8(refs@[k].0@);
    }
    let mut i: usize = 0;
    while i < names.len()
        invariant
            names@.len() == vals@.len(),
            i <= names@.len(),
            names_view(names@) == names_s,
            names_s == Seq::new(refs@.len(), |k: int| encode_utf8(refs@[k].0@)),
            vals_s == Seq::new(refs@.len(), |k: int| Some(encode_utf8(refs@[k].1@))),
            forall|j: int| 0 <= j < names_s.len() ==> valid_utf8(#[trigger] names_s[j]),
            vals_utf8(vals_view(vals@)),
            resolve_from(names_s, vals_s, 0) == resolve_from(names_s, vals_view(vals@), i as int),
        decreases names@.len() - i,
    {
        let current = match &vals[i] {
            Some(v) => Some(crate::bytes::to_vec(v.as_slice())),
            None => None,
        };
        match current {
            None => {},
            Some(v) => {
                match follow_ref(&names, &vals, v)? {
                    None => {
                        let ghost before = vals_view(vals@);
                        vals.set(i, None);
                        assert(vals_view(vals@) =~= before.update(i as int, None));
                    },
                    Some(w) => {
                        if w.len() == 0 {
                            let ghost before = vals_view(vals@);
                            vals.set(i, None);
                            assert(vals_view(vals@) =~= before.update(i as int, None));
                        } else if !crate::git::store::is_oid_bytes(w.as_slice()) {
                            return Err(Error::InvalidOrCyclicRef);
                        } else {
                            let mut lower: Vec<u8> = Vec::new();
                            let mut k: usize = 0;
                            while k < w.len()
                                invariant
                                    k <= w@.len(),
                                    lower@ =~= Seq::new(k as nat, |j: int| ascii_lower(w@[j])),
                                decreases w@.len() - k,
                            {
                                let c = w[k];
                                lower.push(if 65 <= c && c <= 90 {
                                    c + 32
                                } else {
                                    c
                                });
                                k = k + 1;
                            }
                            let ghost before = vals_view(vals@);
                            let ghost lv = lower@;
                            proof {
                                assert forall|j: int| 0 <= j < lv.len() implies lv[j] < 128 by {
                                    assert(crate::git::store::is_hex_digit(w@[j]));
                                }
                                crate::bytes::lemma_ascii_utf8(lv);
                            }
                            vals.set(i, Some(lower));
                            assert(vals_view(vals@) =~= before.update(i as int, Some(lv)));
                        }
                    },
                }
            },
        }
        i = i + 1;
    }
    assert(resolve_from(names_s, vals_view(vals@), i as int) == Ok::<Seq<Option<Seq<u8>>>, Error>(
        vals_view(vals@),
    ));
    let mut out: Vec<(String, String)> = Vec::new();
    let mut k: usize = 0;
    while k < names.len()
        invariant
            names@.len() == vals@.len(),
            k <= names@.len(),
            names_view(names@) == names_s,
            names_s == Seq::new(refs@.len(), |k: int| encode_utf8(refs@[k].0@)),
            vals_s == Seq::new(refs@.len(), |k: int| Some(encode_utf8(refs@[k].1@))),
            resolve_from(names_s, vals_s, 0) == Ok::<Seq<Option<Seq<u8>>>, Error>(vals_view(vals@)),
            forall|j: int| 0 <= j < names_s.len() ==> valid_utf8(#[trigger] names_s[j]),
            vals_utf8(vals_view(vals@)),
            pairs_hold(
                out@,
                present(names_view(names@).subrange(0, k as int), vals_view(vals@).subrange(0, k as int)),
            ),
        decreases names@.len() - k,
    {
        let ghost nv = names_view(names@);
        let ghost vv = vals_view(vals@);
        assert(nv.subrange(0, k + 1).drop_last() =~= nv.subrange(0, k as int));
        assert(vv.subrange(0, k + 1).subrange(0, k as int) =~= vv.subrange(0, k as int));
        match &vals[k] {
            Some(v) => {
                assert(vv[k as int] == Some(v@));
                assert(valid_utf8(nv[k as int]));
                let n = string_of(names[k].as_slice());
                let x = string_of(v.as_slice());
                proof {
                    vstd::utf8::decode_utf8_encode_utf8(names@[k as int]@);
                    vstd::utf8::decode_utf8_encode_utf8(v@);
                }
                let ghost old_out = out@;
                let ghost prev = present(nv.subrange(0, k as int), vv.subrange(0, k as int));
                out.push((n, x));
                proof {
                    let r = (nv[k as int], v@);
                    assert(present(nv.subrange(0, k + 1), vv.subrange(0, k + 1)) == prev.push(r));
                    assert forall|j: int| 0 <= j < prev.len() + 1 implies encode_utf8(
                        #[trigger] out@[j].0@,
                    ) == prev.push(r)[j].0 && encode_utf8(out@[j].1@) == prev.push(r)[j].1 by {
                        if j < prev.len() {
                            assert(out@[j] == old_out[j]);
                        } else {
                            assert(out@[j] == (n, x));
                        }
                    }
                }
            },
            None => {
                assert(present(nv.subrange(0, k + 1), vv.subrange(0, k + 1)) == present(
                    nv.subrange(0, k as int),
                    vv.subrange(0, k as int),
                ));
            },
        }
        k = k + 1;
    }
    assert(names_view(names@).subrange(0, k as int) =~= names_s);
    assert(vals_view(vals@).subrange(0, k as int) =~= vals_view(vals@));
    proof {
        lemma_resolved_lower(names_s, vals_s, 0);
        lemma_present_lower(names_s, vals_view(vals@));
        lemma_present_names(names_s, vals_view(vals@));
        let p = present(names_s, vals_view(vals@));
        assert(pairs_hold(out@, p));
        assert forall|j: int| 0 <= j < out@.len() implies lower_oid(encode_utf8(#[trigger] out@[j].1@)) by {
            assert(encode_utf8(out@[j].0@) == p[j].0);
            assert(lower_oid(p[j].1));
        }
        assert forall|k: int| 0 <= k < out@.len() implies ref_named(refs@, (#[trigger] out@[k]).0@) by {
            lemma_ref_named(refs@, names_s, out@[k].0@, p[k].0);
        }
    }
    assert(forall|k: int| 0 <= k < out@.len() ==> lower_oid(encode_utf8(#[trigger] out@[k].1@)));
    let res: Result<Vec<(String, String)>, Error> = Ok(out);
    assert(res->Ok_0@ == out@);
    res
}

/// The characters a revision may not hold: `:`, `@`, backslash, zero and space.
pub open spec fn revision_chars_ok(b: Seq<u8>) -> bool {
    forall|i: int|
        0 <= i < b.len() ==> #[trigger] b[i] != 58 && b[i] != 64 && b[i] != 92 && b[i] != 0 && b[i]
            != 32
}

/// The position of the first `~` or `^` at or after `p`, or the end.
pub open spec fn next_op(b: Seq<u8>, p: int) -> int
    decreases b.len() - p,
{
    if p < 0 || p >= b.len() {
        b.len() as int
    } else if b[p] == 126 || b[p] == 94 {
        p
    } else {
        next_op(b, p + 1)
    }
}

/// `next_op` stays within the sequence and stops only at an operator.
pub proof fn lemma_next_op(b: Seq<u8>, p: int)
    requires
        0 <= p <= b.len(),
    ensures
        p <= next_op(b, p) <= b.len(),
        next_op(b, p) < b.len() ==> b[next_op(b, p)] == 126 || b[next_op(b, p)] == 94,
        forall|j: int| p <= j < next_op(b, p) ==> b[j] != 126 && b[j] != 94,
    decreases b.len() - p,
{
    if p < b.len() && !(b[p] == 126 || b[p] == 94) {
        lemma_next_op(b, p + 1);
    }
}

/// The ancestry steps of a revision from `p` on: each `~` or `^` and the
/// count after it (one when it has none), up to the first step whose count
/// is refused, and that refusal.
pub open spec fn revision_steps(b: Seq<u8>, p: int) -> (Seq<(u8, nat)>, Option<Error>)
    decreases b.len() - p,
{
    if p < 0 || p >= b.len() {
        (seq![], None)
    } else {
        proof {
            lemma_next_op(b, p + 1);
        }
        let end = next_op(b, p + 1);
        let count = if end == p + 1 {
            Some(1nat)
        } else {
            crate::git::store::parse_unsigned(b.subrange(p + 1, end))
        };
        match count {
            None => (seq![], Some(Error::InvalidRevisionCount)),
            Some(n) => if n > 10000 {
                (seq![], Some(Error::RevisionWalkLimit))
            } else {
                let (rest, e) = revision_steps(b, end);
                (seq![(b[p], n)] + rest, e)
            },
        }
    }
}

/// Whether `b` can stand as a revision's name: not empty, and free of the
/// characters a revision may not hold and of `~` and `^`.
pub open spec fn plain_name(b: Seq<u8>) -> bool {
    b.len() > 0 && revision_chars_ok(b) && forall|i: int| 0 <= i < b.len() ==> #[trigger] b[i] != 126 && b[i] != 94
}

/// From `p`, the first operator is the one at `n`.
proof fn lemma_op_at(x: Seq<u8>, n: int, p: int)
    requires
        0 <= p <= n < x.len(),
        forall|i: int| p <= i < n ==> #[trigger] x[i] != 126 && x[i] != 94,
        x[n] == 126 || x[n] == 94,
    ensures
        next_op(x, p) == n,
    decreases n - p,
{
    if p < n {
        lemma_op_at(x, n, p + 1);
    }
}

/// The steps of a plain name followed by one operator and at most one digit.
proof fn lemma_one_step(b: Seq<u8>, op: u8, digits: Seq<u8>)
    requires
        plain_name(b),
        b.len() <= 1022,
        op == 126 || op == 94,
        digits.len() <= 1,
        digits.len() == 1 ==> 48 <= digits[0] <= 57,
    ensures
        ({
            let x = b + seq![op] + digits;
            revision_parts(x) == Ok::<(Seq<u8>, Seq<(u8, nat)>, Option<Error>), Error>((
                b,
                seq![(op, if digits.len() == 0 { 1nat } else { (digits[0] - 48) as nat })],
                None,
            ))
        }),
{
    let x = b + seq![op] + digits;
    let n = b.len() as int;
    assert(x[n] == op);
    assert forall|i: int| 0 <= i < x.len() implies #[trigger] x[i] != 58 && x[i] != 64 && x[i] != 92
        && x[i] != 0 && x[i] != 32 by {
        if i < n {
            assert(x[i] == b[i]);
        }
    }
    assert forall|i: int| 0 <= i < n implies #[trigger] x[i] != 126 && x[i] != 94 by {
        assert(x[i] == b[i]);
    }
    lemma_op_at(x, n, 0);
    assert(x.subrange(0, n) =~= b);
    if digits.len() == 0 {
        assert(next_op(x, n + 1) == x.len());
    } else {
        assert(x[n + 1] == digits[0]);
        assert(next_op(x, n + 2) == x.len());
        assert(next_op(x, n + 1) == x.len());
        let d = x.subrange(n + 1, x.len() as int);
        assert(d =~= seq![digits[0]]);
        assert(d.drop_last() =~= Seq::<u8>::empty());
        assert(crate::git::store::digits_value(d.drop_last()) == 0);
        assert(d.last() == digits[0]);
        assert(crate::git::store::digits_value(d) == (digits[0] - 48) as nat);
    }
    assert(revision_steps(x, x.len() as int) == (Seq::<(u8, nat)>::empty(), None::<Error>));
}

/// The spellings of a step to the first parent agree: after a plain name,
/// `~1`, `^` and `^1` each read as one step that picks the first parent;
/// `~2` picks it twice, as `^^` does in two steps; `~0` and `^0` pick none
/// and only follow tags.
pub proof fn lemma_parent_step_spellings(b: Seq<u8>)
    requires
        plain_name(b),
        b.len() <= 1022,
    ensures
        revision_parts(b + seq![126u8, 49u8]) == Ok::<(Seq<u8>, Seq<(u8, nat)>, Option<Error>), Error>(
            (b, seq![(126u8, 1nat)], None),
        ),
        revision_parts(b + seq![94u8]) == Ok::<(Seq<u8>, Seq<(u8, nat)>, Option<Error>), Error>(
            (b, seq![(94u8, 1nat)], None),
        ),
        revision_parts(b + seq![94u8, 49u8]) == Ok::<(Seq<u8>, Seq<(u8, nat)>, Option<Error>), Error>(
            (b, seq![(94u8, 1nat)], None),
        ),
        revision_parts(b + seq![126u8, 50u8]) == Ok::<(Seq<u8>, Seq<(u8, nat)>, Option<Error>), Error>(
            (b, seq![(126u8, 2nat)], None),
        ),
        revision_parts(b + seq![126u8, 48u8]) == Ok::<(Seq<u8>, Seq<(u8, nat)>, Option<Error>), Error>(
            (b, seq![(126u8, 0nat)], None),
        ),
        revision_parts(b + seq![94u8, 48u8]) == Ok::<(Seq<u8>, Seq<(u8, nat)>, Option<Error>), Error>(
            (b, seq![(94u8, 0nat)], None),
        ),
        parent_picks(126, 1) == seq![1nat] && parent_picks(94, 1) == seq![1nat],
        parent_picks(126, 2) == parent_picks(94, 1) + parent_picks(94, 1),
        parent_picks(126, 0) == Seq::<nat>::empty() && parent_picks(94, 0) == Seq::<nat>::empty(),
{
    lemma_one_step(b, 126, seq![49u8]);
    assert(b + seq![126u8] + seq![49u8] =~= b + seq![126u8, 49u8]);
    lemma_one_step(b, 94, Seq::<u8>::empty());
    assert(b + seq![94u8] + Seq::<u8>::empty() =~= b + seq![94u8]);
    lemma_one_step(b, 94, seq![49u8]);
    assert(b + seq![94u8] + seq![49u8] =~= b + seq![94u8, 49u8]);
    lemma_one_step(b, 126, seq![50u8]);
    assert(b + seq![126u8] + seq![50u8] =~= b + seq![126u8, 50u8]);
    lemma_one_step(b, 126, seq![48u8]);
    assert(b + seq![126u8] + seq![48u8] =~= b + seq![126u8, 48u8]);
    lemma_one_step(b, 94, seq![48u8]);
    assert(b + seq![94u8] + seq![48u8] =~= b + seq![94u8, 48u8]);
    assert(parent_picks(126, 1) =~= seq![1nat]);
    assert(parent_picks(126, 2) =~= seq![1nat, 1nat]);
    assert(parent_picks(126, 0) =~= Seq::<nat>::empty());
}

/// A revision's name, its ancestry steps, and the refusal that ends them.
pub open spec fn revision_parts(b: Seq<u8>) -> Result<(Seq<u8>, Seq<(u8, nat)>, Option<Error>), Error> {
    if b.len() == 0 || b.len() > 1024 || !revision_chars_ok(b) {
        Err(Error::InvalidRevision)
    } else {
        let split = next_op(b, 0);
        let (steps, e) = revision_steps(b, split);
        Ok((b.subrange(0, split), steps, e))
    }
}

/// Splits a revision into its name, the ancestry steps to take from it in
/// order, and the refusal that stops the steps early, if one does: a
/// resolver reports it after taking the steps before it.
pub fn parse_revision(rev: &str) -> (res: Result<(String, Vec<(u8, usize)>, Option<Error>), Error>)
    ensures
        match revision_parts(rev.spec_bytes()) {
            Ok((name, steps, e)) => res matches Ok((n, v, x)) && encode_utf8(n@) == name && x == e
                && v@.len() == steps.len() && forall|k: int|
                0 <= k < steps.len() ==> (#[trigger] v@[k]).0 == steps[k].0 && v@[k].1 == steps[k].1,
            Err(e) => res matches Err(x) && x == e,
        },
{
    let b = rev.as_bytes();
    proof {
        vstd::utf8::encode_utf8_valid_utf8(rev@);
    }
    assert(b@ == rev.spec_bytes());
    if b.len() == 0 || b.len() > 1024 {
        return Err(Error::InvalidRevision);
    }
    let mut i: usize = 0;
    while i < b.len()
        invariant
            i <= b@.len(),
            b@ == rev.spec_bytes(),
            forall|j: int| 0 <= j < i ==> #[trigger] b@[j] != 58 && b@[j] != 64 && b@[j] != 92
                && b@[j] != 0 && b@[j] != 32,
        decreases b@.len() - i,
    {
        let c = b[i];
        if c == 58 || c == 64 || c == 92 || c == 0 || c == 32 {
            assert(!revision_chars_ok(b@)) by {
                assert(b@[i as int] == c);
            }
            return Err(Error::InvalidRevision);
        }
        i = i + 1;
    }
    assert(revision_chars_ok(b@));
    proof {
        lemma_next_op(b@, 0);
    }
    let mut split: usize = 0;
    while split < b.len() && b[split] != 126 && b[split] != 94
        invariant
            split <= b@.len(),
            next_op(b@, 0) == next_op(b@, split as int),
        decreases b@.len() - split,
    {
        split = split + 1;
    }
    let ghost target = revision_steps(b@, split as int);
    let mut steps: Vec<(u8, usize)> = Vec::new();
    let ghost mut done: Seq<(u8, nat)> = seq![];
    let mut p = split;
    let mut stop: Option<Error> = None;
    while p < b.len()
        invariant_except_break
            stop is None,
        invariant
            split <= p <= b@.len(),
            b@ == rev.spec_bytes(),
            target == revision_steps(b@, split as int),
            target.0 == done + revision_steps(b@, p as int).0,
            target.1 == revision_steps(b@, p as int).1,
            steps@.len() == done.len(),
            forall|k: int| 0 <= k < done.len() ==> (#[trigger] steps@[k]).0 == done[k].0 && steps@[k].1 == done[k].1,
        ensures
            target.0 == done,
            target.1 == stop,
        decreases b@.len() - p,
    {
        proof {
            lemma_next_op(b@, p + 1);
        }
        let mut end = p + 1;
        while end < b.len() && b[end] != 126 && b[end] != 94
            invariant
                p + 1 <= end <= b@.len(),
                next_op(b@, p + 1) == next_op(b@, end as int),
            decreases b@.len() - end,
        {
            end = end + 1;
        }
        proof {
            lemma_next_op(b@, end as int);
        }
        assert(end == next_op(b@, p + 1));
        let count: usize = if end == p + 1 {
            1
        } else {
            match crate::git::store::parse_usize(slice_subrange(b, p + 1, end)) {
                None => {
                    stop = Some(Error::InvalidRevisionCount);
                    assert(target.0 =~= done);
                    break;
                },
                Some(n) => n,
            }
        };
        if count > 10000 {
            stop = Some(Error::RevisionWalkLimit);
            assert(target.0 =~= done);
            break;
        }
        let ghost item = (b@[p as int], count as nat);
        proof {
            let r = revision_steps(b@, end as int).0;
            assert(done.push(item) + r =~= done + (seq![item] + r));
        }
        let ghost old_steps = steps@;
        steps.push((b[p], count));
        proof {
            assert forall|k: int| 0 <= k < done.len() + 1 implies (#[trigger] steps@[k]).0 == done.push(
                item,
            )[k].0 && steps@[k].1 == done.push(item)[k].1 by {
                if k < done.len() {
                    assert(steps@[k] == old_steps[k]);
                }
            }
            done = done.push(item);
        }
        p = end;
    }
    proof {
        lemma_next_op(b@, 0);
        assert(split == b@.len() || !vstd::utf8::is_continuation_byte(b@[split as int]));
        lemma_utf8_piece(b@, 0, split as int);
    }
    let name = string_of(slice_subrange(b, 0, split));
    proof {
        vstd::utf8::decode_utf8_encode_utf8(b@.subrange(0, split as int));
    }
    Ok((name, steps, stop))
}

/// The names a revision's name may stand for, in the order they are tried:
/// itself, and itself under `refs/`, `refs/heads/`, `refs/tags/` and
/// `refs/remotes/`.
pub open spec fn candidate_names(n: Seq<u8>) -> Seq<Seq<u8>> {
    seq![
        n,
        refs_word() + n,
        refs_word() + seq![104u8, 101u8, 97u8, 100u8, 115u8, 47u8] + n,
        refs_word() + seq![116u8, 97u8, 103u8, 115u8, 47u8] + n,
        refs_word() + seq![114u8, 101u8, 109u8, 111u8, 116u8, 101u8, 115u8, 47u8] + n,
    ]
}

/// The value of the first reference named `key`.
pub open spec fn ref_value(refs: Seq<(Seq<u8>, Seq<u8>)>, key: Seq<u8>) -> Option<Seq<u8>>
    decreases refs.len(),
{
    if refs.len() == 0 {
        None
    } else if refs[0].0 == key {
        Some(refs[0].1)
    } else {
        ref_value(refs.drop_first(), key)
    }
}

/// The distinct ids that the first `i` candidate names refer to, in order.
pub open spec fn candidate_ids(refs: Seq<(Seq<u8>, Seq<u8>)>, n: Seq<u8>, i: int) -> Seq<Seq<u8>>
    decreases i,
{
    if i <= 0 {
        seq![]
    } else {
        let before = candidate_ids(refs, n, i - 1);
        match ref_value(refs, candidate_names(n)[i - 1]) {
            Some(v) => if before.contains(v) {
                before
            } else {
                before.push(v)
            },
            None => before,
        }
    }
}

/// What a revision's name resolves to before the object store is asked: an
/// id, nothing (the name is then tried as an abbreviated id), or the
/// refusal of a name that references give two ids.
pub open spec fn name_target(refs: Seq<(Seq<u8>, Seq<u8>)>, n: Seq<u8>) -> Result<Option<Seq<u8>>, Error> {
    if oid_bytes(n) {
        Ok(Some(n.map_values(|c: u8| ascii_lower(c))))
    } else {
        let ids = candidate_ids(refs, n, 5);
        if ids.len() == 1 {
            Ok(Some(ids[0]))
        } else if ids.len() > 1 {
            Err(Error::AmbiguousRevision)
        } else {
            Ok(None)
        }
    }
}

/// The references as bytes.
pub open spec fn refs_view(refs: Seq<(String, String)>) -> Seq<(Seq<u8>, Seq<u8>)> {
    refs.map_values(|p: (String, String)| (encode_utf8(p.0@), encode_utf8(p.1@)))
}

fn find_ref<'a>(refs: &'a Vec<(String, String)>, key: &[u8]) -> (res: Option<&'a String>)
    ensures
        match ref_value(refs_view(refs@), key@) {
            Some(v) => res matches Some(s) && encode_utf8(s@) == v,
            None => res is None,
        },
{
    let ghost rv = refs_view(refs@);
    assert(rv.subrange(0, rv.len() as int) =~= rv);
    let mut k: usize = 0;
    while k < refs.len()
        invariant
            k <= refs@.len(),
            rv == refs_view(refs@),
            ref_value(rv, key@) == ref_value(rv.subrange(k as int, rv.len() as int), key@),
        decreases refs@.len() - k,
    {
        let ghost rest = rv.subrange(k as int, rv.len() as int);
        assert(rest.drop_first() =~= rv.subrange(k + 1, rv.len() as int));
        assert(rest[0] == rv[k as int]);
        if bytes_equal(refs[k].0.as_str().as_bytes(), key) {
            return Some(&refs[k].1);
        }
        k = k + 1;
    }
    None
}

fn name_under(pre: &[u8], n: &[u8]) -> (res: Vec<u8>)
    ensures
        res@ == pre@ + n@,
{
    let mut v: Vec<u8> = Vec::new();
    append_bytes(&mut v, pre);
    append_bytes(&mut v, n);
    assert(v@ =~= pre@ + n@);
    v
}

/// Resolves a revision's name by the references: `Some` id for a full
/// object id or a name that the references give one id, `None` for a name
/// they do not know.
pub fn resolve_name(refs: &Vec<(String, String)>, name: &str) -> (res: Result<Option<String>, Error>)
    ensures
        match name_target(refs_view(refs@), name.spec_bytes()) {
            Ok(Some(v)) => res matches Ok(Some(s)) && encode_utf8(s@) == v,
            Ok(None) => res matches Ok(None),
            Err(e) => res == Err::<Option<String>, Error>(e),
        },
{
    let n = name.as_bytes();
    let ghost rv = refs_view(refs@);
    if is_oid(name) {
        let low = crate::text::to_ascii_lowercase(name);
        assert(encode_utf8(low@) =~= n@.map_values(|c: u8| ascii_lower(c)));
        return Ok(Some(low));
    }
    let r: [u8; 5] = [114u8, 101u8, 102u8, 115u8, 47u8];
    let heads: [u8; 11] = [114u8, 101u8, 102u8, 115u8, 47u8, 104u8, 101u8, 97u8, 100u8, 115u8, 47u8];
    let tags: [u8; 10] = [114u8, 101u8, 102u8, 115u8, 47u8, 116u8, 97u8, 103u8, 115u8, 47u8];
    let remotes: [u8; 13] = [
        114u8, 101u8, 102u8, 115u8, 47u8, 114u8, 101u8, 109u8, 111u8, 116u8, 101u8, 115u8, 47u8,
    ];
    let mut cands: Vec<Vec<u8>> = Vec::new();
    cands.push(name_under(&[], n));
    cands.push(name_under(r.as_slice(), n));
    cands.push(name_under(heads.as_slice(), n));
    cands.push(name_under(tags.as_slice(), n));
    cands.push(name_under(remotes.as_slice(), n));
    let ghost cn = candidate_names(n@);
    proof {
        assert(cands@[0]@ =~= cn[0]);
        assert(cands@[1]@ =~= cn[1]);
        assert(cands@[2]@ =~= cn[2]);
        assert(cands@[3]@ =~= cn[3]);
        assert(cands@[4]@ =~= cn[4]);
    }
    let mut ids: Vec<String> = Vec::new();
    let mut i: usize = 0;
    while i < 5
        invariant
            i <= 5,
            cands@.len() == 5,
            cn == candidate_names(n@),
            rv == refs_view(refs@),
            forall|t: int| 0 <= t < 5 ==> #[trigger] cands@[t]@ == cn[t],
            ids@.len() == candidate_ids(rv, n@, i as int).len(),
            forall|t: int| 0 <= t < ids@.len() ==> encode_utf8(#[trigger] ids@[t]@) == candidate_ids(
                rv,
                n@,
                i as int,
            )[t],
        decreases 5 - i,
    {
        let ghost before = candidate_ids(rv, n@, i as int);
        assert(cands@[i as int]@ == cn[i as int]);
        match find_ref(refs, cands[i].as_slice()) {
            Some(v) => {
                let vb = v.as_str().as_bytes();
                let mut present = false;
                let mut t: usize = 0;
                while t < ids.len()
                    invariant
                        t <= ids@.len(),
                        ids@.len() == before.len(),
                        forall|u: int| 0 <= u < ids@.len() ==> encode_utf8(#[trigger] ids@[u]@) == before[u],
                        present == exists|u: int| 0 <= u < t && #[trigger] before[u] == vb@,
                    decreases ids@.len() - t,
                {
                    if bytes_equal(ids[t].as_str().as_bytes(), vb) {
                        assert(before[t as int] == vb@);
                        present = true;
                    }
                    t = t + 1;
                }
                assert(present == before.contains(vb@));
                if !present {
                    let ghost old_ids = ids@;
                    ids.push(v.clone());
                    proof {
                        assert forall|u: int| 0 <= u < ids@.len() implies encode_utf8(
                            #[trigger] ids@[u]@,
                        ) == before.push(vb@)[u] by {
                            if u < old_ids.len() {
                                assert(ids@[u] == old_ids[u]);
                            }
                        }
                    }
                }
            },
            None => {},
        }
        i = i + 1;
    }
    if ids.len() == 1 {
        Ok(Some(ids[0].clone()))
    } else if ids.len() > 1 {
        Err(Error::AmbiguousRevision)
    } else {
        Ok(None)
    }
}


/// An abbreviated object id: four to forty hexadecimal digits.
pub open spec fn abbreviation_ok(b: Seq<u8>) -> bool {
    4 <= b.len() <= 40 && forall|i: int| 0 <= i < b.len() ==> is_hex_digit(#[trigger] b[i])
}

/// `objects/`
pub open spec fn objects_word() -> Seq<u8> {
    seq![111u8, 98u8, 106u8, 101u8, 99u8, 116u8, 115u8, 47u8]
}

/// The id that a loose object's file name gives under the directory named
/// by the abbreviation's first two digits.
pub open spec fn loose_id(prefix: Seq<u8>, name: Seq<u8>) -> Seq<u8> {
    prefix.subrange(0, 2) + name
}

/// Whether one of the file names gives the full id `x` that starts with
/// the abbreviation.
pub open spec fn loose_match(prefix: Seq<u8>, names: Seq<String>, x: Seq<u8>) -> bool {
    &&& oid_bytes(x)
    &&& has_prefix(x, prefix)
    &&& exists|k: int| 0 <= k < names.len() && x == loose_id(prefix, encode_utf8(#[trigger] names[k]@))
}

/// The text of the `i`-th id of a pack index: lowercase hexadecimal.
pub open spec fn index_id(idx: Seq<u8>, i: int) -> Seq<u8> {
    encode_utf8(hex_chars(index_entry(idx, i)))
}

/// Whether one of the pack index's ids is `x`, which starts with the
/// abbreviation.
pub open spec fn index_match(prefix: Seq<u8>, idx: Seq<u8>, x: Seq<u8>) -> bool {
    &&& has_prefix(x, prefix)
    &&& exists|i: int| 0 <= i < index_count(idx) && x == #[trigger] index_id(idx, i)
}

/// The search for the one object whose id starts with an abbreviation:
/// the loose objects of one directory and the ids of each pack index are
/// taken in turn, and the matching ids are kept once each, in order.
pub struct Abbreviation {
    prefix: Vec<u8>,
    ids: Vec<String>,
}

impl Abbreviation {
    /// The abbreviation, in lowercase.
    pub closed spec fn prefix(&self) -> Seq<u8> {
        self.prefix@
    }

    /// The matching ids found so far, in ascending order, each once.
    pub closed spec fn ids(&self) -> Seq<Seq<u8>> {
        strs_view(self.ids@)
    }

    /// The abbreviation is valid and the ids are strictly ascending.
    pub closed spec fn wf(&self) -> bool {
        abbreviation_ok(self.prefix@) && strictly_sorted(self.ids())
    }

    /// Starts a search, refusing anything but four to forty hexadecimal
    /// digits with `INVALID_REVISION`.
    pub fn new(text: &str) -> (res: Result<Abbreviation, Error>)
        ensures
            res is Ok <==> abbreviation_ok(text.spec_bytes()),
            res matches Ok(a) ==> a.wf() && a.prefix() == text.spec_bytes().map_values(
                |c: u8| ascii_lower(c),
            ) && a.ids() == Seq::<Seq<u8>>::empty(),
            res is Err ==> res == Err::<Abbreviation, Error>(Error::InvalidRevision),
    {
        let b = text.as_bytes();
        if b.len() < 4 || b.len() > 40 {
            return Err(Error::InvalidRevision);
        }
        let mut prefix: Vec<u8> = Vec::new();
        let mut i: usize = 0;
        while i < b.len()
            invariant
                i <= b@.len(),
                b@ == text.spec_bytes(),
                4 <= b@.len() <= 40,
                prefix@ == b@.subrange(0, i as int).map_values(|c: u8| ascii_lower(c)),
                forall|j: int| 0 <= j < i ==> is_hex_digit(#[trigger] b@[j]),
            decreases b@.len() - i,
        {
            let c = b[i];
            if !((48 <= c && c <= 57) || (65 <= c && c <= 70) || (97 <= c && c <= 102)) {
                assert(!abbreviation_ok(b@)) by {
                    assert(b@[i as int] == c);
                }
                return Err(Error::InvalidRevision);
            }
            let l: u8 = if 65 <= c && c <= 90 {
                c + 32
            } else {
                c
            };
            prefix.push(l);
            assert(b@.subrange(0, i + 1).map_values(|c: u8| ascii_lower(c)) =~= b@.subrange(
                0,
                i as int,
            ).map_values(|c: u8| ascii_lower(c)).push(ascii_lower(c)));
            i = i + 1;
        }
        assert(b@.subrange(0, b@.len() as int) =~= b@);
        let res = Abbreviation { prefix, ids: Vec::new() };
        assert(res.ids() =~= Seq::<Seq<u8>>::empty());
        assert forall|j: int| 0 <= j < res.prefix@.len() implies is_hex_digit(
            #[trigger] res.prefix@[j],
        ) by {
            assert(is_hex_digit(b@[j]));
        }
        Ok(res)
    }

    /// The directory that holds the loose objects whose ids could match:
    /// `objects/` and the abbreviation's first two digits.
    pub fn loose_dir(&self) -> (res: String)
        requires
            self.wf(),
        ensures
            encode_utf8(res@) == objects_word() + self.prefix().subrange(0, 2),
    {
        let word: [u8; 8] = [111u8, 98u8, 106u8, 101u8, 99u8, 116u8, 115u8, 47u8];
        let mut v: Vec<u8> = Vec::new();
        append_bytes(&mut v, word.as_slice());
        v.push(self.prefix[0]);
        v.push(self.prefix[1]);
        let ghost want = objects_word() + self.prefix@.subrange(0, 2);
        assert(v@ =~= want);
        proof {
            assert(is_hex_digit(self.prefix@[0]) && is_hex_digit(self.prefix@[1]));
            crate::bytes::lemma_ascii_utf8(v@);
        }
        let res = string_of(v.as_slice());
        proof {
            vstd::utf8::decode_utf8_encode_utf8(v@);
        }
        res
    }

    /// Takes the file names listed in that directory: each that, after the
    /// two digits of the directory, makes a full id starting with the
    /// abbreviation.
    pub fn take_loose(&mut self, names: &Vec<String>)
        requires
            old(self).wf(),
        ensures
            final(self).wf(),
            final(self).prefix() == old(self).prefix(),
            forall|x: Seq<u8>| #[trigger] final(self).ids().contains(x) <==> (old(self).ids().contains(
                x,
            ) || loose_match(old(self).prefix(), names@, x)),
    {
        let ghost p = self.prefix@;
        let ghost start = self.ids();
        let mut k: usize = 0;
        while k < names.len()
            invariant
                k <= names@.len(),
                self.prefix@ == p,
                self.wf(),
                forall|x: Seq<u8>| #[trigger] self.ids().contains(x) <==> (start.contains(x) || (
                oid_bytes(x) && has_prefix(x, p) && exists|j: int|
                    0 <= j < k && x == loose_id(p, encode_utf8(#[trigger] names@[j]@)))),
            decreases names@.len() - k,
        {
            let ghost before = self.ids();
            let n = names[k].as_str().as_bytes();
            let mut id: Vec<u8> = Vec::new();
            id.push(self.prefix[0]);
            id.push(self.prefix[1]);
            append_bytes(&mut id, n);
            assert(id@ =~= loose_id(p, encode_utf8(names@[k as int]@)));
            if crate::git::store::is_oid_bytes(id.as_slice()) && starts_with(
                id.as_slice(),
                self.prefix.as_slice(),
            ) {
                let s = crate::git::objects::string_of_oid(id.as_slice());
                proof {
                    crate::git::store::lemma_oid_utf8(id@);
                    vstd::utf8::decode_utf8_encode_utf8(id@);
                }
                crate::git::history::insert_sorted(&mut self.ids, s);
            }
            proof {
                assert forall|x: Seq<u8>| #[trigger] self.ids().contains(x) <==> (start.contains(x)
                    || (oid_bytes(x) && has_prefix(x, p) && exists|j: int|
                    0 <= j < k + 1 && x == loose_id(p, encode_utf8(#[trigger] names@[j]@)))) by {
                    if oid_bytes(x) && has_prefix(x, p) && x == loose_id(
                        p,
                        encode_utf8(names@[k as int]@),
                    ) {
                        assert(x == id@);
                    }
                    if exists|j: int|
                        0 <= j < k + 1 && x == loose_id(p, encode_utf8(#[trigger] names@[j]@)) {
                        let j = choose|j: int|
                            0 <= j < k + 1 && x == loose_id(p, encode_utf8(#[trigger] names@[j]@));
                        if j < k {
                            assert(exists|j2: int|
                                0 <= j2 < k && x == loose_id(p, encode_utf8(#[trigger] names@[j2]@)));
                        }
                    }
                }
            }
            k = k + 1;
        }
    }

    /// Takes a pack index: each of its ids that starts with the
    /// abbreviation. An index too short for the ids it announces is refused
    /// with `TRUNCATED_GIT_DATA`, and nothing is taken from it.
    pub fn take_index(&mut self, idx: &[u8]) -> (res: Result<(), Error>)
        requires
            old(self).wf(),
        ensures
            final(self).wf(),
            final(self).prefix() == old(self).prefix(),
            res is Ok <==> (idx@.len() >= 1032 && 1032 + 20 * index_count(idx@) <= idx@.len()),
            res is Err ==> res == Err::<(), Error>(Error::TruncatedGitData) && final(self).ids()
                == old(self).ids(),
            res is Ok ==> forall|x: Seq<u8>| #[trigger] final(self).ids().contains(x) <==> (old(self).ids().contains(x) || index_match(old(self).prefix(), idx@, x)),
    {
        let ghost p = self.prefix@;
        let ghost start = self.ids();
        if idx.len() < 1032 {
            return Err(Error::TruncatedGitData);
        }
        let count = u32_at(idx, 1028)?;
        assert(count as int == index_count(idx@));
        if 1032 + (count as u64) * 20 > idx.len() as u64 {
            return Err(Error::TruncatedGitData);
        }
        let len = idx.len();
        let mut i: u32 = 0;
        while i < count
            invariant
                i <= count,
                len == idx@.len(),
                count as int == index_count(idx@),
                1032 + 20 * index_count(idx@) <= idx@.len(),
                self.prefix@ == p,
                self.wf(),
                forall|x: Seq<u8>| #[trigger] self.ids().contains(x) <==> (start.contains(x) || (
                has_prefix(x, p) && exists|j: int| 0 <= j < i && x == #[trigger] index_id(idx@, j))),
            decreases count - i,
        {
            let off: u64 = 1032 + (i as u64) * 20;
            assert(off + 20 <= len);
            let at: usize = off as usize;
            assert(at as int == off as int);
            let raw = slice_subrange(idx, at, at + 20);
            assert(raw@ == index_entry(idx@, i as int));
            let s = hex_encode(raw);
            let sb = s.as_str().as_bytes();
            assert(sb@ == index_id(idx@, i as int));
            if starts_with(sb, self.prefix.as_slice()) {
                crate::git::history::insert_sorted(&mut self.ids, s);
            }
            proof {
                assert forall|x: Seq<u8>| #[trigger] self.ids().contains(x) <==> (start.contains(x)
                    || (has_prefix(x, p) && exists|j: int|
                    0 <= j < i + 1 && x == #[trigger] index_id(idx@, j))) by {
                    if has_prefix(x, p) && x == index_id(idx@, i as int) {
                        assert(x == sb@);
                    }
                    if exists|j: int| 0 <= j < i + 1 && x == #[trigger] index_id(idx@, j) {
                        let j = choose|j: int| 0 <= j < i + 1 && x == #[trigger] index_id(idx@, j);
                        if j < i {
                            assert(exists|j2: int| 0 <= j2 < i && x == #[trigger] index_id(idx@, j2));
                        }
                    }
                }
            }
            i = i + 1;
        }
        Ok(())
    }

    /// The one id found, or `REVISION_MISSING_OR_AMBIGUOUS` when none or
    /// several were.
    pub fn finish(self) -> (res: Result<String, Error>)
        requires
            self.wf(),
        ensures
            res is Ok <==> self.ids().len() == 1,
            res matches Ok(s) ==> encode_utf8(s@) == self.ids()[0],
            res is Err ==> res == Err::<String, Error>(Error::RevisionMissingOrAmbiguous),
    {
        if self.ids.len() == 1 {
            Ok(self.ids[0].clone())
        } else {
            Err(Error::RevisionMissingOrAmbiguous)
        }
    }
}


/// The parents that one ancestry step picks, one commit after another:
/// `~n` the first parent `n` times, `^n` with `n > 0` the `n`-th parent
/// once, and `^0` none (the step then only follows tags).
pub open spec fn parent_picks(op: u8, count: nat) -> Seq<nat> {
    if op == 126 {
        Seq::new(count, |i: int| 1nat)
    } else if count > 0 {
        seq![count]
    } else {
        seq![]
    }
}

/// The parents to pick, in order, for the step `op` and `count`.
pub fn step_picks(op: u8, count: usize) -> (res: Vec<usize>)
    ensures
        res@.len() == parent_picks(op, count as nat).len(),
        forall|i: int| 0 <= i < res@.len() ==> res@[i] as nat == #[trigger] parent_picks(
            op,
            count as nat,
        )[i],
{
    let mut v: Vec<usize> = Vec::new();
    if op == 126 {
        let mut i: usize = 0;
        while i < count
            invariant
                i <= count,
                v@.len() == i,
                forall|j: int| 0 <= j < i ==> v@[j] == 1,
            decreases count - i,
        {
            v.push(1);
            i = i + 1;
        }
    } else if count > 0 {
        v.push(count);
    }
    v
}

/// The `n`-th parent of a commit, counted from one, or `MISSING_PARENT`.
pub fn nth_parent(c: &Commit, n: usize) -> (res: Result<String, Error>)
    requires
        n >= 1,
    ensures
        n <= c.parents@.len() ==> res == Ok::<String, Error>(c.parents@[n - 1]),
        n > c.parents@.len() ==> res == Err::<String, Error>(Error::MissingParent),
{
    if n <= c.parents.len() {
        Ok(c.parents[n - 1].clone())
    } else {
        Err(Error::MissingParent)
    }
}


/// Whether the names of a table's entries are in strictly ascending order.
pub open spec fn names_ascending(e: Seq<(Seq<u8>, Seq<u8>)>) -> bool {
    forall|i: int, j: int| 0 <= i < j < e.len() ==> str_less(#[trigger] e[i].0, #[trigger] e[j].0)
}

/// Whether `(n, v)` is listed and no later entry has the name `n`.
pub open spec fn listed_last(pairs: Seq<(Seq<u8>, Seq<u8>)>, n: Seq<u8>, v: Seq<u8>) -> bool {
    exists|i: int|
        0 <= i < pairs.len() && pairs[i] == (n, v) && forall|j: int| i < j < pairs.len() ==> #[trigger] pairs[j].0 != n
}

/// `HEAD`
pub open spec fn head_word() -> Seq<u8> {
    seq![72u8, 69u8, 65u8, 68u8]
}

/// The references found while a repository is opened, by name: a name is
/// held once, with the value given last; and the count of loose reference
/// entries visited.
pub struct RefTable {
    entries: Vec<(String, String)>,
    visited: usize,
}

impl RefTable {
    /// Each name with its value, in ascending order of names.
    pub closed spec fn entries(&self) -> Seq<(Seq<u8>, Seq<u8>)> {
        self.entries@.map_values(|e: (String, String)| (encode_utf8(e.0@), encode_utf8(e.1@)))
    }

    /// The loose reference entries visited so far.
    pub closed spec fn visited(&self) -> nat {
        self.visited as nat
    }

    /// The names ascend, and no more than the scan limit were visited.
    pub closed spec fn wf(&self) -> bool {
        names_ascending(self.entries()) && self.visited <= SCAN_LIMIT
    }

    /// No reference yet.
    pub fn new() -> (res: RefTable)
        ensures
            res.wf(),
            res.entries() == Seq::<(Seq<u8>, Seq<u8>)>::empty(),
            res.visited() == 0,
    {
        let res = RefTable { entries: Vec::new(), visited: 0 };
        assert(res.entries() =~= Seq::<(Seq<u8>, Seq<u8>)>::empty());
        res
    }

    /// Sets the value of `name`, adding it when it is new.
    #[verifier::spinoff_prover]
    #[verifier::rlimit(40)]
    pub fn insert(&mut self, name: String, value: String)
        requires
            old(self).wf(),
        ensures
            final(self).wf(),
            final(self).visited() == old(self).visited(),
            forall|n: Seq<u8>, v: Seq<u8>| #[trigger] final(self).entries().contains((n, v)) <==> (
            (n == encode_utf8(name@) && v == encode_utf8(value@)) || (n != encode_utf8(name@)
                && old(self).entries().contains((n, v)))),
    {
        let ghost before = self.entries();
        let ghost nb = encode_utf8(name@);
        let ghost pair = (nb, encode_utf8(value@));
        let key = name.as_str().as_bytes();
        let mut lo: usize = 0;
        let mut hi: usize = self.entries.len();
        while lo < hi
            invariant
                lo <= hi <= self.entries@.len(),
                before == self.entries(),
                names_ascending(before),
                key@ == nb,
                forall|t: int| 0 <= t < lo ==> str_less((#[trigger] before[t]).0, nb),
                forall|t: int| hi <= t < before.len() ==> !str_less((#[trigger] before[t]).0, nb),
            decreases hi - lo,
        {
            let mid = lo + (hi - lo) / 2;
            assert(before[mid as int].0 == encode_utf8(self.entries@[mid as int].0@));
            if bytes_less(self.entries[mid].0.as_str().as_bytes(), key) {
                proof {
                    assert forall|t: int| 0 <= t < mid + 1 implies str_less((#[trigger] before[t]).0, nb) by {
                        if t < mid {
                            lemma_str_less_transitive(before[t].0, before[mid as int].0, nb);
                        }
                    }
                }
                lo = mid + 1;
            } else {
                proof {
                    assert forall|t: int| mid <= t < before.len() implies !str_less((#[trigger] before[t]).0, nb) by {
                        if t > mid && str_less(before[t].0, nb) {
                            lemma_str_less_transitive(before[mid as int].0, before[t].0, nb);
                        }
                    }
                }
                hi = mid;
            }
        }
        let ghost old_vec = self.entries@;
        if lo < self.entries.len() && bytes_equal(self.entries[lo].0.as_str().as_bytes(), key) {
            assert(before[lo as int].0 == nb);
            self.entries.set(lo, (name, value));
            proof {
                let after = self.entries();
                assert(after =~= before.update(lo as int, pair));
                assert forall|i: int, j: int| 0 <= i < j < after.len() implies str_less(
                    #[trigger] after[i].0,
                    #[trigger] after[j].0,
                ) by {
                    assert(after[i].0 == before[i].0 && after[j].0 == before[j].0);
                }
                assert forall|n: Seq<u8>, v: Seq<u8>| #[trigger] after.contains((n, v)) <==> ((n
                    == nb && v == encode_utf8(value@)) || (n != nb && before.contains((n, v)))) by {
                    if after.contains((n, v)) {
                        let k = choose|k: int| 0 <= k < after.len() && after[k] == (n, v);
                        if k != lo {
                            assert(before[k] == (n, v));
                            if n == nb {
                                lemma_str_less_irreflexive(nb);
                                if k < lo {
                                    assert(str_less(before[k].0, nb));
                                } else {
                                    assert(str_less(before[lo as int].0, before[k].0));
                                }
                            }
                        }
                    }
                    if n == nb && v == encode_utf8(value@) {
                        assert(after[lo as int] == (n, v));
                    }
                    if n != nb && before.contains((n, v)) {
                        let k = choose|k: int| 0 <= k < before.len() && before[k] == (n, v);
                        assert(k != lo);
                        assert(after[k] == (n, v));
                    }
                }
            }
        } else {
            proof {
                if lo < before.len() {
                    assert(before[lo as int].0 != nb);
                    assert(!str_less(before[lo as int].0, nb));
                    lemma_str_less_total(before[lo as int].0, nb);
                }
            }
            self.entries.insert(lo, (name, value));
            proof {
                let after = self.entries();
                assert(after =~= before.insert(lo as int, pair));
                assert forall|i: int, j: int| 0 <= i < j < after.len() implies str_less(
                    #[trigger] after[i].0,
                    #[trigger] after[j].0,
                ) by {
                    if j < lo {
                        assert(after[i] == before[i] && after[j] == before[j]);
                    } else if j == lo {
                        assert(after[i] == before[i]);
                    } else if i == lo {
                        assert(after[j] == before[j - 1]);
                        if j - 1 > lo {
                            lemma_str_less_transitive(nb, before[lo as int].0, before[j - 1].0);
                        }
                    } else if i < lo {
                        assert(after[i] == before[i] && after[j] == before[j - 1]);
                    } else {
                        assert(after[i] == before[i - 1] && after[j] == before[j - 1]);
                    }
                }
                assert forall|n: Seq<u8>, v: Seq<u8>| #[trigger] after.contains((n, v)) <==> ((n
                    == nb && v == encode_utf8(value@)) || (n != nb && before.contains((n, v)))) by {
                    if after.contains((n, v)) {
                        let k = choose|k: int| 0 <= k < after.len() && after[k] == (n, v);
                        if k < lo {
                            assert(before[k] == (n, v));
                            assert(str_less(n, nb));
                            lemma_str_less_irreflexive(nb);
                        } else if k > lo {
                            assert(before[k - 1] == (n, v));
                            assert(!str_less(n, nb));
                            if n == nb {
                            }
                        }
                        if k > lo && n == nb {
                            if lo < before.len() {
                                assert(before[lo as int].0 != nb);
                                if k - 1 > lo {
                                    assert(str_less(before[lo as int].0, before[k - 1].0));
                                    assert(str_less(nb, before[lo as int].0));
                                    lemma_str_less_transitive(nb, before[lo as int].0, nb);
                                    lemma_str_less_irreflexive(nb);
                                }
                            }
                        }
                    }
                    if n == nb && v == encode_utf8(value@) {
                        assert(after[lo as int] == (n, v));
                    }
                    if n != nb && before.contains((n, v)) {
                        let k = choose|k: int| 0 <= k < before.len() && before[k] == (n, v);
                        if k < lo {
                            assert(after[k] == (n, v));
                        } else {
                            assert(after[k + 1] == (n, v));
                        }
                    }
                }
            }
        }
    }

    /// Sets the value of `name` to the text of its file without its
    /// leading and trailing whitespace.
    pub fn insert_file(&mut self, name: String, text: &str)
        requires
            old(self).wf(),
        ensures
            final(self).wf(),
            final(self).visited() == old(self).visited(),
            forall|n: Seq<u8>, v: Seq<u8>| #[trigger] final(self).entries().contains((n, v)) <==> (
            (n == encode_utf8(name@) && v == crate::text::trimmed(text.spec_bytes())) || (n
                != encode_utf8(name@) && old(self).entries().contains((n, v)))),
    {
        let value = crate::text::trim(text).to_owned();
        self.insert(name, value);
    }

    /// How many names a directory of loose references may list: what is
    /// left of the scan limit, or `REF_SCAN_LIMIT` when the directory lies
    /// deeper than 32 levels or the limit is reached.
    pub fn listing_budget(&self, depth: usize) -> (res: Result<usize, Error>)
        ensures
            depth <= 32 && self.entries().len() < SCAN_LIMIT ==> res == Ok::<usize, Error>(
                (SCAN_LIMIT - self.entries().len()) as usize,
            ),
            !(depth <= 32 && self.entries().len() < SCAN_LIMIT) ==> res == Err::<usize, Error>(
                Error::RefScanLimit,
            ),
    {
        if depth <= 32 && self.entries.len() < SCAN_LIMIT {
            Ok(SCAN_LIMIT - self.entries.len())
        } else {
            Err(Error::RefScanLimit)
        }
    }

    /// Counts one more loose reference entry visited, refusing one past
    /// the scan limit.
    pub fn visit(&mut self) -> (res: Result<(), Error>)
        requires
            old(self).wf(),
        ensures
            final(self).wf(),
            final(self).entries() == old(self).entries(),
            old(self).visited() < SCAN_LIMIT ==> res is Ok && final(self).visited() == old(self).visited() + 1,
            old(self).visited() >= SCAN_LIMIT ==> res == Err::<(), Error>(Error::RefScanLimit),
    {
        if self.visited >= SCAN_LIMIT {
            return Err(Error::RefScanLimit);
        }
        self.visited = self.visited + 1;
        Ok(())
    }

    /// The table of the packed references, read first: a name listed twice
    /// keeps the value listed last.
    pub fn with_packed(packed: Vec<(String, String)>) -> (res: RefTable)
        ensures
            res.wf(),
            res.visited() == 0,
            forall|n: Seq<u8>, v: Seq<u8>| #[trigger] res.entries().contains((n, v)) <==> listed_last(
                refs_view(packed@),
                n,
                v,
            ),
    {
        let ghost pv = refs_view(packed@);
        let mut t = RefTable::new();
        let mut k: usize = 0;
        while k < packed.len()
            invariant
                k <= packed@.len(),
                pv == refs_view(packed@),
                t.wf(),
                t.visited() == 0,
                forall|n: Seq<u8>, v: Seq<u8>| #[trigger] t.entries().contains((n, v)) <==> listed_last(
                    pv.subrange(0, k as int),
                    n,
                    v,
                ),
            decreases packed@.len() - k,
        {
            let ghost before = t.entries();
            let ghost sub = pv.subrange(0, k as int);
            let ghost sub2 = pv.subrange(0, k + 1);
            let ghost item = pv[k as int];
            t.insert(packed[k].0.clone(), packed[k].1.clone());
            proof {
                assert(item == (encode_utf8(packed@[k as int].0@), encode_utf8(packed@[k as int].1@)));
                assert forall|n: Seq<u8>, v: Seq<u8>| #[trigger] t.entries().contains((n, v)) <==> listed_last(sub2, n, v) by {
                    if n == item.0 {
                        if v == item.1 {
                            assert(sub2[k as int] == (n, v));
                        }
                        if listed_last(sub2, n, v) {
                            let i = choose|i: int| 0 <= i < sub2.len() && sub2[i] == (n, v) && forall|j: int| i < j < sub2.len() ==> #[trigger] sub2[j].0 != n;
                            if i < k {
                                assert(sub2[k as int].0 == n);
                            }
                        }
                    } else {
                        if listed_last(sub, n, v) {
                            let i = choose|i: int| 0 <= i < sub.len() && sub[i] == (n, v) && forall|j: int| i < j < sub.len() ==> #[trigger] sub[j].0 != n;
                            assert(sub2[i] == (n, v));
                            assert forall|j: int| i < j < sub2.len() implies #[trigger] sub2[j].0 != n by {
                                if j < k {
                                    assert(sub2[j] == sub[j]);
                                }
                            }
                        }
                        if listed_last(sub2, n, v) {
                            let i = choose|i: int| 0 <= i < sub2.len() && sub2[i] == (n, v) && forall|j: int| i < j < sub2.len() ==> #[trigger] sub2[j].0 != n;
                            assert(i < k);
                            assert(sub[i] == (n, v));
                            assert forall|j: int| i < j < sub.len() implies #[trigger] sub[j].0 != n by {
                                assert(sub[j] == sub2[j]);
                            }
                        }
                    }
                }
            }
            k = k + 1;
        }
        assert(pv.subrange(0, k as int) =~= pv);
        t
    }

    /// The names and values once `HEAD` is read last, from the text of its
    /// file without leading and trailing whitespace, in ascending order of
    /// names.
    pub fn finish_with_head(self, head: &str) -> (res: Vec<(String, String)>)
        requires
            self.wf(),
        ensures
            names_ascending(refs_view(res@)),
            forall|n: Seq<u8>, v: Seq<u8>| #[trigger] refs_view(res@).contains((n, v)) <==> (
            (n == head_word() && v == crate::text::trimmed(head.spec_bytes())) || (n != head_word()
                && self.entries().contains((n, v)))),
    {
        let mut t = self;
        let name: [u8; 4] = [72u8, 69u8, 65u8, 68u8];
        assert(name@ =~= head_word());
        let key = crate::json::ascii_string(name.as_slice());
        t.insert_file(key, head);
        let ghost e = t.entries();
        let res = t.finish();
        assert(refs_view(res@) =~= e) by {
            assert forall|k: int| 0 <= k < res@.len() implies #[trigger] refs_view(res@)[k] == e[k] by {}
        }
        res
    }

    /// The names and values, in ascending order of names.
    pub fn finish(self) -> (res: Vec<(String, String)>)
        ensures
            pairs_hold(res@, self.entries()),
    {
        let res = self.entries;
        proof {
            assert forall|k: int| 0 <= k < res@.len() implies encode_utf8(#[trigger] res@[k].0@)
                == self.entries()[k].0 && encode_utf8(res@[k].1@) == self.entries()[k].1 by {}
        }
        res
    }
}

} // verus!
