//! Git object storage formats: object ids, loose objects, pack indexes,
//! pack entries and deltas.
use crate::bytes::{append_bytes, bytes_equal, find_byte, lemma_find_byte, position_of, to_vec};
use crate::error::Error;
use crate::output::FILE_LIMIT;
use vstd::prelude::*;
use vstd::slice::slice_subrange;
use vstd::string::StringSliceAdditionalSpecFns;
use vstd::utf8::{encode_utf8, valid_utf8};

verus! {

broadcast use vstd::slice::group_slice_axioms;

/// An ASCII hexadecimal digit, either case.
pub open spec fn is_hex_digit(c: u8) -> bool {
    (48 <= c <= 57) || (65 <= c <= 70) || (97 <= c <= 102)
}

/// Forty hexadecimal digits: a full SHA-1 object id.
pub open spec fn oid_bytes(b: Seq<u8>) -> bool {
    b.len() == 40 && forall|i: int| 0 <= i < 40 ==> is_hex_digit(#[trigger] b[i])
}

/// Whether `b` is a full hexadecimal SHA-1 object id.
pub fn is_oid_bytes(b: &[u8]) -> (res: bool)
    ensures
        res == oid_bytes(b@),
{
    if b.len() != 40 {
        return false;
    }
    let mut i: usize = 0;
    while i < 40
        invariant
            b@.len() == 40,
            i <= 40,
            forall|j: int| 0 <= j < i ==> is_hex_digit(#[trigger] b@[j]),
        decreases 40 - i,
    {
        let c = b[i];
        if !((48 <= c && c <= 57) || (65 <= c && c <= 70) || (97 <= c && c <= 102)) {
            return false;
        }
        i = i + 1;
    }
    true
}

/// Whether `s` is a full hexadecimal SHA-1 object id.
pub fn is_oid(s: &str) -> (res: bool)
    ensures
        res == oid_bytes(s.spec_bytes()),
{
    is_oid_bytes(s.as_bytes())
}

/// An object id's digits are ASCII, so valid UTF-8.
pub proof fn lemma_oid_utf8(b: Seq<u8>)
    requires
        oid_bytes(b),
    ensures
        valid_utf8(b),
{
    assert forall|i: int| 0 <= i < b.len() implies b[i] < 128 by {
        assert(is_hex_digit(b[i]));
    }
    crate::bytes::lemma_ascii_utf8(b);
}

/// `len` bytes of `b` from `offset`, or the reason they are not there.
pub fn slice(b: &[u8], offset: usize, len: usize) -> (res: Result<&[u8], Error>)
    ensures
        offset + len > usize::MAX ==> res == Err::<&[u8], Error>(Error::SizeOverflow),
        offset + len <= usize::MAX && offset + len > b@.len() ==> res == Err::<&[u8], Error>(
            Error::TruncatedGitData,
        ),
        offset + len <= b@.len() ==> (res matches Ok(r) && r@ == b@.subrange(
            offset as int,
            offset + len,
        )),
{
    let n = b.len();
    if offset > usize::MAX - len {
        return Err(Error::SizeOverflow);
    }
    let end = offset + len;
    if end > n {
        return Err(Error::TruncatedGitData);
    }
    let r = slice_subrange(b, offset, end);
    Ok(r)
}

/// Big-endian value of four bytes.
pub open spec fn be32(s: Seq<u8>) -> int {
    s[0] * 16777216 + s[1] * 65536 + s[2] * 256 + s[3]
}

/// The big-endian `u32` at `offset`, or the reason it is not there.
pub fn u32_at(b: &[u8], offset: usize) -> (res: Result<u32, Error>)
    ensures
        offset + 4 > usize::MAX ==> res == Err::<u32, Error>(Error::SizeOverflow),
        offset + 4 <= usize::MAX && offset + 4 > b@.len() ==> res == Err::<u32, Error>(
            Error::TruncatedGitData,
        ),
        offset + 4 <= b@.len() ==> res == Ok::<u32, Error>(
            be32(b@.subrange(offset as int, offset + 4)) as u32,
        ),
        res is Ok ==> res->Ok_0 as int == be32(b@.subrange(offset as int, offset + 4)),
{
    let s = slice(b, offset, 4)?;
    let v: u32 = (s[0] as u32) * 16777216 + (s[1] as u32) * 65536 + (s[2] as u32) * 256
        + (s[3] as u32);
    Ok(v)
}

/// A little-endian base-128 size in a delta, read from `pos` onwards with
/// `shift` bits already consumed: its value and the position after it.
pub open spec fn delta_varint(data: Seq<u8>, pos: int, shift: nat) -> Result<(int, int), Error>
    decreases 40 - shift,
{
    if shift >= 32 {
        Err(Error::DeltaSizeOverflow)
    } else if pos < 0 || pos >= data.len() {
        Err(Error::TruncatedDelta)
    } else {
        let b = data[pos];
        let v = (b % 128) * vstd::arithmetic::power2::pow2(shift);
        if b < 128 {
            Ok((v, pos + 1))
        } else {
            match delta_varint(data, pos + 1, shift + 7) {
                Ok((r, e)) => Ok((v + r, e)),
                Err(e) => Err(e),
            }
        }
    }
}

proof fn lemma_pow2_values()
    ensures
        vstd::arithmetic::power2::pow2(0) == 1,
        vstd::arithmetic::power2::pow2(7) == 128,
        vstd::arithmetic::power2::pow2(14) == 16384,
        vstd::arithmetic::power2::pow2(21) == 2097152,
        vstd::arithmetic::power2::pow2(28) == 268435456,
        vstd::arithmetic::power2::pow2(35) == 34359738368,
{
    vstd::arithmetic::power2::lemma2_to64();
    vstd::arithmetic::power2::lemma2_to64_rest();
}

/// Reads a delta size at `*pos`, advancing `*pos` past it.
fn varint(data: &[u8], pos: &mut usize) -> (res: Result<u64, Error>)
    ensures
        match delta_varint(data@, *old(pos) as int, 0) {
            Ok((v, e)) => res == Ok::<u64, Error>(v as u64) && *final(pos) == e && 0 <= v
                < 34359738368,
            Err(err) => res == Err::<u64, Error>(err),
        },
{
    let ghost start = *pos as int;
    let mut n: u64 = 0;
    let mut shift: u64 = 0;
    let mut mult: u64 = 1;
    proof {
        lemma_pow2_values();
    }
    loop
        invariant
            start == *old(pos) as int,
            shift <= 35,
            shift % 7 == 0,
            mult == vstd::arithmetic::power2::pow2(shift as nat),
            mult <= 34359738368,
            n < mult,
            delta_varint(data@, start, 0) == match delta_varint(data@, *pos as int, shift as nat) {
                Ok((r, e)) => Ok::<(int, int), Error>((n + r, e)),
                Err(e) => Err::<(int, int), Error>(e),
            },
        decreases 35 - shift,
    {
        proof {
            lemma_pow2_values();
        }
        if shift >= 32 {
            assert(delta_varint(data@, *pos as int, shift as nat) == Err::<(int, int), Error>(
                Error::DeltaSizeOverflow,
            ));
            return Err(Error::DeltaSizeOverflow);
        }
        if *pos >= data.len() {
            assert(delta_varint(data@, *pos as int, shift as nat) == Err::<(int, int), Error>(
                Error::TruncatedDelta,
            ));
            return Err(Error::TruncatedDelta);
        }
        assert(shift <= 28);
        assert(mult <= 268435456) by {
            if shift == 0 {} else if shift == 7 {} else if shift == 14 {} else if shift == 21 {} else {}
        }
        let b = data[*pos];
        *pos = *pos + 1;
        assert(((b % 128) as u64) * mult <= 127 * mult) by (nonlinear_arith)
            requires
                (b % 128) <= 127,
        ;
        let v: u64 = ((b % 128) as u64) * mult;
        assert(v <= 127 * mult) by (nonlinear_arith)
            requires
                v == (b % 128) * mult,
                b % 128 <= 127,
                mult > 0,
        ;
        if b < 128 {
            let total = n + v;
            return Ok(total);
        }
        n = n + v;
        shift = shift + 7;
        mult = mult * 128;
    }
}

/// The mask of bit `i` of a byte, for `i < 8`.
pub open spec fn bit_mask(i: nat) -> u8 {
    if i == 0 {
        1
    } else if i == 1 {
        2
    } else if i == 2 {
        4
    } else if i == 3 {
        8
    } else if i == 4 {
        16
    } else if i == 5 {
        32
    } else if i == 6 {
        64
    } else {
        128
    }
}

fn mask_of(i: u8) -> (m: u8)
    ensures
        m == bit_mask(i as nat),
{
    if i == 0 {
        1
    } else if i == 1 {
        2
    } else if i == 2 {
        4
    } else if i == 3 {
        8
    } else if i == 4 {
        16
    } else if i == 5 {
        32
    } else if i == 6 {
        64
    } else {
        128
    }
}

/// The little-endian argument of a delta copy instruction: for each of
/// `count` bits of `op` from bit `first`, a following byte when the bit is
/// set and a zero byte otherwise. Gives the value and the position after it.
pub open spec fn copy_argument(delta: Seq<u8>, p: int, op: u8, first: nat, count: nat) -> Result<
    (int, int),
    Error,
>
    decreases count,
{
    if count == 0 {
        Ok((0, p))
    } else if op & bit_mask(first) != 0 {
        if p < 0 || p >= delta.len() {
            Err(Error::TruncatedDelta)
        } else {
            match copy_argument(delta, p + 1, op, first + 1, (count - 1) as nat) {
                Ok((v, e)) => Ok((delta[p] + 256 * v, e)),
                Err(x) => Err(x),
            }
        }
    } else {
        match copy_argument(delta, p, op, first + 1, (count - 1) as nat) {
            Ok((v, e)) => Ok((256 * v, e)),
            Err(x) => Err(x),
        }
    }
}

pub proof fn lemma_copy_argument(delta: Seq<u8>, p: int, op: u8, first: nat, count: nat)
    ensures
        copy_argument(delta, p, op, first, count) matches Ok((v, e)) ==> p <= e <= p + count
            && 0 <= v < vstd::arithmetic::power2::pow2(8 * count) && (p <= delta.len() ==> e
            <= delta.len()),
    decreases count,
{
    vstd::arithmetic::power2::lemma2_to64();
    if count > 0 {
        lemma_copy_argument(delta, p + 1, op, first + 1, (count - 1) as nat);
        lemma_copy_argument(delta, p, op, first + 1, (count - 1) as nat);
        vstd::arithmetic::power2::lemma_pow2_adds(8, 8 * (count - 1) as nat);
        assert(8 + 8 * (count - 1) as nat == 8 * count);
    }
}

/// The result of the instructions of a delta from position `p`, with
/// `out` already produced towards a result of `len` bytes.
pub open spec fn delta_instructions(base: Seq<u8>, delta: Seq<u8>, p: int, out: Seq<u8>, len: int) -> Result<
    Seq<u8>,
    Error,
>
    decreases delta.len() - p,
{
    if p < 0 || p >= delta.len() {
        if out.len() == len {
            Ok(out)
        } else {
            Err(Error::DeltaOutputSizeMismatch)
        }
    } else {
        let op = delta[p];
        if op == 0 {
            Err(Error::InvalidDeltaOpcode)
        } else if op >= 128 {
            match copy_argument(delta, p + 1, op, 0, 4) {
                Err(x) => Err(x),
                Ok((offset, q)) => match copy_argument(delta, q, op, 4, 3) {
                    Err(x) => Err(x),
                    Ok((size0, r)) => {
                        let size = if size0 == 0 {
                            65536
                        } else {
                            size0
                        };
                        if out.len() + size > len {
                            Err(Error::DeltaOutputOverflow)
                        } else if offset + size > usize::MAX {
                            Err(Error::SizeOverflow)
                        } else if offset + size > base.len() {
                            Err(Error::TruncatedGitData)
                        } else {
                            proof {
                                lemma_copy_argument(delta, p + 1, op, 0, 4);
                                lemma_copy_argument(delta, q, op, 4, 3);
                            }
                            delta_instructions(
                                base,
                                delta,
                                r,
                                out + base.subrange(offset, offset + size),
                                len,
                            )
                        }
                    },
                },
            }
        } else {
            let n = op as int;
            if out.len() + n > len {
                Err(Error::DeltaOutputOverflow)
            } else if p + 1 + n > usize::MAX {
                Err(Error::SizeOverflow)
            } else if p + 1 + n > delta.len() {
                Err(Error::TruncatedGitData)
            } else {
                delta_instructions(base, delta, p + 1 + n, out + delta.subrange(p + 1, p + 1 + n), len)
            }
        }
    }
}

/// What applying `delta` to `base` gives: the base size and result size
/// headers, then copy and insert instructions that must produce exactly the
/// announced result.
pub open spec fn spec_apply_delta(base: Seq<u8>, delta: Seq<u8>) -> Result<Seq<u8>, Error> {
    match delta_varint(delta, 0, 0) {
        Err(e) => Err(e),
        Ok((base_size, p1)) => if base_size != base.len() {
            Err(Error::DeltaBaseSizeMismatch)
        } else {
            match delta_varint(delta, p1, 0) {
                Err(e) => Err(e),
                Ok((len, p2)) => if len > FILE_LIMIT {
                    Err(Error::GitObjectTooLarge)
                } else {
                    delta_instructions(base, delta, p2, Seq::empty(), len)
                },
            }
        },
    }
}

fn read_copy_argument(delta: &[u8], pos: &mut usize, op: u8, first: u8, count: u8) -> (res: Result<
    u64,
    Error,
>)
    requires
        first + count <= 8,
        count <= 4,
        *old(pos) <= delta@.len(),
    ensures
        match copy_argument(delta@, *old(pos) as int, op, first as nat, count as nat) {
            Ok((v, e)) => res == Ok::<u64, Error>(v as u64) && *final(pos) == e,
            Err(x) => res == Err::<u64, Error>(x),
        },
        res matches Ok(v) ==> v < vstd::arithmetic::power2::pow2(8 * count as nat),
        res is Ok ==> *old(pos) <= *final(pos) <= delta@.len(),
    decreases count,
{
    proof {
        vstd::arithmetic::power2::lemma2_to64();
        lemma_copy_argument(delta@, *pos as int, op, first as nat, count as nat);
    }
    if count == 0 {
        return Ok(0);
    }
    let m = mask_of(first);
    if op & m != 0 {
        if *pos >= delta.len() {
            return Err(Error::TruncatedDelta);
        }
        let b = delta[*pos];
        *pos = *pos + 1;
        let rest = read_copy_argument(delta, pos, op, first + 1, count - 1)?;
        assert(rest < 16777216);
        Ok(b as u64 + 256 * rest)
    } else {
        let rest = read_copy_argument(delta, pos, op, first + 1, count - 1)?;
        assert(rest < 16777216);
        Ok(256 * rest)
    }
}

/// Rebuilds an object from the base it was stored against and a delta.
pub fn apply_delta(base: &[u8], delta: &[u8]) -> (res: Result<Vec<u8>, Error>)
    ensures
        match spec_apply_delta(base@, delta@) {
            Ok(v) => res matches Ok(r) && r@ == v,
            Err(e) => res == Err::<Vec<u8>, Error>(e),
        },
{
    let mut p: usize = 0;
    let base_size = varint(delta, &mut p)?;
    if base_size != base.len() as u64 {
        return Err(Error::DeltaBaseSizeMismatch);
    }
    let len = varint(delta, &mut p)?;
    if len > FILE_LIMIT as u64 {
        return Err(Error::GitObjectTooLarge);
    }
    let len = len as usize;
    let mut out: Vec<u8> = Vec::new();
    let ghost goal = spec_apply_delta(base@, delta@);
    while p < delta.len()
        invariant
            len <= FILE_LIMIT,
            out@.len() <= len,
            goal == spec_apply_delta(base@, delta@),
            goal == delta_instructions(base@, delta@, p as int, out@, len as int),
        decreases delta@.len() - p,
    {
        let op = delta[p];
        let ghost p0 = p as int;
        p = p + 1;
        if op == 0 {
            return Err(Error::InvalidDeltaOpcode);
        }
        if op >= 128 {
            let ghost q0 = p as int;
            proof {
                lemma_copy_argument(delta@, q0, op, 0, 4);
            }
            let offset = read_copy_argument(delta, &mut p, op, 0, 4)?;
            let ghost q1 = p as int;
            proof {
                vstd::arithmetic::power2::lemma2_to64();
                assert(copy_argument(delta@, q0, op, 0, 4) == Ok::<(int, int), Error>(
                    (offset as int, q1),
                ));
                lemma_copy_argument(delta@, q1, op, 4, 3);
            }
            let size0 = read_copy_argument(delta, &mut p, op, 4, 3)?;
            proof {
                assert(copy_argument(delta@, q1, op, 4, 3) == Ok::<(int, int), Error>(
                    (size0 as int, p as int),
                ));
            }
            let size: u64 = if size0 == 0 {
                65536
            } else {
                size0
            };
            if out.len() as u64 + size > len as u64 {
                return Err(Error::DeltaOutputOverflow);
            }
            let piece = slice(base, offset as usize, size as usize)?;
            append_bytes(&mut out, piece);
        } else {
            let n = op as usize;
            if out.len() + n > len {
                return Err(Error::DeltaOutputOverflow);
            }
            let piece = slice(delta, p, n)?;
            append_bytes(&mut out, piece);
            p = p + n;
        }
    }
    if out.len() != len {
        return Err(Error::DeltaOutputSizeMismatch);
    }
    Ok(out)
}

/// The lowercase hexadecimal digit for a value below 16.
pub open spec fn hex_digit(d: int) -> char {
    if d < 10 {
        (48 + d) as char
    } else {
        (87 + d) as char
    }
}

/// Two lowercase hexadecimal digits per byte, high nibble first.
pub open spec fn hex_chars(b: Seq<u8>) -> Seq<char> {
    Seq::new(
        2 * b.len(),
        |i: int|
            if i % 2 == 0 {
                hex_digit((b[i / 2] / 16) as int)
            } else {
                hex_digit((b[i / 2] % 16) as int)
            },
    )
}

/// The value of an ASCII hexadecimal digit, either case.
pub open spec fn hex_value(c: u8) -> int {
    if 48 <= c <= 57 {
        c - 48
    } else if 65 <= c <= 70 {
        c - 55
    } else {
        c - 87
    }
}

/// The bytes that pairs of hexadecimal digits stand for.
pub open spec fn hex_bytes(s: Seq<u8>) -> Seq<u8> {
    Seq::new(s.len() / 2, |i: int| (hex_value(s[2 * i]) * 16 + hex_value(s[2 * i + 1])) as u8)
}

/// The SHA-1 digest of a byte sequence.
pub uninterp spec fn sha1_of(data: Seq<u8>) -> Seq<u8>;

/// `hex::encode`: the crate's source maps each byte to two characters of
/// its lowercase table "0123456789abcdef", high nibble first.
#[verifier::external_body]
pub(crate) fn hex_encode(data: &[u8]) -> (res: String)
    ensures
        res@ == hex_chars(data@),
{
    hex::encode(data)
}

/// `hex::decode` on forty hexadecimal digits: the crate's source turns each
/// pair of digits (either case) into one byte, high digit first; it fails
/// only on an odd length or a non-digit, which `requires` rules out.
#[verifier::external_body]
fn hex_decode_oid(s: &str) -> (res: Vec<u8>)
    requires
        oid_bytes(s.spec_bytes()),
    ensures
        res@ == hex_bytes(s.spec_bytes()),
{
    match hex::decode(s) {
        Ok(v) => v,
        Err(_) => Vec::new(),
    }
}

/// `sha1::Sha1::digest`: the SHA-1 digest of the data, which is always
/// twenty bytes long. What the digest is stays named, not stated.
#[verifier::external_body]
pub(crate) fn sha1_digest(data: &[u8]) -> (res: Vec<u8>)
    ensures
        res@ == sha1_of(data@),
        res@.len() == 20,
{
    <sha1::Sha1 as sha1::Digest>::digest(data).to_vec()
}

/// The decimal digits of `n`, most significant first, with no leading zero.
pub open spec fn decimal(n: nat) -> Seq<u8>
    decreases n,
{
    if n < 10 {
        seq![(48 + n) as u8]
    } else {
        decimal(n / 10).push((48 + n % 10) as u8)
    }
}

/// The decimal digits of `n`.
pub fn decimal_bytes(n: usize) -> (res: Vec<u8>)
    ensures
        res@ == decimal(n as nat),
    decreases n,
{
    if n < 10 {
        let mut v: Vec<u8> = Vec::new();
        v.push((48 + n) as u8);
        assert(v@ =~= seq![(48 + n) as u8]);
        v
    } else {
        let mut v = decimal_bytes(n / 10);
        v.push((48 + n % 10) as u8);
        v
    }
}

/// The decimal digits of `n`.
pub fn decimal_bytes_u128(n: u128) -> (res: Vec<u8>)
    ensures
        res@ == decimal(n as nat),
    decreases n,
{
    if n < 10 {
        let mut v: Vec<u8> = Vec::new();
        v.push((48 + n) as u8);
        assert(v@ =~= seq![(48 + n) as u8]);
        v
    } else {
        let mut v = decimal_bytes_u128(n / 10);
        v.push((48 + n % 10) as u8);
        v
    }
}

/// The header that Git hashes in front of an object's data: its kind, a
/// space, its size in decimal, and a zero byte.
pub open spec fn object_header(kind: Seq<u8>, size: nat) -> Seq<u8> {
    kind + seq![32u8] + decimal(size) + seq![0u8]
}

/// The id that Git gives an object of this kind and data.
pub open spec fn object_id(kind: Seq<u8>, data: Seq<u8>) -> Seq<char> {
    hex_chars(sha1_of(object_header(kind, data.len()) + data))
}

/// The object id of an object whose kind's name is `kind`.
pub fn object_id_of(kind: &[u8], data: &[u8]) -> (res: String)
    ensures
        res@ == object_id(kind@, data@),
{
    let mut all: Vec<u8> = Vec::new();
    append_bytes(&mut all, kind);
    all.push(32u8);
    let digits = decimal_bytes(data.len());
    append_bytes(&mut all, digits.as_slice());
    all.push(0u8);
    append_bytes(&mut all, data);
    assert(all@ =~= object_header(kind@, data@.len()) + data@);
    let digest = sha1_digest(all.as_slice());
    hex_encode(digest.as_slice())
}

/// The object id of an object of kind `kind` with this data.
pub fn hash_object(kind: &str, data: &[u8]) -> (res: String)
    ensures
        res@ == object_id(kind.spec_bytes(), data@),
{
    object_id_of(kind.as_bytes(), data)
}

/// The checks on a version-2 pack index: magic and version, an object count
/// of at most two million, room for the fan-out, id, CRC and offset tables
/// and both trailing checksums, and a SHA-1 over all but the last twenty
/// bytes that equals those twenty bytes.
pub open spec fn pack_index_check(b: Seq<u8>) -> Result<(), Error> {
    if b.len() < 4 {
        Err(Error::TruncatedGitData)
    } else if b.subrange(0, 4) != seq![255u8, 116u8, 79u8, 99u8] {
        Err(Error::PackIndexVersionUnsupported)
    } else if b.len() < 8 {
        Err(Error::TruncatedGitData)
    } else if be32(b.subrange(4, 8)) != 2 {
        Err(Error::PackIndexVersionUnsupported)
    } else if b.len() < 1032 {
        Err(Error::TruncatedGitData)
    } else if be32(b.subrange(1028, 1032)) > 2000000 {
        Err(Error::PackIndexTooLarge)
    } else if b.len() < 1032 + be32(b.subrange(1028, 1032)) * 28 + 40 {
        Err(Error::TruncatedPackIndex)
    } else if sha1_of(b.subrange(0, b.len() - 20)) != b.subrange(b.len() - 20, b.len() as int) {
        Err(Error::PackIndexChecksumMismatch)
    } else {
        Ok(())
    }
}

/// Checks that `b` is a well-formed version-2 pack index.
pub fn validate_index(b: &[u8]) -> (res: Result<(), Error>)
    ensures
        res == pack_index_check(b@),
{
    let magic = slice(b, 0, 4)?;
    let expected: [u8; 4] = [255u8, 116u8, 79u8, 99u8];
    let same = bytes_equal(magic, expected.as_slice());
    assert(expected@ =~= seq![255u8, 116u8, 79u8, 99u8]);
    if !same {
        return Err(Error::PackIndexVersionUnsupported);
    }
    let version = u32_at(b, 4)?;
    if version != 2 {
        return Err(Error::PackIndexVersionUnsupported);
    }
    let n = u32_at(b, 1028)?;
    if n > 2000000 {
        return Err(Error::PackIndexTooLarge);
    }
    let n = n as usize;
    if b.len() < 1032 + n * 28 + 40 {
        return Err(Error::TruncatedPackIndex);
    }
    let body = slice(b, 0, b.len() - 20)?;
    let digest = sha1_digest(body);
    let trailer = slice(b, b.len() - 20, 20)?;
    if !bytes_equal(digest.as_slice(), trailer) {
        return Err(Error::PackIndexChecksumMismatch);
    }
    Ok(())
}

/// `a` comes before `b` in byte-wise lexicographic order, both of the same length.
pub open spec fn lex_less(a: Seq<u8>, b: Seq<u8>) -> bool {
    exists|k: int|
        0 <= k < a.len() && k < b.len() && a[k] < b[k] && (forall|j: int|
            0 <= j < k ==> a[j] == b[j])
}

proof fn lemma_lex_less_transitive(a: Seq<u8>, b: Seq<u8>, c: Seq<u8>)
    requires
        lex_less(a, b),
        lex_less(b, c),
    ensures
        lex_less(a, c),
{
    let k1 = choose|k: int|
        0 <= k < a.len() && k < b.len() && a[k] < b[k] && (forall|j: int|
            0 <= j < k ==> a[j] == b[j]);
    let k2 = choose|k: int|
        0 <= k < b.len() && k < c.len() && b[k] < c[k] && (forall|j: int|
            0 <= j < k ==> b[j] == c[j]);
    let k = if k1 < k2 {
        k1
    } else {
        k2
    };
    assert(a[k] < c[k]);
    assert(forall|j: int| 0 <= j < k ==> a[j] == c[j]);
}

proof fn lemma_lex_less_irreflexive(a: Seq<u8>, b: Seq<u8>)
    requires
        lex_less(a, b),
    ensures
        a != b,
{
    let k = choose|k: int|
        0 <= k < a.len() && k < b.len() && a[k] < b[k] && (forall|j: int|
            0 <= j < k ==> a[j] == b[j]);
    assert(a[k] != b[k]);
}

/// Result of comparing two byte strings.
pub enum Order {
    Less,
    Equal,
    Greater,
}

fn compare_bytes(a: &[u8], b: &[u8]) -> (res: Order)
    requires
        a@.len() == b@.len(),
    ensures
        res is Less ==> lex_less(a@, b@),
        res is Greater ==> lex_less(b@, a@),
        res is Equal ==> a@ == b@,
{
    let mut i: usize = 0;
    while i < a.len()
        invariant
            a@.len() == b@.len(),
            i <= a@.len(),
            forall|j: int| 0 <= j < i ==> a@[j] == b@[j],
        decreases a@.len() - i,
    {
        if a[i] < b[i] {
            assert(0 <= i < a@.len() && i < b@.len() && a@[i as int] < b@[i as int] && (forall|j: int|
                0 <= j < i ==> a@[j] == b@[j]));
            return Order::Less;
        }
        if a[i] > b[i] {
            assert(0 <= i < b@.len() && i < a@.len() && b@[i as int] < a@[i as int] && (forall|j: int|
                0 <= j < i ==> b@[j] == a@[j]));
            return Order::Greater;
        }
        i = i + 1;
    }
    assert(a@ =~= b@);
    Order::Equal
}

/// Number of objects a pack index announces.
pub open spec fn index_count(idx: Seq<u8>) -> int {
    be32(idx.subrange(1028, 1032))
}

/// The id of the `i`-th object of a pack index.
pub open spec fn index_entry(idx: Seq<u8>, i: int) -> Seq<u8> {
    idx.subrange(1032 + 20 * i, 1032 + 20 * i + 20)
}

/// The ids of a pack index are in strictly ascending order.
pub open spec fn index_sorted(idx: Seq<u8>) -> bool {
    forall|i: int, j: int|
        0 <= i < j < index_count(idx) ==> lex_less(index_entry(idx, i), index_entry(idx, j))
}

/// Big-endian value of eight bytes.
pub open spec fn be64(s: Seq<u8>) -> int {
    be32(s.subrange(0, 4)) * 4294967296 + be32(s.subrange(4, 8))
}

/// The 32-bit offset slot of the `i`-th object.
pub open spec fn index_small_offset(idx: Seq<u8>, i: int) -> int {
    let n = index_count(idx);
    be32(idx.subrange(1032 + 24 * n + 4 * i, 1032 + 24 * n + 4 * i + 4))
}

/// The pack offset of the `i`-th object: its 32-bit slot, or, when that
/// slot has its top bit set, the 64-bit slot the other bits point at.
pub open spec fn index_offset(idx: Seq<u8>, i: int) -> int {
    let n = index_count(idx);
    let small = index_small_offset(idx, i);
    if small < 2147483648 {
        small
    } else {
        let at = 1032 + 28 * n + (small - 2147483648) * 8;
        be64(idx.subrange(at, at + 8))
    }
}

/// A pack index is long enough for its id and offset tables and for every
/// 64-bit offset slot that they point at.
pub open spec fn index_tables_present(idx: Seq<u8>) -> bool {
    &&& idx.len() >= 1032
    &&& idx.len() >= 1032 + 28 * index_count(idx)
    &&& forall|i: int|
        0 <= i < index_count(idx) && index_small_offset(idx, i) >= 2147483648 ==> 1032 + 28
            * index_count(idx) + (index_small_offset(idx, i) - 2147483648) * 8 + 8 <= idx.len()
}

fn u64_at(b: &[u8], offset: usize) -> (res: Result<u64, Error>)
    ensures
        offset + 8 > usize::MAX ==> res == Err::<u64, Error>(Error::SizeOverflow),
        offset + 8 <= usize::MAX && offset + 8 > b@.len() ==> res == Err::<u64, Error>(
            Error::TruncatedGitData,
        ),
        offset + 8 <= b@.len() ==> (res matches Ok(v) && v as int == be64(
            b@.subrange(offset as int, offset + 8),
        )),
{
    let s = slice(b, offset, 8)?;
    let hi: u64 = (s[0] as u64) * 16777216 + (s[1] as u64) * 65536 + (s[2] as u64) * 256 + (
    s[3] as u64);
    let lo: u64 = (s[4] as u64) * 16777216 + (s[5] as u64) * 65536 + (s[6] as u64) * 256 + (
    s[7] as u64);
    assert(s@.subrange(0, 4) =~= seq![s@[0], s@[1], s@[2], s@[3]]);
    assert(s@.subrange(4, 8) =~= seq![s@[4], s@[5], s@[6], s@[7]]);
    Ok(hi * 4294967296 + lo)
}

fn usize_from(v: u64) -> (res: Result<usize, Error>)
    ensures
        v > usize::MAX ==> res == Err::<usize, Error>(Error::SizeOverflow),
        v <= usize::MAX ==> res == Ok::<usize, Error>(v as usize),
{
    if v > usize::MAX as u64 {
        Err(Error::SizeOverflow)
    } else {
        Ok(v as usize)
    }
}

/// Looks an object id up in a pack index by binary search over its sorted
/// id table, giving the object's offset in the pack.
pub fn find_offset(idx: &[u8], id: &str) -> (res: Result<Option<u64>, Error>)
    requires
        oid_bytes(id.spec_bytes()),
    ensures
        res matches Ok(Some(off)) ==> exists|i: int|
            #![trigger index_entry(idx@, i)]
            0 <= i < index_count(idx@) && index_entry(idx@, i) == hex_bytes(id.spec_bytes())
                && off == index_offset(idx@, i),
        res matches Ok(None) ==> (index_sorted(idx@) ==> forall|i: int|
            0 <= i < index_count(idx@) ==> index_entry(idx@, i) != hex_bytes(id.spec_bytes())),
        index_tables_present(idx@) ==> res is Ok,
        res is Err ==> res == Err::<Option<u64>, Error>(Error::TruncatedGitData) || res == Err::<
            Option<u64>,
            Error,
        >(Error::SizeOverflow),
{
    let len = idx.len();
    let raw = hex_decode_oid(id);
    let ghost target = hex_bytes(id.spec_bytes());
    assert(raw@.len() == 20);
    let n = u32_at(idx, 1028)?;
    let ghost count = index_count(idx@);
    assert(n as int == count);
    let mut low: u64 = 0;
    let mut high: u64 = n as u64;
    while low < high
        invariant
            target == hex_bytes(id.spec_bytes()),
            raw@ == target,
            raw@.len() == 20,
            n as int == count,
            count == index_count(idx@),
            idx@.len() >= 1032,
            len == idx@.len(),
            low <= high <= n,
            index_sorted(idx@) ==> forall|i: int|
                0 <= i < low ==> lex_less(#[trigger] index_entry(idx@, i), target),
            index_sorted(idx@) ==> forall|i: int|
                high <= i < n ==> lex_less(target, #[trigger] index_entry(idx@, i)),
        decreases high - low,
    {
        let mid = (low + high) / 2;
        let at = usize_from(1032 + mid * 20)?;
        let candidate = slice(idx, at, 20)?;
        assert(candidate@ == index_entry(idx@, mid as int));
        match compare_bytes(candidate, raw.as_slice()) {
            Order::Less => {
                proof {
                    if index_sorted(idx@) {
                        assert forall|i: int| 0 <= i < mid + 1 implies lex_less(
                            #[trigger] index_entry(idx@, i),
                            target,
                        ) by {
                            if i < mid {
                                lemma_lex_less_transitive(
                                    index_entry(idx@, i),
                                    index_entry(idx@, mid as int),
                                    target,
                                );
                            }
                        }
                    }
                }
                low = mid + 1;
            },
            Order::Greater => {
                proof {
                    if index_sorted(idx@) {
                        assert forall|i: int| mid <= i < n implies lex_less(
                            target,
                            #[trigger] index_entry(idx@, i),
                        ) by {
                            if i > mid {
                                lemma_lex_less_transitive(
                                    target,
                                    index_entry(idx@, mid as int),
                                    index_entry(idx@, i),
                                );
                            }
                        }
                    }
                }
                high = mid;
            },
            Order::Equal => {
                let at = usize_from(1032 + (n as u64) * 24 + mid * 4)?;
                let small = u32_at(idx, at)?;
                assert(small as int == index_small_offset(idx@, mid as int));
                assert(index_entry(idx@, mid as int) == target);
                if small < 2147483648 {
                    assert(small as int == index_offset(idx@, mid as int));
                    return Ok(Some(small as u64));
                }
                let at = usize_from(1032 + (n as u64) * 28 + ((small - 2147483648) as u64) * 8)?;
                let large = u64_at(idx, at)?;
                assert(large as int == index_offset(idx@, mid as int));
                return Ok(Some(large));
            },
        }
    }
    proof {
        if index_sorted(idx@) {
            assert forall|i: int| 0 <= i < count implies index_entry(idx@, i) != target by {
                if i < low {
                    lemma_lex_less_irreflexive(index_entry(idx@, i), target);
                } else {
                    lemma_lex_less_irreflexive(target, index_entry(idx@, i));
                }
            }
        }
    }
    Ok(None)
}

/// The leading bytes, at most `limit` of them, that the zlib stream at the
/// start of `data` inflates to; `None` when the stream is corrupt.
pub uninterp spec fn zlib_inflated(data: Seq<u8>, limit: nat) -> Option<Seq<u8>>;

/// `flate2::read::ZlibDecoder` over `data`, read through `Read::take(limit)`
/// to the end: the inflated bytes, at most `limit` of them (what `take`
/// documents), or `None` when the decoder reports an error. Which bytes come
/// out stays named, not stated.
#[verifier::external_body]
fn zlib_inflate(data: &[u8], limit: u64) -> (res: Option<Vec<u8>>)
    ensures
        match zlib_inflated(data@, limit as nat) {
            Some(v) => res matches Some(r) && r@ == v,
            None => res is None,
        },
        res matches Some(r) ==> r@.len() <= limit,
{
    let mut out = Vec::new();
    match std::io::Read::read_to_end(
        &mut std::io::Read::take(flate2::read::ZlibDecoder::new(data), limit),
        &mut out,
    ) {
        Ok(_) => Some(out),
        Err(_) => None,
    }
}

/// What inflating a stored object gives: the inflated bytes, refused past
/// the largest object size plus room for a header.
pub open spec fn spec_read_zlib(data: Seq<u8>) -> Result<Seq<u8>, Error> {
    match zlib_inflated(data, (FILE_LIMIT + 129) as nat) {
        None => Err(Error::InvalidZlibStream),
        Some(v) => if v.len() > FILE_LIMIT + 128 {
            Err(Error::GitObjectTooLarge)
        } else {
            Ok(v)
        },
    }
}

/// Inflates a stored object.
pub fn read_zlib(data: &[u8]) -> (res: Result<Vec<u8>, Error>)
    ensures
        match spec_read_zlib(data@) {
            Ok(v) => res matches Ok(r) && r@ == v,
            Err(e) => res == Err::<Vec<u8>, Error>(e),
        },
{
    match zlib_inflate(data, (FILE_LIMIT + 129) as u64) {
        None => Err(Error::InvalidZlibStream),
        Some(v) => {
            if v.len() > FILE_LIMIT + 128 {
                Err(Error::GitObjectTooLarge)
            } else {
                Ok(v)
            }
        },
    }
}

/// The value of a string of decimal digits.
pub open spec fn digits_value(d: Seq<u8>) -> nat
    decreases d.len(),
{
    if d.len() == 0 {
        0
    } else {
        digits_value(d.drop_last()) * 10 + (d.last() - 48) as nat
    }
}

/// All bytes are ASCII decimal digits.
pub open spec fn all_digits(d: Seq<u8>) -> bool {
    forall|i: int| 0 <= i < d.len() ==> 48 <= #[trigger] d[i] <= 57
}

/// What `usize::from_str` accepts: an optional `+`, then at least one
/// decimal digit, for a value that fits.
pub open spec fn parse_unsigned(s: Seq<u8>) -> Option<nat> {
    let d = if s.len() > 0 && s[0] == 43 {
        s.subrange(1, s.len() as int)
    } else {
        s
    };
    if d.len() == 0 || !all_digits(d) || digits_value(d) > usize::MAX {
        None
    } else {
        Some(digits_value(d))
    }
}

/// Parses an unsigned decimal number as `usize::from_str` does.
pub fn parse_usize(s: &[u8]) -> (res: Option<usize>)
    ensures
        match parse_unsigned(s@) {
            Some(v) => res == Some(v as usize),
            None => res is None,
        },
{
    let mut i: usize = 0;
    if s.len() > 0 && s[0] == 43 {
        i = 1;
    }
    let ghost d = if s@.len() > 0 && s@[0] == 43 {
        s@.subrange(1, s@.len() as int)
    } else {
        s@
    };
    let start = i;
    if i >= s.len() {
        return None;
    }
    let mut v: usize = 0;
    let mut overflow = false;
    while i < s.len()
        invariant
            start <= i <= s@.len(),
            start == 0 || start == 1,
            d == s@.subrange(start as int, s@.len() as int),
            d == (if s@.len() > 0 && s@[0] == 43 {
                s@.subrange(1, s@.len() as int)
            } else {
                s@
            }),
            all_digits(s@.subrange(start as int, i as int)),
            !overflow ==> v == digits_value(s@.subrange(start as int, i as int)),
            overflow ==> digits_value(s@.subrange(start as int, i as int)) > usize::MAX,
        decreases s@.len() - i,
    {
        let c = s[i];
        if c < 48 || c > 57 {
            assert(d[i - start] == c);
            assert(!all_digits(d));
            return None;
        }
        let ghost prev = s@.subrange(start as int, i as int);
        assert(s@.subrange(start as int, i + 1).drop_last() =~= prev);
        assert(all_digits(s@.subrange(start as int, i + 1)));
        if !overflow {
            match v.checked_mul(10) {
                Some(t) => match t.checked_add((c - 48) as usize) {
                    Some(u) => {
                        v = u;
                    },
                    None => {
                        overflow = true;
                    },
                },
                None => {
                    overflow = true;
                    assert(digits_value(prev) * 10 > usize::MAX);
                },
            }
        } else {
            assert(digits_value(prev) * 10 >= digits_value(prev)) by (nonlinear_arith)
                requires
                    digits_value(prev) >= 0,
            ;
        }
        i = i + 1;
    }
    assert(s@.subrange(start as int, s@.len() as int) == d);
    if overflow {
        None
    } else {
        Some(v)
    }
}

/// The four kinds of Git object.
#[derive(Clone, Copy, Debug, PartialEq, Eq)]
pub enum ObjectKind {
    Blob,
    Tree,
    Commit,
    Tag,
}

/// The name Git writes for an object kind.
pub open spec fn kind_name(k: ObjectKind) -> Seq<u8> {
    match k {
        ObjectKind::Blob => seq![98u8, 108u8, 111u8, 98u8],
        ObjectKind::Tree => seq![116u8, 114u8, 101u8, 101u8],
        ObjectKind::Commit => seq![99u8, 111u8, 109u8, 109u8, 105u8, 116u8],
        ObjectKind::Tag => seq![116u8, 97u8, 103u8],
    }
}

/// The object kind a name stands for, if any.
pub open spec fn kind_of_name(name: Seq<u8>) -> Option<ObjectKind> {
    if name == kind_name(ObjectKind::Blob) {
        Some(ObjectKind::Blob)
    } else if name == kind_name(ObjectKind::Tree) {
        Some(ObjectKind::Tree)
    } else if name == kind_name(ObjectKind::Commit) {
        Some(ObjectKind::Commit)
    } else if name == kind_name(ObjectKind::Tag) {
        Some(ObjectKind::Tag)
    } else {
        None
    }
}

/// The bytes of an object kind's name.
pub fn kind_bytes(k: ObjectKind) -> (res: Vec<u8>)
    ensures
        res@ == kind_name(k),
{
    let v: Vec<u8> = match k {
        ObjectKind::Blob => vec![98u8, 108u8, 111u8, 98u8],
        ObjectKind::Tree => vec![116u8, 114u8, 101u8, 101u8],
        ObjectKind::Commit => vec![99u8, 111u8, 109u8, 109u8, 105u8, 116u8],
        ObjectKind::Tag => vec![116u8, 97u8, 103u8],
    };
    assert(v@ =~= kind_name(k));
    v
}

fn kind_from_name(name: &[u8]) -> (res: Option<ObjectKind>)
    ensures
        res == kind_of_name(name@),
{
    let blob = kind_bytes(ObjectKind::Blob);
    let tree = kind_bytes(ObjectKind::Tree);
    let commit = kind_bytes(ObjectKind::Commit);
    let tag = kind_bytes(ObjectKind::Tag);
    if bytes_equal(name, blob.as_slice()) {
        Some(ObjectKind::Blob)
    } else if bytes_equal(name, tree.as_slice()) {
        Some(ObjectKind::Tree)
    } else if bytes_equal(name, commit.as_slice()) {
        Some(ObjectKind::Commit)
    } else if bytes_equal(name, tag.as_slice()) {
        Some(ObjectKind::Tag)
    } else {
        None
    }
}

/// A Git object: its kind and its data.
#[derive(Clone, Debug)]
pub struct Object {
    pub kind: ObjectKind,
    pub data: Vec<u8>,
}

/// What an inflated loose object holds: a header of kind, space and
/// decimal size up to the first zero byte, then exactly that many bytes.
/// Gives the kind's name and the data.
pub open spec fn loose_object(b: Seq<u8>) -> Result<(Seq<u8>, Seq<u8>), Error> {
    match find_byte(b, 0, 0) {
        None => Err(Error::InvalidLooseObject),
        Some(end) => {
            let header = b.subrange(0, end);
            if !valid_utf8(header) {
                Err(Error::NonUtf8ObjectHeader)
            } else {
                match find_byte(header, 32, 0) {
                    None => Err(Error::InvalidObjectHeader),
                    Some(sp) => match parse_unsigned(header.subrange(sp + 1, header.len() as int)) {
                        None => Err(Error::InvalidObjectSize),
                        Some(n) => if n != b.len() - end - 1 {
                            Err(Error::ObjectSizeMismatch)
                        } else {
                            Ok((header.subrange(0, sp), b.subrange(end + 1, b.len() as int)))
                        },
                    },
                }
            }
        },
    }
}

/// Splits an inflated loose object into the name of its kind and its data.
pub fn parse_loose_object(b: &[u8]) -> (res: Result<(Vec<u8>, Vec<u8>), Error>)
    ensures
        match loose_object(b@) {
            Ok((k, d)) => res matches Ok((rk, rd)) && rk@ == k && rd@ == d,
            Err(e) => res == Err::<(Vec<u8>, Vec<u8>), Error>(e),
        },
{
    proof {
        lemma_find_byte(b@, 0, 0);
    }
    let end = match position_of(b, 0, 0) {
        None => return Err(Error::InvalidLooseObject),
        Some(e) => e,
    };
    assert(find_byte(b@, 0, 0) == Some(end as int));
    let header = slice_subrange(b, 0, end);
    assert(header@ == b@.subrange(0, end as int));
    if !crate::bytes::is_utf8(header) {
        return Err(Error::NonUtf8ObjectHeader);
    }
    proof {
        lemma_find_byte(header@, 32, 0);
    }
    let sp = match position_of(header, 32, 0) {
        None => return Err(Error::InvalidObjectHeader),
        Some(p) => p,
    };
    assert(find_byte(header@, 32, 0) == Some(sp as int));
    let size = slice_subrange(header, sp + 1, header.len());
    let n = match parse_usize(size) {
        None => return Err(Error::InvalidObjectSize),
        Some(n) => n,
    };
    if n != b.len() - end - 1 {
        return Err(Error::ObjectSizeMismatch);
    }
    let kind = to_vec(slice_subrange(header, 0, sp));
    let data = to_vec(slice_subrange(b, end + 1, b.len()));
    Ok((kind, data))
}

/// Checks an object read for `id`: its kind must be one of the four, its
/// data at most the object size limit, and kind and data must hash to `id`.
pub fn verified_object(id: &str, kind: &[u8], data: Vec<u8>) -> (res: Result<Object, Error>)
    ensures
        match kind_of_name(kind@) {
            None => res == Err::<Object, Error>(Error::InvalidObjectKind),
            Some(k) => if data@.len() > FILE_LIMIT {
                res == Err::<Object, Error>(Error::GitObjectTooLarge)
            } else if object_id(kind@, data@) != id@ {
                res == Err::<Object, Error>(Error::GitObjectHashMismatch)
            } else {
                res matches Ok(o) && o.kind == k && o.data@ == data@
            },
        },
{
    let k = match kind_from_name(kind) {
        None => return Err(Error::InvalidObjectKind),
        Some(k) => k,
    };
    if data.len() > FILE_LIMIT {
        return Err(Error::GitObjectTooLarge);
    }
    let computed = object_id_of(kind, data.as_slice());
    let wanted = id.to_owned();
    if computed != wanted {
        return Err(Error::GitObjectHashMismatch);
    }
    Ok(Object { kind: k, data })
}

/// Where a pack entry's object comes from.
#[derive(Clone, Debug)]
pub enum PackBase {
    /// The entry holds the whole object.
    Whole,
    /// The entry is a delta against the entry at this offset of the same pack.
    Offset(u64),
    /// The entry is a delta against the object with this id.
    Id(String),
}

/// The header of one entry in a pack file.
#[derive(Clone, Debug)]
pub struct PackEntry {
    /// The entry's type: 1 to 4 for whole objects, 6 and 7 for deltas.
    pub kind: u8,
    /// The size of the entry's inflated data.
    pub size: u64,
    pub base: PackBase,
    /// Where the compressed data starts, counted from the entry's offset.
    pub data_start: usize,
}

/// The size bits of a pack entry header after its first byte: seven per
/// byte, least significant first, starting at bit `shift`. Gives the value
/// of these bits and the position after the header.
pub open spec fn pack_size_rest(e: Seq<u8>, pos: int, shift: nat) -> Result<(int, int), Error>
    decreases 40 - shift,
{
    if shift >= 32 {
        Err(Error::PackSizeOverflow)
    } else if pos < 0 || pos >= e.len() {
        Err(Error::TruncatedPackEntry)
    } else {
        let b = e[pos];
        let v = (b % 128) * vstd::arithmetic::power2::pow2(shift);
        if b < 128 {
            Ok((v, pos + 1))
        } else {
            match pack_size_rest(e, pos + 1, shift + 7) {
                Ok((r, q)) => Ok((v + r, q)),
                Err(x) => Err(x),
            }
        }
    }
}

/// The type, the size and the position after the header of the pack entry
/// at the start of `e`.
pub open spec fn pack_entry_header(e: Seq<u8>) -> Result<(int, int, int), Error> {
    if e.len() == 0 {
        Err(Error::TruncatedPackEntry)
    } else {
        let first = e[0];
        let kind = (first / 16) % 8;
        if first < 128 {
            Ok((kind as int, (first % 16) as int, 1))
        } else {
            match pack_size_rest(e, 1, 4) {
                Ok((r, q)) => Ok((kind as int, first % 16 + r, q)),
                Err(x) => Err(x),
            }
        }
    }
}

/// The rest of the backwards distance of an offset delta: each byte adds
/// one to what came before, shifts it by seven bits and puts its own seven
/// bits below. Refused past eight bytes in all.
pub open spec fn ofs_distance_rest(e: Seq<u8>, pos: int, acc: int, count: nat) -> Result<
    (int, int),
    Error,
>
    decreases 8 - count,
{
    if count + 1 >= 8 {
        Err(Error::DeltaOffsetOverflow)
    } else if pos < 0 || pos >= e.len() {
        Err(Error::TruncatedPackEntry)
    } else {
        let b = e[pos];
        let next = (acc + 1) * 128 + b % 128;
        if b < 128 {
            Ok((next, pos + 1))
        } else {
            ofs_distance_rest(e, pos + 1, next, count + 1)
        }
    }
}

/// The backwards distance of an offset delta whose encoding starts at `pos`,
/// and the position after it.
pub open spec fn ofs_distance(e: Seq<u8>, pos: int) -> Result<(int, int), Error> {
    if pos < 0 || pos >= e.len() {
        Err(Error::TruncatedPackEntry)
    } else if e[pos] < 128 {
        Ok(((e[pos] % 128) as int, pos + 1))
    } else {
        ofs_distance_rest(e, pos + 1, (e[pos] % 128) as int, 0)
    }
}

/// The pack file's header: the magic `PACK` and version 2 or 3.
pub open spec fn pack_header_ok(header: Seq<u8>) -> bool {
    header.len() >= 12 && header.subrange(0, 4) == seq![80u8, 65u8, 67u8, 75u8] && (be32(
        header.subrange(4, 8),
    ) == 2 || be32(header.subrange(4, 8)) == 3)
}

/// What the entry at `offset` of a pack of `size` bytes is, given the pack's
/// first twelve bytes and the bytes from `offset` on.
pub open spec fn pack_entry(header: Seq<u8>, size: int, offset: int, e: Seq<u8>) -> Result<
    (int, int, Option<int>, Option<Seq<u8>>, int),
    Error,
> {
    if !(size >= 32 && offset >= 12 && offset < size - 20) {
        Err(Error::InvalidPackOffset)
    } else if !pack_header_ok(header) {
        Err(Error::InvalidPackHeader)
    } else {
        match pack_entry_header(e) {
            Err(x) => Err(x),
            Ok((kind, len, p)) => if len > FILE_LIMIT {
                Err(Error::GitObjectTooLarge)
            } else if kind == 6 {
                match ofs_distance(e, p) {
                    Err(x) => Err(x),
                    Ok((d, q)) => if d > 0 && d < offset {
                        Ok((kind, len, Some(offset - d), None, q))
                    } else {
                        Err(Error::InvalidDeltaOffset)
                    },
                }
            } else if kind == 7 {
                if p + 20 > e.len() {
                    Err(Error::TruncatedPackEntry)
                } else {
                    Ok((kind, len, None, Some(e.subrange(p, p + 20)), p + 20))
                }
            } else {
                Ok((kind, len, None, None, p))
            },
        }
    }
}

/// Whether `entry` is what `pack_entry` describes.
pub open spec fn entry_matches(
    entry: PackEntry,
    d: (int, int, Option<int>, Option<Seq<u8>>, int),
) -> bool {
    let (kind, len, ofs, id, start) = d;
    &&& entry.kind == kind
    &&& entry.size == len
    &&& entry.data_start == start
    &&& match entry.base {
        PackBase::Whole => ofs is None && id is None,
        PackBase::Offset(o) => ofs == Some(o as int) && id is None,
        PackBase::Id(s) => ofs is None && (id matches Some(raw) && s@ == hex_chars(raw)),
    }
}

fn read_pack_size(e: &[u8]) -> (res: Result<(u8, u64, usize), Error>)
    ensures
        match pack_entry_header(e@) {
            Ok((k, n, q)) => res matches Ok((rk, rn, rq)) && rk == k && rn == n && rq == q,
            Err(x) => res == Err::<(u8, u64, usize), Error>(x),
        },
{
    if e.len() == 0 {
        return Err(Error::TruncatedPackEntry);
    }
    let first = e[0];
    let kind = (first / 16) % 8;
    if first < 128 {
        return Ok((kind, (first % 16) as u64, 1));
    }
    let mut pos: usize = 1;
    let mut n: u64 = 0;
    let mut shift: u64 = 4;
    let mut mult: u64 = 16;
    proof {
        lemma_pow2_values();
        vstd::arithmetic::power2::lemma2_to64();
    }
    loop
        invariant
            1 <= pos <= e@.len(),
            4 <= shift <= 39,
            shift % 7 == 4,
            mult == vstd::arithmetic::power2::pow2(shift as nat),
            mult <= 549755813888,
            n < mult,
            kind == (e@[0] / 16) % 8,
            first == e@[0],
            e@[0] >= 128,
            pack_size_rest(e@, 1, 4) == match pack_size_rest(e@, pos as int, shift as nat) {
                Ok((r, q)) => Ok::<(int, int), Error>((n + r, q)),
                Err(x) => Err::<(int, int), Error>(x),
            },
        decreases 39 - shift,
    {
        proof {
            vstd::arithmetic::power2::lemma2_to64();
            vstd::arithmetic::power2::lemma2_to64_rest();
        }
        if shift >= 32 {
            return Err(Error::PackSizeOverflow);
        }
        if pos >= e.len() {
            return Err(Error::TruncatedPackEntry);
        }
        assert(mult <= 33554432) by {
            if shift == 4 {} else if shift == 11 {} else if shift == 18 {} else {}
        }
        let b = e[pos];
        let ghost at = pos as int;
        pos = pos + 1;
        assert(((b % 128) as u64) * mult <= 127 * mult) by (nonlinear_arith)
            requires
                (b % 128) <= 127,
        ;
        let v: u64 = ((b % 128) as u64) * mult;
        if b < 128 {
            assert(pack_size_rest(e@, at, shift as nat) == Ok::<(int, int), Error>(
                (v as int, pos as int),
            ));
            let total = n + v + (first % 16) as u64;
            return Ok((kind, total, pos));
        }
        n = n + v;
        shift = shift + 7;
        mult = mult * 128;
    }
}

/// A bound on an offset delta's distance after `count + 1` bytes.
spec fn distance_bound(count: int) -> int {
    if count <= 0 {
        128
    } else if count == 1 {
        16512
    } else if count == 2 {
        2113664
    } else if count == 3 {
        270549120
    } else if count == 4 {
        34630287488
    } else if count == 5 {
        4432676798592
    } else if count == 6 {
        567382630219904
    } else {
        72624976668147840
    }
}

fn read_ofs_distance(e: &[u8], pos: usize) -> (res: Result<(u64, usize), Error>)
    ensures
        match ofs_distance(e@, pos as int) {
            Ok((d, q)) => res matches Ok((rd, rq)) && rd == d && rq == q,
            Err(x) => res == Err::<(u64, usize), Error>(x),
        },
{
    if pos >= e.len() {
        return Err(Error::TruncatedPackEntry);
    }
    let b0 = e[pos];
    let mut acc: u64 = (b0 % 128) as u64;
    if b0 < 128 {
        return Ok((acc, pos + 1));
    }
    let mut p: usize = pos + 1;
    let mut count: u64 = 0;
    loop
        invariant
            pos < p <= e@.len(),
            count <= 7,
            acc < distance_bound(count as int),
            ofs_distance(e@, pos as int) == ofs_distance_rest(e@, p as int, acc as int, count as nat),
        decreases 8 - count,
    {
        if count + 1 >= 8 {
            return Err(Error::DeltaOffsetOverflow);
        }
        if p >= e.len() {
            return Err(Error::TruncatedPackEntry);
        }
        let b = e[p];
        assert((acc + 1) * 128 + 127 < distance_bound(count + 1)) by {
            if count == 0 {} else if count == 1 {} else if count == 2 {} else if count == 3 {}
            else if count == 4 {} else if count == 5 {} else {}
        }
        let next: u64 = (acc + 1) * 128 + (b % 128) as u64;
        p = p + 1;
        if b < 128 {
            return Ok((next, p));
        }
        acc = next;
        count = count + 1;
    }
}

/// Reads the header of the pack entry at `offset` in a pack of `size` bytes,
/// given the pack's first twelve bytes and the bytes from `offset` on.
pub fn parse_pack_entry(header: &[u8], size: u64, offset: u64, e: &[u8]) -> (res: Result<
    PackEntry,
    Error,
>)
    ensures
        match pack_entry(header@, size as int, offset as int, e@) {
            Ok(d) => res matches Ok(entry) && entry_matches(entry, d),
            Err(x) => res matches Err(y) && x == y,
        },
{
    if !(size >= 32 && offset >= 12 && offset < size - 20) {
        return Err(Error::InvalidPackOffset);
    }
    if header.len() < 12 {
        return Err(Error::InvalidPackHeader);
    }
    let magic: [u8; 4] = [80u8, 65u8, 67u8, 75u8];
    assert(magic@ =~= seq![80u8, 65u8, 67u8, 75u8]);
    let same = bytes_equal(slice_subrange(header, 0, 4), magic.as_slice());
    let version = u32_at(header, 4);
    let version_ok = match version {
        Ok(v) => v == 2 || v == 3,
        Err(_) => false,
    };
    if !same || !version_ok {
        return Err(Error::InvalidPackHeader);
    }
    let (kind, len, p) = read_pack_size(e)?;
    if len > FILE_LIMIT as u64 {
        return Err(Error::GitObjectTooLarge);
    }
    if kind == 6 {
        let (d, q) = read_ofs_distance(e, p)?;
        if d > 0 && d < offset {
            Ok(PackEntry { kind, size: len, base: PackBase::Offset(offset - d), data_start: q })
        } else {
            Err(Error::InvalidDeltaOffset)
        }
    } else if kind == 7 {
        if p > e.len() || e.len() - p < 20 {
            return Err(Error::TruncatedPackEntry);
        }
        let raw = slice_subrange(e, p, p + 20);
        let id = hex_encode(raw);
        Ok(PackEntry { kind, size: len, base: PackBase::Id(id), data_start: p + 20 })
    } else {
        Ok(PackEntry { kind, size: len, base: PackBase::Whole, data_start: p })
    }
}

/// The compressed bytes of an entry, from the bytes at its offset on: at
/// most the object size limit and some room past where its data starts.
pub open spec fn entry_stream(e: Seq<u8>, start: int) -> Seq<u8> {
    let end = if e.len() - start > FILE_LIMIT + 1024 {
        start + FILE_LIMIT + 1024
    } else {
        e.len() as int
    };
    e.subrange(start, end)
}

/// The compressed data of an entry, given the bytes from its offset on.
pub fn entry_data<'a>(e: &'a [u8], entry: &PackEntry) -> (res: &'a [u8])
    requires
        entry.data_start <= e@.len(),
    ensures
        res@ == entry_stream(e@, entry.data_start as int),
{
    let start = entry.data_start;
    let end = if e.len() - start > FILE_LIMIT + 1024 {
        start + FILE_LIMIT + 1024
    } else {
        e.len()
    };
    slice_subrange(e, start, end)
}

/// The object kind a whole pack entry's type stands for.
pub open spec fn pack_kind(kind: int) -> Option<ObjectKind> {
    if kind == 1 {
        Some(ObjectKind::Commit)
    } else if kind == 2 {
        Some(ObjectKind::Tree)
    } else if kind == 3 {
        Some(ObjectKind::Blob)
    } else if kind == 4 {
        Some(ObjectKind::Tag)
    } else {
        None
    }
}

/// Builds the object of a pack entry from its inflated data and, for a
/// delta, the object it is a delta against.
pub fn finish_pack_entry(entry: &PackEntry, base: Option<&Object>, data: Vec<u8>) -> (res: Result<
    Object,
    Error,
>)
    ensures
        data@.len() != entry.size ==> res == Err::<Object, Error>(Error::PackObjectSizeMismatch),
        data@.len() == entry.size ==> match base {
            Some(b) => match spec_apply_delta(b.data@, data@) {
                Ok(v) => res matches Ok(o) && o.kind == b.kind && o.data@ == v,
                Err(x) => res == Err::<Object, Error>(x),
            },
            None => match pack_kind(entry.kind as int) {
                Some(k) => res matches Ok(o) && o.kind == k && o.data@ == data@,
                None => res == Err::<Object, Error>(Error::InvalidPackObjectKind),
            },
        },
{
    if data.len() as u64 != entry.size {
        return Err(Error::PackObjectSizeMismatch);
    }
    match base {
        Some(b) => {
            let out = apply_delta(b.data.as_slice(), data.as_slice())?;
            Ok(Object { kind: b.kind, data: out })
        },
        None => {
            let kind = if entry.kind == 1 {
                ObjectKind::Commit
            } else if entry.kind == 2 {
                ObjectKind::Tree
            } else if entry.kind == 3 {
                ObjectKind::Blob
            } else if entry.kind == 4 {
                ObjectKind::Tag
            } else {
                return Err(Error::InvalidPackObjectKind);
            };
            Ok(Object { kind, data })
        },
    }
}

/// Reads a loose object file: inflates it, splits header from data and
/// checks the result against the id it was looked up by.
pub fn loose_object_from(id: &str, file: &[u8]) -> (res: Result<Object, Error>)
    ensures
        match spec_read_zlib(file@) {
            Err(x) => res == Err::<Object, Error>(x),
            Ok(raw) => match loose_object(raw) {
                Err(x) => res == Err::<Object, Error>(x),
                Ok((kind, data)) => match kind_of_name(kind) {
                    None => res == Err::<Object, Error>(Error::InvalidObjectKind),
                    Some(k) => if data.len() > FILE_LIMIT {
                        res == Err::<Object, Error>(Error::GitObjectTooLarge)
                    } else if object_id(kind, data) != id@ {
                        res == Err::<Object, Error>(Error::GitObjectHashMismatch)
                    } else {
                        res matches Ok(o) && o.kind == k && o.data@ == data
                    },
                },
            },
        },
{
    let raw = read_zlib(file)?;
    let (kind, data) = parse_loose_object(raw.as_slice())?;
    verified_object(id, kind.as_slice(), data)
}


/// The most object bytes one query may read: 128 MiB.
pub const OBJECT_BUDGET: usize = 134217728;

/// Objects are kept for reuse while the bytes read stay within 32 MiB.
pub const CACHE_BUDGET: usize = 33554432;

/// The object bytes a query has read so far.
#[derive(Clone, Copy, Debug)]
pub struct ObjectBudget {
    used: usize,
}

impl ObjectBudget {
    /// The bytes read so far.
    pub closed spec fn used(&self) -> nat {
        self.used as nat
    }

    /// Within the budget.
    pub closed spec fn wf(&self) -> bool {
        self.used <= OBJECT_BUDGET
    }

    /// Nothing read yet.
    pub fn new() -> (res: ObjectBudget)
        ensures
            res.wf(),
            res.used() == 0,
    {
        ObjectBudget { used: 0 }
    }

    /// Counts `n` more bytes read: refused with
    /// `GIT_QUERY_OBJECT_BUDGET_EXCEEDED` beyond the budget, else whether
    /// the object may still be kept for reuse.
    pub fn charge(&mut self, n: usize) -> (res: Result<bool, Error>)
        requires
            old(self).wf(),
        ensures
            final(self).wf(),
            old(self).used() + n > OBJECT_BUDGET ==> res == Err::<bool, Error>(
                Error::GitQueryObjectBudgetExceeded,
            ) && final(self).used() == old(self).used(),
            old(self).used() + n <= OBJECT_BUDGET ==> res == Ok::<bool, Error>(old(self).used() + n
                <= CACHE_BUDGET) && final(self).used() == old(self).used() + n,
    {
        if n > OBJECT_BUDGET - self.used {
            return Err(Error::GitQueryObjectBudgetExceeded);
        }
        self.used = self.used + n;
        Ok(self.used <= CACHE_BUDGET)
    }
}


/// `objects/`
pub open spec fn objects_dir() -> Seq<u8> {
    seq![111u8, 98u8, 106u8, 101u8, 99u8, 116u8, 115u8, 47u8]
}

/// The path of a loose object: `objects/`, the id's first two digits, `/`
/// and the other thirty-eight.
pub open spec fn loose_object_path(id: Seq<u8>) -> Seq<u8> {
    objects_dir() + id.subrange(0, 2) + seq![47u8] + id.subrange(2, id.len() as int)
}

/// The path where the loose object `id` is stored, or `INVALID_OBJECT_ID`
/// for anything but a full hexadecimal id.
pub fn loose_path(id: &str) -> (res: Result<String, Error>)
    ensures
        oid_bytes(id.spec_bytes()) ==> (res matches Ok(p) && encode_utf8(p@) == loose_object_path(
            id.spec_bytes(),
        )),
        !oid_bytes(id.spec_bytes()) ==> res == Err::<String, Error>(Error::InvalidObjectId),
{
    if !is_oid(id) {
        return Err(Error::InvalidObjectId);
    }
    let b = id.as_bytes();
    let word: [u8; 8] = [111u8, 98u8, 106u8, 101u8, 99u8, 116u8, 115u8, 47u8];
    let mut v: Vec<u8> = Vec::new();
    append_bytes(&mut v, word.as_slice());
    append_bytes(&mut v, slice_subrange(b, 0, 2));
    v.push(47u8);
    append_bytes(&mut v, slice_subrange(b, 2, 40));
    assert(v@ =~= loose_object_path(b@));
    proof {
        assert forall|i: int| 0 <= i < v@.len() implies v@[i] < 128 by {
            if 10 < i {
                assert(v@[i] == b@[i - 9]);
                assert(is_hex_digit(b@[i - 9]));
            } else if 8 <= i < 10 {
                assert(v@[i] == b@[i - 8]);
                assert(is_hex_digit(b@[i - 8]));
            }
        }
        crate::bytes::lemma_ascii_utf8(v@);
        vstd::utf8::decode_utf8_encode_utf8(v@);
    }
    Ok(crate::bytes::string_of(v.as_slice()))
}

/// `.idx`
pub open spec fn idx_word() -> Seq<u8> {
    seq![46u8, 105u8, 100u8, 120u8]
}

/// `.pack`
pub open spec fn pack_word() -> Seq<u8> {
    seq![46u8, 112u8, 97u8, 99u8, 107u8]
}

/// `objects/pack/`
pub open spec fn pack_dir() -> Seq<u8> {
    objects_dir() + seq![112u8, 97u8, 99u8, 107u8, 47u8]
}

/// Whether a name ends in `.idx`.
pub open spec fn ends_with_idx(n: Seq<u8>) -> bool {
    n.len() >= 4 && n.subrange(n.len() - 4, n.len() as int) == idx_word()
}

/// A name with every trailing `.idx` taken off.
pub open spec fn trim_idx(n: Seq<u8>) -> Seq<u8>
    decreases n.len(),
{
    if ends_with_idx(n) {
        trim_idx(n.subrange(0, n.len() - 4))
    } else {
        n
    }
}

/// The pack indexes among the names of the pack directory, in the order
/// listed: for each name ending in `.idx`, the index's path and its pack's
/// path, which is the name without every trailing `.idx`, then `.pack`.
pub open spec fn pack_pairs(names: Seq<Seq<u8>>) -> Seq<(Seq<u8>, Seq<u8>)>
    decreases names.len(),
{
    if names.len() == 0 {
        seq![]
    } else {
        let rest = pack_pairs(names.drop_last());
        let n = names.last();
        if ends_with_idx(n) {
            rest.push((pack_dir() + n, pack_dir() + trim_idx(n) + pack_word()))
        } else {
            rest
        }
    }
}

fn string_from_valid(v: &Vec<u8>) -> (res: String)
    requires
        valid_utf8(v@),
    ensures
        encode_utf8(res@) == v@,
{
    proof {
        vstd::utf8::decode_utf8_encode_utf8(v@);
    }
    crate::bytes::string_of(v.as_slice())
}

/// The index and pack paths of the pack indexes listed in the pack
/// directory.
pub fn pack_index_paths(names: &Vec<String>) -> (res: Vec<(String, String)>)
    ensures
        crate::git::refs::pairs_hold(res@, pack_pairs(crate::git::history::strs_view(names@))),
{
    let ghost all = crate::git::history::strs_view(names@);
    let dir: [u8; 13] = [
        111u8, 98u8, 106u8, 101u8, 99u8, 116u8, 115u8, 47u8, 112u8, 97u8, 99u8, 107u8, 47u8,
    ];
    let suffix: [u8; 5] = [46u8, 112u8, 97u8, 99u8, 107u8];
    let idx: [u8; 4] = [46u8, 105u8, 100u8, 120u8];
    assert(dir@ =~= pack_dir());
    assert(suffix@ =~= pack_word());
    assert(idx@ =~= idx_word());
    proof {
        crate::bytes::lemma_ascii_utf8(dir@);
        crate::bytes::lemma_ascii_utf8(suffix@);
    }
    let mut out: Vec<(String, String)> = Vec::new();
    let mut k: usize = 0;
    while k < names.len()
        invariant
            k <= names@.len(),
            all == crate::git::history::strs_view(names@),
            dir@ == pack_dir(),
            suffix@ == pack_word(),
            idx@ == idx_word(),
            valid_utf8(dir@),
            valid_utf8(suffix@),
            out@.len() == pack_pairs(all.subrange(0, k as int)).len(),
            forall|j: int|
                0 <= j < out@.len() ==> encode_utf8(#[trigger] out@[j].0@) == pack_pairs(
                    all.subrange(0, k as int),
                )[j].0 && encode_utf8(out@[j].1@) == pack_pairs(all.subrange(0, k as int))[j].1,
        decreases names@.len() - k,
    {
        let n = names[k].as_str().as_bytes();
        assert(n@ == all[k as int]);
        proof {
            vstd::utf8::encode_utf8_valid_utf8(names@[k as int]@);
        }
        let ghost prev = pack_pairs(all.subrange(0, k as int));
        assert(all.subrange(0, k + 1).drop_last() =~= all.subrange(0, k as int));
        let ends = n.len() >= 4 && bytes_equal(slice_subrange(n, n.len() - 4, n.len()), idx.as_slice());
        assert(ends == ends_with_idx(n@));
        if ends {
            let mut end = n.len();
            assert(n@.subrange(0, end as int) =~= n@);
            while end >= 4 && bytes_equal(slice_subrange(n, end - 4, end), idx.as_slice())
                invariant
                    end <= n@.len(),
                    idx@ == idx_word(),
                    trim_idx(n@) == trim_idx(n@.subrange(0, end as int)),
                    valid_utf8(n@.subrange(0, end as int)),
                decreases end,
            {
                let ghost m = n@.subrange(0, end as int);
                assert(m.subrange(m.len() - 4, m.len() as int) =~= n@.subrange(end - 4, end as int));
                assert(m.subrange(0, m.len() - 4) =~= n@.subrange(0, end - 4));
                proof {
                    assert(m[end - 4] == 46u8);
                    crate::bytes::lemma_utf8_piece(m, 0, end - 4);
                }
                end = end - 4;
            }
            proof {
                let m = n@.subrange(0, end as int);
                if end >= 4 {
                    assert(m.subrange(m.len() - 4, m.len() as int) =~= n@.subrange(end - 4, end as int));
                }
                assert(!ends_with_idx(m));
            }
            let mut ip: Vec<u8> = Vec::new();
            append_bytes(&mut ip, dir.as_slice());
            append_bytes(&mut ip, n);
            proof {
                vstd::utf8::valid_utf8_concat(dir@, n@);
            }
            assert(ip@ =~= pack_dir() + n@);
            let mut pp: Vec<u8> = Vec::new();
            append_bytes(&mut pp, dir.as_slice());
            append_bytes(&mut pp, slice_subrange(n, 0, end));
            append_bytes(&mut pp, suffix.as_slice());
            proof {
                let m = n@.subrange(0, end as int);
                vstd::utf8::valid_utf8_concat(dir@, m);
                vstd::utf8::valid_utf8_concat(dir@ + m, suffix@);
                assert(pp@ =~= pack_dir() + m + pack_word());
            }
            let a = string_from_valid(&ip);
            let b = string_from_valid(&pp);
            let ghost before = out@;
            out.push((a, b));
            proof {
                assert forall|j: int| 0 <= j < out@.len() implies encode_utf8(#[trigger] out@[j].0@)
                    == pack_pairs(all.subrange(0, k + 1))[j].0 && encode_utf8(out@[j].1@)
                    == pack_pairs(all.subrange(0, k + 1))[j].1 by {
                    if j < before.len() {
                        assert(out@[j] == before[j]);
                    }
                }
            }
        }
        k = k + 1;
    }
    assert(all.subrange(0, k as int) =~= all);
    assert(pack_pairs(all.subrange(0, k as int)) == pack_pairs(all));
    assert(crate::git::refs::pairs_hold(out@, pack_pairs(all)));
    out
}

/// A repository's pack indexes together may take 128 MiB.
pub const PACK_INDEX_BUDGET: usize = 134217728;

/// The pack indexes of a repository, each checked, with the bytes they take.
pub struct PackIndexes {
    total: usize,
    list: Vec<(String, Vec<u8>)>,
}

impl PackIndexes {
    /// The bytes the indexes taken so far hold.
    pub closed spec fn total(&self) -> nat {
        self.total as nat
    }

    /// Each pack's path and its index, in the order taken.
    pub closed spec fn list(&self) -> Seq<(Seq<char>, Seq<u8>)> {
        self.list@.map_values(|e: (String, Vec<u8>)| (e.0@, e.1@))
    }

    /// Within the budget.
    pub closed spec fn wf(&self) -> bool {
        self.total <= PACK_INDEX_BUDGET
    }

    /// No index yet.
    pub fn new() -> (res: PackIndexes)
        ensures
            res.wf(),
            res.total() == 0,
            res.list() == Seq::<(Seq<char>, Seq<u8>)>::empty(),
    {
        let res = PackIndexes { total: 0, list: Vec::new() };
        assert(res.list() =~= Seq::<(Seq<char>, Seq<u8>)>::empty());
        res
    }

    /// Takes the index of the pack at `pack`: refused with
    /// `PACK_INDEX_BUDGET_EXCEEDED` when the indexes would hold more than
    /// the budget, and with the check's refusal when it is malformed.
    pub fn take(&mut self, pack: String, idx: Vec<u8>) -> (res: Result<(), Error>)
        requires
            old(self).wf(),
        ensures
            final(self).wf(),
            old(self).total() + idx@.len() > PACK_INDEX_BUDGET ==> res == Err::<(), Error>(
                Error::PackIndexBudgetExceeded,
            ),
            old(self).total() + idx@.len() <= PACK_INDEX_BUDGET ==> match pack_index_check(idx@) {
                Err(e) => res == Err::<(), Error>(e),
                Ok(_) => res is Ok && final(self).total() == old(self).total() + idx@.len()
                    && final(self).list() == old(self).list().push((pack@, idx@)),
            },
    {
        if idx.len() > PACK_INDEX_BUDGET - self.total {
            return Err(Error::PackIndexBudgetExceeded);
        }
        validate_index(idx.as_slice())?;
        self.total = self.total + idx.len();
        let ghost before = self.list@;
        self.list.push((pack, idx));
        assert(self.list@.map_values(|e: (String, Vec<u8>)| (e.0@, e.1@)) =~= before.map_values(
            |e: (String, Vec<u8>)| (e.0@, e.1@),
        ).push((pack@, idx@)));
        Ok(())
    }

    /// The packs and their indexes, in the order taken.
    pub fn finish(self) -> (res: Vec<(String, Vec<u8>)>)
        ensures
            res@.map_values(|e: (String, Vec<u8>)| (e.0@, e.1@)) == self.list(),
    {
        self.list
    }
}


/// The metadata whose presence a repository is refused for, in the order
/// checked: a linked worktree's `commondir` and `gitdir` and a main
/// repository's `worktrees`, then storage the reader does not read:
/// `shallow`, `objects/info/alternates`, `objects/info/http-alternates` and
/// `reftable`. Given which of them are present, the first refusal, if any.
pub open spec fn storage_verdict(worktree: Seq<bool>, storage: Seq<bool>) -> Result<(), Error> {
    if worktree[0] {
        Err(Error::WorktreeUnsupportedCommondir)
    } else if worktree[1] {
        Err(Error::WorktreeUnsupportedGitdir)
    } else if worktree[2] {
        Err(Error::WorktreeUnsupportedWorktrees)
    } else if storage[0] {
        Err(Error::StorageUnsupportedShallow)
    } else if storage[1] {
        Err(Error::StorageUnsupportedAlternates)
    } else if storage[2] {
        Err(Error::StorageUnsupportedHttpAlternates)
    } else if storage[3] {
        Err(Error::StorageUnsupportedReftable)
    } else {
        Ok(())
    }
}

/// Refuses a repository with a linked worktree or storage the reader does
/// not read, given which of `commondir`, `gitdir`, `worktrees` and which of
/// `shallow`, `objects/info/alternates`, `objects/info/http-alternates`,
/// `reftable` its metadata holds.
pub fn storage_check(worktree_present: [bool; 3], storage_present: [bool; 4]) -> (res: Result<(), Error>)
    ensures
        res == storage_verdict(worktree_present@, storage_present@),
        worktree_present@[0] ==> res == Err::<(), Error>(Error::WorktreeUnsupportedCommondir),
        !worktree_present@[0] && worktree_present@[1] ==> res == Err::<(), Error>(Error::WorktreeUnsupportedGitdir),
        !worktree_present@[0] && !worktree_present@[1] && worktree_present@[2] ==> res == Err::<(), Error>(Error::WorktreeUnsupportedWorktrees),
        (forall|i: int| 0 <= i < 3 ==> !worktree_present@[i]) && storage_present@[0] ==> res == Err::<(), Error>(Error::StorageUnsupportedShallow),
        (forall|i: int| 0 <= i < 3 ==> !worktree_present@[i]) && !storage_present@[0] && storage_present@[1] ==> res == Err::<(), Error>(Error::StorageUnsupportedAlternates),
        (forall|i: int| 0 <= i < 3 ==> !worktree_present@[i]) && !storage_present@[0] && !storage_present@[1] && storage_present@[2] ==> res == Err::<(), Error>(Error::StorageUnsupportedHttpAlternates),
        (forall|i: int| 0 <= i < 3 ==> !worktree_present@[i]) && !storage_present@[0] && !storage_present@[1] && !storage_present@[2] && storage_present@[3] ==> res == Err::<(), Error>(Error::StorageUnsupportedReftable),
        (forall|i: int| 0 <= i < 3 ==> !worktree_present@[i]) && (forall|i: int| 0 <= i < 4 ==> !storage_present@[i]) ==> res is Ok,
{
    if worktree_present[0] {
        Err(Error::WorktreeUnsupportedCommondir)
    } else if worktree_present[1] {
        Err(Error::WorktreeUnsupportedGitdir)
    } else if worktree_present[2] {
        Err(Error::WorktreeUnsupportedWorktrees)
    } else if storage_present[0] {
        Err(Error::StorageUnsupportedShallow)
    } else if storage_present[1] {
        Err(Error::StorageUnsupportedAlternates)
    } else if storage_present[2] {
        Err(Error::StorageUnsupportedHttpAlternates)
    } else if storage_present[3] {
        Err(Error::StorageUnsupportedReftable)
    } else {
        Ok(())
    }
}


/// Whether pack index `idx` lists the object whose raw id is `target`, at
/// pack offset `off`.
pub open spec fn index_lists(idx: Seq<u8>, target: Seq<u8>, off: u64) -> bool {
    exists|i: int|
        #![trigger index_entry(idx, i)]
        0 <= i < index_count(idx) && index_entry(idx, i) == target && off == index_offset(idx, i)
}

/// Whether no entry of pack index `idx` is the raw id `target`.
pub open spec fn index_lacks(idx: Seq<u8>, target: Seq<u8>) -> bool {
    forall|i: int| 0 <= i < index_count(idx) ==> index_entry(idx, i) != target
}

/// The pack that holds object `id`, looked for in the order the packs were
/// taken: the first whose index lists it, with the object's offset there;
/// `MISSING_OBJECT` when none does. An index too short for the ids it
/// announces is refused as `find_offset` refuses it.
pub fn find_in_packs(indexes: &Vec<(String, Vec<u8>)>, id: &str) -> (res: Result<(usize, u64), Error>)
    requires
        oid_bytes(id.spec_bytes()),
    ensures
        res is Ok ==> res->Ok_0.0 < indexes@.len() && index_lists(
            indexes@[res->Ok_0.0 as int].1@,
            hex_bytes(id.spec_bytes()),
            res->Ok_0.1,
        ),
        res is Ok ==> forall|j: int|
            0 <= j < res->Ok_0.0 && index_sorted(#[trigger] indexes@[j].1@) ==> index_lacks(
                indexes@[j].1@,
                hex_bytes(id.spec_bytes()),
            ),
        res == Err::<(usize, u64), Error>(Error::MissingObject) ==> forall|j: int|
            0 <= j < indexes@.len() && index_sorted(#[trigger] indexes@[j].1@) ==> index_lacks(
                indexes@[j].1@,
                hex_bytes(id.spec_bytes()),
            ),
        (forall|j: int| 0 <= j < indexes@.len() ==> index_tables_present(#[trigger] indexes@[j].1@))
            ==> (res is Ok || res == Err::<(usize, u64), Error>(Error::MissingObject)),
        res is Err ==> res == Err::<(usize, u64), Error>(Error::MissingObject) || res == Err::<
            (usize, u64),
            Error,
        >(Error::TruncatedGitData) || res == Err::<(usize, u64), Error>(Error::SizeOverflow),
{
    let mut k: usize = 0;
    while k < indexes.len()
        invariant
            k <= indexes@.len(),
            oid_bytes(id.spec_bytes()),
            forall|j: int|
                0 <= j < k && index_sorted(#[trigger] indexes@[j].1@) ==> index_lacks(
                    indexes@[j].1@,
                    hex_bytes(id.spec_bytes()),
                ),
        decreases indexes@.len() - k,
    {
        let idx = indexes[k].1.as_slice();
        assert(idx@ == indexes@[k as int].1@);
        match find_offset(idx, id) {
            Ok(Some(off)) => {
                assert(index_lists(idx@, hex_bytes(id.spec_bytes()), off));
                return Ok((k, off));
            },
            Ok(None) => {
                assert(index_sorted(idx@) ==> index_lacks(idx@, hex_bytes(id.spec_bytes())));
            },
            Err(e) => {
                proof {
                    if forall|j: int| 0 <= j < indexes@.len() ==> index_tables_present(#[trigger] indexes@[j].1@) {
                        assert(index_tables_present(indexes@[k as int].1@));
                    }
                }
                return Err(e);
            },
        }
        k = k + 1;
    }
    Err(Error::MissingObject)
}

/// A copy instruction lists its offset bytes before its size bytes: with
/// one offset byte and one size byte (opcode `0x91`), the instruction at
/// `p` appends `delta[p + 2]` bytes of the base (65536 when that is zero)
/// from offset `delta[p + 1]` on, and applying goes on after it.
pub proof fn lemma_copy_offset_then_size(base: Seq<u8>, delta: Seq<u8>, p: int, out: Seq<u8>, len: int)
    requires
        0 <= p,
        p + 2 < delta.len(),
        delta[p] == 0x91,
    ensures
        ({
            let offset = delta[p + 1] as int;
            let size = if delta[p + 2] == 0 {
                65536int
            } else {
                delta[p + 2] as int
            };
            delta_instructions(base, delta, p, out, len) == if out.len() + size > len {
                Err(Error::DeltaOutputOverflow)
            } else if offset + size > usize::MAX {
                Err(Error::SizeOverflow)
            } else if offset + size > base.len() {
                Err(Error::TruncatedGitData)
            } else {
                delta_instructions(base, delta, p + 3, out + base.subrange(offset, offset + size), len)
            }
        }),
{
    let op: u8 = 0x91;
    assert(bit_mask(0) == 1u8 && bit_mask(1) == 2u8 && bit_mask(2) == 4u8 && bit_mask(3) == 8u8);
    assert(bit_mask(4) == 16u8 && bit_mask(5) == 32u8 && bit_mask(6) == 64u8);
    assert((0x91u8 & 1u8) != 0u8 && (0x91u8 & 2u8) == 0u8 && (0x91u8 & 4u8) == 0u8 && (0x91u8 & 8u8) == 0u8)
        by (bit_vector);
    assert((0x91u8 & 16u8) != 0u8 && (0x91u8 & 32u8) == 0u8 && (0x91u8 & 64u8) == 0u8) by (bit_vector);
    assert(copy_argument(delta, p + 2, op, 4, 0) == Ok::<(int, int), Error>((0, p + 2)));
    assert(copy_argument(delta, p + 2, op, 3, 1) == Ok::<(int, int), Error>((0, p + 2)));
    assert(copy_argument(delta, p + 2, op, 2, 2) == Ok::<(int, int), Error>((0, p + 2)));
    assert(copy_argument(delta, p + 2, op, 1, 3) == Ok::<(int, int), Error>((0, p + 2)));
    assert(copy_argument(delta, p + 1, op, 0, 4) == Ok::<(int, int), Error>((delta[p + 1] as int, p + 2)));
    assert(copy_argument(delta, p + 3, op, 7, 0) == Ok::<(int, int), Error>((0, p + 3)));
    assert(copy_argument(delta, p + 3, op, 6, 1) == Ok::<(int, int), Error>((0, p + 3)));
    assert(copy_argument(delta, p + 3, op, 5, 2) == Ok::<(int, int), Error>((0, p + 3)));
    assert(copy_argument(delta, p + 2, op, 4, 3) == Ok::<(int, int), Error>((delta[p + 2] as int, p + 3)));
}

/// Applying a delta of one copy instruction to a short base gives exactly
/// the base bytes it names: for a base of fewer than 128 bytes, the delta
/// `[base length, s, 0x91, o, s]` with `0 < s < 128` and `o + s` within
/// the base rebuilds `base[o .. o + s]`.
pub proof fn lemma_single_copy_delta(base: Seq<u8>, o: u8, s: u8)
    requires
        base.len() < 128,
        0 < s < 128,
        o + s <= base.len(),
    ensures
        spec_apply_delta(base, seq![base.len() as u8, s, 0x91u8, o, s]) == Ok::<Seq<u8>, Error>(
            base.subrange(o as int, o + s),
        ),
{
    let delta = seq![base.len() as u8, s, 0x91u8, o, s];
    vstd::arithmetic::power2::lemma2_to64();
    assert(delta_varint(delta, 0, 0) == Ok::<(int, int), Error>((base.len() as int, 1)));
    assert(delta_varint(delta, 1, 0) == Ok::<(int, int), Error>((s as int, 2)));
    lemma_copy_offset_then_size(base, delta, 2, Seq::empty(), s as int);
    let out = Seq::<u8>::empty() + base.subrange(o as int, o + s);
    assert(out =~= base.subrange(o as int, o + s));
    assert(delta_instructions(base, delta, 5, out, s as int) == Ok::<Seq<u8>, Error>(out));
}

} // verus!
