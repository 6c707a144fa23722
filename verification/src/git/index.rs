//! The format of Git's index file, versions 2 to 4.
use crate::bytes::{at_boundary, find_byte, lemma_find_byte, lemma_utf8_piece, position_of, string_of};
use crate::error::Error;
use crate::git::objects::TreeEntry;
use crate::git::store::{be32, hex_chars, hex_encode, sha1_of, slice, u32_at};
use crate::output::{FILE_LIMIT, SCAN_LIMIT};
use vstd::prelude::*;
use vstd::slice::slice_subrange;
use vstd::string::StringSliceAdditionalSpecFns;
use vstd::utf8::{decode_utf8, is_continuation_byte, valid_utf8};

verus! {

broadcast use vstd::slice::group_slice_axioms;

/// A big-endian 16-bit number.
pub open spec fn be16(s: Seq<u8>) -> int {
    s[0] * 256 + s[1]
}

/// The rest of a version-4 prefix length after its first byte: each byte
/// adds one to what came before, shifts it by seven bits and puts its own
/// seven bits below. Refused past five bytes in all.
pub open spec fn strip_rest(b: Seq<u8>, pos: int, acc: int, steps: nat) -> Result<(int, int), Error>
    decreases 5 - steps,
{
    if steps + 1 >= 5 {
        Err(Error::IndexPrefixOverflow)
    } else if pos < 0 || pos >= b.len() {
        Err(Error::TruncatedIndex)
    } else {
        let c = b[pos];
        let next = (acc + 1) * 128 + c % 128;
        if c < 128 {
            Ok((next, pos + 1))
        } else {
            strip_rest(b, pos + 1, next, steps + 1)
        }
    }
}

/// How many bytes of the previous path a version-4 entry drops, and where
/// its own path starts.
pub open spec fn strip_len(b: Seq<u8>, pos: int) -> Result<(int, int), Error> {
    if pos < 0 || pos >= b.len() {
        Err(Error::TruncatedIndex)
    } else if b[pos] < 128 {
        Ok((b[pos] as int, pos + 1))
    } else {
        strip_rest(b, pos + 1, (b[pos] % 128) as int, 0)
    }
}

/// Where the fixed part of an entry at `p` ends, after its optional
/// extended flags, or why the entry is refused.
pub open spec fn entry_fixed(b: Seq<u8>, p: int) -> Result<(int, int), Error> {
    if p + 62 > b.len() {
        Err(Error::TruncatedGitData)
    } else {
        let flags = be16(b.subrange(p + 60, p + 62));
        if (flags / 4096) % 4 != 0 {
            Err(Error::UnmergedIndexUnsupported)
        } else if (flags / 16384) % 2 == 1 {
            if p + 64 > b.len() {
                Err(Error::TruncatedGitData)
            } else if (be16(b.subrange(p + 62, p + 64)) / 8192) % 2 == 1 {
                Err(Error::IntentToAddUnsupported)
            } else {
                Ok((flags, p + 64))
            }
        } else {
            Ok((flags, p + 62))
        }
    }
}

/// The path of an entry whose fixed part ends at `q`, after an entry whose
/// path was `prev`, and where its zero byte is.
pub open spec fn entry_path(b: Seq<u8>, q: int, version: int, prev: Seq<u8>) -> Result<
    (Seq<u8>, int),
    Error,
> {
    match (if version == 4 {
        strip_len(b, q)
    } else {
        Ok((0, q))
    }) {
        Err(e) => Err(e),
        Ok((strip, r)) => if r > b.len() {
            Err(Error::TruncatedIndex)
        } else {
            match find_byte(b, 0, r) {
                None => Err(Error::InvalidIndexPath),
                Some(end) => {
                    let suffix = b.subrange(r, end);
                    if !valid_utf8(suffix) {
                        Err(Error::NonUtf8IndexPath)
                    } else if version == 4 && !(strip <= prev.len() && at_boundary(
                        prev,
                        prev.len() - strip,
                    )) {
                        Err(Error::InvalidIndexPrefix)
                    } else if version == 4 {
                        Ok((prev.subrange(0, prev.len() - strip) + suffix, end))
                    } else {
                        Ok((suffix, end))
                    }
                },
            }
        },
    }
}

/// The entry at `p` of an index of version `version`, after an entry whose
/// path was `prev`: mode, raw id, path and where the next entry starts.
pub open spec fn index_entry(b: Seq<u8>, p: int, version: int, prev: Seq<u8>) -> Result<
    (int, Seq<u8>, Seq<u8>, int),
    Error,
> {
    match entry_fixed(b, p) {
        Err(e) => Err(e),
        Ok((_, q)) => match entry_path(b, q, version, prev) {
            Err(e) => Err(e),
            Ok((path, end)) => match crate::fs::path_components(path, false) {
                Err(e) => Err(e),
                Ok(_) => {
                    let mode = be32(b.subrange(p + 24, p + 28));
                    if mode == 16384 {
                        Err(Error::SparseIndexUnsupported)
                    } else {
                        let next = if version < 4 {
                            p + ((end + 1 - p + 7) / 8) * 8
                        } else {
                            end + 1
                        };
                        Ok((mode, b.subrange(p + 40, p + 60), path, next))
                    }
                },
            },
        },
    }
}

/// The next `n` entries from `p`, after those in `acc`: mode, raw id and
/// path of each, and where they end.
pub open spec fn index_entries(
    b: Seq<u8>,
    p: int,
    version: int,
    prev: Seq<u8>,
    n: nat,
    acc: Seq<(int, Seq<u8>, Seq<u8>)>,
) -> Result<(Seq<(int, Seq<u8>, Seq<u8>)>, int), Error>
    decreases n,
{
    if n == 0 {
        Ok((acc, p))
    } else {
        match index_entry(b, p, version, prev) {
            Err(e) => Err(e),
            Ok((mode, raw, path, next)) => index_entries(
                b,
                next,
                version,
                path,
                (n - 1) as nat,
                acc.push((mode, raw, path)),
            ),
        }
    }
}

/// The extensions after the entries, from `p` on: each a four-byte name
/// starting with an uppercase letter (one the reader may skip) and a
/// big-endian length. Gives where they end.
pub open spec fn index_extensions(b: Seq<u8>, p: int) -> Result<int, Error>
    decreases b.len() - p,
{
    if p < 0 || p >= b.len() - 20 {
        Ok(p)
    } else if p + 8 > b.len() {
        Err(Error::TruncatedGitData)
    } else if !(65 <= b[p] <= 90) {
        Err(Error::RequiredIndexExtensionUnsupported)
    } else {
        let len = be32(b.subrange(p + 4, p + 8));
        if p + 8 + len > usize::MAX {
            Err(Error::SizeOverflow)
        } else if p + 8 + len > b.len() {
            Err(Error::TruncatedGitData)
        } else {
            index_extensions(b, p + 8 + len)
        }
    }
}

/// What an index file lists: mode, raw id and path of each entry, in the
/// order of the file, or why it is refused.
pub open spec fn index_listing(b: Seq<u8>) -> Result<Seq<(int, Seq<u8>, Seq<u8>)>, Error> {
    if b.len() < 32 || b.subrange(0, 4) != seq![68u8, 73u8, 82u8, 67u8] {
        Err(Error::InvalidIndex)
    } else if sha1_of(b.subrange(0, b.len() - 20)) != b.subrange(b.len() - 20, b.len() as int) {
        Err(Error::IndexChecksumMismatch)
    } else {
        let version = be32(b.subrange(4, 8));
        let count = be32(b.subrange(8, 12));
        if !(2 <= version <= 4) {
            Err(Error::IndexVersionUnsupported)
        } else if count > SCAN_LIMIT {
            Err(Error::IndexEntryLimit)
        } else {
            match index_entries(b, 12, version, seq![], count as nat, seq![]) {
                Err(e) => Err(e),
                Ok((entries, q)) => match index_extensions(b, q) {
                    Err(e) => Err(e),
                    Ok(end) => if end != b.len() - 20 {
                        Err(Error::InvalidIndexLength)
                    } else {
                        Ok(entries)
                    },
                },
            }
        }
    }
}

/// A bound on a prefix length after `steps + 1` bytes.
spec fn strip_bound(steps: int) -> int {
    if steps <= 0 {
        128
    } else if steps == 1 {
        16512
    } else if steps == 2 {
        2113664
    } else if steps == 3 {
        270549120
    } else {
        34630287488
    }
}

fn read_strip(b: &[u8], pos: usize) -> (res: Result<(u64, usize), Error>)
    ensures
        match strip_len(b@, pos as int) {
            Ok((n, q)) => res matches Ok((rn, rq)) && rn == n && rq == q && q > pos,
            Err(e) => res matches Err(x) && x == e,
        },
{
    if pos >= b.len() {
        return Err(Error::TruncatedIndex);
    }
    let c0 = b[pos];
    if c0 < 128 {
        return Ok((c0 as u64, pos + 1));
    }
    let mut acc: u64 = (c0 % 128) as u64;
    let mut p: usize = pos + 1;
    let mut steps: u64 = 0;
    loop
        invariant
            pos < p <= b@.len(),
            steps <= 4,
            acc < strip_bound(steps as int),
            strip_len(b@, pos as int) == strip_rest(b@, p as int, acc as int, steps as nat),
        decreases 5 - steps,
    {
        if steps + 1 >= 5 {
            return Err(Error::IndexPrefixOverflow);
        }
        if p >= b.len() {
            return Err(Error::TruncatedIndex);
        }
        let c = b[p];
        assert((acc + 1) * 128 + 127 < strip_bound(steps + 1)) by {
            if steps == 0 {} else if steps == 1 {} else if steps == 2 {} else {}
        }
        let next: u64 = (acc + 1) * 128 + (c % 128) as u64;
        p = p + 1;
        if c < 128 {
            return Ok((next, p));
        }
        acc = next;
        steps = steps + 1;
    }
}

fn u16_at(b: &[u8], offset: usize) -> (res: Result<u16, Error>)
    requires
        offset + 2 <= usize::MAX,
    ensures
        offset + 2 > b@.len() ==> res == Err::<u16, Error>(Error::TruncatedGitData),
        offset + 2 <= b@.len() ==> res == Ok::<u16, Error>(
            be16(b@.subrange(offset as int, offset + 2)) as u16,
        ),
{
    let s = slice(b, offset, 2)?;
    Ok((s[0] as u16) * 256 + (s[1] as u16))
}

fn read_fixed(b: &[u8], p: usize) -> (res: Result<usize, Error>)
    requires
        b@.len() <= FILE_LIMIT,
        p <= b@.len() + 8,
    ensures
        match entry_fixed(b@, p as int) {
            Ok((_, q)) => res == Ok::<usize, Error>(q as usize) && q <= b@.len(),
            Err(e) => res matches Err(x) && x == e,
        },
{
    if p > b.len() || b.len() - p < 62 {
        return Err(Error::TruncatedGitData);
    }
    let flags = u16_at(b, p + 60)?;
    let mut q = p + 62;
    if (flags / 4096) % 4 != 0 {
        return Err(Error::UnmergedIndexUnsupported);
    }
    if (flags / 16384) % 2 == 1 {
        let ext = u16_at(b, q)?;
        q = q + 2;
        if (ext / 8192) % 2 == 1 {
            return Err(Error::IntentToAddUnsupported);
        }
    }
    Ok(q)
}

fn read_entry_path(b: &[u8], q: usize, version: u32, prev: &[u8]) -> (res: Result<
    (Vec<u8>, usize),
    Error,
>)
    requires
        q <= b@.len(),
        valid_utf8(prev@),
    ensures
        match entry_path(b@, q as int, version as int, prev@) {
            Ok((path, end)) => res matches Ok((rpath, rend)) && rpath@ == path && rend == end
                && valid_utf8(path) && q <= end < b@.len(),
            Err(e) => res matches Err(x) && x == e,
        },
{
    let (strip, r) = if version == 4 {
        read_strip(b, q)?
    } else {
        (0u64, q)
    };
    if r > b.len() {
        return Err(Error::TruncatedIndex);
    }
    proof {
        lemma_find_byte(b@, 0, r as int);
    }
    let end = match position_of(b, 0, r) {
        None => return Err(Error::InvalidIndexPath),
        Some(e) => e,
    };
    let suffix = slice_subrange(b, r, end);
    if !crate::bytes::is_utf8(suffix) {
        return Err(Error::NonUtf8IndexPath);
    }
    let mut path: Vec<u8> = Vec::new();
    if version == 4 {
        if !(strip <= prev.len() as u64) {
            return Err(Error::InvalidIndexPrefix);
        }
        let k = prev.len() - strip as usize;
        if k < prev.len() && 128 <= prev[k] && prev[k] <= 191 {
            return Err(Error::InvalidIndexPrefix);
        }
        proof {
            lemma_utf8_piece(prev@, 0, k as int);
        }
        crate::bytes::append_bytes(&mut path, slice_subrange(prev, 0, k));
    }
    crate::bytes::append_bytes(&mut path, suffix);
    proof {
        broadcast use vstd::utf8::group_utf8_lib;

        assert(valid_utf8(path@));
    }
    Ok((path, end))
}

proof fn lemma_next_entry(p: int, end: int, len: int)
    requires
        0 <= p <= end < len,
    ensures
        p < p + ((end + 1 - p + 7) / 8) * 8 <= len + 7,
{
    let k = end + 1 - p;
    assert(k <= ((k + 7) / 8) * 8 <= k + 7) by (nonlinear_arith)
        requires
            k >= 1,
    ;
}

fn read_entry(b: &[u8], p: usize, version: u32, prev: &[u8]) -> (res: Result<
    (u32, String, Vec<u8>, usize),
    Error,
>)
    requires
        b@.len() <= FILE_LIMIT,
        p <= b@.len() + 8,
        valid_utf8(prev@),
    ensures
        match index_entry(b@, p as int, version as int, prev@) {
            Ok((mode, raw, path, next)) => res matches Ok((rm, oid, rpath, rnext)) && rm == mode
                && oid@ == hex_chars(raw) && rpath@ == path && rnext == next && valid_utf8(path)
                && p < next <= b@.len() + 8,
            Err(e) => res matches Err(x) && x == e,
        },
{
    let q = read_fixed(b, p)?;
    let (path, end) = read_entry_path(b, q, version, prev)?;
    let path_text = string_of(path.as_slice());
    let path_str = path_text.as_str();
    proof {
        broadcast use vstd::utf8::group_utf8_lib;

        assert(path_str.spec_bytes() == path@);
    }
    crate::fs::validate_path(path_str, false)?;
    let mode = u32_at(b, p + 24)?;
    if mode == 16384 {
        return Err(Error::SparseIndexUnsupported);
    }
    let raw = slice(b, p + 40, 20)?;
    proof {
        lemma_next_entry(p as int, end as int, b@.len() as int);
    }
    let next = if version < 4 {
        p + ((end + 1 - p + 7) / 8) * 8
    } else {
        end + 1
    };
    Ok((mode, hex_encode(raw), path, next))
}

/// Reads an index file: each entry's path, mode and id, in the order of
/// the file.
pub fn parse_index(b: &[u8]) -> (res: Result<Vec<TreeEntry>, Error>)
    requires
        b@.len() <= FILE_LIMIT,
    ensures
        match index_listing(b@) {
            Ok(items) => res matches Ok(v) && v@.len() == items.len() && forall|k: int|
                0 <= k < items.len() ==> {
                    &&& #[trigger] v@[k].path@ == decode_utf8(items[k].2)
                    &&& v@[k].mode == items[k].0
                    &&& v@[k].oid@ == hex_chars(items[k].1)
                },
            Err(e) => res matches Err(x) && x == e,
        },
{
    let dirc: [u8; 4] = [68u8, 73u8, 82u8, 67u8];
    assert(dirc@ =~= seq![68u8, 73u8, 82u8, 67u8]);
    if b.len() < 32 || !crate::bytes::bytes_equal(slice_subrange(b, 0, 4), dirc.as_slice()) {
        return Err(Error::InvalidIndex);
    }
    let digest = crate::git::store::sha1_digest(slice_subrange(b, 0, b.len() - 20));
    if !crate::bytes::bytes_equal(digest.as_slice(), slice_subrange(b, b.len() - 20, b.len())) {
        return Err(Error::IndexChecksumMismatch);
    }
    let version = u32_at(b, 4)?;
    if !(2 <= version && version <= 4) {
        return Err(Error::IndexVersionUnsupported);
    }
    let count = u32_at(b, 8)?;
    if count as usize > SCAN_LIMIT {
        return Err(Error::IndexEntryLimit);
    }
    let mut out: Vec<TreeEntry> = Vec::new();
    let ghost mut done: Seq<(int, Seq<u8>, Seq<u8>)> = seq![];
    let mut prev: Vec<u8> = Vec::new();
    let mut p: usize = 12;
    let mut i: u32 = 0;
    proof {
        crate::bytes::lemma_ascii_utf8(prev@);
    }
    assert(index_listing(b@) == match index_entries(b@, 12, version as int, seq![], count as nat, seq![]) {
                Err(e) => Err::<Seq<(int, Seq<u8>, Seq<u8>)>, Error>(e),
                Ok((entries, q)) => match index_extensions(b@, q) {
                    Err(e) => Err::<Seq<(int, Seq<u8>, Seq<u8>)>, Error>(e),
                    Ok(end) => if end != b@.len() - 20 {
                        Err::<Seq<(int, Seq<u8>, Seq<u8>)>, Error>(Error::InvalidIndexLength)
                    } else {
                        Ok::<Seq<(int, Seq<u8>, Seq<u8>)>, Error>(entries)
                    },
                },
            });
    while i < count
        invariant
            index_listing(b@) == match index_entries(b@, 12, version as int, seq![], count as nat, seq![]) {
                Err(e) => Err::<Seq<(int, Seq<u8>, Seq<u8>)>, Error>(e),
                Ok((entries, q)) => match index_extensions(b@, q) {
                    Err(e) => Err::<Seq<(int, Seq<u8>, Seq<u8>)>, Error>(e),
                    Ok(end) => if end != b@.len() - 20 {
                        Err::<Seq<(int, Seq<u8>, Seq<u8>)>, Error>(Error::InvalidIndexLength)
                    } else {
                        Ok::<Seq<(int, Seq<u8>, Seq<u8>)>, Error>(entries)
                    },
                },
            },
            b@.len() <= FILE_LIMIT,
            i <= count,
            p <= b@.len() + 8,
            valid_utf8(prev@),
            index_entries(b@, 12, version as int, seq![], count as nat, seq![]) == index_entries(
                b@,
                p as int,
                version as int,
                prev@,
                (count - i) as nat,
                done,
            ),
            out@.len() == done.len(),
            forall|k: int|
                0 <= k < done.len() ==> {
                    &&& #[trigger] out@[k].path@ == decode_utf8(done[k].2)
                    &&& out@[k].mode == done[k].0
                    &&& out@[k].oid@ == hex_chars(done[k].1)
                },
        decreases count - i,
    {
        let (mode, oid, path, next) = read_entry(b, p, version, prev.as_slice())?;
        let path_text = string_of(path.as_slice());
        out.push(TreeEntry { path: path_text, mode, oid });
        proof {
            let item = (mode as int, index_entry(b@, p as int, version as int, prev@)->Ok_0.1, path@);
            done = done.push(item);
        }
        prev = path;
        p = next;
        i = i + 1;
    }
    let total = b.len();
    assert(index_listing(b@) == match index_extensions(b@, p as int) {
        Err(e) => Err::<Seq<(int, Seq<u8>, Seq<u8>)>, Error>(e),
        Ok(end) => if end != b@.len() - 20 {
            Err::<Seq<(int, Seq<u8>, Seq<u8>)>, Error>(Error::InvalidIndexLength)
        } else {
            Ok::<Seq<(int, Seq<u8>, Seq<u8>)>, Error>(done)
        },
    });
    while p < total - 20
        invariant
            total == b@.len(),
            total >= 32,
            index_listing(b@) == match index_extensions(b@, p as int) {
                Err(e) => Err::<Seq<(int, Seq<u8>, Seq<u8>)>, Error>(e),
                Ok(end) => if end != b@.len() - 20 {
                    Err::<Seq<(int, Seq<u8>, Seq<u8>)>, Error>(Error::InvalidIndexLength)
                } else {
                    Ok::<Seq<(int, Seq<u8>, Seq<u8>)>, Error>(done)
                },
            },
        decreases total - p,
    {
        if !(65 <= b[p] && b[p] <= 90) {
            return Err(Error::RequiredIndexExtensionUnsupported);
        }
        let len = u32_at(b, p + 4)? as usize;
        let _ = slice(b, p + 8, len)?;
        p = p + 8 + len;
    }
    if p != total - 20 {
        return Err(Error::InvalidIndexLength);
    }
    Ok(out)
}

} // verus!
