//! The compact binary form of the catalog cache and the installed
//! inventory: encoders, decoders, and the proof that decoding an
//! encoding gives the value back. A decoder never panics: malformed
//! bytes yield `None`, which callers treat as an absent cache.

use vstd::prelude::*;
use vstd::slice::slice_subrange;
use vstd::utf8::{
    decode_utf8, encode_utf8, encode_utf8_decode_utf8, encode_utf8_valid_utf8, valid_utf8,
};

use crate::assoc::unique_keys;
use crate::local_versions::{entries_sorted, Entry, InstalledVersions};
use crate::strutil::str_eq;
use crate::versioning::{ver_lt, MetaView, SimpleVersion, VersionMetadata};
use crate::versions::{lts_pairs_of, meta_pairs_of, Versions};

verus! {

/// The largest value a length or count field can carry.
pub open spec fn fits_len(n: nat) -> bool {
    n < 0x10000000000000000
}

/// A 64-bit integer, little-endian.
pub open spec fn enc_u64_s(x: u64) -> Seq<u8> {
    seq![
        (x & 0xff) as u8,
        ((x >> 8) & 0xff) as u8,
        ((x >> 16) & 0xff) as u8,
        ((x >> 24) & 0xff) as u8,
        ((x >> 32) & 0xff) as u8,
        ((x >> 40) & 0xff) as u8,
        ((x >> 48) & 0xff) as u8,
        ((x >> 56) & 0xff) as u8,
    ]
}

/// Reads a 64-bit integer, little-endian.
pub open spec fn dec_u64_s(b: Seq<u8>, p: int) -> Option<(u64, int)> {
    if 0 <= p && p + 8 <= b.len() {
        let x = (b[p] as u64) | ((b[p + 1] as u64) << 8) | ((b[p + 2] as u64) << 16) | ((b[p
            + 3] as u64) << 24) | ((b[p + 4] as u64) << 32) | ((b[p + 5] as u64) << 40) | ((b[p
            + 6] as u64) << 48) | ((b[p + 7] as u64) << 56);
        Some((x, p + 8))
    } else {
        None
    }
}

/// A string: its UTF-8 byte length, then its UTF-8 bytes.
pub open spec fn enc_str_s(s: Seq<char>) -> Seq<u8> {
    enc_u64_s(encode_utf8(s).len() as u64) + encode_utf8(s)
}

/// Reads a string.
pub open spec fn dec_str_s(b: Seq<u8>, p: int) -> Option<(Seq<char>, int)> {
    match dec_u64_s(b, p) {
        None => None,
        Some((n, p1)) => if p1 + n <= b.len() && valid_utf8(b.subrange(p1, p1 + n)) {
            Some((decode_utf8(b.subrange(p1, p1 + n)), p1 + n))
        } else {
            None
        },
    }
}

/// An optional string: a presence tag, then the string if present.
pub open spec fn enc_opt_str_s(o: Option<Seq<char>>) -> Seq<u8> {
    match o {
        None => enc_u64_s(0),
        Some(s) => enc_u64_s(1) + enc_str_s(s),
    }
}

/// Reads an optional string.
pub open spec fn dec_opt_str_s(b: Seq<u8>, p: int) -> Option<(Option<Seq<char>>, int)> {
    match dec_u64_s(b, p) {
        None => None,
        Some((tag, p1)) => if tag == 0 {
            Some((None, p1))
        } else if tag == 1 {
            match dec_str_s(b, p1) {
                None => None,
                Some((s, p2)) => Some((Some(s), p2)),
            }
        } else {
            None
        },
    }
}

proof fn lemma_u64_bytes_round(x: u64)
    ensures
        ((((x & 0xff) as u8) as u64) | ((((x >> 8) & 0xff) as u8) as u64) << 8 | ((((x >> 16)
            & 0xff) as u8) as u64) << 16 | ((((x >> 24) & 0xff) as u8) as u64) << 24 | ((((x >> 32)
            & 0xff) as u8) as u64) << 32 | ((((x >> 40) & 0xff) as u8) as u64) << 40 | ((((x >> 48)
            & 0xff) as u8) as u64) << 48 | ((((x >> 56) & 0xff) as u8) as u64) << 56) == x,
{
    assert(((((x & 0xff) as u8) as u64) | ((((x >> 8) & 0xff) as u8) as u64) << 8 | ((((x >> 16)
        & 0xff) as u8) as u64) << 16 | ((((x >> 24) & 0xff) as u8) as u64) << 24 | ((((x >> 32)
        & 0xff) as u8) as u64) << 32 | ((((x >> 40) & 0xff) as u8) as u64) << 40 | ((((x >> 48)
        & 0xff) as u8) as u64) << 48 | ((((x >> 56) & 0xff) as u8) as u64) << 56) == x)
        by (bit_vector);
}

/// Splitting a concatenation read out of a longer byte string.
proof fn lemma_subrange_split(b: Seq<u8>, p: int, s1: Seq<u8>, s2: Seq<u8>)
    requires
        0 <= p,
        p + s1.len() + s2.len() <= b.len(),
        b.subrange(p, p + s1.len() + s2.len()) =~= s1 + s2,
    ensures
        b.subrange(p, p + s1.len()) =~= s1,
        b.subrange(p + s1.len(), p + s1.len() + s2.len()) =~= s2,
{
    assert forall|k: int| 0 <= k < s1.len() + s2.len() implies b[p + k] == (s1 + s2)[k] by {
        assert(b.subrange(p, p + s1.len() + s2.len())[k] == b[p + k]);
    }
    assert forall|k: int|
        0 <= k < s2.len() implies b.subrange(p + s1.len(), p + s1.len() + s2.len())[k]
        == s2[k] by {
        assert(b[p + (s1.len() + k)] == (s1 + s2)[s1.len() + k]);
    }
}

/// Decoding an encoded 64-bit integer gives it back.
proof fn lemma_dec_enc_u64(b: Seq<u8>, p: int, x: u64)
    requires
        0 <= p,
        p + 8 <= b.len(),
        b.subrange(p, p + 8) =~= enc_u64_s(x),
    ensures
        dec_u64_s(b, p) == Some((x, p + 8)),
{
    assert forall|k: int| 0 <= k < 8 implies b[p + k] == enc_u64_s(x)[k] by {
        assert(b.subrange(p, p + 8)[k] == b[p + k]);
    }
    lemma_u64_bytes_round(x);
}

/// Decoding an encoded string gives it back.
proof fn lemma_dec_enc_str(b: Seq<u8>, p: int, s: Seq<char>)
    requires
        0 <= p,
        fits_len(encode_utf8(s).len()),
        p + enc_str_s(s).len() <= b.len(),
        b.subrange(p, p + enc_str_s(s).len()) =~= enc_str_s(s),
    ensures
        dec_str_s(b, p) == Some((s, p + enc_str_s(s).len())),
{
    let ub = encode_utf8(s);
    let lenb = enc_u64_s(ub.len() as u64);
    lemma_subrange_split(b, p, lenb, ub);
    lemma_dec_enc_u64(b, p, ub.len() as u64);
    encode_utf8_valid_utf8(s);
    encode_utf8_decode_utf8(s);
    assert(b.subrange(p + 8, p + 8 + ub.len()) =~= ub);
}

/// Decoding an encoded optional string gives it back.
proof fn lemma_dec_enc_opt_str(b: Seq<u8>, p: int, o: Option<Seq<char>>)
    requires
        0 <= p,
        match o {
            Some(s) => fits_len(encode_utf8(s).len()),
            None => true,
        },
        p + enc_opt_str_s(o).len() <= b.len(),
        b.subrange(p, p + enc_opt_str_s(o).len()) =~= enc_opt_str_s(o),
    ensures
        dec_opt_str_s(b, p) == Some((o, p + enc_opt_str_s(o).len())),
{
    match o {
        None => {
            lemma_dec_enc_u64(b, p, 0);
        }
        Some(s) => {
            lemma_subrange_split(b, p, enc_u64_s(1), enc_str_s(s));
            lemma_dec_enc_u64(b, p, 1);
            lemma_dec_enc_str(b, p + 8, s);
        }
    }
}

/// Appends a 64-bit integer, little-endian.
fn push_u64(out: &mut Vec<u8>, x: u64)
    ensures
        final(out)@ == old(out)@ + enc_u64_s(x),
{
    proof {
        assert(x & 0xff < 256 && (x >> 8) & 0xff < 256 && (x >> 16) & 0xff < 256 && (x >> 24)
            & 0xff < 256 && (x >> 32) & 0xff < 256 && (x >> 40) & 0xff < 256 && (x >> 48) & 0xff
            < 256 && (x >> 56) & 0xff < 256) by (bit_vector);
    }
    out.push((x & 0xff) as u8);
    out.push(((x >> 8) & 0xff) as u8);
    out.push(((x >> 16) & 0xff) as u8);
    out.push(((x >> 24) & 0xff) as u8);
    out.push(((x >> 32) & 0xff) as u8);
    out.push(((x >> 40) & 0xff) as u8);
    out.push(((x >> 48) & 0xff) as u8);
    out.push(((x >> 56) & 0xff) as u8);
    proof {
        assert(out@ =~= old(out)@ + enc_u64_s(x));
    }
}

/// Appends a string.
fn push_str(out: &mut Vec<u8>, s: &str)
    ensures
        final(out)@ == old(out)@ + enc_str_s(s@),
{
    let mut bytes = s.as_bytes_vec();
    push_u64(out, bytes.len() as u64);
    out.append(&mut bytes);
    proof {
        assert(out@ =~= old(out)@ + enc_str_s(s@));
    }
}

/// Appends an optional string.
fn push_opt_str(out: &mut Vec<u8>, o: &Option<String>)
    ensures
        final(out)@ == old(out)@ + enc_opt_str_s(
            match o {
                Some(s) => Some(s@),
                None => None,
            },
        ),
{
    match o {
        None => {
            push_u64(out, 0);
        }
        Some(s) => {
            push_u64(out, 1);
            push_str(out, s.as_str());
            proof {
                assert(out@ =~= old(out)@ + enc_opt_str_s(Some(s@)));
            }
        }
    }
}

/// Relies on `std::str::from_utf8`: it accepts exactly the byte
/// strings that vstd's `valid_utf8` admits and decodes them as vstd's
/// `decode_utf8` does; `str::to_string` converts the borrowed result.
#[verifier::external_body]
fn bytes_to_string(v: &[u8]) -> (r: Option<String>)
    ensures
        match r {
            Some(s) => valid_utf8(v@) && s@ == decode_utf8(v@),
            None => !valid_utf8(v@),
        },
{
    match std::str::from_utf8(v) {
        Ok(s) => Some(s.to_string()),
        Err(_) => None,
    }
}

/// Reads a 64-bit integer; on failure the position is unchanged.
fn dec_u64(bytes: &Vec<u8>, pos: &mut usize) -> (r: Option<u64>)
    requires
        *old(pos) <= bytes@.len(),
    ensures
        match r {
            Some(x) => dec_u64_s(bytes@, *old(pos) as int) == Some((x, *final(pos) as int))
                && *final(pos) <= bytes@.len(),
            None => dec_u64_s(bytes@, *old(pos) as int) is None && *final(pos) == *old(pos),
        },
{
    if bytes.len() - *pos < 8 {
        return None;
    }
    let p = *pos;
    let x = (bytes[p] as u64) | ((bytes[p + 1] as u64) << 8) | ((bytes[p + 2] as u64) << 16) | ((
    bytes[p + 3] as u64) << 24) | ((bytes[p + 4] as u64) << 32) | ((bytes[p + 5] as u64) << 40) | ((
    bytes[p + 6] as u64) << 48) | ((bytes[p + 7] as u64) << 56);
    *pos = p + 8;
    Some(x)
}

/// Reads a string; on failure the position is unchanged.
fn dec_str(bytes: &Vec<u8>, pos: &mut usize) -> (r: Option<String>)
    requires
        *old(pos) <= bytes@.len(),
    ensures
        match r {
            Some(s) => dec_str_s(bytes@, *old(pos) as int) == Some((s@, *final(pos) as int))
                && *final(pos) <= bytes@.len(),
            None => dec_str_s(bytes@, *old(pos) as int) is None && *final(pos) == *old(pos),
        },
{
    let start = *pos;
    let n = match dec_u64(bytes, pos) {
        Some(n) => n,
        None => {
            return None;
        }
    };
    if n > (bytes.len() - *pos) as u64 {
        *pos = start;
        return None;
    }
    let nn = n as usize;
    proof {
        assert(nn as int == n as int);
    }
    let sub = slice_subrange(bytes.as_slice(), *pos, *pos + nn);
    match bytes_to_string(sub) {
        Some(s) => {
            *pos = *pos + nn;
            Some(s)
        }
        None => {
            *pos = start;
            None
        }
    }
}

/// Reads an optional string; on failure the position is unchanged.
fn dec_opt_str(bytes: &Vec<u8>, pos: &mut usize) -> (r: Option<Option<String>>)
    requires
        *old(pos) <= bytes@.len(),
    ensures
        match r {
            Some(o) => dec_opt_str_s(bytes@, *old(pos) as int) == Some(
                (
                    match o {
                        Some(s) => Some(s@),
                        None => None,
                    },
                    *final(pos) as int,
                ),
            ) && *final(pos) <= bytes@.len(),
            None => dec_opt_str_s(bytes@, *old(pos) as int) is None && *final(pos) == *old(pos),
        },
{
    let start = *pos;
    let tag = match dec_u64(bytes, pos) {
        Some(t) => t,
        None => {
            return None;
        }
    };
    if tag == 0 {
        Some(None)
    } else if tag == 1 {
        match dec_str(bytes, pos) {
            Some(s) => Some(Some(s)),
            None => {
                *pos = start;
                None
            }
        }
    } else {
        *pos = start;
        None
    }
}


/// A version: its three numbers, each as a 64-bit field.
pub open spec fn enc_version_s(v: SimpleVersion) -> Seq<u8> {
    enc_u64_s(v.major as u64) + enc_u64_s(v.minor as u64) + enc_u64_s(v.patch as u64)
}

/// Reads a version, refusing numbers out of range.
pub open spec fn dec_version_s(b: Seq<u8>, p: int) -> Option<(SimpleVersion, int)> {
    match dec_u64_s(b, p) {
        None => None,
        Some((major, p1)) => match dec_u64_s(b, p1) {
            None => None,
            Some((minor, p2)) => match dec_u64_s(b, p2) {
                None => None,
                Some((patch, p3)) => if major <= 0xffff && minor <= 0xffff && patch
                    <= 0xffffffff {
                    Some(
                        (
                            SimpleVersion {
                                major: major as u16,
                                minor: minor as u16,
                                patch: patch as u32,
                            },
                            p3,
                        ),
                    )
                } else {
                    None
                },
            },
        },
    }
}

/// A release's metadata: its version and its optional codename.
pub open spec fn enc_meta_s(m: MetaView) -> Seq<u8> {
    enc_version_s(m.version) + enc_opt_str_s(m.lts)
}

/// Reads a release's metadata.
pub open spec fn dec_meta_s(b: Seq<u8>, p: int) -> Option<(MetaView, int)> {
    match dec_version_s(b, p) {
        None => None,
        Some((v, p1)) => match dec_opt_str_s(b, p1) {
            None => None,
            Some((o, p2)) => Some((MetaView { version: v, lts: o }, p2)),
        },
    }
}

/// A codename map entry: the name and its major version.
pub open spec fn enc_lts_entry_s(e: (Seq<char>, u16)) -> Seq<u8> {
    enc_str_s(e.0) + enc_u64_s(e.1 as u64)
}

/// Reads a codename map entry.
pub open spec fn dec_lts_entry_s(b: Seq<u8>, p: int) -> Option<((Seq<char>, u16), int)> {
    match dec_str_s(b, p) {
        None => None,
        Some((name, p1)) => match dec_u64_s(b, p1) {
            None => None,
            Some((major, p2)) => if major <= 0xffff {
                Some(((name, major as u16), p2))
            } else {
                None
            },
        },
    }
}

/// An inventory entry: the version key and the metadata.
pub open spec fn enc_pair_s(e: Entry) -> Seq<u8> {
    enc_version_s(e.0) + enc_meta_s(e.1)
}

/// Reads an inventory entry.
pub open spec fn dec_pair_s(b: Seq<u8>, p: int) -> Option<(Entry, int)> {
    match dec_version_s(b, p) {
        None => None,
        Some((v, p1)) => match dec_meta_s(b, p1) {
            None => None,
            Some((m, p2)) => Some(((v, m), p2)),
        },
    }
}

/// Whether a metadata value's codename fits the length field.
pub open spec fn meta_fits(m: MetaView) -> bool {
    match m.lts {
        Some(l) => fits_len(encode_utf8(l).len()),
        None => true,
    }
}

proof fn lemma_dec_enc_version(b: Seq<u8>, p: int, v: SimpleVersion)
    requires
        0 <= p,
        p + enc_version_s(v).len() <= b.len(),
        b.subrange(p, p + enc_version_s(v).len()) =~= enc_version_s(v),
    ensures
        enc_version_s(v).len() == 24,
        dec_version_s(b, p) == Some((v, p + 24)),
{
    assert(b.subrange(p, p + 24) =~= enc_u64_s(v.major as u64) + (enc_u64_s(v.minor as u64)
        + enc_u64_s(v.patch as u64)));
    lemma_subrange_split(
        b,
        p,
        enc_u64_s(v.major as u64),
        enc_u64_s(v.minor as u64) + enc_u64_s(v.patch as u64),
    );
    lemma_subrange_split(b, p + 8, enc_u64_s(v.minor as u64), enc_u64_s(v.patch as u64));
    lemma_dec_enc_u64(b, p, v.major as u64);
    lemma_dec_enc_u64(b, p + 8, v.minor as u64);
    lemma_dec_enc_u64(b, p + 16, v.patch as u64);
}

proof fn lemma_dec_enc_meta(b: Seq<u8>, p: int, m: MetaView)
    requires
        0 <= p,
        meta_fits(m),
        p + enc_meta_s(m).len() <= b.len(),
        b.subrange(p, p + enc_meta_s(m).len()) =~= enc_meta_s(m),
    ensures
        dec_meta_s(b, p) == Some((m, p + enc_meta_s(m).len())),
{
    lemma_subrange_split(b, p, enc_version_s(m.version), enc_opt_str_s(m.lts));
    lemma_dec_enc_version(b, p, m.version);
    lemma_dec_enc_opt_str(b, p + 24, m.lts);
}

proof fn lemma_dec_enc_lts_entry(b: Seq<u8>, p: int, e: (Seq<char>, u16))
    requires
        0 <= p,
        fits_len(encode_utf8(e.0).len()),
        p + enc_lts_entry_s(e).len() <= b.len(),
        b.subrange(p, p + enc_lts_entry_s(e).len()) =~= enc_lts_entry_s(e),
    ensures
        dec_lts_entry_s(b, p) == Some((e, p + enc_lts_entry_s(e).len())),
{
    lemma_subrange_split(b, p, enc_str_s(e.0), enc_u64_s(e.1 as u64));
    lemma_dec_enc_str(b, p, e.0);
    lemma_dec_enc_u64(b, p + enc_str_s(e.0).len(), e.1 as u64);
}

proof fn lemma_dec_enc_pair(b: Seq<u8>, p: int, e: Entry)
    requires
        0 <= p,
        meta_fits(e.1),
        p + enc_pair_s(e).len() <= b.len(),
        b.subrange(p, p + enc_pair_s(e).len()) =~= enc_pair_s(e),
    ensures
        dec_pair_s(b, p) == Some((e, p + enc_pair_s(e).len())),
{
    lemma_subrange_split(b, p, enc_version_s(e.0), enc_meta_s(e.1));
    lemma_dec_enc_version(b, p, e.0);
    lemma_dec_enc_meta(b, p + 24, e.1);
}

/// Appends a version.
fn push_version(out: &mut Vec<u8>, v: &SimpleVersion)
    ensures
        final(out)@ == old(out)@ + enc_version_s(*v),
{
    push_u64(out, v.major as u64);
    push_u64(out, v.minor as u64);
    push_u64(out, v.patch as u64);
    proof {
        assert(out@ =~= old(out)@ + enc_version_s(*v));
    }
}

/// Appends a release's metadata.
fn push_meta(out: &mut Vec<u8>, m: &VersionMetadata)
    ensures
        final(out)@ == old(out)@ + enc_meta_s(m@),
{
    push_version(out, &m.version);
    push_opt_str(out, &m.lts);
    proof {
        assert(out@ =~= old(out)@ + enc_meta_s(m@));
    }
}

/// Reads a version; on failure the position is unchanged.
fn dec_version(bytes: &Vec<u8>, pos: &mut usize) -> (r: Option<SimpleVersion>)
    requires
        *old(pos) <= bytes@.len(),
    ensures
        match r {
            Some(v) => dec_version_s(bytes@, *old(pos) as int) == Some((v, *final(pos) as int))
                && *final(pos) <= bytes@.len(),
            None => dec_version_s(bytes@, *old(pos) as int) is None && *final(pos) == *old(pos),
        },
{
    let start = *pos;
    let major = match dec_u64(bytes, pos) {
        Some(x) => x,
        None => {
            return None;
        }
    };
    let minor = match dec_u64(bytes, pos) {
        Some(x) => x,
        None => {
            *pos = start;
            return None;
        }
    };
    let patch = match dec_u64(bytes, pos) {
        Some(x) => x,
        None => {
            *pos = start;
            return None;
        }
    };
    if major <= 0xffff && minor <= 0xffff && patch <= 0xffffffff {
        Some(SimpleVersion { major: major as u16, minor: minor as u16, patch: patch as u32 })
    } else {
        *pos = start;
        None
    }
}

/// Reads a release's metadata; on failure the position is unchanged.
fn dec_meta(bytes: &Vec<u8>, pos: &mut usize) -> (r: Option<VersionMetadata>)
    requires
        *old(pos) <= bytes@.len(),
    ensures
        match r {
            Some(m) => dec_meta_s(bytes@, *old(pos) as int) == Some((m@, *final(pos) as int))
                && *final(pos) <= bytes@.len(),
            None => dec_meta_s(bytes@, *old(pos) as int) is None && *final(pos) == *old(pos),
        },
{
    let start = *pos;
    let version = match dec_version(bytes, pos) {
        Some(v) => v,
        None => {
            return None;
        }
    };
    let lts = match dec_opt_str(bytes, pos) {
        Some(o) => o,
        None => {
            *pos = start;
            return None;
        }
    };
    Some(VersionMetadata { version, lts })
}

/// Reads a codename map entry; on failure the position is unchanged.
fn dec_lts_entry(bytes: &Vec<u8>, pos: &mut usize) -> (r: Option<(String, u16)>)
    requires
        *old(pos) <= bytes@.len(),
    ensures
        match r {
            Some(e) => dec_lts_entry_s(bytes@, *old(pos) as int) == Some(
                ((e.0@, e.1), *final(pos) as int),
            ) && *final(pos) <= bytes@.len(),
            None => dec_lts_entry_s(bytes@, *old(pos) as int) is None && *final(pos) == *old(
                pos,
            ),
        },
{
    let start = *pos;
    let name = match dec_str(bytes, pos) {
        Some(s) => s,
        None => {
            return None;
        }
    };
    let major = match dec_u64(bytes, pos) {
        Some(x) => x,
        None => {
            *pos = start;
            return None;
        }
    };
    if major <= 0xffff {
        Some((name, major as u16))
    } else {
        *pos = start;
        None
    }
}

/// Reads an inventory entry; on failure the position is unchanged.
fn dec_pair(bytes: &Vec<u8>, pos: &mut usize) -> (r: Option<(SimpleVersion, VersionMetadata)>)
    requires
        *old(pos) <= bytes@.len(),
    ensures
        match r {
            Some(e) => dec_pair_s(bytes@, *old(pos) as int) == Some(
                ((e.0, e.1@), *final(pos) as int),
            ) && *final(pos) <= bytes@.len(),
            None => dec_pair_s(bytes@, *old(pos) as int) is None && *final(pos) == *old(pos),
        },
{
    let start = *pos;
    let version = match dec_version(bytes, pos) {
        Some(v) => v,
        None => {
            return None;
        }
    };
    let meta = match dec_meta(bytes, pos) {
        Some(m) => m,
        None => {
            *pos = start;
            return None;
        }
    };
    Some((version, meta))
}


/// The codename map entries, one after another.
pub open spec fn enc_lts_list_s(s: Seq<(Seq<char>, u16)>) -> Seq<u8>
    decreases s.len(),
{
    if s.len() == 0 {
        Seq::empty()
    } else {
        enc_lts_entry_s(s[0]) + enc_lts_list_s(s.drop_first())
    }
}

/// Reads `n` codename map entries.
pub open spec fn dec_lts_list_s(b: Seq<u8>, p: int, n: nat) -> Option<
    (Seq<(Seq<char>, u16)>, int),
>
    decreases n,
{
    if n == 0 {
        Some((Seq::empty(), p))
    } else {
        match dec_lts_entry_s(b, p) {
            None => None,
            Some((e, p1)) => match dec_lts_list_s(b, p1, (n - 1) as nat) {
                None => None,
                Some((rest, p2)) => Some((seq![e] + rest, p2)),
            },
        }
    }
}

/// The metadata entries, one after another.
pub open spec fn enc_meta_list_s(s: Seq<MetaView>) -> Seq<u8>
    decreases s.len(),
{
    if s.len() == 0 {
        Seq::empty()
    } else {
        enc_meta_s(s[0]) + enc_meta_list_s(s.drop_first())
    }
}

/// Reads `n` metadata entries.
pub open spec fn dec_meta_list_s(b: Seq<u8>, p: int, n: nat) -> Option<(Seq<MetaView>, int)>
    decreases n,
{
    if n == 0 {
        Some((Seq::empty(), p))
    } else {
        match dec_meta_s(b, p) {
            None => None,
            Some((e, p1)) => match dec_meta_list_s(b, p1, (n - 1) as nat) {
                None => None,
                Some((rest, p2)) => Some((seq![e] + rest, p2)),
            },
        }
    }
}

/// The inventory entries, one after another.
pub open spec fn enc_pair_list_s(s: Seq<Entry>) -> Seq<u8>
    decreases s.len(),
{
    if s.len() == 0 {
        Seq::empty()
    } else {
        enc_pair_s(s[0]) + enc_pair_list_s(s.drop_first())
    }
}

/// Reads `n` inventory entries.
pub open spec fn dec_pair_list_s(b: Seq<u8>, p: int, n: nat) -> Option<(Seq<Entry>, int)>
    decreases n,
{
    if n == 0 {
        Some((Seq::empty(), p))
    } else {
        match dec_pair_s(b, p) {
            None => None,
            Some((e, p1)) => match dec_pair_list_s(b, p1, (n - 1) as nat) {
                None => None,
                Some((rest, p2)) => Some((seq![e] + rest, p2)),
            },
        }
    }
}

/// Every codename in the list fits the length field.
pub open spec fn lts_list_fits(s: Seq<(Seq<char>, u16)>) -> bool {
    forall|i: int| 0 <= i < s.len() ==> fits_len(encode_utf8((#[trigger] s[i]).0).len())
}

/// Every codename in the metadata list fits the length field.
pub open spec fn meta_list_fits(s: Seq<MetaView>) -> bool {
    forall|i: int| 0 <= i < s.len() ==> meta_fits(#[trigger] s[i])
}

/// Every codename in the inventory fits the length field.
pub open spec fn pair_list_fits(s: Seq<Entry>) -> bool {
    forall|i: int| 0 <= i < s.len() ==> meta_fits((#[trigger] s[i]).1)
}

proof fn lemma_enc_lts_list_snoc(s: Seq<(Seq<char>, u16)>, e: (Seq<char>, u16))
    ensures
        enc_lts_list_s(s.push(e)) == enc_lts_list_s(s) + enc_lts_entry_s(e),
    decreases s.len(),
{
    if s.len() == 0 {
        assert(s.push(e)[0] == e);
        assert(s.push(e).drop_first() =~= s);
        assert(enc_lts_list_s(s) =~= Seq::<u8>::empty());
        assert(enc_lts_list_s(s.push(e)) == enc_lts_entry_s(e) + enc_lts_list_s(s));
        assert(enc_lts_entry_s(e) + enc_lts_list_s(s) =~= enc_lts_list_s(s) + enc_lts_entry_s(e));
    } else {
        assert(s.push(e)[0] == s[0]);
        assert(s.push(e).drop_first() =~= s.drop_first().push(e));
        lemma_enc_lts_list_snoc(s.drop_first(), e);
        assert(enc_lts_entry_s(s[0]) + (enc_lts_list_s(s.drop_first()) + enc_lts_entry_s(e)) =~= (
        enc_lts_entry_s(s[0]) + enc_lts_list_s(s.drop_first())) + enc_lts_entry_s(e));
    }
}

proof fn lemma_enc_meta_list_snoc(s: Seq<MetaView>, e: MetaView)
    ensures
        enc_meta_list_s(s.push(e)) == enc_meta_list_s(s) + enc_meta_s(e),
    decreases s.len(),
{
    if s.len() == 0 {
        assert(s.push(e)[0] == e);
        assert(s.push(e).drop_first() =~= s);
        assert(enc_meta_list_s(s) =~= Seq::<u8>::empty());
        assert(enc_meta_list_s(s.push(e)) == enc_meta_s(e) + enc_meta_list_s(s));
        assert(enc_meta_s(e) + enc_meta_list_s(s) =~= enc_meta_list_s(s) + enc_meta_s(e));
    } else {
        assert(s.push(e)[0] == s[0]);
        assert(s.push(e).drop_first() =~= s.drop_first().push(e));
        lemma_enc_meta_list_snoc(s.drop_first(), e);
        assert(enc_meta_s(s[0]) + (enc_meta_list_s(s.drop_first()) + enc_meta_s(e)) =~= (enc_meta_s(
            s[0],
        ) + enc_meta_list_s(s.drop_first())) + enc_meta_s(e));
    }
}

#[verifier::rlimit(40)]
proof fn lemma_enc_pair_list_snoc(s: Seq<Entry>, e: Entry)
    ensures
        enc_pair_list_s(s.push(e)) == enc_pair_list_s(s) + enc_pair_s(e),
    decreases s.len(),
{
    if s.len() == 0 {
        assert(s.push(e)[0] == e);
        assert(s.push(e).drop_first() =~= s);
        assert(enc_pair_list_s(s) =~= Seq::<u8>::empty());
        assert(enc_pair_list_s(s.push(e)) == enc_pair_s(e) + enc_pair_list_s(s));
        assert(enc_pair_s(e) + enc_pair_list_s(s) =~= enc_pair_list_s(s) + enc_pair_s(e));
    } else {
        assert(s.push(e)[0] == s[0]);
        assert(s.push(e).drop_first() =~= s.drop_first().push(e));
        lemma_enc_pair_list_snoc(s.drop_first(), e);
        assert(enc_pair_s(s[0]) + (enc_pair_list_s(s.drop_first()) + enc_pair_s(e)) =~= (enc_pair_s(
            s[0],
        ) + enc_pair_list_s(s.drop_first())) + enc_pair_s(e));
    }
}

proof fn lemma_dec_enc_lts_list(b: Seq<u8>, p: int, s: Seq<(Seq<char>, u16)>)
    requires
        0 <= p,
        lts_list_fits(s),
        p + enc_lts_list_s(s).len() <= b.len(),
        b.subrange(p, p + enc_lts_list_s(s).len()) =~= enc_lts_list_s(s),
    ensures
        dec_lts_list_s(b, p, s.len()) == Some((s, p + enc_lts_list_s(s).len())),
    decreases s.len(),
{
    if s.len() > 0 {
        let tail = s.drop_first();
        lemma_subrange_split(b, p, enc_lts_entry_s(s[0]), enc_lts_list_s(tail));
        lemma_dec_enc_lts_entry(b, p, s[0]);
        assert forall|i: int|
            0 <= i < tail.len() implies fits_len(encode_utf8((#[trigger] tail[i]).0).len()) by {
            assert(tail[i] == s[i + 1]);
        }
        lemma_dec_enc_lts_list(b, p + enc_lts_entry_s(s[0]).len(), tail);
        assert(seq![s[0]] + tail =~= s);
    }
}

#[verifier::rlimit(40)]
proof fn lemma_dec_enc_meta_list(b: Seq<u8>, p: int, s: Seq<MetaView>)
    requires
        0 <= p,
        meta_list_fits(s),
        p + enc_meta_list_s(s).len() <= b.len(),
        b.subrange(p, p + enc_meta_list_s(s).len()) =~= enc_meta_list_s(s),
    ensures
        dec_meta_list_s(b, p, s.len()) == Some((s, p + enc_meta_list_s(s).len())),
    decreases s.len(),
{
    if s.len() > 0 {
        let tail = s.drop_first();
        lemma_subrange_split(b, p, enc_meta_s(s[0]), enc_meta_list_s(tail));
        lemma_dec_enc_meta(b, p, s[0]);
        assert forall|i: int| 0 <= i < tail.len() implies meta_fits(#[trigger] tail[i]) by {
            assert(tail[i] == s[i + 1]);
        }
        lemma_dec_enc_meta_list(b, p + enc_meta_s(s[0]).len(), tail);
        assert(seq![s[0]] + tail =~= s);
    }
}

#[verifier::rlimit(40)]
proof fn lemma_dec_enc_pair_list(b: Seq<u8>, p: int, s: Seq<Entry>)
    requires
        0 <= p,
        pair_list_fits(s),
        p + enc_pair_list_s(s).len() <= b.len(),
        b.subrange(p, p + enc_pair_list_s(s).len()) =~= enc_pair_list_s(s),
    ensures
        dec_pair_list_s(b, p, s.len()) == Some((s, p + enc_pair_list_s(s).len())),
    decreases s.len(),
{
    if s.len() > 0 {
        let tail = s.drop_first();
        lemma_subrange_split(b, p, enc_pair_s(s[0]), enc_pair_list_s(tail));
        lemma_dec_enc_pair(b, p, s[0]);
        assert forall|i: int| 0 <= i < tail.len() implies meta_fits((#[trigger] tail[i]).1) by {
            assert(tail[i] == s[i + 1]);
        }
        lemma_dec_enc_pair_list(b, p + enc_pair_s(s[0]).len(), tail);
        assert(seq![s[0]] + tail =~= s);
    }
}


/// The views of a metadata vector.
pub open spec fn metas_of(v: Seq<VersionMetadata>) -> Seq<MetaView> {
    v.map_values(|m: VersionMetadata| m@)
}

/// The entry views of an inventory vector.
pub open spec fn entries_of(v: Seq<(SimpleVersion, VersionMetadata)>) -> Seq<Entry> {
    v.map_values(|p: (SimpleVersion, VersionMetadata)| (p.0, p.1@))
}

/// No two metadata entries share a version.
pub open spec fn meta_versions_unique(metas: Seq<MetaView>) -> bool {
    forall|i: int, j: int| 0 <= i < j < metas.len() ==> metas[i].version != metas[j].version
}

/// The catalog's cache form: the codename map, then the metadata map.
pub open spec fn enc_catalog_s(lts: Seq<(Seq<char>, u16)>, metas: Seq<MetaView>) -> Seq<u8> {
    enc_u64_s(lts.len() as u64) + enc_lts_list_s(lts) + enc_u64_s(metas.len() as u64)
        + enc_meta_list_s(metas)
}

/// Reads a whole catalog cache: both maps, to the exact end of the
/// bytes, with no repeated codename and no repeated version.
pub open spec fn dec_catalog_s(b: Seq<u8>) -> Option<(Seq<(Seq<char>, u16)>, Seq<MetaView>)> {
    match dec_u64_s(b, 0) {
        None => None,
        Some((n1, p1)) => match dec_lts_list_s(b, p1, n1 as nat) {
            None => None,
            Some((lts, p2)) => match dec_u64_s(b, p2) {
                None => None,
                Some((n2, p3)) => match dec_meta_list_s(b, p3, n2 as nat) {
                    None => None,
                    Some((metas, p4)) => if p4 == b.len() && unique_keys(lts)
                        && meta_versions_unique(metas) {
                        Some((lts, metas))
                    } else {
                        None
                    },
                },
            },
        },
    }
}

/// The inventory's cache form: the ordered entry list.
pub open spec fn enc_inventory_s(entries: Seq<Entry>) -> Seq<u8> {
    enc_u64_s(entries.len() as u64) + enc_pair_list_s(entries)
}

/// Reads a whole inventory cache: the entries, to the exact end of the
/// bytes, in strictly ascending version order.
pub open spec fn dec_inventory_s(b: Seq<u8>) -> Option<Seq<Entry>> {
    match dec_u64_s(b, 0) {
        None => None,
        Some((n, p1)) => match dec_pair_list_s(b, p1, n as nat) {
            None => None,
            Some((entries, p2)) => if p2 == b.len() && entries_sorted(entries) {
                Some(entries)
            } else {
                None
            },
        },
    }
}

/// Reads a run of codename map entries; on failure the position is
/// unchanged.
fn dec_lts_list(bytes: &Vec<u8>, pos: &mut usize, count: u64) -> (r: Option<Vec<(String, u16)>>)
    requires
        *old(pos) <= bytes@.len(),
    ensures
        match r {
            Some(v) => dec_lts_list_s(bytes@, *old(pos) as int, count as nat) == Some(
                (lts_pairs_of(v@), *final(pos) as int),
            ) && *final(pos) <= bytes@.len(),
            None => dec_lts_list_s(bytes@, *old(pos) as int, count as nat) is None && *final(pos)
                == *old(pos),
        },
{
    let start = *pos;
    let mut out: Vec<(String, u16)> = Vec::new();
    proof {
        match dec_lts_list_s(bytes@, start as int, count as nat) {
            Some((rest, pend)) => {
                assert(lts_pairs_of(out@) + rest =~= rest);
            }
            None => {}
        }
    }
    let mut k: u64 = 0;
    while k < count
        invariant
            0 <= k <= count,
            *pos <= bytes@.len(),
            start == *old(pos),
            match dec_lts_list_s(bytes@, *pos as int, (count - k) as nat) {
                Some((rest, pend)) => dec_lts_list_s(bytes@, start as int, count as nat) == Some(
                    (lts_pairs_of(out@) + rest, pend),
                ),
                None => dec_lts_list_s(bytes@, start as int, count as nat) is None,
            },
        decreases count - k,
    {
        let ghost pos0 = *pos;
        let ghost rem = (count - k) as nat;
        match dec_lts_entry(bytes, pos) {
            None => {
                proof {
                    assert(dec_lts_list_s(bytes@, pos0 as int, rem) is None);
                }
                *pos = start;
                return None;
            }
            Some(e) => {
                let ghost old_out = out@;
                let ghost ev = (e.0@, e.1);
                out.push(e);
                proof {
                    assert(lts_pairs_of(out@) =~= lts_pairs_of(old_out).push(ev));
                    match dec_lts_list_s(bytes@, *pos as int, (rem - 1) as nat) {
                        Some((rest2, pend2)) => {
                            assert(dec_lts_list_s(bytes@, pos0 as int, rem) == Some(
                                (seq![ev] + rest2, pend2),
                            ));
                            assert(lts_pairs_of(old_out) + (seq![ev] + rest2) =~= lts_pairs_of(
                                out@,
                            ) + rest2);
                        }
                        None => {
                            assert(dec_lts_list_s(bytes@, pos0 as int, rem) is None);
                        }
                    }
                }
                k = k + 1;
            }
        }
    }
    proof {
        assert(dec_lts_list_s(bytes@, *pos as int, 0) == Some(
            (Seq::<(Seq<char>, u16)>::empty(), *pos as int),
        ));
        assert(lts_pairs_of(out@) + Seq::<(Seq<char>, u16)>::empty() =~= lts_pairs_of(out@));
    }
    Some(out)
}

/// Reads a run of metadata entries; on failure the position is
/// unchanged.
fn dec_meta_list(bytes: &Vec<u8>, pos: &mut usize, count: u64) -> (r: Option<Vec<VersionMetadata>>)
    requires
        *old(pos) <= bytes@.len(),
    ensures
        match r {
            Some(v) => dec_meta_list_s(bytes@, *old(pos) as int, count as nat) == Some(
                (metas_of(v@), *final(pos) as int),
            ) && *final(pos) <= bytes@.len(),
            None => dec_meta_list_s(bytes@, *old(pos) as int, count as nat) is None && *final(pos)
                == *old(pos),
        },
{
    let start = *pos;
    let mut out: Vec<VersionMetadata> = Vec::new();
    proof {
        match dec_meta_list_s(bytes@, start as int, count as nat) {
            Some((rest, pend)) => {
                assert(metas_of(out@) + rest =~= rest);
            }
            None => {}
        }
    }
    let mut k: u64 = 0;
    while k < count
        invariant
            0 <= k <= count,
            *pos <= bytes@.len(),
            start == *old(pos),
            match dec_meta_list_s(bytes@, *pos as int, (count - k) as nat) {
                Some((rest, pend)) => dec_meta_list_s(bytes@, start as int, count as nat) == Some(
                    (metas_of(out@) + rest, pend),
                ),
                None => dec_meta_list_s(bytes@, start as int, count as nat) is None,
            },
        decreases count - k,
    {
        let ghost pos0 = *pos;
        let ghost rem = (count - k) as nat;
        match dec_meta(bytes, pos) {
            None => {
                proof {
                    assert(dec_meta_list_s(bytes@, pos0 as int, rem) is None);
                }
                *pos = start;
                return None;
            }
            Some(e) => {
                let ghost old_out = out@;
                let ghost ev = e@;
                out.push(e);
                proof {
                    assert(metas_of(out@) =~= metas_of(old_out).push(ev));
                    match dec_meta_list_s(bytes@, *pos as int, (rem - 1) as nat) {
                        Some((rest2, pend2)) => {
                            assert(dec_meta_list_s(bytes@, pos0 as int, rem) == Some(
                                (seq![ev] + rest2, pend2),
                            ));
                            assert(metas_of(old_out) + (seq![ev] + rest2) =~= metas_of(out@)
                                + rest2);
                        }
                        None => {
                            assert(dec_meta_list_s(bytes@, pos0 as int, rem) is None);
                        }
                    }
                }
                k = k + 1;
            }
        }
    }
    proof {
        assert(dec_meta_list_s(bytes@, *pos as int, 0) == Some(
            (Seq::<MetaView>::empty(), *pos as int),
        ));
        assert(metas_of(out@) + Seq::<MetaView>::empty() =~= metas_of(out@));
    }
    Some(out)
}

/// Reads a run of inventory entries; on failure the position is
/// unchanged.
fn dec_pair_list(bytes: &Vec<u8>, pos: &mut usize, count: u64) -> (r: Option<
    Vec<(SimpleVersion, VersionMetadata)>,
>)
    requires
        *old(pos) <= bytes@.len(),
    ensures
        match r {
            Some(v) => dec_pair_list_s(bytes@, *old(pos) as int, count as nat) == Some(
                (entries_of(v@), *final(pos) as int),
            ) && *final(pos) <= bytes@.len(),
            None => dec_pair_list_s(bytes@, *old(pos) as int, count as nat) is None && *final(pos)
                == *old(pos),
        },
{
    let start = *pos;
    let mut out: Vec<(SimpleVersion, VersionMetadata)> = Vec::new();
    proof {
        match dec_pair_list_s(bytes@, start as int, count as nat) {
            Some((rest, pend)) => {
                assert(entries_of(out@) + rest =~= rest);
            }
            None => {}
        }
    }
    let mut k: u64 = 0;
    while k < count
        invariant
            0 <= k <= count,
            *pos <= bytes@.len(),
            start == *old(pos),
            match dec_pair_list_s(bytes@, *pos as int, (count - k) as nat) {
                Some((rest, pend)) => dec_pair_list_s(bytes@, start as int, count as nat) == Some(
                    (entries_of(out@) + rest, pend),
                ),
                None => dec_pair_list_s(bytes@, start as int, count as nat) is None,
            },
        decreases count - k,
    {
        let ghost pos0 = *pos;
        let ghost rem = (count - k) as nat;
        match dec_pair(bytes, pos) {
            None => {
                proof {
                    assert(dec_pair_list_s(bytes@, pos0 as int, rem) is None);
                }
                *pos = start;
                return None;
            }
            Some(e) => {
                let ghost old_out = out@;
                let ghost ev = (e.0, e.1@);
                out.push(e);
                proof {
                    assert(entries_of(out@) =~= entries_of(old_out).push(ev));
                    match dec_pair_list_s(bytes@, *pos as int, (rem - 1) as nat) {
                        Some((rest2, pend2)) => {
                            assert(dec_pair_list_s(bytes@, pos0 as int, rem) == Some(
                                (seq![ev] + rest2, pend2),
                            ));
                            assert(entries_of(old_out) + (seq![ev] + rest2) =~= entries_of(out@)
                                + rest2);
                        }
                        None => {
                            assert(dec_pair_list_s(bytes@, pos0 as int, rem) is None);
                        }
                    }
                }
                k = k + 1;
            }
        }
    }
    proof {
        assert(dec_pair_list_s(bytes@, *pos as int, 0) == Some(
            (Seq::<Entry>::empty(), *pos as int),
        ));
        assert(entries_of(out@) + Seq::<Entry>::empty() =~= entries_of(out@));
    }
    Some(out)
}

/// Decides whether the codename map has pairwise distinct names.
fn check_unique_lts(v: &Vec<(String, u16)>) -> (r: bool)
    ensures
        r == unique_keys(lts_pairs_of(v@)),
{
    let ghost pairs = lts_pairs_of(v@);
    let n = v.len();
    let mut i: usize = 1;
    while i < n
        invariant
            1 <= i <= n || n == 0,
            n == v@.len(),
            pairs == lts_pairs_of(v@),
            forall|a: int, b: int| 0 <= a < b < i ==> pairs[a].0 != pairs[b].0,
        decreases n - i,
    {
        let mut j: usize = 0;
        while j < i
            invariant
                0 <= j <= i < n,
                n == v@.len(),
                pairs == lts_pairs_of(v@),
                forall|a: int| 0 <= a < j ==> pairs[a].0 != pairs[i as int].0,
            decreases i - j,
        {
            if str_eq(v[j].0.as_str(), v[i].0.as_str()) {
                proof {
                    assert(pairs[j as int].0 == pairs[i as int].0);
                    if unique_keys(pairs) {
                        assert(pairs[j as int].0 != pairs[i as int].0);
                    }
                }
                return false;
            }
            j = j + 1;
        }
        i = i + 1;
    }
    true
}

/// Decides whether the metadata map has pairwise distinct versions.
fn check_unique_meta_versions(v: &Vec<VersionMetadata>) -> (r: bool)
    ensures
        r == meta_versions_unique(metas_of(v@)),
{
    let ghost metas = metas_of(v@);
    let n = v.len();
    let mut i: usize = 1;
    while i < n
        invariant
            1 <= i <= n || n == 0,
            n == v@.len(),
            metas == metas_of(v@),
            forall|a: int, b: int| 0 <= a < b < i ==> metas[a].version != metas[b].version,
        decreases n - i,
    {
        let mut j: usize = 0;
        while j < i
            invariant
                0 <= j <= i < n,
                n == v@.len(),
                metas == metas_of(v@),
                forall|a: int| 0 <= a < j ==> metas[a].version != metas[i as int].version,
            decreases i - j,
        {
            if v[j].version == v[i].version {
                proof {
                    assert(metas[j as int].version == metas[i as int].version);
                    if meta_versions_unique(metas) {
                        assert(metas[j as int].version != metas[i as int].version);
                    }
                }
                return false;
            }
            j = j + 1;
        }
        i = i + 1;
    }
    true
}

proof fn lemma_entries_chain(s: Seq<Entry>, a: int, b: int)
    requires
        forall|k: int| 0 <= k && k + 1 < s.len() ==> ver_lt((#[trigger] s[k]).0, s[k + 1].0),
        0 <= a < b < s.len(),
    ensures
        ver_lt(s[a].0, s[b].0),
    decreases b - a,
{
    if b > a + 1 {
        lemma_entries_chain(s, a, b - 1);
        assert(ver_lt(s[b - 1].0, s[b].0));
    }
}

/// Decides whether the entries are in strictly ascending version order.
fn check_sorted_pairs(v: &Vec<(SimpleVersion, VersionMetadata)>) -> (r: bool)
    ensures
        r == entries_sorted(entries_of(v@)),
{
    let ghost es = entries_of(v@);
    let n = v.len();
    let mut i: usize = 1;
    while i < n
        invariant
            1 <= i <= n || n == 0,
            n == v@.len(),
            es == entries_of(v@),
            forall|k: int| 0 <= k && k + 1 < i ==> ver_lt((#[trigger] es[k]).0, es[k + 1].0),
        decreases n - i,
    {
        if !v[i - 1].0.lt(&v[i].0) {
            proof {
                assert(!ver_lt(es[i - 1].0, es[i as int].0));
                if entries_sorted(es) {
                    assert(ver_lt(es[i - 1].0, es[i as int].0));
                }
            }
            return false;
        }
        i = i + 1;
    }
    proof {
        assert forall|a: int, b: int| 0 <= a < b < es.len() implies ver_lt(es[a].0, es[b].0) by {
            lemma_entries_chain(es, a, b);
        }
    }
    true
}

impl Versions {
    /// The catalog's compact cache form; the derived index is not
    /// persisted.
    pub fn to_cache_bytes(&self) -> (r: Vec<u8>)
        ensures
            r@ == enc_catalog_s(self.lts_pairs(), metas_of(self.versions@)),
    {
        let ghost lts = self.lts_pairs();
        let ghost metas = metas_of(self.versions@);
        let mut out: Vec<u8> = Vec::new();
        push_u64(&mut out, self.lts_versions.len() as u64);
        let n1 = self.lts_versions.len();
        let mut i: usize = 0;
        while i < n1
            invariant
                0 <= i <= n1,
                n1 == self.lts_versions@.len(),
                lts == self.lts_pairs(),
                out@ == enc_u64_s(lts.len() as u64) + enc_lts_list_s(lts.take(i as int)),
            decreases n1 - i,
        {
            let ghost pre = out@;
            push_str(&mut out, self.lts_versions[i].0.as_str());
            push_u64(&mut out, self.lts_versions[i].1 as u64);
            proof {
                assert(out@ =~= pre + enc_lts_entry_s(lts[i as int]));
                assert(lts.take(i + 1) =~= lts.take(i as int).push(lts[i as int]));
                lemma_enc_lts_list_snoc(lts.take(i as int), lts[i as int]);
                assert(out@ =~= enc_u64_s(lts.len() as u64) + enc_lts_list_s(lts.take(i + 1)));
            }
            i = i + 1;
        }
        proof {
            assert(lts.take(n1 as int) =~= lts);
        }
        push_u64(&mut out, self.versions.len() as u64);
        let ghost head = enc_u64_s(lts.len() as u64) + enc_lts_list_s(lts) + enc_u64_s(
            metas.len() as u64,
        );
        proof {
            assert(out@ =~= head + enc_meta_list_s(metas.take(0)));
        }
        let n2 = self.versions.len();
        let mut j: usize = 0;
        while j < n2
            invariant
                0 <= j <= n2,
                n2 == self.versions@.len(),
                metas == metas_of(self.versions@),
                head == enc_u64_s(lts.len() as u64) + enc_lts_list_s(lts) + enc_u64_s(
                    metas.len() as u64,
                ),
                out@ == head + enc_meta_list_s(metas.take(j as int)),
            decreases n2 - j,
        {
            let ghost pre = out@;
            push_meta(&mut out, &self.versions[j]);
            proof {
                assert(out@ =~= pre + enc_meta_s(metas[j as int]));
                assert(metas.take(j + 1) =~= metas.take(j as int).push(metas[j as int]));
                lemma_enc_meta_list_snoc(metas.take(j as int), metas[j as int]);
                assert(out@ =~= head + enc_meta_list_s(metas.take(j + 1)));
            }
            j = j + 1;
        }
        proof {
            assert(metas.take(n2 as int) =~= metas);
            assert(out@ =~= enc_catalog_s(lts, metas));
        }
        out
    }

    /// Rebuilds a catalog from its cache form; `None` means the bytes
    /// are not a well-formed cache and the cache must be treated as
    /// absent.
    pub fn from_cache_bytes(bytes: &Vec<u8>) -> (r: Option<Versions>)
        ensures
            match r {
                Some(c) => dec_catalog_s(bytes@) == Some((c.lts_pairs(), metas_of(c.versions@)))
                    && c.wf(),
                None => dec_catalog_s(bytes@) is None,
            },
    {
        let mut pos: usize = 0;
        let n1 = match dec_u64(bytes, &mut pos) {
            Some(x) => x,
            None => {
                return None;
            }
        };
        let lts_versions = match dec_lts_list(bytes, &mut pos, n1) {
            Some(v) => v,
            None => {
                return None;
            }
        };
        let n2 = match dec_u64(bytes, &mut pos) {
            Some(x) => x,
            None => {
                return None;
            }
        };
        let versions = match dec_meta_list(bytes, &mut pos, n2) {
            Some(v) => v,
            None => {
                return None;
            }
        };
        if pos != bytes.len() {
            return None;
        }
        if !check_unique_lts(&lts_versions) {
            return None;
        }
        if !check_unique_meta_versions(&versions) {
            return None;
        }
        let mut c = Versions { lts_versions, versions, sorted_versions: Vec::new() };
        proof {
            assert forall|a: int, b: int|
                0 <= a < b < meta_pairs_of(c.versions@).len() implies meta_pairs_of(
                c.versions@,
            )[a].0 != meta_pairs_of(c.versions@)[b].0 by {
                assert(metas_of(c.versions@)[a].version != metas_of(c.versions@)[b].version);
            }
        }
        c.create_sorted_versions();
        Some(c)
    }
}

impl InstalledVersions {
    /// The inventory's compact cache form.
    pub fn to_cache_bytes(&self) -> (r: Vec<u8>)
        ensures
            r@ == enc_inventory_s(self.entries()),
    {
        let ghost es = self.entries();
        let mut out: Vec<u8> = Vec::new();
        push_u64(&mut out, self.ordered_versions.len() as u64);
        proof {
            assert(out@ =~= enc_u64_s(es.len() as u64) + enc_pair_list_s(es.take(0)));
        }
        let n = self.ordered_versions.len();
        let mut i: usize = 0;
        while i < n
            invariant
                0 <= i <= n,
                n == self.ordered_versions@.len(),
                es == self.entries(),
                out@ == enc_u64_s(es.len() as u64) + enc_pair_list_s(es.take(i as int)),
            decreases n - i,
        {
            let ghost pre = out@;
            push_version(&mut out, &self.ordered_versions[i].0);
            push_meta(&mut out, &self.ordered_versions[i].1);
            proof {
                assert(out@ =~= pre + enc_pair_s(es[i as int]));
                assert(es.take(i + 1) =~= es.take(i as int).push(es[i as int]));
                lemma_enc_pair_list_snoc(es.take(i as int), es[i as int]);
                assert(out@ =~= enc_u64_s(es.len() as u64) + enc_pair_list_s(es.take(i + 1)));
            }
            i = i + 1;
        }
        proof {
            assert(es.take(n as int) =~= es);
        }
        out
    }

    /// Rebuilds an inventory from its cache form; `None` means the
    /// bytes are not a well-formed cache.
    pub fn from_cache_bytes(bytes: &Vec<u8>) -> (r: Option<InstalledVersions>)
        ensures
            match r {
                Some(inv) => dec_inventory_s(bytes@) == Some(inv.entries()) && inv.wf(),
                None => dec_inventory_s(bytes@) is None,
            },
    {
        let mut pos: usize = 0;
        let n = match dec_u64(bytes, &mut pos) {
            Some(x) => x,
            None => {
                return None;
            }
        };
        let ordered_versions = match dec_pair_list(bytes, &mut pos, n) {
            Some(v) => v,
            None => {
                return None;
            }
        };
        if pos != bytes.len() {
            return None;
        }
        if !check_sorted_pairs(&ordered_versions) {
            return None;
        }
        let inv = InstalledVersions { ordered_versions };
        proof {
            assert(inv.entries() =~= entries_of(inv.ordered_versions@));
        }
        Some(inv)
    }
}

/// Decoding an encoded catalog cache restores both maps exactly.
#[verifier::rlimit(80)]
pub proof fn lemma_catalog_cache_round_trip(lts: Seq<(Seq<char>, u16)>, metas: Seq<MetaView>)
    requires
        unique_keys(lts),
        meta_versions_unique(metas),
        fits_len(lts.len()),
        fits_len(metas.len()),
        lts_list_fits(lts),
        meta_list_fits(metas),
    ensures
        dec_catalog_s(enc_catalog_s(lts, metas)) == Some((lts, metas)),
{
    let b = enc_catalog_s(lts, metas);
    let s1 = enc_u64_s(lts.len() as u64);
    let s2 = enc_lts_list_s(lts);
    let s3 = enc_u64_s(metas.len() as u64);
    let s4 = enc_meta_list_s(metas);
    assert(b.subrange(0, b.len() as int) =~= s1 + (s2 + (s3 + s4)));
    lemma_subrange_split(b, 0, s1, s2 + (s3 + s4));
    lemma_subrange_split(b, 8, s2, s3 + s4);
    lemma_subrange_split(b, 8 + s2.len() as int, s3, s4);
    lemma_dec_enc_u64(b, 0, lts.len() as u64);
    lemma_dec_enc_lts_list(b, 8, lts);
    lemma_dec_enc_u64(b, 8 + s2.len() as int, metas.len() as u64);
    lemma_dec_enc_meta_list(b, 16 + s2.len() as int, metas);
}

/// Decoding an encoded inventory cache restores the entries exactly.
#[verifier::rlimit(80)]
pub proof fn lemma_inventory_cache_round_trip(entries: Seq<Entry>)
    requires
        entries_sorted(entries),
        fits_len(entries.len()),
        pair_list_fits(entries),
    ensures
        dec_inventory_s(enc_inventory_s(entries)) == Some(entries),
{
    let b = enc_inventory_s(entries);
    let s1 = enc_u64_s(entries.len() as u64);
    let s2 = enc_pair_list_s(entries);
    assert(b.subrange(0, b.len() as int) =~= s1 + s2);
    lemma_subrange_split(b, 0, s1, s2);
    lemma_dec_enc_u64(b, 0, entries.len() as u64);
    lemma_dec_enc_pair_list(b, 8, entries);
}

/// A catalog rebuilt with the same maps resolves exactly as the
/// original: the keys, the metadata pairs, and the rebuilt ascending
/// index all coincide.
pub proof fn lemma_cache_restores_catalog(c: Versions, c2: Versions)
    requires
        c.wf(),
        c2.wf(),
        c2.lts_pairs() == c.lts_pairs(),
        metas_of(c2.versions@) == metas_of(c.versions@),
    ensures
        c2.keys() == c.keys(),
        c2.meta_pairs() == c.meta_pairs(),
        c2.sorted() == c.sorted(),
{
    assert(metas_of(c2.versions@).len() == c2.versions@.len());
    assert(metas_of(c.versions@).len() == c.versions@.len());
    assert(c2.versions@.len() == c.versions@.len());
    assert forall|i: int| 0 <= i < c2.keys().len() implies c2.keys()[i] == c.keys()[i] by {
        assert(metas_of(c2.versions@)[i] == metas_of(c.versions@)[i]);
        assert(c2.keys()[i] == metas_of(c2.versions@)[i].version);
        assert(c.keys()[i] == metas_of(c.versions@)[i].version);
    }
    assert(c2.keys() =~= c.keys());
    assert forall|i: int|
        0 <= i < c2.meta_pairs().len() implies c2.meta_pairs()[i] == c.meta_pairs()[i] by {
        assert(metas_of(c2.versions@)[i] == metas_of(c.versions@)[i]);
        assert(c2.meta_pairs()[i] == (metas_of(c2.versions@)[i].version, metas_of(c2.versions@)[i]));
        assert(c.meta_pairs()[i] == (metas_of(c.versions@)[i].version, metas_of(c.versions@)[i]));
    }
    assert(c2.meta_pairs() =~= c.meta_pairs());
    assert forall|j: int|
        0 <= j < c2.sorted().len() implies c.sorted().contains(#[trigger] c2.sorted()[j]) by {
        assert(c2.keys().contains(c2.sorted()[j]));
        let i = choose|i: int| 0 <= i < c2.keys().len() && c2.keys()[i] == c2.sorted()[j];
        assert(c.sorted().contains(c.keys()[i]));
    }
    assert forall|j: int|
        0 <= j < c.sorted().len() implies c2.sorted().contains(#[trigger] c.sorted()[j]) by {
        assert(c.keys().contains(c.sorted()[j]));
        let i = choose|i: int| 0 <= i < c.keys().len() && c.keys()[i] == c.sorted()[j];
        assert(c2.sorted().contains(c2.keys()[i]));
    }
    crate::versions::lemma_strictly_sorted_same_members(c2.sorted(), c.sorted());
}

} // verus!
