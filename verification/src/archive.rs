//! Package archives and signatures.
//!
//! An archive is a deterministic byte serialization of a package's source
//! files (sorted relative paths), so the same tree always yields the same
//! bytes and thus the same content hash:
//!
//! ```text
//! "RESIDPKG1"                     (9-byte magic)
//! u32 file count (little endian)
//! per file: u16 path length, path bytes, u64 content length, content bytes
//! ```
//!
//! The archive's SHA-256 digest is the package's content hash. A signature
//! is an Ed25519 signature over that digest; keys are hex-encoded.

use vstd::prelude::*;

use crate::crypto::{
    ed25519_accepts, ed25519_key_decodes, ed25519_public, ed25519_public_of, ed25519_sign, ed25519_signature_of, ed25519_verify,
    fill_random, sha256_digest, sha256_of,
};
use crate::text::{chars_eq, chars_of, push_char, split_chars, split_on, string_of, views};
use vstd::string::StringSliceAdditionalSpecFns;

verus! {

/// Why an archive could not be built.
#[derive(Debug)]
pub enum PackError {
    /// Archive construction or I/O failure.
    Io(String),
    /// No source files found to pack.
    Empty,
}

impl PackError {
    /// The message the error displays.
    pub fn message(&self) -> (s: String)
        ensures
            self matches PackError::Io(m) ==> s@ == m@,
            self is Empty ==> s@ == "package contains no source files"@,
    {
        match self {
            PackError::Io(m) => m.clone(),
            PackError::Empty => string_of("package contains no source files"),
        }
    }
}

/// The archive magic `RESIDPKG1`.
pub open spec fn archive_magic() -> Seq<u8> {
    seq![0x52u8, 0x45, 0x53, 0x49, 0x44, 0x50, 0x4b, 0x47, 0x31]
}

// ─── Hex ───────────────────────────────────────────────────────────

/// Lowercase hex digit for a value below 16.
pub open spec fn hex_char(v: nat) -> char {
    seq!['0', '1', '2', '3', '4', '5', '6', '7', '8', '9', 'a', 'b', 'c', 'd', 'e', 'f'][v as int]
}

/// Two lowercase hex digits per byte, most significant first.
pub open spec fn hex_text(b: Seq<u8>) -> Seq<char>
    decreases b.len(),
{
    if b.len() == 0 {
        Seq::empty()
    } else {
        hex_text(b.drop_last()) + seq![hex_char((b.last() / 16) as nat), hex_char((b.last() % 16) as nat)]
    }
}

/// Value of an ASCII hex digit (either case).
pub open spec fn hex_digit(c: u8) -> Option<u8> {
    if 0x30 <= c <= 0x39 {
        Some((c - 0x30) as u8)
    } else if 0x61 <= c <= 0x66 {
        Some((c - 0x61 + 10) as u8)
    } else if 0x41 <= c <= 0x46 {
        Some((c - 0x41 + 10) as u8)
    } else {
        None
    }
}

/// One byte from two characters as `u8::from_str_radix(_, 16)` reads them:
/// two hex digits, or `+` and one digit.
pub open spec fn hex_pair(a: u8, b: u8) -> Option<u8> {
    match (hex_digit(a), hex_digit(b)) {
        (Some(x), Some(y)) => Some((x * 16 + y) as u8),
        (None, Some(y)) => if a == 0x2b {
            Some(y)
        } else {
            None
        },
        _ => None,
    }
}

/// Decoding of a byte string of even length, two bytes per output byte.
pub open spec fn hex_decode_pairs(s: Seq<u8>) -> Option<Seq<u8>>
    decreases s.len(),
{
    if s.len() < 2 {
        Some(Seq::empty())
    } else {
        match (hex_decode_pairs(s.take(s.len() - 2)), hex_pair(s[s.len() - 2], s[s.len() - 1])) {
            (Some(front), Some(v)) => Some(front.push(v)),
            _ => None,
        }
    }
}

/// Reading `s` two bytes at a time stays on character boundaries up to the
/// first pair that fails to decode: for each pair whose predecessors all
/// decoded, both of its ends start a character (or end the text).
pub open spec fn hex_pairs_sliceable(s: &str) -> bool {
    let b = s.spec_bytes();
    b.len() % 2 == 0 ==> forall|i: int|
        #![trigger hex_decode_pairs(b.take(2 * i))]
        0 <= i && 2 * i < b.len() && hex_decode_pairs(b.take(2 * i)) is Some
            ==> vstd::utf8::is_char_boundary(b, 2 * i) && vstd::utf8::is_char_boundary(b, 2 * i + 2)
}

/// Lowercase hex encoding, two digits per byte.
pub fn hex_encode(bytes: &[u8]) -> (s: String)
    ensures
        s@ == hex_text(bytes@),
{
    let digits = vec!['0', '1', '2', '3', '4', '5', '6', '7', '8', '9', 'a', 'b', 'c', 'd', 'e', 'f'];
    let mut s = String::new();
    let mut i: usize = 0;
    while i < bytes.len()
        invariant
            i <= bytes.len(),
            s@ == hex_text(bytes@.take(i as int)),
            digits@ == seq!['0', '1', '2', '3', '4', '5', '6', '7', '8', '9', 'a', 'b', 'c', 'd', 'e', 'f'],
        decreases bytes.len() - i,
    {
        let b = bytes[i];
        push_char(&mut s, digits[(b / 16) as usize]);
        push_char(&mut s, digits[(b % 16) as usize]);
        assert(bytes@.take(i + 1).drop_last() =~= bytes@.take(i as int));
        i += 1;
    }
    assert(bytes@.take(i as int) =~= bytes@);
    s
}

fn hex_digit_exec(c: u8) -> (r: Option<u8>)
    ensures
        r == hex_digit(c),
{
    if 0x30 <= c && c <= 0x39 {
        Some(c - 0x30)
    } else if 0x61 <= c && c <= 0x66 {
        Some(c - 0x61 + 10)
    } else if 0x41 <= c && c <= 0x46 {
        Some(c - 0x41 + 10)
    } else {
        None
    }
}

fn hex_pair_exec(a: u8, b: u8) -> (r: Option<u8>)
    ensures
        r == hex_pair(a, b),
{
    match (hex_digit_exec(a), hex_digit_exec(b)) {
        (Some(x), Some(y)) => Some(x * 16 + y),
        (None, Some(y)) => if a == 0x2b {
            Some(y)
        } else {
            None
        },
        _ => None,
    }
}

/// Decodes pairs of bytes as hex; `None` on the first bad pair.
pub fn hex_decode_bytes(s: &[u8]) -> (r: Option<Vec<u8>>)
    requires
        s@.len() % 2 == 0,
    ensures
        r matches Some(v) ==> hex_decode_pairs(s@) == Some(v@),
        r is None ==> hex_decode_pairs(s@) is None,
{
    let mut out: Vec<u8> = Vec::new();
    let mut i: usize = 0;
    while i + 1 < s.len()
        invariant
            i <= s.len(),
            i % 2 == 0,
            s@.len() % 2 == 0,
            hex_decode_pairs(s@.take(i as int)) == Some(out@),
        decreases s.len() - i,
    {
        let p = hex_pair_exec(s[i], s[i + 1]);
        assert(s@.take(i + 2).take(i as int) =~= s@.take(i as int));
        match p {
            Some(v) => {
                out.push(v);
            },
            None => {
                proof {
                    lemma_hex_decode_prefix_fails(s@, i as int);
                }
                return None;
            },
        }
        i += 2;
    }
    assert(s@.take(i as int) =~= s@);
    Some(out)
}

proof fn lemma_hex_decode_prefix_fails(s: Seq<u8>, i: int)
    requires
        0 <= i,
        i + 2 <= s.len(),
        s.len() % 2 == 0,
        i % 2 == 0,
        hex_pair(s[i], s[i + 1]) is None,
    ensures
        hex_decode_pairs(s) is None,
    decreases s.len() - i,
{
    if i + 2 == s.len() {
    } else {
        lemma_hex_decode_prefix_fails(s.take(s.len() - 2), i);
    }
}

/// Decodes a hex string; two characters per byte.
pub fn decode_hex(s: &str) -> (r: Result<Vec<u8>, String>)
    requires
        hex_pairs_sliceable(s),
    ensures
        s.spec_bytes().len() % 2 != 0 ==> (r matches Err(e) && e@ == "odd-length hex string"@),
        s.spec_bytes().len() % 2 == 0 ==> match hex_decode_pairs(s.spec_bytes()) {
            Some(v) => (r matches Ok(w) && w@ == v),
            None => (r matches Err(e) && e@ == "bad hex: invalid digit found in string"@),
        },
{
    let b = s.as_bytes();
    if b.len() % 2 != 0 {
        return Err(string_of("odd-length hex string"));
    }
    match hex_decode_bytes(b) {
        Some(v) => Ok(v),
        None => Err(string_of("bad hex: invalid digit found in string")),
    }
}

/// A 32-byte key from 64 hex characters.
pub fn decode_hex32(s: &str) -> (r: Result<[u8; 32], String>)
    requires
        hex_pairs_sliceable(s),
    ensures
        r matches Ok(k) ==> s.spec_bytes().len() % 2 == 0 && hex_decode_pairs(s.spec_bytes())
            == Some(k@),
        r is Err <==> (s.spec_bytes().len() % 2 != 0 || !(hex_decode_pairs(s.spec_bytes()) matches Some(v) && v.len() == 32)),
{
    let v = decode_hex(s)?;
    if v.len() != 32 {
        return Err(string_of("expected 32-byte (64 hex char) key"));
    }
    let mut k = [0u8; 32];
    let mut i: usize = 0;
    while i < 32
        invariant
            i <= 32,
            v@.len() == 32,
            forall|j: int| 0 <= j < i ==> k@[j] == v@[j],
        decreases 32 - i,
    {
        k[i] = v[i];
        i += 1;
    }
    assert(k@ =~= v@);
    Ok(k)
}

/// A 64-byte signature from 128 hex characters.
pub fn decode_hex64(s: &str) -> (r: Result<[u8; 64], String>)
    requires
        hex_pairs_sliceable(s),
    ensures
        r matches Ok(k) ==> s.spec_bytes().len() % 2 == 0 && hex_decode_pairs(s.spec_bytes())
            == Some(k@),
        r is Err <==> (s.spec_bytes().len() % 2 != 0 || !(hex_decode_pairs(s.spec_bytes()) matches Some(v) && v.len() == 64)),
{
    let v = decode_hex(s)?;
    if v.len() != 64 {
        return Err(string_of("expected 64-byte (128 hex char) signature"));
    }
    let mut k = [0u8; 64];
    let mut i: usize = 0;
    while i < 64
        invariant
            i <= 64,
            v@.len() == 64,
            forall|j: int| 0 <= j < i ==> k@[j] == v@[j],
        decreases 64 - i,
    {
        k[i] = v[i];
        i += 1;
    }
    assert(k@ =~= v@);
    Ok(k)
}

/// The ASCII bytes of a character sequence whose characters are ASCII.
pub open spec fn ascii_bytes(cs: Seq<char>) -> Seq<u8> {
    Seq::new(cs.len(), |i: int| cs[i] as u8)
}

proof fn lemma_hex_text_len(b: Seq<u8>)
    ensures
        hex_text(b).len() == 2 * b.len(),
    decreases b.len(),
{
    if b.len() > 0 {
        lemma_hex_text_len(b.drop_last());
    }
}

/// Decoding the hex text of a byte string gives the byte string back.
pub proof fn lemma_hex_roundtrip(b: Seq<u8>)
    ensures
        ascii_bytes(hex_text(b)).len() % 2 == 0,
        hex_decode_pairs(ascii_bytes(hex_text(b))) == Some(b),
    decreases b.len(),
{
    lemma_hex_text_len(b);
    if b.len() > 0 {
        let front = b.drop_last();
        lemma_hex_roundtrip(front);
        lemma_hex_text_len(front);
        let s = ascii_bytes(hex_text(b));
        assert(s.take(s.len() - 2) =~= ascii_bytes(hex_text(front)));
        let x = b.last();
        let hi = (x / 16) as nat;
        let lo = (x % 16) as nat;
        assert(s[s.len() - 2] == hex_char(hi) as u8);
        assert(s[s.len() - 1] == hex_char(lo) as u8);
        assert(hex_digit(hex_char(hi) as u8) == Some(hi as u8));
        assert(hex_digit(hex_char(lo) as u8) == Some(lo as u8));
        assert(b =~= front.push(x));
    }
}

// ─── Archive format ────────────────────────────────────────────────

pub open spec fn le_u16(b: Seq<u8>, off: int) -> nat {
    (b[off] as nat) + 256 * (b[off + 1] as nat)
}

pub open spec fn le_u32(b: Seq<u8>, off: int) -> nat {
    le_u16(b, off) + 65536 * le_u16(b, off + 2)
}

pub open spec fn le_u64(b: Seq<u8>, off: int) -> nat {
    le_u32(b, off) + 4294967296 * le_u32(b, off + 4)
}

/// The file table of an archive, read from offset `off` on: `count`
/// entries of (path bytes, content bytes), or `None` when it is truncated.
pub open spec fn archive_entries(b: Seq<u8>, off: int, count: nat) -> Option<Seq<(Seq<u8>, Seq<u8>)>>
    decreases count,
{
    if count == 0 {
        Some(Seq::empty())
    } else if off + 2 > b.len() {
        None
    } else {
        let plen = le_u16(b, off) as int;
        let p0 = off + 2;
        if p0 + plen > b.len() {
            None
        } else if p0 + plen + 8 > b.len() {
            None
        } else {
            let clen = le_u64(b, p0 + plen) as int;
            let c0 = p0 + plen + 8;
            if c0 + clen > b.len() {
                None
            } else {
                match archive_entries(b, c0 + clen, (count - 1) as nat) {
                    Some(rest) => Some(
                        seq![(b.subrange(p0, p0 + plen), b.subrange(c0, c0 + clen))] + rest,
                    ),
                    None => None,
                }
            }
        }
    }
}

/// The (path bytes, content bytes) entries of an archive, if it is one.
pub open spec fn archive_files(b: Seq<u8>) -> Option<Seq<(Seq<u8>, Seq<u8>)>> {
    if b.len() < 13 || b.take(9) != archive_magic() {
        None
    } else {
        archive_entries(b, 13, le_u32(b, 9))
    }
}

/// The message for the first fault in the entry table of `b` from `off`
/// for `count` entries (see [`archive_entries`]).
pub open spec fn entries_error(b: Seq<u8>, off: int, count: nat) -> Seq<char>
    decreases count,
{
    if count == 0 {
        Seq::empty()
    } else if off + 2 > b.len() {
        "truncated archive (path length)"@
    } else {
        let plen = le_u16(b, off) as int;
        let p0 = off + 2;
        if p0 + plen > b.len() {
            "truncated archive (path)"@
        } else if p0 + plen + 8 > b.len() {
            "truncated archive (content length)"@
        } else {
            let clen = le_u64(b, p0 + plen) as int;
            let c0 = p0 + plen + 8;
            if c0 + clen > b.len() {
                "truncated archive (content)"@
            } else {
                entries_error(b, c0 + clen, (count - 1) as nat)
            }
        }
    }
}

/// The message a malformed archive is refused with.
pub open spec fn archive_error(b: Seq<u8>) -> Seq<char> {
    if b.len() < 13 || b.take(9) != archive_magic() {
        "not a resid package archive"@
    } else {
        entries_error(b, 13, le_u32(b, 9))
    }
}

/// `String::from_utf8_lossy`: the text a byte string decodes to, with each
/// invalid sequence replaced by U+FFFD.
pub uninterp spec fn utf8_lossy(b: Seq<u8>) -> Seq<char>;

/// `String::from_utf8_lossy` (owned): decodes `b`, replacing invalid
/// sequences; on valid UTF-8 it is the plain decoding.
#[verifier::external_body]
pub fn from_utf8_lossy(b: &[u8]) -> (s: String)
    ensures
        s@ == utf8_lossy(b@),
        vstd::utf8::valid_utf8(b@) ==> s@ == vstd::utf8::decode_utf8(b@),
{
    String::from_utf8_lossy(b).into_owned()
}

fn read_u16_le(b: &[u8], off: usize) -> (v: usize)
    requires
        off + 2 <= b@.len(),
    ensures
        v == le_u16(b@, off as int),
{
    (b[off] as usize) + 256 * (b[off + 1] as usize)
}

fn read_u32_le(b: &[u8], off: usize) -> (v: u64)
    requires
        off + 4 <= b@.len(),
    ensures
        v == le_u32(b@, off as int),
{
    let _n = b.len();
    (read_u16_le(b, off) as u64) + 65536 * (read_u16_le(b, off + 2) as u64)
}

fn read_u64_le(b: &[u8], off: usize) -> (v: u128)
    requires
        off + 8 <= b@.len(),
    ensures
        v == le_u64(b@, off as int),
{
    let _n = b.len();
    (read_u32_le(b, off) as u128) + 4294967296 * (read_u32_le(b, off + 4) as u128)
}

/// Bytes `from..to` of a slice, copied.
pub fn copy_range(b: &[u8], from: usize, to: usize) -> (r: Vec<u8>)
    requires
        from <= to <= b@.len(),
    ensures
        r@ == b@.subrange(from as int, to as int),
{
    let mut r: Vec<u8> = Vec::new();
    let mut i = from;
    while i < to
        invariant
            from <= i <= to,
            to <= b@.len(),
            r@ == b@.subrange(from as int, i as int),
        decreases to - i,
    {
        r.push(b[i]);
        assert(b@.subrange(from as int, i + 1) =~= b@.subrange(from as int, i as int).push(
            b@[i as int],
        ));
        i += 1;
    }
    r
}

/// The paths an entry list decodes to (the plain decoding of a path that
/// is valid UTF-8), and its contents.
pub open spec fn listed_as(r: Seq<(String, Vec<u8>)>, e: Seq<(Seq<u8>, Seq<u8>)>) -> bool {
    &&& r.len() == e.len()
    &&& forall|i: int|
        0 <= i < r.len() ==> (#[trigger] r[i]).0@ == utf8_lossy(e[i].0) && r[i].1@ == e[i].1 && (
        vstd::utf8::valid_utf8(e[i].0) ==> r[i].0@ == vstd::utf8::decode_utf8(e[i].0))
}

/// Parses an archive's file table without writing anything.
pub fn list_files(archive: &[u8]) -> (r: Result<Vec<(String, Vec<u8>)>, String>)
    ensures
        match archive_files(archive@) {
            Some(e) => (r matches Ok(v) && listed_as(v@, e)),
            None => (r matches Err(m) && m@ == archive_error(archive@)),
        },
{
    let mut files: Vec<(String, Vec<u8>)> = Vec::new();
    let magic: [u8; 9] = [0x52, 0x45, 0x53, 0x49, 0x44, 0x50, 0x4b, 0x47, 0x31];
    if archive.len() < 13 {
        return Err(string_of("not a resid package archive"));
    }
    let mut m: usize = 0;
    while m < 9
        invariant
            m <= 9,
            archive@.len() >= 13,
            magic@ == archive_magic(),
            forall|j: int| 0 <= j < m ==> archive@[j] == magic@[j],
        decreases 9 - m,
    {
        if archive[m] != magic[m] {
            assert(archive@.take(9)[m as int] != archive_magic()[m as int]);
            return Err(string_of("not a resid package archive"));
        }
        m += 1;
    }
    assert(archive@.take(9) =~= archive_magic());
    let count = read_u32_le(archive, 9);
    let mut off: usize = 13;
    let mut k: u64 = 0;
    let ghost b = archive@;
    while k < count
        invariant
            b == archive@,
            k <= count,
            count == le_u32(b, 9),
            13 <= off <= b.len(),
            archive_files(b) is Some <==> archive_entries(b, off as int, (count - k) as nat) is Some,
            archive_files(b) matches Some(all) ==> (archive_entries(b, off as int, (count - k) as nat)
                matches Some(rest) && all.len() == files@.len() + rest.len()
                && listed_as(files@, all.take(files@.len() as int))
                && rest == all.skip(files@.len() as int)),
            archive_files(b) is None ==> archive_error(b) == entries_error(b, off as int, (count - k) as nat),
        decreases count - k,
    {
        let ghost old_off = off as int;
        if archive.len() - off < 2 {
            return Err(string_of("truncated archive (path length)"));
        }
        let plen = read_u16_le(archive, off);
        off = off + 2;
        if archive.len() - off < plen {
            return Err(string_of("truncated archive (path)"));
        }
        let rel = from_utf8_lossy(&copy_range(archive, off, off + plen));
        off = off + plen;
        if archive.len() - off < 8 {
            return Err(string_of("truncated archive (content length)"));
        }
        let clen = read_u64_le(archive, off);
        off = off + 8;
        if ((archive.len() - off) as u128) < clen {
            return Err(string_of("truncated archive (content)"));
        }
        let c = copy_range(archive, off, off + (clen as usize));
        let ghost old_files = files@;
        let ghost entry = (rel@, c@);
        files.push((rel, c));
        proof {
            if archive_files(b) is Some {
                let all = archive_files(b)->0;
                let n = old_files.len() as int;
                let rest = all.skip(n);
                let p0 = old_off + 2;
                let c0 = p0 + plen + 8;
                assert(archive_entries(b, old_off, (count - k) as nat) == Some(rest));
                assert(rest[0] == (b.subrange(p0, p0 + plen), b.subrange(c0, c0 + clen)));
                assert(all[n] == rest[0]);
                assert(files@[n].0@ == utf8_lossy(all[n].0));
                assert(listed_as(files@, all.take(n + 1))) by {
                    assert forall|i: int| 0 <= i < files@.len() implies (#[trigger] files@[i]).0@
                        == utf8_lossy(all.take(n + 1)[i].0) && files@[i].1@ == all.take(n + 1)[i].1 by {
                        if i < n {
                            assert(files@[i] == old_files[i]);
                            assert(all.take(n + 1)[i] == all.take(n)[i]);
                        }
                    }
                }
                assert(all.skip(n + 1) =~= all.skip(n).drop_first());
            }
        }
        off = off + (clen as usize);
        k = k + 1;
    }
    proof {
        if archive_files(b) is Some {
            let all = archive_files(b)->0;
            assert(all.take(files@.len() as int) =~= all);
        }
    }
    Ok(files)
}


// ─── Writing archives ──────────────────────────────────────────────

/// Two little-endian bytes of `v` (taken modulo 2^16).
#[verifier::opaque]
pub open spec fn u16_bytes(v: nat) -> Seq<u8> {
    seq![(v % 256) as u8, ((v / 256) % 256) as u8]
}

/// Four little-endian bytes of `v` (taken modulo 2^32).
#[verifier::opaque]
pub open spec fn u32_bytes(v: nat) -> Seq<u8> {
    u16_bytes(v % 65536) + u16_bytes(v / 65536)
}

/// Eight little-endian bytes of `v` (taken modulo 2^64).
#[verifier::opaque]
pub open spec fn u64_bytes(v: nat) -> Seq<u8> {
    u32_bytes(v % 4294967296) + u32_bytes(v / 4294967296)
}

/// One file-table entry: path length, path, content length, content.
#[verifier::opaque]
pub open spec fn entry_bytes(e: (Seq<u8>, Seq<u8>)) -> Seq<u8> {
    u16_bytes(e.0.len()) + e.0 + u64_bytes(e.1.len()) + e.1
}

/// The file table for `es`, entries in order.
pub open spec fn entries_bytes(es: Seq<(Seq<u8>, Seq<u8>)>) -> Seq<u8>
    decreases es.len(),
{
    if es.len() == 0 {
        Seq::empty()
    } else {
        entries_bytes(es.drop_last()) + entry_bytes(es.last())
    }
}

/// The archive of `es`: magic, entry count, file table.
pub open spec fn archive_encoding(es: Seq<(Seq<u8>, Seq<u8>)>) -> Seq<u8> {
    archive_magic() + u32_bytes(es.len()) + entries_bytes(es)
}

/// Every path fits the 16-bit length field and every content the 64-bit one.
pub open spec fn lengths_fit(es: Seq<(Seq<u8>, Seq<u8>)>) -> bool {
    forall|i: int|
        0 <= i < es.len() ==> (#[trigger] es[i]).0.len() < 65536 && es[i].1.len()
            < 18446744073709551616
}

fn push_u16(out: &mut Vec<u8>, v: u64)
    ensures
        final(out)@ == old(out)@ + u16_bytes(v as nat),
{
    out.push((v % 256) as u8);
    out.push(((v / 256) % 256) as u8);
    proof {
        reveal(u16_bytes);
        assert(out@ =~= old(out)@ + u16_bytes(v as nat));
    }
}

fn push_u32(out: &mut Vec<u8>, v: u64)
    ensures
        final(out)@ == old(out)@ + u32_bytes(v as nat),
{
    push_u16(out, v % 65536);
    push_u16(out, v / 65536);
    proof {
        reveal(u32_bytes);
        assert(out@ =~= old(out)@ + u32_bytes(v as nat));
    }
}

fn push_u64(out: &mut Vec<u8>, v: u64)
    ensures
        final(out)@ == old(out)@ + u64_bytes(v as nat),
{
    push_u32(out, v % 4294967296);
    push_u32(out, v / 4294967296);
    proof {
        reveal(u64_bytes);
        assert(out@ =~= old(out)@ + u64_bytes(v as nat));
    }
}

/// Appends the bytes of `b`.
pub fn push_all(out: &mut Vec<u8>, b: &[u8])
    ensures
        final(out)@ == old(out)@ + b@,
{
    let mut i: usize = 0;
    let ghost start = out@;
    while i < b.len()
        invariant
            i <= b.len(),
            out@ == start + b@.take(i as int),
        decreases b.len() - i,
    {
        out.push(b[i]);
        assert(b@.take(i + 1) =~= b@.take(i as int).push(b@[i as int]));
        i += 1;
    }
    assert(b@.take(i as int) =~= b@);
}

/// Serializes the given (path bytes, content bytes) entries, in the order
/// given, into archive bytes; lengths that overflow their fields are
/// truncated as an `as` cast does. A package without files is refused.
pub fn archive_bytes(files: &[(Vec<u8>, Vec<u8>)]) -> (r: Result<Vec<u8>, PackError>)
    ensures
        files@.len() == 0 ==> r matches Err(PackError::Empty),
        files@.len() > 0 ==> (r matches Ok(b) && b@ == archive_encoding(
            files@.map_values(|f: (Vec<u8>, Vec<u8>)| (f.0@, f.1@)),
        )),
{
    if files.len() == 0 {
        return Err(PackError::Empty);
    }
    let ghost es = files@.map_values(|f: (Vec<u8>, Vec<u8>)| (f.0@, f.1@));
    let mut out: Vec<u8> = Vec::new();
    push_all(&mut out, &[0x52u8, 0x45, 0x53, 0x49, 0x44, 0x50, 0x4b, 0x47, 0x31]);
    push_u32(&mut out, files.len() as u64);
    let ghost head = out@;
    assert(head =~= archive_magic() + u32_bytes(es.len()));
    let mut i: usize = 0;
    while i < files.len()
        invariant
            i <= files@.len(),
            es == files@.map_values(|f: (Vec<u8>, Vec<u8>)| (f.0@, f.1@)),
            out@ == head + entries_bytes(es.take(i as int)),
        decreases files@.len() - i,
    {
        let (p, c) = &files[i];
        let ghost before = out@;
        push_u16(&mut out, p.len() as u64);
        push_all(&mut out, p.as_slice());
        push_u64(&mut out, c.len() as u64);
        push_all(&mut out, c.as_slice());
        proof {
            assert(es[i as int] == (p@, c@));
            assert(out@ =~= before + entry_bytes(es[i as int])) by {
                reveal(entry_bytes);
            }
            lemma_entries_take_step(es, i as int);
        }
        i += 1;
    }
    assert(es.take(i as int) =~= es);
    Ok(out)
}

proof fn lemma_entries_take_step(es: Seq<(Seq<u8>, Seq<u8>)>, i: int)
    requires
        0 <= i < es.len(),
    ensures
        entries_bytes(es.take(i + 1)) == entries_bytes(es.take(i)) + entry_bytes(es[i]),
{
    assert(es.take(i + 1).drop_last() =~= es.take(i));
}

proof fn lemma_u16_read(b: Seq<u8>, off: int, v: nat)
    requires
        0 <= off,
        off + 2 <= b.len(),
        b[off] == u16_bytes(v)[0],
        b[off + 1] == u16_bytes(v)[1],
    ensures
        le_u16(b, off) == v % 65536,
{
    reveal(u16_bytes);
    vstd::arithmetic::div_mod::lemma_breakdown(v as int, 256, 256);
}

proof fn lemma_u32_read(b: Seq<u8>, off: int, v: nat)
    requires
        0 <= off,
        off + 4 <= b.len(),
        forall|k: int| 0 <= k < 4 ==> b[off + k] == #[trigger] u32_bytes(v)[k],
    ensures
        le_u32(b, off) == v % 4294967296,
{
    reveal(u32_bytes);
    reveal(u16_bytes);
    let lo = u16_bytes(v % 65536);
    let hi = u16_bytes(v / 65536);
    assert(u32_bytes(v)[0] == lo[0]);
    assert(u32_bytes(v)[1] == lo[1]);
    assert(u32_bytes(v)[2] == hi[0]);
    assert(u32_bytes(v)[3] == hi[1]);
    lemma_u16_read(b, off, v % 65536);
    lemma_u16_read(b, off + 2, v / 65536);
    vstd::arithmetic::div_mod::lemma_breakdown(v as int, 65536, 65536);
}

proof fn lemma_bytes_lens(v: nat)
    ensures
        u16_bytes(v).len() == 2,
        u32_bytes(v).len() == 4,
        u64_bytes(v).len() == 8,
{
    reveal(u16_bytes);
    reveal(u32_bytes);
    reveal(u64_bytes);
}

proof fn lemma_u64_read(b: Seq<u8>, off: int, v: nat)
    requires
        0 <= off,
        off + 8 <= b.len(),
        forall|k: int| 0 <= k < 8 ==> b[off + k] == #[trigger] u64_bytes(v)[k],
    ensures
        le_u64(b, off) == v % 18446744073709551616,
{
    let lo = u32_bytes(v % 4294967296);
    let hi = u32_bytes(v / 4294967296);
    lemma_bytes_lens(v % 4294967296);
    lemma_bytes_lens(v / 4294967296);
    assert(u64_bytes(v) == lo + hi) by {
        reveal(u64_bytes);
    }
    assert forall|k: int| 0 <= k < 4 implies b[off + k] == #[trigger] lo[k] by {
        assert(u64_bytes(v)[k] == lo[k]);
    }
    assert forall|k: int| 0 <= k < 4 implies b[(off + 4) + k] == #[trigger] hi[k] by {
        assert(u64_bytes(v)[k + 4] == hi[k]);
        assert(b[off + (k + 4)] == u64_bytes(v)[k + 4]);
    }
    lemma_u32_read(b, off, v % 4294967296);
    lemma_u32_read(b, off + 4, v / 4294967296);
    vstd::arithmetic::div_mod::lemma_breakdown(v as int, 4294967296, 4294967296);
}

proof fn lemma_sub_index(b: Seq<u8>, off: int, s: Seq<u8>)
    requires
        0 <= off,
        off + s.len() <= b.len(),
        b.subrange(off, off + s.len()) == s,
    ensures
        forall|k: int| 0 <= k < s.len() ==> b[off + k] == #[trigger] s[k],
{
    assert forall|k: int| 0 <= k < s.len() implies b[off + k] == #[trigger] s[k] by {
        assert(b.subrange(off, off + s.len())[k] == b[off + k]);
    }
}

proof fn lemma_entries_front(es: Seq<(Seq<u8>, Seq<u8>)>)
    requires
        es.len() > 0,
    ensures
        entries_bytes(es) == entry_bytes(es[0]) + entries_bytes(es.drop_first()),
    decreases es.len(),
{
    if es.len() == 1 {
        assert(es.drop_last() =~= Seq::<(Seq<u8>, Seq<u8>)>::empty());
        assert(es.drop_first() =~= Seq::<(Seq<u8>, Seq<u8>)>::empty());
        assert(entries_bytes(es.drop_last()) == Seq::<u8>::empty());
        assert(entries_bytes(es.drop_first()) == Seq::<u8>::empty());
        assert(entries_bytes(es) =~= entry_bytes(es[0]));
    } else {
        lemma_entries_front(es.drop_last());
        assert(es.drop_last().drop_first() =~= es.drop_first().drop_last());
        assert(es.drop_first().last() == es.last());
        assert(entries_bytes(es) =~= entry_bytes(es[0]) + entries_bytes(es.drop_first()));
    }
}

proof fn lemma_entry_len(e: (Seq<u8>, Seq<u8>))
    ensures
        entry_bytes(e).len() == 10 + e.0.len() + e.1.len(),
        forall|k: int| 0 <= k < 2 ==> #[trigger] entry_bytes(e)[k] == u16_bytes(e.0.len())[k],
        forall|k: int|
            2 <= k < 2 + e.0.len() ==> #[trigger] entry_bytes(e)[k] == e.0[k - 2],
        forall|k: int|
            2 + e.0.len() <= k < 10 + e.0.len() ==> #[trigger] entry_bytes(e)[k] == u64_bytes(
                e.1.len(),
            )[k - 2 - e.0.len()],
        forall|k: int|
            10 + e.0.len() <= k < 10 + e.0.len() + e.1.len() ==> #[trigger] entry_bytes(e)[k]
                == e.1[k - 10 - e.0.len()],
{
    reveal(entry_bytes);
    lemma_bytes_lens(e.0.len());
    lemma_bytes_lens(e.1.len());
}

#[verifier::spinoff_prover]
#[verifier::rlimit(60)]
proof fn lemma_entries_read(b: Seq<u8>, off: int, es: Seq<(Seq<u8>, Seq<u8>)>)
    requires
        0 <= off,
        off + entries_bytes(es).len() <= b.len(),
        b.subrange(off, off + entries_bytes(es).len()) == entries_bytes(es),
        lengths_fit(es),
    ensures
        archive_entries(b, off, es.len()) == Some(es),
    decreases es.len(),
{
    if es.len() > 0 {
        lemma_entries_front(es);
        let e = es[0];
        let rest = es.drop_first();
        let eb = entry_bytes(e);
        let all = entries_bytes(es);
        lemma_entry_len(e);
        lemma_sub_index(b, off, all);
        let plen = e.0.len() as int;
        let clen = e.1.len() as int;
        let p0 = off + 2;
        let c0 = p0 + plen + 8;
        assert forall|k: int| 0 <= k < eb.len() implies b[off + k] == #[trigger] eb[k] by {
            assert(all[k] == eb[k]);
        }
        assert(b[off] == eb[0] && b[off + 1] == eb[1]);
        lemma_u16_read(b, off, e.0.len());
        assert(e.0.len() < 65536);
        assert forall|k: int| 0 <= k < 8 implies b[(p0 + plen) + k] == #[trigger] u64_bytes(
            e.1.len(),
        )[k] by {
            assert(eb[2 + plen + k] == u64_bytes(e.1.len())[k]);
            assert(b[off + (2 + plen + k)] == eb[2 + plen + k]);
        }
        lemma_u64_read(b, p0 + plen, e.1.len());
        assert(b.subrange(p0, p0 + plen) =~= e.0) by {
            assert forall|k: int| 0 <= k < plen implies b.subrange(p0, p0 + plen)[k] == e.0[k] by {
                assert(eb[2 + k] == e.0[k]);
                assert(b[off + (2 + k)] == eb[2 + k]);
            }
        }
        assert(b.subrange(c0, c0 + clen) =~= e.1) by {
            assert forall|k: int| 0 <= k < clen implies b.subrange(c0, c0 + clen)[k] == e.1[k] by {
                assert(eb[10 + plen + k] == e.1[k]);
                assert(b[off + (10 + plen + k)] == eb[10 + plen + k]);
            }
        }
        let m = entries_bytes(rest).len() as int;
        assert(b.subrange(c0 + clen, c0 + clen + m) =~= entries_bytes(rest)) by {
            assert forall|k: int| 0 <= k < m implies b.subrange(c0 + clen, c0 + clen + m)[k]
                == entries_bytes(rest)[k] by {
                assert(all[eb.len() + k] == entries_bytes(rest)[k]);
                assert(b[off + (eb.len() + k)] == all[eb.len() + k]);
            }
        }
        assert(lengths_fit(rest)) by {
            assert forall|i: int| 0 <= i < rest.len() implies (#[trigger] rest[i]).0.len()
                < 65536 && rest[i].1.len() < 18446744073709551616 by {
                assert(rest[i] == es[i + 1]);
            }
        }
        lemma_entries_read(b, c0 + clen, rest);
        assert(le_u16(b, off) as int == plen);
        assert(le_u64(b, p0 + plen) as int == clen);
        assert(c0 + clen <= b.len());
        assert(archive_entries(b, c0 + clen, (es.len() - 1) as nat) == Some(rest));
        assert(seq![(b.subrange(p0, p0 + plen), b.subrange(c0, c0 + clen))] + rest =~= es);
    }
}

/// Reading back the archive written for a list of entries gives the same
/// entries, in the same order, when the count fits its 32-bit field and
/// each path its 16-bit field (and each content its 64-bit field).
#[verifier::spinoff_prover]
#[verifier::rlimit(30)]
pub proof fn lemma_archive_roundtrip(es: Seq<(Seq<u8>, Seq<u8>)>)
    requires
        es.len() < 4294967296,
        lengths_fit(es),
    ensures
        archive_files(archive_encoding(es)) == Some(es),
{
    let b = archive_encoding(es);
    let n = entries_bytes(es).len() as int;
    lemma_bytes_lens(es.len());
    assert(b.take(9) =~= archive_magic());
    assert forall|k: int| 0 <= k < 4 implies b[9 + k] == #[trigger] u32_bytes(es.len())[k] by {
        assert(b[9 + k] == (archive_magic() + u32_bytes(es.len()))[9 + k]);
    }
    lemma_u32_read(b, 9, es.len());
    assert(b.subrange(13, 13 + n) =~= entries_bytes(es));
    lemma_entries_read(b, 13, es);
}

// ─── Hashes and signatures ─────────────────────────────────────────

/// The `n` bytes a hex string decodes to, if it decodes to exactly `n`.
pub open spec fn hex_bytes_of_len(s: Seq<u8>, n: nat) -> Option<Seq<u8>> {
    if s.len() % 2 != 0 {
        None
    } else {
        match hex_decode_pairs(s) {
            Some(v) => if v.len() == n {
                Some(v)
            } else {
                None
            },
            None => None,
        }
    }
}

/// SHA-256 of the archive bytes: the package content hash.
pub fn content_hash(archive: &[u8]) -> (h: [u8; 32])
    ensures
        h@ == sha256_of(archive@),
{
    sha256_digest(archive)
}

/// Whether an archive matches the hex digest recorded in its sidecar file:
/// the lowercase hex of its SHA-256 equals the sidecar's text without
/// surrounding whitespace.
pub fn archive_matches_sidecar(archive: &[u8], sidecar: &str) -> (r: bool)
    ensures
        r == (hex_text(sha256_of(archive@)) == crate::text::trim(sidecar@)),
{
    let got = hex_encode(&content_hash(archive));
    let g = chars_of(got.as_str());
    let s = chars_of(sidecar);
    let t = crate::text::trim_chars(s.as_slice());
    chars_eq(g.as_slice(), t.as_slice())
}

/// Signs the content hash with a hex-encoded Ed25519 secret key and
/// returns the hex signature.
pub fn sign_hash(hash: &[u8; 32], secret_hex: &str) -> (r: Result<String, String>)
    requires
        hex_pairs_sliceable(secret_hex),
    ensures
        match hex_bytes_of_len(secret_hex.spec_bytes(), 32) {
            Some(k) => (r matches Ok(s) && s@ == hex_text(ed25519_signature_of(k, hash@))),
            None => r is Err,
        },
{
    let secret = decode_hex32(secret_hex)?;
    let sig = ed25519_sign(&secret, hash);
    Ok(hex_encode(&sig))
}

/// Checks a hex signature over a hash against a hex public key: `Err` when
/// either does not decode (or the key is no curve point), else whether the
/// signature is accepted.
pub fn verify_sig(hash: &[u8; 32], sig_hex: &str, pub_hex: &str) -> (r: Result<bool, String>)
    requires
        hex_pairs_sliceable(sig_hex),
        hex_pairs_sliceable(pub_hex),
    ensures
        match (hex_bytes_of_len(sig_hex.spec_bytes(), 64), hex_bytes_of_len(pub_hex.spec_bytes(), 32)) {
            (Some(sig), Some(pk)) => if ed25519_key_decodes(pk) {
                r matches Ok(b) && b == ed25519_accepts(pk, hash@, sig)
            } else {
                r matches Err(e) && e@.len() >= 16 && e@.take(16) == "bad public key: "@
            },
            _ => r is Err,
        },
{
    let sig = decode_hex64(sig_hex)?;
    let pk = decode_hex32(pub_hex)?;
    match ed25519_verify(&pk, hash, &sig) {
        Ok(b) => Ok(b),
        Err(e) => {
            let mut m = string_of("bad public key: ");
            crate::text::push_str(&mut m, e.as_str());
            proof {
                reveal_strlit("bad public key: ");
                assert(m@.take(16) =~= "bad public key: "@);
            }
            Err(m)
        },
    }
}

/// Generates a new signing key pair from operating-system randomness and
/// returns (secret hex, public hex); the public key is the one that belongs
/// to the secret key.
pub fn keygen() -> (r: Result<(String, String), String>)
    ensures
        r matches Ok((s, p)) ==> exists|sk: Seq<u8>|
            sk.len() == 32 && s@ == #[trigger] hex_text(sk) && p@ == hex_text(ed25519_public_of(sk)),
        r matches Err(m) ==> m@.len() >= 17 && m@.take(17) == "entropy failure: "@,
{
    let mut seed = [0u8; 32];
    match fill_random(&mut seed) {
        Ok(()) => {},
        Err(e) => {
            let mut m = string_of("entropy failure: ");
            crate::text::push_str(&mut m, e.as_str());
            proof {
                reveal_strlit("entropy failure: ");
                assert(m@.take(17) =~= "entropy failure: "@);
            }
            return Err(m);
        },
    }
    let public = ed25519_public(&seed);
    let s = hex_encode(&seed);
    let p = hex_encode(&public);
    Ok((s, p))
}


// ─── Packing order, file count and extraction safety ───────────────

/// The place of a character in path order: `/` before every other
/// character, so that paths compare segment by segment.
pub open spec fn path_rank(c: char) -> int {
    if c == '/' {
        -1
    } else {
        (c as u32) as int
    }
}

/// `a` sorts before or with `b` in path order: segment by segment, each
/// segment by code point (`Path`'s order on relative paths without empty
/// or `.` segments).
pub open spec fn path_le(a: Seq<char>, b: Seq<char>) -> bool
    decreases a.len(),
{
    if a.len() == 0 {
        true
    } else if b.len() == 0 {
        false
    } else if a[0] != b[0] {
        path_rank(a[0]) < path_rank(b[0])
    } else {
        path_le(a.drop_first(), b.drop_first())
    }
}

/// `s` with `x` inserted after the last path that sorts before or with it,
/// unless that path is `x` itself.
pub open spec fn insert_path(s: Seq<Seq<char>>, x: Seq<char>) -> Seq<Seq<char>>
    decreases s.len(),
{
    if s.len() == 0 {
        seq![x]
    } else if path_le(s.last(), x) {
        if s.last() == x {
            s
        } else {
            s.push(x)
        }
    } else {
        insert_path(s.drop_last(), x).push(s.last())
    }
}

/// The paths of `s` in path order, each once.
pub open spec fn sort_paths(s: Seq<Seq<char>>) -> Seq<Seq<char>>
    decreases s.len(),
{
    if s.len() == 0 {
        Seq::empty()
    } else {
        insert_path(sort_paths(s.drop_last()), s.last())
    }
}

/// The texts of a sequence of strings.
pub open spec fn path_texts(v: Seq<String>) -> Seq<Seq<char>> {
    v.map_values(|x: String| x@)
}

/// Whether `a` sorts before or with `b` in path order.
fn path_le_exec(a: &str, b: &str) -> (r: bool)
    ensures
        r == path_le(a@, b@),
{
    let x = chars_of(a);
    let y = chars_of(b);
    let mut i: usize = 0;
    assert(x@.skip(0) =~= x@);
    assert(y@.skip(0) =~= y@);
    while i < x.len() && i < y.len()
        invariant
            i <= x.len(),
            i <= y.len(),
            x@ == a@,
            y@ == b@,
            path_le(x@, y@) == path_le(x@.skip(i as int), y@.skip(i as int)),
        decreases x.len() - i,
    {
        assert(x@.skip(i as int)[0] == x@[i as int]);
        assert(y@.skip(i as int)[0] == y@[i as int]);
        if x[i] != y[i] {
            if x[i] == '/' {
                assert(path_rank(x@.skip(i as int)[0]) == -1);
                return true;
            }
            if y[i] == '/' {
                assert(path_rank(y@.skip(i as int)[0]) == -1);
                return false;
            }
            return (x[i] as u32) < (y[i] as u32);
        }
        assert(x@.skip(i as int).drop_first() =~= x@.skip(i + 1));
        assert(y@.skip(i as int).drop_first() =~= y@.skip(i + 1));
        i += 1;
    }
    if i == x.len() {
        assert(x@.skip(i as int).len() == 0);
        true
    } else {
        assert(y@.skip(i as int).len() == 0);
        false
    }
}

proof fn lemma_insert_path_split(s: Seq<Seq<char>>, x: Seq<char>, p: int)
    requires
        0 <= p <= s.len(),
        forall|j: int| p <= j < s.len() ==> !path_le(#[trigger] s[j], x),
        p == 0 || path_le(s[p - 1], x),
    ensures
        insert_path(s, x) == if p > 0 && s[p - 1] == x {
            s
        } else {
            s.take(p).push(x) + s.skip(p)
        },
    decreases s.len(),
{
    if s.len() == 0 {
        assert(s.take(p).push(x) + s.skip(p) =~= seq![x]);
    } else if p == s.len() {
        assert(s.take(p) =~= s);
        assert(s.skip(p) =~= Seq::<Seq<char>>::empty());
        assert(s.take(p).push(x) + s.skip(p) =~= s.push(x));
    } else {
        let t = s.drop_last();
        assert forall|j: int| p <= j < t.len() implies !path_le(#[trigger] t[j], x) by {
            assert(t[j] == s[j]);
        }
        if p > 0 {
            assert(t[p - 1] == s[p - 1]);
        }
        assert(!path_le(s[s.len() - 1], x));
        lemma_insert_path_split(t, x, p);
        if p > 0 && s[p - 1] == x {
            assert(t.push(s.last()) =~= s);
        } else {
            assert(t.take(p) =~= s.take(p));
            assert(s.take(p).push(x) + s.skip(p) =~= (t.take(p).push(x) + t.skip(p)).push(s.last()));
        }
    }
}

fn insert_path_exec(v: &mut Vec<String>, x: String)
    ensures
        path_texts(final(v)@) == insert_path(path_texts(old(v)@), x@),
{
    let ghost s = path_texts(v@);
    let mut p: usize = v.len();
    while p > 0 && !path_le_exec(v[p - 1].as_str(), x.as_str())
        invariant
            p <= v@.len(),
            s == path_texts(v@),
            s == path_texts(old(v)@),
            forall|j: int| p <= j < s.len() ==> !path_le(#[trigger] s[j], x@),
        decreases p,
    {
        p -= 1;
    }
    proof {
        lemma_insert_path_split(s, x@, p as int);
    }
    if p > 0 && crate::text::str_eq(v[p - 1].as_str(), x.as_str()) {
        return;
    }
    let ghost xv = x@;
    v.insert(p, x);
    assert(path_texts(v@) =~= s.take(p as int).push(xv) + s.skip(p as int));
}

/// The relative paths of a package's files in the order an archive holds
/// them: sorted in path order, repeats dropped.
pub fn packing_order(paths: Vec<String>) -> (r: Vec<String>)
    ensures
        path_texts(r@) == sort_paths(path_texts(paths@)),
{
    let ghost ps = path_texts(paths@);
    let mut out: Vec<String> = Vec::new();
    let mut i: usize = 0;
    let total = paths.len();
    let mut rest = paths;
    assert(ps.take(0) =~= Seq::<Seq<char>>::empty());
    assert(path_texts(out@) =~= Seq::<Seq<char>>::empty());
    while rest.len() > 0
        invariant
            i + rest@.len() == ps.len(),
            ps.len() == total,
            forall|j: int| 0 <= j < rest@.len() ==> (#[trigger] rest@[j])@ == ps[i + j],
            path_texts(out@) == sort_paths(ps.take(i as int)),
        decreases rest@.len(),
    {
        let ghost before = rest@;
        let x = rest.remove(0);
        assert(x@ == ps[i as int]);
        assert(ps.take(i + 1).drop_last() =~= ps.take(i as int));
        assert(ps.take(i + 1).last() == ps[i as int]);
        insert_path_exec(&mut out, x);
        i += 1;
        assert forall|j: int| 0 <= j < rest@.len() implies (#[trigger] rest@[j])@ == ps[i + j] by {
            assert(rest@[j] == before[j + 1]);
        }
    }
    assert(ps.take(i as int) =~= ps);
    out
}

/// The number of files an archive's header announces (0 when the header
/// is cut short).
pub fn file_count(archive: &[u8]) -> (n: u64)
    ensures
        archive@.len() < 13 ==> n == 0,
        archive@.len() >= 13 ==> n == le_u32(archive@, 9),
{
    if archive.len() < 13 {
        return 0;
    }
    read_u32_le(archive, 9)
}

/// A path that extraction accepts: relative, with no empty segment and no
/// `..` segment.
pub open spec fn path_safe(rel: Seq<char>) -> bool {
    forall|i: int|
        0 <= i < split_on(rel, '/').len() ==> (#[trigger] split_on(rel, '/')[i]).len() > 0 && split_on(
            rel,
            '/',
        )[i] != seq!['.', '.']
}

/// Whether extraction accepts the archive path `rel`.
pub fn archive_path_safe(rel: &str) -> (r: bool)
    ensures
        r == path_safe(rel@),
{
    let cs = chars_of(rel);
    let segs = split_chars(cs.as_slice(), '/');
    let ghost ss = views(segs@);
    let dots: Vec<char> = vec!['.', '.'];
    let mut i: usize = 0;
    while i < segs.len()
        invariant
            i <= segs@.len(),
            ss == views(segs@),
            ss == split_on(rel@, '/'),
            dots@ == seq!['.', '.'],
            forall|j: int| 0 <= j < i ==> (#[trigger] ss[j]).len() > 0 && ss[j] != seq!['.', '.'],
        decreases segs@.len() - i,
    {
        assert(ss[i as int] == segs@[i as int]@);
        if segs[i].len() == 0 || chars_eq(segs[i].as_slice(), dots.as_slice()) {
            return false;
        }
        i += 1;
    }
    true
}

} // verus!
