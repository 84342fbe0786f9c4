//! Minimal COSE (RFC 9052) support: `COSE_Sign1` (tag 18) with EdDSA (-8,
//! Ed25519) and `COSE_Encrypt0` (tag 16) with ChaCha20-Poly1305 (alg 24) for
//! confidential provenance. Only the deterministic subset needed for
//! provenance trailers is implemented.
//!
//! CBOR heads are written in two forms only: the value itself when it is at
//! most 23, else the two-byte form (additional information 25) holding the
//! value modulo 2^16.

use vstd::prelude::*;

use crate::archive::{hex_decode_bytes, hex_decode_pairs, hex_pairs_sliceable, push_all};
use crate::crypto::{
    chacha_decrypt, chacha_encrypt, chacha_open, chacha_seal, ed25519_accepts_strict,
    ed25519_key_decodes, ed25519_sign, ed25519_signature_of, ed25519_verify_strict,
    is_honest_signature, opens_every_seal, sha256_digest, sha256_of,
};
use crate::text::{has_prefix, joined, str_from_utf8, string_of};
use vstd::string::StringSliceAdditionalSpecFns;

verus! {

/// COSE algorithm identifier of EdDSA.
pub const ALG_EDDSA: i64 = -8;

/// IANA COSE algorithm 24: ChaCha20-Poly1305 (RFC 8439).
pub const ALG_CHACHA20_POLY1305: i64 = 24;

// ── CBOR primitives ──

/// A CBOR head of major type `major` with argument `v`.
pub open spec fn head_bytes(major: nat, v: nat) -> Seq<u8> {
    if v <= 23 {
        seq![(major * 32 + v) as u8]
    } else {
        seq![(major * 32 + 25) as u8, ((v % 65536) / 256) as u8, (v % 256) as u8]
    }
}

/// A CBOR text string item holding the UTF-8 bytes `s`.
pub open spec fn text_item(s: Seq<u8>) -> Seq<u8> {
    head_bytes(3, s.len()) + s
}

/// A CBOR byte string item.
pub open spec fn bytes_item(b: Seq<u8>) -> Seq<u8> {
    head_bytes(2, b.len()) + b
}

/// A CBOR integer item (major type 0 or 1).
pub open spec fn int_item(n: int) -> Seq<u8> {
    if n >= 0 {
        head_bytes(0, n as nat)
    } else {
        head_bytes(1, (-n - 1) as nat)
    }
}

fn head(out: &mut Vec<u8>, major: u8, val: u64)
    requires
        major < 8,
    ensures
        final(out)@ == old(out)@ + head_bytes(major as nat, val as nat),
{
    let m: u8 = major * 32;
    if val <= 23 {
        out.push(m + (val as u8));
        assert(out@ =~= old(out)@ + head_bytes(major as nat, val as nat));
    } else {
        out.push(m + 25);
        out.push(((val % 65536) / 256) as u8);
        out.push((val % 256) as u8);
        assert(out@ =~= old(out)@ + head_bytes(major as nat, val as nat));
    }
}

/// Appends a CBOR text string.
pub fn cb_text(out: &mut Vec<u8>, s: &str)
    ensures
        final(out)@ == old(out)@ + text_item(s.spec_bytes()),
{
    let b = s.as_bytes();
    head(out, 3, b.len() as u64);
    push_all(out, b);
    assert(final(out)@ =~= old(out)@ + text_item(s.spec_bytes()));
}

/// Appends a CBOR byte string.
pub fn cb_bytes(out: &mut Vec<u8>, b: &[u8])
    ensures
        final(out)@ == old(out)@ + bytes_item(b@),
{
    head(out, 2, b.len() as u64);
    push_all(out, b);
    assert(final(out)@ =~= old(out)@ + bytes_item(b@));
}

/// Appends a CBOR integer, negative ones as major type 1.
pub fn cb_nint(out: &mut Vec<u8>, n: i64)
    ensures
        final(out)@ == old(out)@ + int_item(n as int),
{
    if n >= 0 {
        head(out, 0, n as u64);
    } else {
        let m: i64 = -(n + 1);
        head(out, 1, m as u64);
    }
}

/// Appends a CBOR map header for `pairs` entries.
pub fn cb_map_header(out: &mut Vec<u8>, pairs: usize)
    ensures
        final(out)@ == old(out)@ + head_bytes(5, pairs as nat),
{
    head(out, 5, pairs as u64);
}

/// Appends a CBOR array header for `n` items.
pub fn cb_array_header(out: &mut Vec<u8>, n: usize)
    ensures
        final(out)@ == old(out)@ + head_bytes(4, n as nat),
{
    head(out, 4, n as u64);
}

/// Appends a CBOR tag.
pub fn cb_tag(out: &mut Vec<u8>, tag: u64)
    ensures
        final(out)@ == old(out)@ + head_bytes(6, tag as nat),
{
    head(out, 6, tag);
}

// ── CBOR readers ──

/// The argument of a head whose low five bits are `low`, read from `p`
/// (just past the initial byte): the value if it can be read, and the
/// position reached.
pub open spec fn arg_spec(b: Seq<u8>, low: nat, p: int) -> (Option<nat>, int) {
    if low <= 23 {
        (Some(low), p)
    } else if low == 24 {
        if 0 <= p < b.len() {
            (Some(b[p] as nat), p + 1)
        } else {
            (None, p)
        }
    } else if low == 25 {
        if 0 <= p && p + 2 <= b.len() {
            (Some(b[p] as nat * 256 + b[p + 1] as nat), p + 2)
        } else {
            (None, p)
        }
    } else {
        (None, p)
    }
}

/// Reading a byte string item at `p`: its bytes if there is one, and the
/// position reached (also when reading stops early).
pub open spec fn read_bytes_spec(b: Seq<u8>, p: int) -> (Option<Seq<u8>>, int) {
    if !(0 <= p < b.len()) {
        (None, p)
    } else if b[p] / 32 != 2 {
        (None, p + 1)
    } else {
        let (ol, p2) = arg_spec(b, (b[p] % 32) as nat, p + 1);
        match ol {
            None => (None, p2),
            Some(l) => if p2 + l <= b.len() {
                (Some(b.subrange(p2, p2 + l)), p2 + l)
            } else {
                (None, p2)
            },
        }
    }
}

/// Reading a text string item at `p`: its bytes if there is one, and the
/// position reached. The major type is checked after the length is read.
pub open spec fn read_text_spec(b: Seq<u8>, p: int) -> (Option<Seq<u8>>, int) {
    if !(0 <= p < b.len()) {
        (None, p)
    } else {
        let (ol, p2) = arg_spec(b, (b[p] % 32) as nat, p + 1);
        match ol {
            None => (None, p2),
            Some(l) => if b[p] / 32 != 3 {
                (None, p2)
            } else if p2 + l <= b.len() {
                (Some(b.subrange(p2, p2 + l)), p2 + l)
            } else {
                (None, p2)
            },
        }
    }
}

/// The bytes held by an optional vector.
pub open spec fn opt_bytes(r: Option<Vec<u8>>) -> Option<Seq<u8>> {
    match r {
        Some(v) => Some(v@),
        None => None,
    }
}

fn read_arg(b: &[u8], low: u8, pos: &mut usize) -> (r: Option<usize>)
    requires
        low < 32,
        *old(pos) <= b@.len(),
    ensures
        *final(pos) as int == arg_spec(b@, low as nat, *old(pos) as int).1,
        match arg_spec(b@, low as nat, *old(pos) as int).0 {
            Some(l) => r == Some(l as usize),
            None => r is None,
        },
        *final(pos) <= b@.len(),
{
    if low <= 23 {
        Some(low as usize)
    } else if low == 24 {
        if *pos < b.len() {
            let l = b[*pos] as usize;
            *pos = *pos + 1;
            Some(l)
        } else {
            None
        }
    } else if low == 25 {
        if b.len() - *pos >= 2 {
            let l = (b[*pos] as usize) * 256 + (b[*pos + 1] as usize);
            *pos = *pos + 2;
            Some(l)
        } else {
            None
        }
    } else {
        None
    }
}

/// Reads a CBOR byte string at `pos`, advancing `pos` past what was read.
pub fn cb_read_bytes(bytes: &[u8], pos: &mut usize) -> (r: Option<Vec<u8>>)
    ensures
        opt_bytes(r) == read_bytes_spec(bytes@, *old(pos) as int).0,
        *final(pos) as int == read_bytes_spec(bytes@, *old(pos) as int).1,
{
    if *pos >= bytes.len() {
        return None;
    }
    let b = bytes[*pos];
    *pos = *pos + 1;
    if b / 32 != 2 {
        return None;
    }
    let len = match read_arg(bytes, b % 32, pos) {
        Some(l) => l,
        None => return None,
    };
    if bytes.len() - *pos < len {
        return None;
    }
    let v = crate::archive::copy_range(bytes, *pos, *pos + len);
    *pos = *pos + len;
    Some(v)
}

/// Decodes a CBOR text string at `pos`, advancing `pos` past what was read;
/// `None` when there is none or its bytes are not UTF-8.
pub fn cb_read_text<'a>(bytes: &'a [u8], pos: &mut usize) -> (r: Option<&'a str>)
    ensures
        *final(pos) as int == read_text_spec(bytes@, *old(pos) as int).1,
        match read_text_spec(bytes@, *old(pos) as int).0 {
            Some(v) => if vstd::utf8::valid_utf8(v) {
                r matches Some(s) && s.spec_bytes() == v
            } else {
                r is None
            },
            None => r is None,
        },
{
    if *pos >= bytes.len() {
        return None;
    }
    let b = bytes[*pos];
    *pos = *pos + 1;
    let len = match read_arg(bytes, b % 32, pos) {
        Some(l) => l,
        None => return None,
    };
    if b / 32 != 3 {
        return None;
    }
    if bytes.len() - *pos < len {
        return None;
    }
    let v = vstd::slice::slice_subrange(bytes, *pos, *pos + len);
    *pos = *pos + len;
    str_from_utf8(v)
}

// ── Hex keys ──

/// The bytes a hex string decodes to: `None` for odd length or a bad digit.
pub open spec fn hex_value(s: Seq<u8>) -> Option<Seq<u8>> {
    if s.len() % 2 != 0 {
        None
    } else {
        hex_decode_pairs(s)
    }
}

/// Decodes a hex string, two characters per byte.
pub fn decode_hex(s: &str) -> (r: Option<Vec<u8>>)
    requires
        hex_pairs_sliceable(s),
    ensures
        opt_bytes(r) == hex_value(s.spec_bytes()),
{
    let b = s.as_bytes();
    if b.len() % 2 != 0 {
        return None;
    }
    hex_decode_bytes(b)
}

fn key32(v: &Vec<u8>) -> (k: [u8; 32])
    requires
        v@.len() == 32,
    ensures
        k@ == v@,
{
    let mut k = [0u8; 32];
    let mut i: usize = 0;
    while i < 32
        invariant
            i <= 32,
            v@.len() == 32,
            forall|j: int| 0 <= j < i ==> k@[j] == v@[j],
        decreases 32 - i,
    {
        k[i] = v[i];
        i += 1;
    }
    assert(k@ =~= v@);
    k
}

fn sig64(v: &Vec<u8>) -> (k: [u8; 64])
    requires
        v@.len() == 64,
    ensures
        k@ == v@,
{
    let mut k = [0u8; 64];
    let mut i: usize = 0;
    while i < 64
        invariant
            i <= 64,
            v@.len() == 64,
            forall|j: int| 0 <= j < i ==> k@[j] == v@[j],
        decreases 64 - i,
    {
        k[i] = v[i];
        i += 1;
    }
    assert(k@ =~= v@);
    k
}

// ── COSE_Sign1 ──

/// The `Sig_structure` (RFC 9052 §4.4):
/// `["Signature1", body_protected, external_aad, payload]`.
pub open spec fn sig_structure_bytes(prot: Seq<u8>, payload: Seq<u8>) -> Seq<u8> {
    head_bytes(4, 4) + text_item("Signature1"@.map_values(|c: char| c as u8)) + bytes_item(prot)
        + bytes_item(Seq::empty()) + bytes_item(payload)
}

/// The protected header bucket `{1: -8, 4: kid}`.
pub open spec fn protected_bytes(kid: Seq<u8>) -> Seq<u8> {
    head_bytes(5, 2) + head_bytes(0, 1) + int_item(-8) + head_bytes(0, 4) + text_item(kid)
}

/// A tagged `COSE_Sign1` of `payload` under secret key `sk`.
pub open spec fn sign1_bytes(payload: Seq<u8>, kid: Seq<u8>, sk: Seq<u8>) -> Seq<u8> {
    let prot = protected_bytes(kid);
    head_bytes(6, 18) + head_bytes(4, 4) + bytes_item(prot) + head_bytes(5, 0) + bytes_item(
        payload,
    ) + bytes_item(ed25519_signature_of(sk, sig_structure_bytes(prot, payload)))
}

fn signature1_text(out: &mut Vec<u8>)
    ensures
        final(out)@ == old(out)@ + text_item("Signature1"@.map_values(|c: char| c as u8)),
{
    let t: [u8; 10] = [0x53, 0x69, 0x67, 0x6e, 0x61, 0x74, 0x75, 0x72, 0x65, 0x31];
    head(out, 3, 10);
    push_all(out, &t);
    proof {
        reveal_strlit("Signature1");
        assert(t@ =~= "Signature1"@.map_values(|c: char| c as u8));
    }
    assert(final(out)@ =~= old(out)@ + text_item("Signature1"@.map_values(|c: char| c as u8)));
}

/// Builds the `Sig_structure` that is signed.
pub fn sig_structure(body_protected: &[u8], payload: &[u8]) -> (r: Vec<u8>)
    ensures
        r@ == sig_structure_bytes(body_protected@, payload@),
{
    let mut out: Vec<u8> = Vec::new();
    cb_array_header(&mut out, 4);
    signature1_text(&mut out);
    cb_bytes(&mut out, body_protected);
    let empty: [u8; 0] = [];
    cb_bytes(&mut out, &empty);
    cb_bytes(&mut out, payload);
    assert(empty@ =~= Seq::<u8>::empty());
    assert(out@ =~= sig_structure_bytes(body_protected@, payload@));
    out
}

/// The protected header bucket: `{alg: -8 (EdDSA), kid: <text>}`.
pub fn protected_header(kid: &str) -> (r: Vec<u8>)
    ensures
        r@ == protected_bytes(kid.spec_bytes()),
{
    let mut out: Vec<u8> = Vec::new();
    cb_map_header(&mut out, 2);
    head(&mut out, 0, 1);
    cb_nint(&mut out, ALG_EDDSA);
    head(&mut out, 0, 4);
    cb_text(&mut out, kid);
    assert(out@ =~= protected_bytes(kid.spec_bytes()));
    out
}

/// Produces a complete `COSE_Sign1` (tagged 18) signed with the hex-encoded
/// Ed25519 secret key.
pub fn sign1(payload: &[u8], kid: &str, secret_hex: &str) -> (r: Result<Vec<u8>, String>)
    requires
        hex_pairs_sliceable(secret_hex),
    ensures
        match hex_value(secret_hex.spec_bytes()) {
            None => (r matches Err(e) && e@ == "cose: bad signing key hex"@),
            Some(k) => if k.len() != 32 {
                r matches Err(e) && e@ == "cose: key must be 32 bytes"@
            } else {
                r matches Ok(v) && v@ == sign1_bytes(payload@, kid.spec_bytes(), k)
            },
        },
{
    let prot = protected_header(kid);
    let ss = sig_structure(&prot, payload);
    let sec = match decode_hex(secret_hex) {
        Some(v) => v,
        None => return Err(string_of("cose: bad signing key hex")),
    };
    if sec.len() != 32 {
        return Err(string_of("cose: key must be 32 bytes"));
    }
    let key = key32(&sec);
    let sig = ed25519_sign(&key, &ss);
    let mut out: Vec<u8> = Vec::new();
    cb_tag(&mut out, 18);
    cb_array_header(&mut out, 4);
    cb_bytes(&mut out, &prot);
    cb_map_header(&mut out, 0);
    cb_bytes(&mut out, payload);
    cb_bytes(&mut out, &sig);
    assert(out@ =~= sign1_bytes(payload@, kid.spec_bytes(), sec@));
    Ok(out)
}

/// Parsing a tagged `COSE_Sign1` up to and including the unprotected map
/// header: the protected bucket and the position after the map header, or
/// the error message.
pub open spec fn sign1_head(c: Seq<u8>) -> Result<(Seq<u8>, int), Seq<char>> {
    if c.len() == 0 {
        Err("cose: empty"@)
    } else if c[0] != 0xD2 {
        Err("cose: missing tag 18"@)
    } else if c.len() < 2 {
        Err("cose: truncated"@)
    } else if c[1] != 0x84 {
        Err("cose: expected array(4)"@)
    } else {
        match read_bytes_spec(c, 2) {
            (None, _) => Err("cose: bad protected"@),
            (Some(prot), p) => if p >= c.len() {
                Err("cose: truncated"@)
            } else if c[p] / 32 != 5 || c[p] % 32 > 23 {
                Err("cose: expected empty unprotected map"@)
            } else {
                Ok((prot, p + 1))
            },
        }
    }
}

/// The parts of a tagged `COSE_Sign1`: protected bucket, payload and
/// 64-byte signature, or the error message.
pub open spec fn sign1_parts(c: Seq<u8>) -> Result<(Seq<u8>, Seq<u8>, Seq<u8>), Seq<char>> {
    match sign1_head(c) {
        Err(m) => Err(m),
        Ok((prot, p)) => match read_bytes_spec(c, p) {
            (None, _) => Err("cose: bad payload"@),
            (Some(payload), p2) => match read_bytes_spec(c, p2) {
                (None, _) => Err("cose: bad signature"@),
                (Some(sig), _) => if sig.len() != 64 {
                    Err("cose: bad sig"@)
                } else {
                    Ok((prot, payload, sig))
                },
            },
        },
    }
}

/// The payload of a tagged `COSE_Sign1`, read without verifying.
pub open spec fn sign1_payload(c: Seq<u8>) -> Option<Seq<u8>> {
    match sign1_head(c) {
        Err(_) => None,
        Ok((_, p)) => read_bytes_spec(c, p).0,
    }
}

/// The outcome of checking the signature of a `COSE_Sign1` whose parts are
/// `parts` with the public key hex `pub_hex`.
pub open spec fn sign1_check(
    parts: (Seq<u8>, Seq<u8>, Seq<u8>),
    pub_hex: Seq<u8>,
    r: Result<Vec<u8>, String>,
) -> bool {
    let (prot, payload, sig) = parts;
    match hex_value(pub_hex) {
        None => (r matches Err(e) && e@ == "cose: bad public key hex"@),
        Some(pk) => if pk.len() != 32 {
            r matches Err(e) && e@ == "cose: public key must be 32 bytes"@
        } else if !ed25519_key_decodes(pk) {
            r matches Err(e) && has_prefix(e@, "cose: "@)
        } else if ed25519_accepts_strict(pk, sig_structure_bytes(prot, payload), sig) {
            r matches Ok(v) && v@ == payload
        } else {
            r matches Err(e) && has_prefix(e@, "cose: signature error: "@)
        },
    }
}

/// The signature of the parts is one that the secret key of `pk` made.
pub open spec fn sign1_honest(parts: (Seq<u8>, Seq<u8>, Seq<u8>), pk: Seq<u8>) -> bool {
    is_honest_signature(pk, sig_structure_bytes(parts.0, parts.1), parts.2)
}

fn cose_err(m: &str) -> (r: Result<Vec<u8>, String>)
    ensures
        r matches Err(e) && e@ == m@,
{
    Err(string_of(m))
}

/// Parses a tagged `COSE_Sign1` and checks its EdDSA signature (strictly);
/// returns the payload.
pub fn sign1_verify(cose: &[u8], pub_hex: &str) -> (r: Result<Vec<u8>, String>)
    requires
        hex_pairs_sliceable(pub_hex),
    ensures
        match sign1_parts(cose@) {
            Err(m) => (r matches Err(e) && e@ == m),
            Ok(parts) => sign1_check(parts, pub_hex.spec_bytes(), r),
        },
{
    if cose.len() == 0 {
        return cose_err("cose: empty");
    }
    if cose[0] != 0xD2 {
        return cose_err("cose: missing tag 18");
    }
    if cose.len() < 2 {
        return cose_err("cose: truncated");
    }
    if cose[1] != 0x84 {
        return cose_err("cose: expected array(4)");
    }
    let mut pos: usize = 2;
    let prot = match cb_read_bytes(cose, &mut pos) {
        Some(v) => v,
        None => return cose_err("cose: bad protected"),
    };
    if pos >= cose.len() {
        return cose_err("cose: truncated");
    }
    let up = cose[pos];
    pos = pos + 1;
    if up / 32 != 5 || up % 32 > 23 {
        return cose_err("cose: expected empty unprotected map");
    }
    let payload = match cb_read_bytes(cose, &mut pos) {
        Some(v) => v,
        None => return cose_err("cose: bad payload"),
    };
    let sig_v = match cb_read_bytes(cose, &mut pos) {
        Some(v) => v,
        None => return cose_err("cose: bad signature"),
    };
    if sig_v.len() != 64 {
        return cose_err("cose: bad sig");
    }
    let sig = sig64(&sig_v);
    let pk = match decode_hex(pub_hex) {
        Some(v) => v,
        None => return cose_err("cose: bad public key hex"),
    };
    if pk.len() != 32 {
        return cose_err("cose: public key must be 32 bytes");
    }
    let key = key32(&pk);
    let ss = sig_structure(&prot, &payload);
    match ed25519_verify_strict(&key, &ss, &sig) {
        Err(e) => Err(joined("cose: ", e.as_str())),
        Ok(Err(e)) => Err(joined("cose: signature error: ", e.as_str())),
        Ok(Ok(())) => Ok(payload),
    }
}

/// Parses a tagged `COSE_Sign1` without verifying it; returns the payload.
pub fn sign1_extract(cose: &[u8]) -> (r: Option<Vec<u8>>)
    ensures
        opt_bytes(r) == sign1_payload(cose@),
{
    if cose.len() == 0 || cose[0] != 0xD2 {
        return None;
    }
    if cose.len() < 2 || cose[1] != 0x84 {
        return None;
    }
    let mut pos: usize = 2;
    let _prot = match cb_read_bytes(cose, &mut pos) {
        Some(v) => v,
        None => return None,
    };
    if pos >= cose.len() {
        return None;
    }
    let up = cose[pos];
    pos = pos + 1;
    if up / 32 != 5 || up % 32 > 23 {
        return None;
    }
    cb_read_bytes(cose, &mut pos)
}

// ── COSE_Encrypt0 (tag 16) · ChaCha20-Poly1305 (alg 24) ──
//
// The payload is sealed with an AEAD keyed by a 32-byte key before the outer
// COSE_Sign1 is applied. Wire shape (RFC 9052 §5.2, self-consistent subset):
//   tag(16) [ protected: {1: 24}, unprotected: {5: iv}, ciphertext ]
// The AEAD associated data is the CBOR `Enc_structure`
// `["Encrypt0", protected, ""]` (RFC 9052 §5.3). Nonces are synthetic and
// deterministic: SHA-256 over a label, the secret key, `kid` and the
// plaintext, truncated to 12 bytes.

/// The `Enc_structure` used as AEAD associated data.
pub open spec fn enc_structure_bytes(prot: Seq<u8>) -> Seq<u8> {
    head_bytes(4, 3) + text_item("Encrypt0"@.map_values(|c: char| c as u8)) + bytes_item(prot)
        + bytes_item(Seq::empty())
}

/// The protected header bucket `{1: 24}`.
pub open spec fn encrypt0_protected_bytes() -> Seq<u8> {
    head_bytes(5, 1) + head_bytes(0, 1) + int_item(24)
}

/// The label that starts the nonce derivation input.
pub open spec fn nonce_label() -> Seq<u8> {
    "resid/cose/encrypt0/nonce"@.map_values(|c: char| c as u8)
}

/// The synthetic nonce for `key`, `kid` and `plaintext`.
pub open spec fn nonce_of(key: Seq<u8>, kid: Seq<u8>, plaintext: Seq<u8>) -> Seq<u8> {
    sha256_of(nonce_label() + key + kid + plaintext).take(12)
}

/// The tagged `COSE_Encrypt0` blob of `plaintext` under `key`.
pub open spec fn encrypt0_bytes(key: Seq<u8>, kid: Seq<u8>, plaintext: Seq<u8>) -> Seq<u8> {
    let prot = encrypt0_protected_bytes();
    let nonce = nonce_of(key, kid, plaintext);
    head_bytes(6, 16) + head_bytes(4, 3) + bytes_item(prot) + head_bytes(5, 1) + head_bytes(0, 5)
        + bytes_item(nonce) + bytes_item(chacha_seal(key, nonce, enc_structure_bytes(prot), plaintext))
}

/// Builds the `Enc_structure` for a protected bucket.
pub fn enc_structure(protected: &[u8]) -> (r: Vec<u8>)
    ensures
        r@ == enc_structure_bytes(protected@),
{
    let mut out: Vec<u8> = Vec::new();
    cb_array_header(&mut out, 3);
    let t: [u8; 8] = [0x45, 0x6e, 0x63, 0x72, 0x79, 0x70, 0x74, 0x30];
    head(&mut out, 3, 8);
    push_all(&mut out, &t);
    proof {
        reveal_strlit("Encrypt0");
        assert(t@ =~= "Encrypt0"@.map_values(|c: char| c as u8));
    }
    cb_bytes(&mut out, protected);
    let empty: [u8; 0] = [];
    cb_bytes(&mut out, &empty);
    assert(empty@ =~= Seq::<u8>::empty());
    assert(out@ =~= enc_structure_bytes(protected@));
    out
}

/// The protected header bucket: `{alg: 24 (ChaCha20-Poly1305)}`.
pub fn encrypt0_protected() -> (r: Vec<u8>)
    ensures
        r@ == encrypt0_protected_bytes(),
{
    let mut out: Vec<u8> = Vec::new();
    cb_map_header(&mut out, 1);
    head(&mut out, 0, 1);
    cb_nint(&mut out, ALG_CHACHA20_POLY1305);
    assert(out@ =~= encrypt0_protected_bytes());
    out
}

/// The deterministic synthetic nonce (12 bytes) for a key, `kid` and
/// plaintext.
pub fn encrypt0_nonce(key: &[u8], kid: &str, plaintext: &[u8]) -> (n: [u8; 12])
    ensures
        n@ == nonce_of(key@, kid.spec_bytes(), plaintext@),
{
    let label: [u8; 25] = [
        0x72, 0x65, 0x73, 0x69, 0x64, 0x2f, 0x63, 0x6f, 0x73, 0x65, 0x2f, 0x65, 0x6e, 0x63, 0x72,
        0x79, 0x70, 0x74, 0x30, 0x2f, 0x6e, 0x6f, 0x6e, 0x63, 0x65,
    ];
    proof {
        reveal_strlit("resid/cose/encrypt0/nonce");
        assert(label@ =~= nonce_label());
    }
    let mut input: Vec<u8> = Vec::new();
    push_all(&mut input, &label);
    push_all(&mut input, key);
    push_all(&mut input, kid.as_bytes());
    push_all(&mut input, plaintext);
    let d = sha256_digest(input.as_slice());
    let mut n = [0u8; 12];
    let mut i: usize = 0;
    while i < 12
        invariant
            i <= 12,
            d@.len() == 32,
            forall|j: int| 0 <= j < i ==> n@[j] == d@[j],
        decreases 12 - i,
    {
        n[i] = d[i];
        i += 1;
    }
    assert(input@ =~= nonce_label() + key@ + kid.spec_bytes() + plaintext@);
    assert(n@ =~= d@.take(12));
    n
}

/// Seals `plaintext` into a `COSE_Encrypt0` (tag 16) blob with
/// ChaCha20-Poly1305 under the hex-encoded 32-byte key.
pub fn encrypt0_seal(plaintext: &[u8], key_hex: &str, kid: &str) -> (r: Result<Vec<u8>, String>)
    requires
        hex_pairs_sliceable(key_hex),
    ensures
        match hex_value(key_hex.spec_bytes()) {
            None => (r matches Err(e) && e@ == "cose: bad key hex"@),
            Some(k) => if k.len() != 32 {
                r matches Err(e) && e@ == "cose: key must be 32 bytes"@
            } else if plaintext@.len() / 64 >= u32::MAX {
                r matches Err(e) && e@ == "cose: encrypt failed"@
            } else {
                r matches Ok(v) && v@ == encrypt0_bytes(k, kid.spec_bytes(), plaintext@)
            },
        },
{
    let key = match decode_hex(key_hex) {
        Some(v) => v,
        None => return cose_err("cose: bad key hex"),
    };
    if key.len() != 32 {
        return cose_err("cose: key must be 32 bytes");
    }
    let k = key32(&key);
    let nonce_bytes = encrypt0_nonce(&key, kid, plaintext);
    let prot = encrypt0_protected();
    let aad = enc_structure(&prot);
    let ct = match chacha_encrypt(&k, &nonce_bytes, &aad, plaintext) {
        Ok(c) => c,
        Err(()) => return cose_err("cose: encrypt failed"),
    };
    let mut out: Vec<u8> = Vec::new();
    cb_tag(&mut out, 16);
    cb_array_header(&mut out, 3);
    cb_bytes(&mut out, &prot);
    cb_map_header(&mut out, 1);
    head(&mut out, 0, 5);
    cb_bytes(&mut out, &nonce_bytes);
    cb_bytes(&mut out, &ct);
    assert(out@ =~= encrypt0_bytes(key@, kid.spec_bytes(), plaintext@));
    Ok(out)
}

/// The parts of a tagged `COSE_Encrypt0`: protected bucket, 12-byte iv and
/// ciphertext, or the error message.
pub open spec fn encrypt0_parts(b: Seq<u8>) -> Result<(Seq<u8>, Seq<u8>, Seq<u8>), Seq<char>> {
    if b.len() == 0 {
        Err("cose: empty"@)
    } else if b[0] != 0xD0 {
        Err("cose: missing tag 16"@)
    } else if b.len() < 2 {
        Err("cose: truncated"@)
    } else if b[1] != 0x83 {
        Err("cose: expected array(3)"@)
    } else {
        match read_bytes_spec(b, 2) {
            (None, _) => Err("cose: bad protected"@),
            (Some(prot), p) => if p >= b.len() {
                Err("cose: truncated"@)
            } else if b[p] != 0xA1 {
                Err("cose: expected unprotected map(1)"@)
            } else if p + 1 >= b.len() {
                Err("cose: truncated"@)
            } else if b[p + 1] != 0x05 {
                Err("cose: expected iv key 5"@)
            } else {
                match read_bytes_spec(b, p + 2) {
                    (None, _) => Err("cose: bad iv"@),
                    (Some(iv), p2) => if iv.len() != 12 {
                        Err("cose: iv must be 12 bytes"@)
                    } else {
                        match read_bytes_spec(b, p2) {
                            (None, _) => Err("cose: bad ciphertext"@),
                            (Some(ct), _) => Ok((prot, iv, ct)),
                        }
                    },
                }
            },
        }
    }
}

/// What opening a blob with parts `parts` under the key hex `key_hex` gives.
pub open spec fn encrypt0_outcome(
    parts: (Seq<u8>, Seq<u8>, Seq<u8>),
    key_hex: Seq<u8>,
    r: Result<Vec<u8>, String>,
) -> bool {
    let (prot, iv, ct) = parts;
    match hex_value(key_hex) {
        None => (r matches Err(e) && e@ == "cose: bad key hex"@),
        Some(k) => if k.len() != 32 {
            r matches Err(e) && e@ == "cose: key must be 32 bytes"@
        } else {
            match chacha_open(k, iv, enc_structure_bytes(prot), ct) {
                Some(m) => (r matches Ok(v) && v@ == m),
                None => (r matches Err(e) && e@ == "cose: authentication failed"@),
            }
        },
    }
}

/// Whenever the ciphertext of the parts is the sealing of some `m` (short
/// enough for [`chacha_encrypt`] to seal) under the key of `key_hex`, `r`
/// gives back `m`.
pub open spec fn encrypt0_opens_seals(
    parts: (Seq<u8>, Seq<u8>, Seq<u8>),
    key_hex: Seq<u8>,
    r: Result<Vec<u8>, String>,
) -> bool {
    let (prot, iv, ct) = parts;
    match hex_value(key_hex) {
        Some(k) => k.len() == 32 ==> forall|m: Seq<u8>|
            m.len() / 64 < u32::MAX && #[trigger] chacha_seal(k, iv, enc_structure_bytes(prot), m) == ct ==> (r matches Ok(v)
                && v@ == m),
        None => true,
    }
}

/// Opens an [`encrypt0_seal`] blob, authenticating it against the key.
pub fn encrypt0_open(blob: &[u8], key_hex: &str) -> (r: Result<Vec<u8>, String>)
    requires
        hex_pairs_sliceable(key_hex),
    ensures
        match encrypt0_parts(blob@) {
            Err(m) => (r matches Err(e) && e@ == m),
            Ok(parts) => encrypt0_outcome(parts, key_hex.spec_bytes(), r) && encrypt0_opens_seals(
                parts,
                key_hex.spec_bytes(),
                r,
            ),
        },
{
    if blob.len() == 0 {
        return cose_err("cose: empty");
    }
    if blob[0] != 0xD0 {
        return cose_err("cose: missing tag 16");
    }
    if blob.len() < 2 {
        return cose_err("cose: truncated");
    }
    if blob[1] != 0x83 {
        return cose_err("cose: expected array(3)");
    }
    let mut pos: usize = 2;
    let prot = match cb_read_bytes(blob, &mut pos) {
        Some(v) => v,
        None => return cose_err("cose: bad protected"),
    };
    if pos >= blob.len() {
        return cose_err("cose: truncated");
    }
    if blob[pos] != 0xA1 {
        return cose_err("cose: expected unprotected map(1)");
    }
    pos = pos + 1;
    if pos >= blob.len() {
        return cose_err("cose: truncated");
    }
    if blob[pos] != 0x05 {
        return cose_err("cose: expected iv key 5");
    }
    pos = pos + 1;
    let iv = match cb_read_bytes(blob, &mut pos) {
        Some(v) => v,
        None => return cose_err("cose: bad iv"),
    };
    if iv.len() != 12 {
        return cose_err("cose: iv must be 12 bytes");
    }
    let ct = match cb_read_bytes(blob, &mut pos) {
        Some(v) => v,
        None => return cose_err("cose: bad ciphertext"),
    };
    let key = match decode_hex(key_hex) {
        Some(v) => v,
        None => return cose_err("cose: bad key hex"),
    };
    if key.len() != 32 {
        return cose_err("cose: key must be 32 bytes");
    }
    let k = key32(&key);
    let mut nonce = [0u8; 12];
    let mut i: usize = 0;
    while i < 12
        invariant
            i <= 12,
            iv@.len() == 12,
            forall|j: int| 0 <= j < i ==> nonce@[j] == iv@[j],
        decreases 12 - i,
    {
        nonce[i] = iv[i];
        i += 1;
    }
    assert(nonce@ =~= iv@);
    let aad = enc_structure(&prot);
    match chacha_decrypt(&k, &nonce, &aad, &ct) {
        Ok(m) => Ok(m),
        Err(()) => cose_err("cose: authentication failed"),
    }
}

// ── Round trips ──

/// A byte string item written at `p` reads back as the same bytes, when its
/// length fits the two-byte head.
proof fn lemma_read_item(b: Seq<u8>, p: int, x: Seq<u8>)
    requires
        0 <= p,
        x.len() < 65536,
        p + bytes_item(x).len() <= b.len(),
        b.subrange(p, p + bytes_item(x).len()) == bytes_item(x),
    ensures
        read_bytes_spec(b, p) == (Some(x), p + bytes_item(x).len()),
{
    let item = bytes_item(x);
    let n = x.len();
    assert(b[p] == item[0]);
    if n <= 23 {
        assert(b.subrange(p + 1, p + 1 + n) =~= x) by {
            assert forall|k: int| 0 <= k < n implies b.subrange(p + 1, p + 1 + n)[k] == x[k] by {
                assert(b[p + 1 + k] == b.subrange(p, p + item.len())[1 + k]);
            }
        }
    } else {
        assert(b[p + 1] == item[1]);
        assert(b[p + 2] == item[2]);
        assert((n / 256) * 256 + n % 256 == n) by (nonlinear_arith)
            requires
                n < 65536,
        ;
        assert(n % 65536 == n);
        assert(b.subrange(p + 3, p + 3 + n) =~= x) by {
            assert forall|k: int| 0 <= k < n implies b.subrange(p + 3, p + 3 + n)[k] == x[k] by {
                assert(b[p + 3 + k] == b.subrange(p, p + item.len())[3 + k]);
            }
        }
    }
}

/// A text string item written at `p` reads back as the same bytes, when its
/// length fits the two-byte head.
proof fn lemma_read_text_item(b: Seq<u8>, p: int, x: Seq<u8>)
    requires
        0 <= p,
        x.len() < 65536,
        p + text_item(x).len() <= b.len(),
        b.subrange(p, p + text_item(x).len()) == text_item(x),
    ensures
        read_text_spec(b, p) == (Some(x), p + text_item(x).len()),
{
    let item = text_item(x);
    let n = x.len();
    assert(b[p] == item[0]);
    if n <= 23 {
        assert(b.subrange(p + 1, p + 1 + n) =~= x) by {
            assert forall|k: int| 0 <= k < n implies b.subrange(p + 1, p + 1 + n)[k] == x[k] by {
                assert(b[p + 1 + k] == b.subrange(p, p + item.len())[1 + k]);
            }
        }
    } else {
        assert(b[p + 1] == item[1]);
        assert(b[p + 2] == item[2]);
        assert((n / 256) * 256 + n % 256 == n) by (nonlinear_arith)
            requires
                n < 65536,
        ;
        assert(n % 65536 == n);
        assert(b.subrange(p + 3, p + 3 + n) =~= x) by {
            assert forall|k: int| 0 <= k < n implies b.subrange(p + 3, p + 3 + n)[k] == x[k] by {
                assert(b[p + 3 + k] == b.subrange(p, p + item.len())[3 + k]);
            }
        }
    }
}

/// What [`cb_text`] writes after any prefix reads back with
/// [`cb_read_text`] from the end of the prefix, whatever follows it: the
/// same bytes, and the position just past the item, when the text's length
/// fits the two-byte head.
pub proof fn lemma_text_roundtrip(prefix: Seq<u8>, s: Seq<u8>, tail: Seq<u8>)
    requires
        s.len() < 65536,
    ensures
        read_text_spec(prefix + text_item(s) + tail, prefix.len() as int) == (
            Some(s),
            (prefix.len() + text_item(s).len()) as int,
        ),
{
    let b = prefix + text_item(s) + tail;
    let p = prefix.len() as int;
    assert(b.subrange(p, p + text_item(s).len()) =~= text_item(s));
    lemma_read_text_item(b, p, s);
}

/// The payload read without checking the signature is that of any tagged
/// `COSE_Sign1` (protected bucket, empty unprotected map, payload, then
/// anything), when the bucket and the payload fit two-byte lengths; bytes
/// that do not start with the tag and the four-element array give none.
pub proof fn lemma_sign1_extract(prot: Seq<u8>, payload: Seq<u8>, rest: Seq<u8>, other: Seq<u8>)
    requires
        prot.len() < 65536,
        payload.len() < 65536,
    ensures
        sign1_payload(seq![0xD2u8, 0x84u8] + bytes_item(prot) + seq![0xA0u8] + bytes_item(payload) + rest)
            == Some(payload),
        other.len() < 2 || other[0] != 0xD2 || other[1] != 0x84 ==> sign1_payload(other) is None,
{
    let c = seq![0xD2u8, 0x84u8] + bytes_item(prot) + seq![0xA0u8] + bytes_item(payload) + rest;
    let i1 = bytes_item(prot);
    let i2 = bytes_item(payload);
    let p1: int = 2 + i1.len() as int;
    let p2: int = p1 + 1 + i2.len();
    assert(c.subrange(2, p1) =~= i1);
    lemma_read_item(c, 2, prot);
    assert(c[p1] == 0xA0u8);
    assert(c.subrange(p1 + 1, p2) =~= i2);
    lemma_read_item(c, p1 + 1, payload);
    assert(sign1_head(c) == Ok::<(Seq<u8>, int), Seq<char>>((prot, p1 + 1)));
}

/// Reading a `COSE_Sign1` made by [`sign1`] gives back its protected
/// bucket, its payload and the signature over them, and the signature is
/// one that the secret key made, when
/// the payload and the protected bucket fit two-byte lengths.
pub proof fn lemma_sign1_roundtrip(payload: Seq<u8>, kid: Seq<u8>, sk: Seq<u8>)
    requires
        sk.len() == 32,
        payload.len() < 65536,
        protected_bytes(kid).len() < 65536,
        ed25519_signature_of(sk, sig_structure_bytes(protected_bytes(kid), payload)).len() == 64,
    ensures
        ({
            let parts = (
                protected_bytes(kid),
                payload,
                ed25519_signature_of(sk, sig_structure_bytes(protected_bytes(kid), payload)),
            );
            &&& sign1_parts(sign1_bytes(payload, kid, sk)) == Ok::<
                (Seq<u8>, Seq<u8>, Seq<u8>),
                Seq<char>,
            >(parts)
            &&& sign1_payload(sign1_bytes(payload, kid, sk)) == Some(payload)
            &&& sign1_honest(parts, crate::crypto::ed25519_public_of(sk))
        }),
{
    let prot = protected_bytes(kid);
    let sig = ed25519_signature_of(sk, sig_structure_bytes(prot, payload));
    let c = sign1_bytes(payload, kid, sk);
    let i1 = bytes_item(prot);
    let i2 = bytes_item(payload);
    let i3 = bytes_item(sig);
    let p1: int = 2 + i1.len() as int;
    let p2: int = p1 + 1 + i2.len();
    let p3: int = p2 + i3.len();
    assert(c =~= seq![0xD2u8, 0x84u8] + i1 + seq![0xA0u8] + i2 + i3);
    assert(c.len() == p3);
    assert(c.subrange(2, p1) =~= i1);
    lemma_read_item(c, 2, prot);
    assert(c[p1] == 0xA0u8);
    assert(c.subrange(p1 + 1, p2) =~= i2);
    lemma_read_item(c, p1 + 1, payload);
    assert(c.subrange(p2, p3) =~= i3);
    lemma_read_item(c, p2, sig);
    assert(sign1_head(c) == Ok::<(Seq<u8>, int), Seq<char>>((prot, p1 + 1)));
    assert(crate::crypto::ed25519_public_of(sk) == crate::crypto::ed25519_public_of(sk));
}

/// Reading a `COSE_Encrypt0` made by [`encrypt0_seal`] gives back its
/// protected bucket, nonce and ciphertext (which [`encrypt0_open`] then
/// opens to the plaintext), when the nonce is 12 bytes and the ciphertext
/// fits a two-byte length.
pub proof fn lemma_encrypt0_roundtrip(key: Seq<u8>, kid: Seq<u8>, plaintext: Seq<u8>)
    requires
        nonce_of(key, kid, plaintext).len() == 12,
        chacha_seal(
            key,
            nonce_of(key, kid, plaintext),
            enc_structure_bytes(encrypt0_protected_bytes()),
            plaintext,
        ).len() < 65536,
    ensures
        encrypt0_parts(encrypt0_bytes(key, kid, plaintext)) == Ok::<
            (Seq<u8>, Seq<u8>, Seq<u8>),
            Seq<char>,
        >(
            (
                encrypt0_protected_bytes(),
                nonce_of(key, kid, plaintext),
                chacha_seal(
                    key,
                    nonce_of(key, kid, plaintext),
                    enc_structure_bytes(encrypt0_protected_bytes()),
                    plaintext,
                ),
            ),
        ),
{
    let prot = encrypt0_protected_bytes();
    let nonce = nonce_of(key, kid, plaintext);
    let ct = chacha_seal(key, nonce, enc_structure_bytes(prot), plaintext);
    let b = encrypt0_bytes(key, kid, plaintext);
    let i1 = bytes_item(prot);
    let i2 = bytes_item(nonce);
    let i3 = bytes_item(ct);
    assert(prot.len() < 65536);
    let p1: int = 2 + i1.len() as int;
    let p2: int = p1 + 2 + i2.len();
    let p3: int = p2 + i3.len();
    assert(b =~= seq![0xD0u8, 0x83u8] + i1 + seq![0xA1u8, 0x05u8] + i2 + i3);
    assert(b.subrange(2, p1) =~= i1);
    lemma_read_item(b, 2, prot);
    assert(b.subrange(p1 + 2, p2) =~= i2);
    lemma_read_item(b, p1 + 2, nonce);
    assert(b.subrange(p2, p3) =~= i3);
    lemma_read_item(b, p2, ct);
}

} // verus!
