//! Signed build provenance.
//!
//! Every release binary carries a signed provenance trailer appended after
//! its code:
//!
//! ```text
//! [ELF/MachN bytes][payload CBOR][signature 64B][len u64 BE][MAGIC]
//! ```
//!
//! The payload records what went into the build: toolchain version, source
//! content hash, and the residual notes discovered during compilation. The
//! signature is Ed25519 over exactly the payload bytes, so any tampering
//! with either the provenance or the recorded facts is detectable.

use vstd::prelude::*;

use crate::archive::{hex_encode, hex_text, hex_pairs_sliceable, push_all};
use crate::cose::{decode_hex, head_bytes, hex_value, text_item};
use crate::crypto::{
    ed25519_accepts, ed25519_key_decodes, ed25519_key_error, ed25519_sign, ed25519_signature_of,
    ed25519_verify, is_honest_signature, sha256_digest, sha256_of,
};
use crate::text::{has_prefix, joined, str_eq, str_from_utf8, string_of};
use vstd::string::StringSliceAdditionalSpecFns;

verus! {

broadcast use vstd::utf8::encode_utf8_decode_utf8;

/// The trailer magic, scanned for at the end of the file.
pub const MAGIC: [u8; 10] = [0x52, 0x45, 0x53, 0x49, 0x44, 0x50, 0x52, 0x4f, 0x56, 0x31];

/// The trailer magic `RESIDPROV1`.
pub open spec fn prov_magic() -> Seq<u8> {
    seq![0x52u8, 0x45, 0x53, 0x49, 0x44, 0x50, 0x52, 0x4f, 0x56, 0x31]
}

/// Eight big-endian bytes of `v` (taken modulo 2^64).
pub open spec fn be64_bytes(v: nat) -> Seq<u8> {
    seq![
        ((v / 72057594037927936) % 256) as u8,
        ((v / 281474976710656) % 256) as u8,
        ((v / 1099511627776) % 256) as u8,
        ((v / 4294967296) % 256) as u8,
        ((v / 16777216) % 256) as u8,
        ((v / 65536) % 256) as u8,
        ((v / 256) % 256) as u8,
        (v % 256) as u8,
    ]
}

/// The big-endian number in the eight bytes at `off`.
pub open spec fn be_u64(b: Seq<u8>, off: int) -> nat {
    (b[off] as nat) * 72057594037927936 + (b[off + 1] as nat) * 281474976710656 + (b[off
        + 2] as nat) * 1099511627776 + (b[off + 3] as nat) * 4294967296 + (b[off + 4] as nat)
        * 16777216 + (b[off + 5] as nat) * 65536 + (b[off + 6] as nat) * 256 + (b[off + 7] as nat)
}

/// The trailer appended for `payload` and its signature.
pub open spec fn trailer(payload: Seq<u8>, sig: Seq<u8>) -> Seq<u8> {
    payload + sig + be64_bytes(payload.len()) + prov_magic()
}

/// Where the trailer of `b` lies: the start of the payload, the start of
/// the signature and the start of the length field; `None` when `b` has
/// no trailer.
pub open spec fn unseal_spec(b: Seq<u8>) -> Option<(int, int, int)> {
    if b.len() < 82 {
        None
    } else if b.subrange(b.len() - 10, b.len() as int) != prov_magic() {
        None
    } else {
        let len_pos = b.len() - 18;
        let l = (be_u64(b, len_pos) as usize) as int;
        let sig_start = len_pos - 64;
        if l > sig_start {
            None
        } else {
            Some((sig_start - l, sig_start, len_pos))
        }
    }
}

fn push_be64(out: &mut Vec<u8>, v: u64)
    ensures
        final(out)@ == old(out)@ + be64_bytes(v as nat),
{
    out.push(((v / 72057594037927936) % 256) as u8);
    out.push(((v / 281474976710656) % 256) as u8);
    out.push(((v / 1099511627776) % 256) as u8);
    out.push(((v / 4294967296) % 256) as u8);
    out.push(((v / 16777216) % 256) as u8);
    out.push(((v / 65536) % 256) as u8);
    out.push(((v / 256) % 256) as u8);
    out.push((v % 256) as u8);
    assert(out@ =~= old(out)@ + be64_bytes(v as nat));
}

/// Appends a signed provenance trailer to `binary` in place.
pub fn seal(binary: &mut Vec<u8>, payload: &[u8], secret_hex: &str) -> (r: Result<(), String>)
    requires
        hex_pairs_sliceable(secret_hex),
    ensures
        match hex_value(secret_hex.spec_bytes()) {
            None => (r matches Err(e) && e@ == "provenance: bad signing key hex"@) && final(binary)@
                == old(binary)@,
            Some(k) => if k.len() != 32 {
                (r matches Err(e) && e@ == "provenance: key must be 32 bytes"@) && final(binary)@
                    == old(binary)@
            } else {
                r is Ok && ed25519_signature_of(k, payload@).len() == 64 && final(binary)@ == old(binary)@
                    + trailer(payload@, ed25519_signature_of(k, payload@))
            },
        },
{
    let secret = match decode_hex(secret_hex) {
        Some(v) => v,
        None => return Err(string_of("provenance: bad signing key hex")),
    };
    if secret.len() != 32 {
        return Err(string_of("provenance: key must be 32 bytes"));
    }
    let mut key = [0u8; 32];
    let mut i: usize = 0;
    while i < 32
        invariant
            i <= 32,
            secret@.len() == 32,
            forall|j: int| 0 <= j < i ==> key@[j] == secret@[j],
        decreases 32 - i,
    {
        key[i] = secret[i];
        i += 1;
    }
    assert(key@ =~= secret@);
    let sig = ed25519_sign(&key, payload);
    push_all(binary, payload);
    push_all(binary, &sig);
    push_be64(binary, payload.len() as u64);
    let magic: [u8; 10] = [0x52, 0x45, 0x53, 0x49, 0x44, 0x50, 0x52, 0x4f, 0x56, 0x31];
    push_all(binary, &magic);
    assert(magic@ =~= prov_magic());
    assert(final(binary)@ =~= old(binary)@ + trailer(payload@, sig@));
    Ok(())
}

fn read_be64(b: &[u8], off: usize) -> (v: u64)
    requires
        off + 8 <= b@.len(),
    ensures
        v as nat == be_u64(b@, off as int),
{
    (b[off] as u64) * 72057594037927936 + (b[off + 1] as u64) * 281474976710656 + (b[off + 2] as u64)
        * 1099511627776 + (b[off + 3] as u64) * 4294967296 + (b[off + 4] as u64) * 16777216 + (b[off
        + 5] as u64) * 65536 + (b[off + 6] as u64) * 256 + (b[off + 7] as u64)
}

/// Extracts `(payload, signature)` from a sealed binary, if present.
pub fn unseal(binary: &[u8]) -> (r: Option<(&[u8], &[u8])>)
    ensures
        match unseal_spec(binary@) {
            None => r is None,
            Some((a, s, e)) => (r matches Some((p, g)) && p@ == binary@.subrange(a, s) && g@
                == binary@.subrange(s, e)),
        },
{
    if binary.len() < 82 {
        return None;
    }
    let end = binary.len();
    let magic: [u8; 10] = [0x52, 0x45, 0x53, 0x49, 0x44, 0x50, 0x52, 0x4f, 0x56, 0x31];
    let mut m: usize = 0;
    while m < 10
        invariant
            m <= 10,
            end == binary@.len(),
            end >= 82,
            magic@ == prov_magic(),
            forall|j: int| 0 <= j < m ==> binary@[end - 10 + j] == magic@[j],
        decreases 10 - m,
    {
        if binary[end - 10 + m] != magic[m] {
            assert(binary@.subrange(end - 10, end as int)[m as int] != prov_magic()[m as int]);
            return None;
        }
        m += 1;
    }
    assert(binary@.subrange(end - 10, end as int) =~= prov_magic());
    let len_pos = end - 18;
    let len = read_be64(binary, len_pos) as usize;
    let sig_start = len_pos - 64;
    if len > sig_start {
        return None;
    }
    let pay_start = sig_start - len;
    let p = vstd::slice::slice_subrange(binary, pay_start, sig_start);
    let g = vstd::slice::slice_subrange(binary, sig_start, len_pos);
    Some((p, g))
}

/// The unsealed code portion of `binary` (everything before the trailer).
pub fn code_region(binary: &[u8]) -> (r: Option<&[u8]>)
    ensures
        match unseal_spec(binary@) {
            None => r is None,
            Some((a, _, _)) => (r matches Some(c) && c@ == binary@.subrange(0, a)),
        },
{
    let (payload, _sig) = match unseal(binary) {
        Some(x) => x,
        None => return None,
    };
    assert(payload@.len() + 82 <= binary@.len());
    let start = binary.len() - (payload.len() + 82);
    Some(vstd::slice::slice_subrange(binary, 0, start))
}

/// What checking the signature of `payload` with the public key hex
/// `pub_hex` gives.
pub open spec fn verify_outcome(
    payload: Seq<u8>,
    sig: Seq<u8>,
    pub_hex: Seq<u8>,
    r: Result<bool, String>,
) -> bool {
    match hex_value(pub_hex) {
        None => (r matches Err(e) && e@ == "provenance: bad public key hex"@),
        Some(pk) => if pk.len() != 32 {
            r matches Err(e) && e@ == "provenance: public key must be 32 bytes"@
        } else if !ed25519_key_decodes(pk) {
            r matches Err(e) && has_prefix(e@, "provenance: "@)
        } else if sig.len() != 64 {
            r matches Err(e) && e@ == "provenance: bad signature"@
        } else {
            r matches Ok(b) && b == ed25519_accepts(pk, payload, sig)
        },
    }
}

/// Verifies the embedded signature over the payload.
pub fn verify(payload: &[u8], sig: &[u8], pub_hex: &str) -> (r: Result<bool, String>)
    requires
        hex_pairs_sliceable(pub_hex),
    ensures
        verify_outcome(payload@, sig@, pub_hex.spec_bytes(), r),
        hex_value(pub_hex.spec_bytes()) matches Some(pk) ==> (pk.len() == 32 && sig@.len() == 64
            && is_honest_signature(pk, payload@, sig@) ==> r == Ok::<bool, String>(true)),
{
    let pk = match decode_hex(pub_hex) {
        Some(v) => v,
        None => return Err(string_of("provenance: bad public key hex")),
    };
    if pk.len() != 32 {
        return Err(string_of("provenance: public key must be 32 bytes"));
    }
    let mut key = [0u8; 32];
    let mut i: usize = 0;
    while i < 32
        invariant
            i <= 32,
            pk@.len() == 32,
            forall|j: int| 0 <= j < i ==> key@[j] == pk@[j],
        decreases 32 - i,
    {
        key[i] = pk[i];
        i += 1;
    }
    assert(key@ =~= pk@);
    match ed25519_key_error(&key) {
        Some(e) => return Err(joined("provenance: ", e.as_str())),
        None => {},
    }
    if sig.len() != 64 {
        return Err(string_of("provenance: bad signature"));
    }
    let mut s = [0u8; 64];
    let mut j: usize = 0;
    while j < 64
        invariant
            j <= 64,
            sig@.len() == 64,
            forall|q: int| 0 <= q < j ==> s@[q] == sig@[q],
        decreases 64 - j,
    {
        s[j] = sig[j];
        j += 1;
    }
    assert(s@ =~= sig@);
    match ed25519_verify(&key, payload, &s) {
        Ok(b) => Ok(b),
        Err(e) => Err(joined("provenance: ", e.as_str())),
    }
}

/// SHA-256 of arbitrary bytes, hex-encoded.
pub fn sha256_hex(bytes: &[u8]) -> (s: String)
    ensures
        s@ == hex_text(sha256_of(bytes@)),
{
    let d = sha256_digest(bytes);
    hex_encode(&d)
}

/// Reading a text item at `p` whose length is given inline, in one byte
/// or in two (the forms the library's writer uses; major type not
/// checked): its bytes and the position reached.
pub open spec fn short_text_spec(b: Seq<u8>, p: int) -> (Option<Seq<u8>>, int) {
    if !(0 <= p < b.len()) {
        (None, p)
    } else {
        let low = (b[p] % 32) as nat;
        let (ol, p2) = if low <= 23 {
            (Some(low), p + 1)
        } else if low == 24 {
            if p + 1 < b.len() {
                (Some(b[p + 1] as nat), p + 2)
            } else {
                (None, p + 1)
            }
        } else if low == 25 {
            if p + 2 < b.len() {
                (Some(b[p + 1] as nat * 256 + b[p + 2] as nat), p + 3)
            } else {
                (None, p + 1)
            }
        } else {
            (None, p + 1)
        };
        match ol {
            None => (None, p2),
            Some(l) => if p2 + l <= b.len() {
                (Some(b.subrange(p2, p2 + l)), p2 + l)
            } else {
                (None, p2)
            },
        }
    }
}

fn read_cb_text<'a>(bytes: &'a [u8], pos: &mut usize) -> (r: Option<&'a str>)
    ensures
        *final(pos) as int == short_text_spec(bytes@, *old(pos) as int).1,
        match short_text_spec(bytes@, *old(pos) as int).0 {
            Some(v) => if vstd::utf8::valid_utf8(v) {
                r matches Some(s) && s.spec_bytes() == v
            } else {
                r is None
            },
            None => r is None,
        },
{
    if *pos >= bytes.len() {
        return None;
    }
    let b = bytes[*pos];
    *pos = *pos + 1;
    let low = b % 32;
    let len: usize = if low <= 23 {
        low as usize
    } else if low == 24 {
        if *pos >= bytes.len() {
            return None;
        }
        let l = bytes[*pos] as usize;
        *pos = *pos + 1;
        l
    } else if low == 25 {
        if bytes.len() - *pos < 2 {
            return None;
        }
        let l = bytes[*pos] as usize * 256 + bytes[*pos + 1] as usize;
        *pos = *pos + 2;
        l
    } else {
        return None;
    };
    if bytes.len() - *pos < len {
        return None;
    }
    let v = vstd::slice::slice_subrange(bytes, *pos, *pos + len);
    *pos = *pos + len;
    str_from_utf8(v)
}

/// Looking `key` up among the text key/value pairs that start at `p`.
pub open spec fn find_from(b: Seq<u8>, p: int, key: Seq<u8>) -> Option<Seq<u8>>
    decreases b.len() - p,
    when 0 <= p
{
    if p >= b.len() {
        None
    } else {
        let (ok, p1) = short_text_spec(b, p);
        match ok {
            None => None,
            Some(k) => if !vstd::utf8::valid_utf8(k) {
                None
            } else {
                let (ov, p2) = short_text_spec(b, p1);
                match ov {
                    None => None,
                    Some(v) => if !vstd::utf8::valid_utf8(v) {
                        None
                    } else if k == key {
                        Some(v)
                    } else if p2 <= p {
                        None
                    } else {
                        find_from(b, p2, key)
                    },
                }
            },
        }
    }
}

/// The UTF-8 bytes of the value recorded for `key` in a flat CBOR map of
/// text keys and values.
pub open spec fn find_field(b: Seq<u8>, key: Seq<u8>) -> Option<Seq<u8>> {
    if b.len() == 0 || b[0] / 32 != 5 {
        None
    } else {
        find_from(b, 1, key)
    }
}

proof fn lemma_short_text_advances(b: Seq<u8>, p: int)
    requires
        0 <= p,
        short_text_spec(b, p).0 is Some,
    ensures
        short_text_spec(b, p).1 > p,
{
}

/// Scans a flat CBOR map (text keys and values) for one field.
pub fn find_text_field<'a>(payload: &'a [u8], key: &str) -> (r: Option<&'a str>)
    ensures
        match find_field(payload@, key.spec_bytes()) {
            Some(v) => (r matches Some(s) && s.spec_bytes() == v),
            None => r is None,
        },
{
    if payload.len() == 0 || payload[0] / 32 != 5 {
        return None;
    }
    let mut pos: usize = 1;
    while pos < payload.len()
        invariant
            1 <= pos,
            find_field(payload@, key.spec_bytes()) == find_from(payload@, pos as int, key.spec_bytes()),
        decreases payload.len() - pos,
    {
        let ghost p0 = pos as int;
        let k = match read_cb_text(payload, &mut pos) {
            Some(s) => s,
            None => return None,
        };
        let v = match read_cb_text(payload, &mut pos) {
            Some(s) => s,
            None => return None,
        };
        proof {
            lemma_short_text_advances(payload@, p0);
        }
        if str_eq(k, key) {
            proof {
                vstd::utf8::encode_utf8_decode_utf8(k@);
                vstd::utf8::encode_utf8_decode_utf8(key@);
            }
            return Some(v);
        }
        proof {
            if k.spec_bytes() == key.spec_bytes() {
                vstd::utf8::encode_utf8_decode_utf8(k@);
                vstd::utf8::encode_utf8_decode_utf8(key@);
            }
        }
    }
    None
}

/// Full check of a sealed binary: `Err` when it has no trailer or the key
/// is unusable, else (the signature is valid, the code hash matches the
/// recorded `binary_sha256`).
pub fn verify_full(binary: &[u8], pub_hex: &str) -> (r: Result<(bool, bool), String>)
    requires
        hex_pairs_sliceable(pub_hex),
    ensures
        match unseal_spec(binary@) {
            None => (r matches Err(e) && e@ == "no provenance trailer"@),
            Some((a, s, e)) => {
                let payload = binary@.subrange(a, s);
                let sig = binary@.subrange(s, e);
                &&& (r matches Err(m) ==> verify_outcome(
                    payload,
                    sig,
                    pub_hex.spec_bytes(),
                    Err(m),
                ))
                &&& (r matches Ok((sig_ok, code_ok)) ==> verify_outcome(
                    payload,
                    sig,
                    pub_hex.spec_bytes(),
                    Ok(sig_ok),
                ) && code_ok == (find_field(
                    payload,
                    "binary_sha256"@.map_values(|c: char| c as u8),
                ) matches Some(w) && vstd::utf8::decode_utf8(w) == hex_text(
                    sha256_of(binary@.subrange(0, a)),
                )))
                &&& (verify_outcome(payload, sig, pub_hex.spec_bytes(), Ok(true))
                    || verify_outcome(payload, sig, pub_hex.spec_bytes(), Ok(false))) ==> r is Ok
            },
        },
{
    let (payload, sig) = match unseal(binary) {
        Some(x) => x,
        None => return Err(string_of("no provenance trailer")),
    };
    let sig_ok = match verify(payload, sig, pub_hex) {
        Ok(b) => b,
        Err(e) => return Err(e),
    };
    let field = "binary_sha256";
    let want = find_text_field(payload, field);
    let code = match code_region(binary) {
        Some(c) => c,
        None => {
            let e: &[u8] = &[];
            e
        },
    };
    let have = sha256_hex(code);
    let code_ok = match want {
        Some(w) => str_eq(w, have.as_str()),
        None => false,
    };
    proof {
        reveal_strlit("binary_sha256");
        assert(field.spec_bytes() =~= "binary_sha256"@.map_values(|c: char| c as u8)) by {
            vstd::utf8::is_ascii_chars_encode_utf8(field@);
        }
        match want {
            Some(w) => {
                vstd::utf8::encode_utf8_decode_utf8(w@);
            },
            None => {},
        }
    }
    Ok((sig_ok, code_ok))
}

/// The text items of key/value pairs, one after the other.
pub open spec fn pairs_bytes(ps: Seq<(Seq<u8>, Seq<u8>)>) -> Seq<u8>
    decreases ps.len(),
{
    if ps.len() == 0 {
        Seq::empty()
    } else {
        text_item(ps[0].0) + text_item(ps[0].1) + pairs_bytes(ps.drop_first())
    }
}

/// The value of the first pair whose key is `key`.
pub open spec fn lookup(ps: Seq<(Seq<u8>, Seq<u8>)>, key: Seq<u8>) -> Option<Seq<u8>>
    decreases ps.len(),
{
    if ps.len() == 0 {
        None
    } else if ps[0].0 == key {
        Some(ps[0].1)
    } else {
        lookup(ps.drop_first(), key)
    }
}

/// Every key and value is UTF-8 text shorter than 2^16 bytes.
pub open spec fn short_texts(ps: Seq<(Seq<u8>, Seq<u8>)>) -> bool {
    forall|i: int|
        0 <= i < ps.len() ==> #[trigger] ps[i].0.len() < 65536 && ps[i].1.len() < 65536
            && vstd::utf8::valid_utf8(ps[i].0) && vstd::utf8::valid_utf8(ps[i].1)
}

/// Reading back a text item that the library's writer made gives its
/// bytes and the position just past it.
pub proof fn lemma_read_written_text(b: Seq<u8>, p: int, t: Seq<u8>)
    requires
        0 <= p,
        t.len() < 65536,
        p + text_item(t).len() <= b.len(),
        b.subrange(p, p + text_item(t).len()) == text_item(t),
    ensures
        short_text_spec(b, p) == (Some(t), p + text_item(t).len()),
{
    let h = head_bytes(3, t.len());
    assert(b[p] == text_item(t)[0]);
    if t.len() <= 23 {
        assert(b.subrange(p + 1, p + 1 + t.len()) =~= t) by {
            assert forall|i: int| 0 <= i < t.len() implies b.subrange(p + 1, p + 1 + t.len())[i] == t[i] by {
                assert(b[p + 1 + i] == text_item(t)[1 + i]);
            }
        }
    } else {
        let l = t.len();
        assert(b[p + 1] == text_item(t)[1]);
        assert(b[p + 2] == text_item(t)[2]);
        assert(((l % 65536) / 256) * 256 + l % 256 == l) by (nonlinear_arith)
            requires
                l < 65536,
        ;
        assert(b.subrange(p + 3, p + 3 + l) =~= t) by {
            assert forall|i: int| 0 <= i < l implies b.subrange(p + 3, p + 3 + l)[i] == t[i] by {
                assert(b[p + 3 + i] == text_item(t)[3 + i]);
            }
        }
    }
}

/// Looking a key up in the text pairs written after `prefix` finds the
/// value of its first occurrence.
pub proof fn lemma_find_written_pairs(prefix: Seq<u8>, ps: Seq<(Seq<u8>, Seq<u8>)>, key: Seq<u8>)
    requires
        short_texts(ps),
    ensures
        find_from(prefix + pairs_bytes(ps), prefix.len() as int, key) == lookup(ps, key),
    decreases ps.len(),
{
    let b = prefix + pairs_bytes(ps);
    if ps.len() > 0 {
        let (k, v) = ps[0];
        assert(ps[0].0.len() < 65536 && ps[0].1.len() < 65536 && vstd::utf8::valid_utf8(k) && vstd::utf8::valid_utf8(v));
        let n = prefix.len() as int;
        let ik = text_item(k);
        let iv = text_item(v);
        let rest = ps.drop_first();
        assert(b =~= prefix + ik + iv + pairs_bytes(rest));
        assert(b.subrange(n, n + ik.len()) =~= ik);
        lemma_read_written_text(b, n, k);
        assert(b.subrange(n + ik.len(), n + ik.len() + iv.len()) =~= iv);
        lemma_read_written_text(b, n + ik.len(), v);
        if k != key {
            assert forall|i: int| 0 <= i < rest.len() implies #[trigger] rest[i].0.len() < 65536 && rest[i].1.len()
                < 65536 && vstd::utf8::valid_utf8(rest[i].0) && vstd::utf8::valid_utf8(rest[i].1) by {
                assert(rest[i] == ps[i + 1]);
            }
            lemma_find_written_pairs(prefix + ik + iv, rest, key);
            assert(prefix + ik + iv + pairs_bytes(rest) =~= b);
        }
    }
}

/// A flat map the library writes (a one-byte map head, then text pairs)
/// gives back, for each key, the value of its first occurrence: the field
/// reader reads back what the writer wrote, lengths of two bytes included.
pub proof fn lemma_find_written_field(n: nat, ps: Seq<(Seq<u8>, Seq<u8>)>, key: Seq<u8>)
    requires
        n <= 23,
        short_texts(ps),
    ensures
        find_field(head_bytes(5, n) + pairs_bytes(ps), key) == lookup(ps, key),
{
    let h = head_bytes(5, n);
    assert(h.len() == 1);
    assert((h + pairs_bytes(ps))[0] == h[0]);
    if ps.len() == 0 {
        assert(h + pairs_bytes(ps) =~= h);
    }
    lemma_find_written_pairs(h, ps, key);
}

/// Unsealing a binary sealed with a payload gives back the payload and the
/// signature, and the code region is the binary as it was, when the
/// signature is 64 bytes and the payload length fits a `usize`.
pub proof fn lemma_unseal_seal(binary: Seq<u8>, payload: Seq<u8>, sig: Seq<u8>)
    requires
        sig.len() == 64,
        payload.len() <= usize::MAX,
    ensures
        unseal_spec(binary + trailer(payload, sig)) == Some(
            (
                binary.len() as int,
                binary.len() + payload.len() as int,
                binary.len() + payload.len() + 64 as int,
            ),
        ),
        (binary + trailer(payload, sig)).subrange(
            binary.len() as int,
            binary.len() + payload.len() as int,
        ) == payload,
        (binary + trailer(payload, sig)).subrange(
            binary.len() + payload.len() as int,
            binary.len() + payload.len() + 64 as int,
        ) == sig,
        (binary + trailer(payload, sig)).subrange(0, binary.len() as int) == binary,
{
    let b = binary + trailer(payload, sig);
    let n = binary.len() as int;
    let m = payload.len() as int;
    let len_pos = n + m + 64;
    assert(b.len() == n + m + 82);
    assert(b.subrange(b.len() - 10, b.len() as int) =~= prov_magic());
    assert(b.subrange(n, n + m) =~= payload);
    assert(b.subrange(n + m, n + m + 64) =~= sig);
    assert(b.subrange(0, n) =~= binary);
    assert forall|i: int| 0 <= i < 8 implies b[len_pos + i] == #[trigger] be64_bytes(m as nat)[i] by {
        assert(b[len_pos + i] == trailer(payload, sig)[m + 64 + i]);
    }
    lemma_be_read(b, len_pos, m as nat);
}

proof fn lemma_be_read(b: Seq<u8>, off: int, v: nat)
    requires
        0 <= off,
        off + 8 <= b.len(),
        v <= usize::MAX,
        forall|i: int| 0 <= i < 8 ==> b[off + i] == #[trigger] be64_bytes(v)[i],
    ensures
        (be_u64(b, off) as usize) as int == v,
{
    assert(v <= u64::MAX);
    let w = v as u64;
    assert(b[off] == be64_bytes(v)[0]);
    assert(b[off + 1] == be64_bytes(v)[1]);
    assert(b[off + 2] == be64_bytes(v)[2]);
    assert(b[off + 3] == be64_bytes(v)[3]);
    assert(b[off + 4] == be64_bytes(v)[4]);
    assert(b[off + 5] == be64_bytes(v)[5]);
    assert(b[off + 6] == be64_bytes(v)[6]);
    assert(b[off + 7] == be64_bytes(v)[7]);
    assert(((w / 72057594037927936) % 256) * 72057594037927936 + ((w / 281474976710656) % 256)
        * 281474976710656 + ((w / 1099511627776) % 256) * 1099511627776 + ((w / 4294967296) % 256)
        * 4294967296 + ((w / 16777216) % 256) * 16777216 + ((w / 65536) % 256) * 65536 + ((w / 256)
        % 256) * 256 + (w % 256) == w) by (bit_vector);
}

} // verus!
