use resid::archive::{
    archive_bytes, content_hash, decode_hex, hex_encode, keygen, list_files, sign_hash,
    verify_sig, PackError,
};
use resid::cose::{encrypt0_open, encrypt0_seal, sign1, sign1_extract, sign1_verify};
use resid::lock::{parse, to_text, LockEntry, LockFile};
use resid::provenance::{code_region, seal, unseal, verify, verify_full, MAGIC};

// ── lock ──

#[test]
fn roundtrip() {
    let mut lf = LockFile::default();
    lf.set(LockEntry {
        name: "crypto".into(),
        version: "1.2.0".into(),
        sha256: "ab".repeat(32),
    });
    lf.set(LockEntry {
        name: "ed25519".into(),
        version: "0.9.0".into(),
        sha256: "cd".repeat(32),
    });
    let text = to_text(&lf);
    assert_eq!(parse(&text).unwrap(), lf);
}

#[test]
fn canonical_ordering_and_get() {
    let mut lf = LockFile::default();
    lf.set(LockEntry { name: "b".into(), version: "1".into(), sha256: "x".into() });
    lf.set(LockEntry { name: "a".into(), version: "2".into(), sha256: "y".into() });
    assert_eq!(lf.entries[0].name, "a");
    assert_eq!(lf.get("b").unwrap().version, "1");
    assert!(lf.get("c").is_none());
}

#[test]
fn malformed_line_rejected() {
    assert!(parse("pkg 1.0 nothex").is_err());
    assert!(parse("# comment\n\nok 1.0 sha256:ff\n").is_ok());
}

#[test]
fn lock_error_names_the_line() {
    let e = parse("# header\nok 1.0 sha256:ff\nbad line\n").unwrap_err();
    assert_eq!(e, "resid.lock line 3: expected '<name> <version> sha256:<hex>'");
}

#[test]
fn lock_set_replaces_same_name() {
    let mut lf = LockFile::default();
    lf.set(LockEntry { name: "m".into(), version: "1".into(), sha256: "aa".into() });
    lf.set(LockEntry { name: "m".into(), version: "2".into(), sha256: "bb".into() });
    assert_eq!(lf.entries.len(), 1);
    assert_eq!(lf.get("m").unwrap().version, "2");
    assert_eq!(
        to_text(&lf),
        "# resid.lock — generated; dependency content hashes\nm 2 sha256:bb\n"
    );
}

#[test]
fn lock_parse_trims_and_skips() {
    let lf = parse("  \r\n\t x  1.0\tsha256:01 \r\n# c\n").unwrap();
    assert_eq!(lf.entries.len(), 1);
    assert_eq!(lf.entries[0].name, "x");
    assert_eq!(lf.entries[0].version, "1.0");
    assert_eq!(lf.entries[0].sha256, "01");
    assert!(parse("a b c").is_err());
    assert!(parse("a b sha256:x extra").is_err());
}

// ── provenance ──

#[test]
fn seal_unseal_roundtrip() {
    let (sec, _pub) = keygen().unwrap();
    let mut bin = b"\x7fELF fake machine code".to_vec();
    let payload = b"{\"toolchain\":\"residc-v1\"}";
    seal(&mut bin, payload, &sec).unwrap();
    let (pay, sig) = unseal(&bin).expect("trailer found");
    assert_eq!(pay, payload);
    assert!(verify(pay, sig, &_pub).unwrap());
    let trailer = payload.len() + 64 + 8 + MAGIC.len();
    assert_eq!(bin.len(), b"\x7fELF fake machine code".len() + trailer);
    assert_eq!(&bin[..b"\x7fELF fake machine code".len()], b"\x7fELF fake machine code");
}

#[test]
fn tampered_payload_fails() {
    let (sec, _pub) = keygen().unwrap();
    let mut bin = vec![0u8; 16];
    seal(&mut bin, b"payload", &sec).unwrap();
    let (pay, sig) = unseal(&bin).unwrap();
    let mut bad = pay.to_vec();
    bad[0] ^= 1;
    assert!(!verify(&bad, sig, &_pub).unwrap());
}

#[test]
fn unsigned_binary_has_no_trailer() {
    assert_eq!(unseal(b"just an elf"), None);
}

#[test]
fn seal_rejects_bad_keys() {
    let mut bin = vec![1u8, 2, 3];
    assert_eq!(seal(&mut bin, b"p", "zz").unwrap_err(), "provenance: bad signing key hex");
    assert_eq!(seal(&mut bin, b"p", "00").unwrap_err(), "provenance: key must be 32 bytes");
    assert_eq!(bin, vec![1u8, 2, 3]);
}

#[test]
fn code_region_and_full_verification() {
    let (sec, public) = keygen().unwrap();
    let code = b"machine code".to_vec();
    let mut payload = vec![0xA1u8];
    payload.push(0x60 + 13);
    payload.extend_from_slice(b"binary_sha256");
    let digest = resid::provenance::sha256_hex(&code);
    payload.push(0x78);
    payload.push(digest.len() as u8);
    payload.extend_from_slice(digest.as_bytes());
    let mut bin = code.clone();
    seal(&mut bin, &payload, &sec).unwrap();
    assert_eq!(code_region(&bin).unwrap(), &code[..]);
    assert_eq!(verify_full(&bin, &public).unwrap(), (true, true));
    assert_eq!(verify_full(b"no trailer here", &public).unwrap_err(), "no provenance trailer");
    assert_eq!(
        resid::provenance::find_text_field(&payload, "binary_sha256"),
        Some(digest.as_str())
    );
    assert_eq!(resid::provenance::find_text_field(&payload, "other"), None);
}

#[test]
fn sha256_hex_known_value() {
    assert_eq!(
        resid::provenance::sha256_hex(b"abc"),
        "ba7816bf8f01cfea414140de5dae2223b00361a396177a9cb410ff61f20015ad"
    );
}

// ── cose ──

#[test]
fn sign1_roundtrip_and_structure() {
    let (sec, pubk) = keygen().unwrap();
    let payload = b"{\"toolchain\":\"residc-v1\"}";
    let cose = sign1(payload, "resid-ed25519", &sec).unwrap();
    assert_eq!(cose[0], 0xD2);
    assert_eq!(cose[1], 0x84);
    assert_eq!(sign1_verify(&cose, &pubk).unwrap(), payload);
}

#[test]
fn sign1_tamper_detected() {
    let (sec, pubk) = keygen().unwrap();
    let mut cose = sign1(b"payload", "kid", &sec).unwrap();
    let last = cose.len() - 1;
    cose[last] ^= 1;
    assert!(sign1_verify(&cose, &pubk).is_err());
}

#[test]
fn encrypt0_roundtrip() {
    let key = "00".repeat(32);
    let blob = encrypt0_seal(b"secret provenance", &key, "resid").unwrap();
    assert_eq!(encrypt0_open(&blob, &key).unwrap(), b"secret provenance");
}

#[test]
fn encrypt0_is_deterministic() {
    let key = "ab".repeat(32);
    let a = encrypt0_seal(b"payload one", &key, "resid-prov").unwrap();
    let b = encrypt0_seal(b"payload one", &key, "resid-prov").unwrap();
    assert_eq!(a, b);
    let c = encrypt0_seal(b"payload two", &key, "resid-prov").unwrap();
    assert_ne!(a, c);
}

#[test]
fn encrypt0_tamper_and_wrong_key_rejected() {
    let key = "ab".repeat(32);
    let blob = encrypt0_seal(b"secret provenance", &key, "resid").unwrap();
    let mut tampered = blob.clone();
    let last = tampered.len() - 1;
    tampered[last] ^= 1;
    assert!(encrypt0_open(&tampered, &key).is_err());
    let other = "cd".repeat(32);
    assert!(encrypt0_open(&blob, &other).is_err());
    assert!(encrypt0_seal(b"x", "00", "resid").is_err());
}

#[test]
fn sign1_extract_reads_payload_without_key() {
    let (sec, _) = keygen().unwrap();
    let cose = sign1(b"hello", "k", &sec).unwrap();
    assert_eq!(sign1_extract(&cose), Some(b"hello".to_vec()));
    assert_eq!(sign1_extract(b""), None);
    assert_eq!(sign1_verify(b"", "00").unwrap_err(), "cose: empty");
    assert_eq!(sign1_verify(&[0xD3], "00").unwrap_err(), "cose: missing tag 18");
    assert_eq!(sign1_verify(&[0xD2], "00").unwrap_err(), "cose: truncated");
    assert_eq!(sign1_verify(&[0xD2, 0x83], "00").unwrap_err(), "cose: expected array(4)");
}

#[test]
fn cbor_writers_exact_bytes() {
    let mut out = Vec::new();
    resid::cose::cb_text(&mut out, "abc");
    resid::cose::cb_nint(&mut out, -8);
    resid::cose::cb_nint(&mut out, 24);
    resid::cose::cb_bytes(&mut out, &[9u8; 30]);
    let mut want = vec![0x63, b'a', b'b', b'c', 0x27, 0x19, 0x00, 0x18, 0x59, 0x00, 30];
    want.extend_from_slice(&[9u8; 30]);
    assert_eq!(out, want);
    let mut pos = 0usize;
    assert_eq!(resid::cose::cb_read_text(&out, &mut pos), Some("abc"));
    assert_eq!(pos, 4);
    assert_eq!(resid::cose::protected_header("k"), vec![0xA2, 0x01, 0x27, 0x04, 0x61, b'k']);
}

#[test]
fn encrypt0_open_errors() {
    let key = "00".repeat(32);
    assert_eq!(encrypt0_open(&[], &key).unwrap_err(), "cose: empty");
    assert_eq!(encrypt0_open(&[0xD0, 0x83, 0x40, 0xA0], &key).unwrap_err(), "cose: expected unprotected map(1)");
    let blob = encrypt0_seal(b"m", &key, "kid").unwrap();
    assert_eq!(encrypt0_open(&blob, "0").unwrap_err(), "cose: bad key hex");
    assert_eq!(encrypt0_open(&blob, "0000").unwrap_err(), "cose: key must be 32 bytes");
}

// ── archive ──

#[test]
fn hex_roundtrip_and_errors() {
    assert_eq!(hex_encode(&[0xab, 0x01, 0xff]), "ab01ff");
    assert_eq!(decode_hex("ab01FF").unwrap(), vec![0xab, 0x01, 0xff]);
    assert_eq!(decode_hex("abc").unwrap_err(), "odd-length hex string");
    assert!(decode_hex("zz").is_err());
}

#[test]
fn archive_write_then_list() {
    let files = vec![
        (b"src/main.resid".to_vec(), b"fn main() {}".to_vec()),
        (b"resid.toml".to_vec(), b"[package]".to_vec()),
    ];
    let bytes = archive_bytes(&files).unwrap();
    assert_eq!(&bytes[..9], b"RESIDPKG1");
    assert_eq!(&bytes[9..13], &[2, 0, 0, 0]);
    let listed = list_files(&bytes).unwrap();
    assert_eq!(listed.len(), 2);
    assert_eq!(listed[0].0, "src/main.resid");
    assert_eq!(listed[0].1, b"fn main() {}".to_vec());
    assert_eq!(listed[1].0, "resid.toml");
    assert!(matches!(archive_bytes(&[]), Err(PackError::Empty)));
    assert!(list_files(b"RESIDPKG1").is_err());
    assert_eq!(list_files(&bytes[..bytes.len() - 1]).unwrap_err(), "truncated archive (content)");
}

#[test]
fn archive_signature_roundtrip() {
    let (sec, public) = keygen().unwrap();
    assert_eq!(sec.len(), 64);
    assert_eq!(public.len(), 64);
    let hash = content_hash(b"archive bytes");
    let sig = sign_hash(&hash, &sec).unwrap();
    assert_eq!(sig.len(), 128);
    assert_eq!(verify_sig(&hash, &sig, &public), Ok(true));
    let other = content_hash(b"other bytes");
    assert_eq!(verify_sig(&other, &sig, &public), Ok(false));
    assert!(verify_sig(&hash, "00", &public).is_err());
    assert_eq!(
        hex_encode(&content_hash(b"abc")),
        "ba7816bf8f01cfea414140de5dae2223b00361a396177a9cb410ff61f20015ad"
    );
}

#[test]
fn full_verification_reads_writer_payload() {
    let (sec, public) = keygen().unwrap();
    let code = b"\x7fELF code".to_vec();
    let digest = resid::provenance::sha256_hex(&code);
    let mut payload = Vec::new();
    resid::cose::cb_map_header(&mut payload, 2);
    resid::cose::cb_text(&mut payload, "toolchain");
    resid::cose::cb_text(&mut payload, "resid 0.1");
    resid::cose::cb_text(&mut payload, "binary_sha256");
    resid::cose::cb_text(&mut payload, &digest);
    assert_eq!(payload[1 + 1 + 9 + 1 + 9 + 1 + 13], 0x79);
    let mut bin = code.clone();
    seal(&mut bin, &payload, &sec).unwrap();
    assert_eq!(verify_full(&bin, &public).unwrap(), (true, true));
    let mut other = b"\x7fELF tampered".to_vec();
    let tampered_len = other.len();
    other.extend_from_slice(&bin[code.len()..]);
    assert_eq!(code_region(&other).unwrap().len(), tampered_len);
    assert_eq!(verify_full(&other, &public).unwrap(), (true, false));
}

#[test]
fn list_files_error_messages() {
    let a: Vec<u8> = [b"RESIDPKG1".as_slice(), &[1, 0, 0, 0], &[1, 0], b"a", &[2, 0, 0, 0, 0, 0, 0, 0], b"hi"].concat();
    assert_eq!(list_files(&a).unwrap(), vec![("a".to_string(), b"hi".to_vec())]);
    assert_eq!(list_files(&a[..12]).unwrap_err(), "not a resid package archive");
    assert_eq!(list_files(&a[..a.len() - 1]).unwrap_err(), "truncated archive (content)");
    assert_eq!(list_files(&a[..13]).unwrap_err(), "truncated archive (path length)");
    assert_eq!(list_files(&a[..15]).unwrap_err(), "truncated archive (path)");
    assert_eq!(list_files(&a[..20]).unwrap_err(), "truncated archive (content length)");
    let huge: Vec<u8> = [b"RESIDPKG1".as_slice(), &[1, 0, 0, 0], &[0, 0], &[0xff; 8]].concat();
    assert_eq!(list_files(&huge).unwrap_err(), "truncated archive (content)");
}

#[test]
fn archive_sidecar_hash_check() {
    let a = b"archive bytes".to_vec();
    let hex = hex_encode(&content_hash(&a));
    assert!(resid::archive::archive_matches_sidecar(&a, &hex));
    assert!(resid::archive::archive_matches_sidecar(&a, &format!("  {hex}\n")));
    assert!(!resid::archive::archive_matches_sidecar(b"other bytes", &hex));
    assert!(!resid::archive::archive_matches_sidecar(&a, &hex[..62]));
}

#[test]
fn lock_set_keeps_names_unique_and_sorted() {
    let mut lf = LockFile::default();
    for (n, v) in [("zeta", "1"), ("alpha", "2"), ("mid", "3"), ("alpha", "4")] {
        lf.set(LockEntry { name: n.into(), version: v.into(), sha256: "00".repeat(32) });
    }
    let names: Vec<&str> = lf.entries.iter().map(|e| e.name.as_str()).collect();
    assert_eq!(names, vec!["alpha", "mid", "zeta"]);
    assert_eq!(lf.get("alpha").unwrap().version, "4");
}

#[test]
fn hex_stops_at_first_bad_pair_before_wide_chars() {
    assert_eq!(decode_hex("zzaéb").unwrap_err(), "bad hex: invalid digit found in string");
    assert_eq!(decode_hex("+a0b").unwrap(), vec![0x0a, 0x0b]);
}

#[test]
fn cbor_text_reads_back_after_prefix() {
    let mut out = vec![0x01, 0x02, 0x03];
    let long = "x".repeat(300);
    resid::cose::cb_text(&mut out, &long);
    out.extend_from_slice(&[0xFF, 0xFE]);
    let mut pos = 3usize;
    assert_eq!(resid::cose::cb_read_text(&out, &mut pos), Some(long.as_str()));
    assert_eq!(pos, 3 + 3 + 300);
}

#[test]
fn sign1_extract_ignores_what_follows_payload() {
    let mut c = vec![0xD2, 0x84];
    resid::cose::cb_bytes(&mut c, &[0xA1, 0x01, 0x27]);
    c.push(0xA0);
    resid::cose::cb_bytes(&mut c, b"payload");
    c.extend_from_slice(&[0x00, 0x99, 0x42]);
    assert_eq!(sign1_extract(&c), Some(b"payload".to_vec()));
    assert_eq!(sign1_extract(&[0xD2, 0x83, 0x40]), None);
    assert_eq!(sign1_extract(&[0xD2]), None);
}
