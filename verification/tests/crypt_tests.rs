use dfm::crypt::{
    decrypt_bytes, encrypt_bytes_with_costs, DecryptError, KdfCosts, CHUNK_SIZE, HEADER_LEN,
    MAX_CHUNK_SIZE, MAX_KDF_M_COST_KIB, MAX_KDF_T_COST, MIN_CHUNK_SIZE, TAG_LEN,
};
use dfm::error::DfmError;
use dfm::paths::{dir_rel_is_safe, enclosing_dirs};

/// Containers for tests are sealed with the light costs, so that the key
/// derivation stays quick.
fn encrypt_bytes(
    password: &str,
    content: &[u8],
    file_mode: u32,
    inner_name: &str,
    dirs: &[(String, u32)],
) -> Result<Vec<u8>, DfmError> {
    encrypt_bytes_with_costs(password, content, file_mode, inner_name, dirs, KdfCosts::light())
}

#[test]
fn encrypt_decrypt_roundtrip() {
    let password = "correct horse battery staple";
    let content = b"the quick brown fox jumps over the lazy dog".to_vec();
    let dirs = vec![("private".to_string(), 0o700), ("private/sub".to_string(), 0o710)];

    let blob = encrypt_bytes(password, &content, 0o600, "private/sub/f.conf", &dirs).unwrap();

    let dec = match decrypt_bytes(&blob, password) {
        Ok(d) => d,
        Err(e) => panic!("decrypt failed: {:?}", e),
    };
    assert_eq!(dec.content, content);
    assert_eq!(dec.file_mode, 0o600);
    assert_eq!(dec.inner_name, "private/sub/f.conf");
    assert_eq!(dec.dirs.len(), 2);
    assert_eq!(dec.dirs[0], ("private".to_string(), 0o700));
    assert_eq!(dec.dirs[1], ("private/sub".to_string(), 0o710));
}

#[test]
fn wrong_password_fails() {
    let blob = encrypt_bytes("one", b"data", 0o644, "a", &[]).unwrap();
    assert!(matches!(
        decrypt_bytes(&blob, "two"),
        Err(DecryptError::WrongPassword)
    ));
}

#[test]
fn tampered_header_fails() {
    let blob = encrypt_bytes("pw", b"data", 0o644, "a", &[]).unwrap();
    let mut tampered = blob.clone();
    tampered[9] ^= 0x01;
    assert!(matches!(
        decrypt_bytes(&tampered, "pw"),
        Err(DecryptError::Invalid(_))
    ));
}

#[test]
fn absurd_kdf_params_rejected() {
    let blob = encrypt_bytes("pw", b"data", 0o644, "a", &[]).unwrap();
    let mut tampered = blob.clone();
    tampered[12..16].copy_from_slice(&(MAX_KDF_M_COST_KIB + 1).to_le_bytes());
    assert!(matches!(
        decrypt_bytes(&tampered, "pw"),
        Err(DecryptError::Invalid(_))
    ));

    let mut tampered = blob.clone();
    tampered[16..20].copy_from_slice(&(MAX_KDF_T_COST + 1).to_le_bytes());
    assert!(matches!(
        decrypt_bytes(&tampered, "pw"),
        Err(DecryptError::Invalid(_))
    ));
}

#[test]
fn tampered_ciphertext_fails() {
    let blob = encrypt_bytes("pw", b"data", 0o644, "a", &[]).unwrap();
    let mut tampered = blob.clone();
    let last = tampered.len() - 1;
    tampered[last] ^= 0x01;
    assert!(matches!(
        decrypt_bytes(&tampered, "pw"),
        Err(DecryptError::WrongPassword)
    ));
}

#[test]
fn metadata_not_visible_in_blob() {
    let content = b"super-secret-content".to_vec();
    let dirs = vec![("private".to_string(), 0o700)];
    let blob = encrypt_bytes("pw", &content, 0o600, "private/secret.txt", &dirs).unwrap();

    for needle in ["private", "secret.txt", "super-secret-content"] {
        let found = blob.windows(needle.len()).any(|w| w == needle.as_bytes());
        assert!(
            !found,
            "metadata/content leaked: {:?} found in blob",
            needle
        );
    }

    let dec = decrypt_bytes(&blob, "pw").unwrap();
    assert_eq!(dec.inner_name, "private/secret.txt");
    assert_eq!(dec.dirs, dirs);
    assert_eq!(dec.content, content);
}

#[test]
fn rejects_old_version() {
    let blob = encrypt_bytes("pw", b"data", 0o644, "a", &[]).unwrap();
    let mut v1 = blob.clone();
    v1[7] = 1;
    assert!(matches!(
        decrypt_bytes(&v1, "pw"),
        Err(DecryptError::Invalid(_))
    ));
}

/// Deterministic pseudo-random content of `len` bytes.
fn pattern(len: usize) -> Vec<u8> {
    (0..len).map(|i| (i % 251) as u8).collect()
}

#[test]
fn multi_chunk_roundtrip() {
    let content = pattern(3 * CHUNK_SIZE as usize + 12345);
    let blob = encrypt_bytes("pw", &content, 0o600, "big/file.bin", &[]).unwrap();
    let dec = decrypt_bytes(&blob, "pw").unwrap();
    assert_eq!(dec.content, content);
}

#[test]
fn exact_chunk_multiple_roundtrip() {
    for len in [
        1,
        CHUNK_SIZE as usize - 1,
        CHUNK_SIZE as usize,
        CHUNK_SIZE as usize + 1,
        2 * CHUNK_SIZE as usize,
    ] {
        let content = pattern(len);
        let blob = encrypt_bytes("pw", &content, 0o644, "f", &[]).unwrap();
        assert_eq!(decrypt_bytes(&blob, "pw").unwrap().content, content);
    }
}

#[test]
fn truncated_stream_rejected() {
    let content = pattern(2 * CHUNK_SIZE as usize + 100);
    let mut blob = encrypt_bytes("pw", &content, 0o644, "f", &[]).unwrap();
    blob.truncate(blob.len() - 10);
    assert!(matches!(
        decrypt_bytes(&blob, "pw"),
        Err(DecryptError::Invalid(_))
    ));
}

#[test]
fn trailing_junk_rejected() {
    let mut blob = encrypt_bytes("pw", b"data", 0o644, "f", &[]).unwrap();
    blob.extend_from_slice(b"xyz");
    assert!(matches!(
        decrypt_bytes(&blob, "pw"),
        Err(DecryptError::Invalid(_))
    ));
}

#[test]
fn swapped_chunks_rejected() {
    let content = pattern(3 * CHUNK_SIZE as usize + 100);
    let mut blob = encrypt_bytes("pw", &content, 0o644, "f", &[]).unwrap();

    let body = 12 + HEADER_LEN;
    let rec = CHUNK_SIZE as usize + TAG_LEN;
    let (a, b) = blob.split_at_mut(body + 2 * rec);
    a[body + rec..body + 2 * rec].swap_with_slice(&mut b[..rec]);

    assert!(matches!(
        decrypt_bytes(&blob, "pw"),
        Err(DecryptError::Invalid(_))
    ));
}

#[test]
fn absurd_chunk_size_rejected() {
    let blob = encrypt_bytes("pw", b"data", 0o644, "a", &[]).unwrap();
    let mut tampered = blob.clone();
    tampered[64..68].copy_from_slice(&(MAX_CHUNK_SIZE + 1).to_le_bytes());
    assert!(matches!(
        decrypt_bytes(&tampered, "pw"),
        Err(DecryptError::Invalid(_))
    ));

    let mut tiny = blob.clone();
    tiny[64..68].copy_from_slice(&(MIN_CHUNK_SIZE - 1).to_le_bytes());
    assert!(matches!(
        decrypt_bytes(&tiny, "pw"),
        Err(DecryptError::Invalid(_))
    ));
}

#[test]
fn dir_rel_is_safe_rejects_escaping_paths() {
    assert!(dir_rel_is_safe("private"));
    assert!(dir_rel_is_safe("private/sub dir/deep"));

    for escaping in ["..", "../evil", "a/../../evil", "/abs/evil", "a//../b"] {
        assert!(
            !dir_rel_is_safe(escaping),
            "{:?} must be rejected",
            escaping
        );
    }
    assert!(!dir_rel_is_safe("."));
    assert!(!dir_rel_is_safe(""));
}

#[test]
fn empty_content_roundtrip() {
    let blob = encrypt_bytes("pw", b"", 0o600, "empty", &[]).unwrap();
    let dec = decrypt_bytes(&blob, "pw").unwrap();
    assert!(dec.content.is_empty());
    assert_eq!(dec.inner_name, "empty");
}

#[test]
fn header_records_the_costs_used() {
    let blob = encrypt_bytes("pw", b"data", 0o644, "a", &[]).unwrap();
    assert_eq!(&blob[..7], b"DFMENC\0");
    assert_eq!(blob[7], 3);
    assert_eq!(u32::from_le_bytes([blob[8], blob[9], blob[10], blob[11]]), 64);
    assert_eq!(u32::from_le_bytes([blob[12], blob[13], blob[14], blob[15]]), 8192);
    assert_eq!(u32::from_le_bytes([blob[16], blob[17], blob[18], blob[19]]), 1);
    assert_eq!(u32::from_le_bytes([blob[20], blob[21], blob[22], blob[23]]), 1);
    assert_eq!(u32::from_le_bytes([blob[64], blob[65], blob[66], blob[67]]), CHUNK_SIZE);
    // A single record of the metadata prefix plus content, and its tag.
    let plaintext_len = u64::from_le_bytes(blob[68..76].try_into().unwrap());
    assert_eq!(blob.len() as u64, 76 + plaintext_len + TAG_LEN as u64);
}

#[test]
fn truncated_preamble_is_invalid() {
    assert!(matches!(decrypt_bytes(b"DFMENC", "pw"), Err(DecryptError::Invalid(_))));
    assert!(matches!(decrypt_bytes(b"NOTDFM\0\x03\x40\0\0\0", "pw"), Err(DecryptError::Invalid(_))));
}

#[test]
fn metadata_too_large_for_one_chunk_is_refused() {
    let dirs: Vec<(String, u32)> = (0..3000).map(|i| (format!("directory-number-{i:05}"), 0o700)).collect();
    let r = encrypt_bytes("pw", b"x", 0o600, "f", &dirs);
    assert!(matches!(r, Err(DfmError::InvalidData(_))));
}

#[test]
fn enclosing_dirs_lists_ancestors_shallowest_first() {
    assert_eq!(enclosing_dirs("a/b/c"), vec!["a".to_string(), "a/b".to_string()]);
    assert!(enclosing_dirs("file").is_empty());
    assert_eq!(enclosing_dirs(".ssh/config"), vec![".ssh".to_string()]);
}

#[test]
fn truncation_errors_name_what_ended_early() {
    assert_eq!(dfm::crypt::truncated_header().message(), "Invalid data: encrypted header is truncated");
    assert_eq!(dfm::crypt::truncated().message(), "Invalid data: encrypted file is truncated");
}

/// Seal through a session, handing the content over in the pieces it asks for.
fn seal_streamed(password: &str, content: &[u8], inner_name: &str) -> Vec<u8> {
    let (mut session, head) =
        dfm::crypt::EncryptSession::begin(password, KdfCosts::light(), inner_name, 0o640, &[], content.len() as u64).unwrap();
    let mut blob = head;
    let mut pos = 0;
    while !session.is_done() {
        let n = session.next_content_len();
        blob.extend_from_slice(&session.seal_next(&content[pos..pos + n]).unwrap());
        pos += n;
    }
    assert_eq!(pos, content.len());
    blob
}

/// Open through a session, reading the records one at a time.
fn open_streamed(blob: &[u8], password: &str) -> Result<(String, Vec<u8>), DfmError> {
    let head_len = blob.len().min(76);
    let mut session = match dfm::crypt::DecryptSession::start(&blob[..head_len], password) {
        Ok(s) => s,
        Err(DecryptError::Invalid(e)) => return Err(e),
        Err(DecryptError::WrongPassword) => return Err(DfmError::Other("wrong password".to_string())),
    };
    let mut pos = head_len;
    let n0 = session.next_record_len();
    let end = blob.len().min(pos + n0);
    let (meta, mut content) = match session.open_first(&blob[pos..end]) {
        Ok(x) => x,
        Err(DecryptError::Invalid(e)) => return Err(e),
        Err(DecryptError::WrongPassword) => return Err(DfmError::Other("wrong password".to_string())),
    };
    pos = end;
    while session.next_record_len() > 0 {
        let end = blob.len().min(pos + session.next_record_len());
        content.extend_from_slice(&session.open_next(&blob[pos..end])?);
        pos = end;
    }
    session.finish(pos < blob.len())?;
    Ok((meta.inner_name, content))
}

#[test]
fn streamed_sealing_opens_in_one_piece_and_back() {
    let password = "correct horse battery staple";
    for len in [0usize, 1, 65535, 65536, 65537, 3 * 65536 + 12345] {
        let content = pattern(len);
        let blob = seal_streamed(password, &content, "s/f");
        let whole = decrypt_bytes(&blob, password).unwrap();
        assert_eq!(whole.content, content);
        assert_eq!(whole.inner_name, "s/f");
        assert_eq!(whole.file_mode, 0o640);
        let (name, streamed) = open_streamed(&blob, password).unwrap();
        assert_eq!(name, "s/f");
        assert_eq!(streamed, content);
        let sealed_whole = encrypt_bytes(password, &content, 0o640, "s/f", &[]).unwrap();
        assert_eq!(open_streamed(&sealed_whole, password).unwrap().1, content);
    }
}

#[test]
fn streamed_opening_refuses_what_whole_opening_refuses() {
    let password = "pw";
    let blob = seal_streamed(password, &pattern(2 * 65536 + 7), "f");
    match open_streamed(&blob[..blob.len() - 1], password) {
        Err(DfmError::InvalidData(m)) => assert_eq!(m, "encrypted file is truncated"),
        other => panic!("unexpected: {:?}", other.map(|x| x.0)),
    }
    let mut longer = blob.clone();
    longer.push(0);
    match open_streamed(&longer, password) {
        Err(DfmError::InvalidData(m)) => assert_eq!(m, "trailing bytes after the final encrypted chunk"),
        other => panic!("unexpected: {:?}", other.map(|x| x.0)),
    }
    let mut flipped = blob.clone();
    let at = blob.len() - 10;
    flipped[at] ^= 1;
    match open_streamed(&flipped, password) {
        Err(DfmError::InvalidData(m)) => assert_eq!(m, "encrypted file is corrupted (authentication failed)"),
        other => panic!("unexpected: {:?}", other.map(|x| x.0)),
    }
    assert!(open_streamed(&blob, "wrong").is_err());
}

#[test]
fn streamed_sealing_refuses_short_input() {
    let (mut session, _) = dfm::crypt::EncryptSession::begin("pw", KdfCosts::light(), "f", 0o600, &[], 10).unwrap();
    let n = session.next_content_len();
    assert_eq!(n, 10);
    match session.seal_next(&[1, 2, 3]) {
        Err(DfmError::InvalidData(m)) => assert_eq!(m, "input ended before its declared length"),
        other => panic!("unexpected: {:?}", other.is_ok()),
    }
}
