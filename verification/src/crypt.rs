//! The encrypted container format (version 3, chunked).
//!
//! Layout (all integers little-endian):
//!
//! ```text
//! magic "DFMENC\0" (7) | version (1) | header_len u32 (4) | header (64) | records
//! header: m_cost u32 | t_cost u32 | p_cost u32 | salt (16) | base_nonce (24)
//!         | chunk_size u32 | plaintext_len u64
//! record i: ciphertext of plaintext chunk i | 16-byte tag
//! ```
//!
//! The plaintext is `u32 metadata_len | metadata | content`; the metadata holds
//! the inner name, the file mode and the enclosing directories with their
//! modes. Every chunk is sealed with XChaCha20-Poly1305 under a key stretched
//! from the password with Argon2id; its nonce and associated data bind it to
//! its position and to whether it is the final chunk.

use vstd::prelude::*;
use crate::bytes::{le_bytes, le_value, put_le, put_u16, put_u32, put_u64, read_le, lemma_le_bytes_len};
use crate::error::DfmError;
use crate::text::{string_of, utf8_decode};
use vstd::utf8::{encode_utf8, decode_utf8, valid_utf8, encode_utf8_valid_utf8, encode_utf8_decode_utf8};
use argon2::{Algorithm, Argon2, Params, Version};
use chacha20poly1305::aead::{Aead, KeyInit, Payload};
use chacha20poly1305::{XChaCha20Poly1305, XNonce};
use rand::RngCore;

verus! {

// Format constants

pub const FORMAT_VERSION: u8 = 3;
pub const SALT_LEN: usize = 16;
pub const NONCE_LEN: usize = 24;
pub const KEY_LEN: usize = 32;
pub const TAG_LEN: usize = 16;
pub const HEADER_LEN: usize = 64;
pub const PREAMBLE_LEN: usize = 12;
pub const CHUNK_SIZE: u32 = 65536;
pub const MIN_CHUNK_SIZE: u32 = 256;
pub const MAX_CHUNK_SIZE: u32 = 8388608;
pub const MAX_STREAM_CHUNKS: u64 = 0x0100_0000_0000_0000;
pub const KDF_M_COST_KIB: u32 = 65536;
pub const KDF_T_COST: u32 = 3;
pub const KDF_P_COST: u32 = 4;
pub const MAX_KDF_M_COST_KIB: u32 = 16777216;
pub const MAX_KDF_T_COST: u32 = 10;
pub const MAX_KDF_P_COST: u32 = 1024;

/// Argon2id costs: memory in KiB, passes, lanes. Every container records
/// the costs it was sealed with, so a container opens whatever costs the
/// reader would choose.
#[derive(Clone, Copy, Debug)]
pub struct KdfCosts {
    pub m_cost: u32,
    pub t_cost: u32,
    pub p_cost: u32,
}

impl KdfCosts {
    /// The costs new containers are sealed with: 64 MiB, 3 passes, 4 lanes,
    /// so that each password guess costs 64 MiB of memory.
    pub fn standard() -> (c: KdfCosts)
        ensures
            c.m_cost == KDF_M_COST_KIB,
            c.t_cost == KDF_T_COST,
            c.p_cost == KDF_P_COST,
    {
        KdfCosts { m_cost: KDF_M_COST_KIB, t_cost: KDF_T_COST, p_cost: KDF_P_COST }
    }

    /// Light costs for quick runs (8 MiB, 1 pass, 1 lane), such as tests.
    pub fn light() -> (c: KdfCosts)
        ensures
            c.m_cost == 8192,
            c.t_cost == 1,
            c.p_cost == 1,
    {
        KdfCosts { m_cost: 8192, t_cost: 1, p_cost: 1 }
    }
}

/// Costs a reader accepts: within the caps on each.
pub open spec fn costs_in_bounds(c: KdfCosts) -> bool {
    c.m_cost <= MAX_KDF_M_COST_KIB && c.t_cost <= MAX_KDF_T_COST && c.p_cost <= MAX_KDF_P_COST
}

/// The magic bytes `DFMENC\0` that open every container.
pub open spec fn magic() -> Seq<u8> {
    seq![0x44u8, 0x46u8, 0x4du8, 0x45u8, 0x4eu8, 0x43u8, 0x00u8]
}

// Outside cryptography

/// The key that Argon2id (version 0x13, 32-byte output) derives from a
/// password and a salt under the given costs; `None` when the costs or the
/// salt are rejected.
pub uninterp spec fn argon2id_key(password: Seq<u8>, salt: Seq<u8>, m_cost: u32, t_cost: u32, p_cost: u32) -> Option<Seq<u8>>;

/// The output of XChaCha20-Poly1305 sealing `plaintext`: the ciphertext
/// followed by the 16-byte tag.
pub uninterp spec fn xchacha_seal(key: Seq<u8>, nonce: Seq<u8>, aad: Seq<u8>, plaintext: Seq<u8>) -> Seq<u8>;

/// The result of XChaCha20-Poly1305 opening `sealed` (ciphertext followed by
/// tag): the plaintext, or `None` when authentication fails.
pub uninterp spec fn xchacha_open(key: Seq<u8>, nonce: Seq<u8>, aad: Seq<u8>, sealed: Seq<u8>) -> Option<Seq<u8>>;

/// Calls `argon2::Params::new` and `Argon2::hash_password_into` (Argon2id,
/// version 0x13, 32-byte output). The contract claims the outcome is the named
/// function of the arguments and that a derived key has 32 bytes; an error
/// carries the crate's message, of which nothing is claimed. The cost bounds
/// in `requires` keep the memory the call allocates bounded. The crate's
/// `Params::new` and `verify_inputs` accept exactly the costs, password and
/// salt lengths of the success clause.
#[verifier::external_body]
fn argon2id_derive(password: &[u8], salt: &[u8], m_cost: u32, t_cost: u32, p_cost: u32) -> (r: Result<Vec<u8>, String>)
    requires
        m_cost <= MAX_KDF_M_COST_KIB,
        t_cost <= MAX_KDF_T_COST,
        p_cost <= MAX_KDF_P_COST,
    ensures
        r is Ok == argon2id_key(password@, salt@, m_cost, t_cost, p_cost) is Some,
        8 <= salt@.len() <= 0xFFFF_FFFF && password@.len() <= 0xFFFF_FFFF && 8 <= m_cost
            && 8 * p_cost <= m_cost && 1 <= t_cost && 1 <= p_cost <= 0xFF_FFFF ==> r is Ok,
        r matches Ok(k) ==> k@ == argon2id_key(password@, salt@, m_cost, t_cost, p_cost)->0
            && k@.len() == KEY_LEN,
{
    let params = Params::new(m_cost, t_cost, p_cost, Some(KEY_LEN)).map_err(|e| e.to_string())?;
    let mut key = vec![0u8; KEY_LEN];
    Argon2::new(Algorithm::Argon2id, Version::V0x13, params)
        .hash_password_into(password, salt, &mut key)
        .map_err(|e| e.to_string())?;
    Ok(key)
}

/// Calls `XChaCha20Poly1305::encrypt` (the `Aead` trait) with the plaintext
/// and associated data, which gives the ciphertext followed by the 16-byte
/// tag. The contract claims the result is the named sealing of the
/// arguments, that it is the plaintext's length plus the tag (the cipher is
/// a keystream, so the ciphertext keeps the plaintext's length), and that
/// opening it under the same key, nonce and associated data gives the
/// plaintext back (the AEAD's defining property). The crate fails only on
/// buffers of 2^38 bytes and more, far beyond the bound in `requires`.
#[verifier::external_body]
fn aead_seal(key: &[u8], nonce: &[u8], aad: &[u8], plaintext: &[u8]) -> (out: Vec<u8>)
    requires
        key@.len() == KEY_LEN,
        nonce@.len() == NONCE_LEN,
        plaintext@.len() <= MAX_CHUNK_SIZE,
    ensures
        out@ == xchacha_seal(key@, nonce@, aad@, plaintext@),
        out@.len() == plaintext@.len() + TAG_LEN,
        xchacha_open(key@, nonce@, aad@, out@) == Some(plaintext@),
{
    let cipher = XChaCha20Poly1305::new_from_slice(key).unwrap();
    cipher.encrypt(XNonce::from_slice(nonce), Payload { msg: plaintext, aad }).unwrap()
}

/// Calls `XChaCha20Poly1305::decrypt` (the `Aead` trait) on `sealed`
/// (ciphertext followed by the 16-byte tag) with the associated data. The
/// contract claims the outcome is the named opening of the arguments, and
/// that an opened plaintext is as long as the ciphertext (the crate decrypts
/// in place after taking the tag off the end).
#[verifier::external_body]
fn aead_open(key: &[u8], nonce: &[u8], aad: &[u8], sealed: &[u8]) -> (r: Option<Vec<u8>>)
    requires
        key@.len() == KEY_LEN,
        nonce@.len() == NONCE_LEN,
        TAG_LEN <= sealed@.len() <= MAX_CHUNK_SIZE + TAG_LEN,
    ensures
        r is Some == xchacha_open(key@, nonce@, aad@, sealed@) is Some,
        r matches Some(p) ==> p@ == xchacha_open(key@, nonce@, aad@, sealed@)->0
            && p@.len() == sealed@.len() - TAG_LEN,
{
    let cipher = XChaCha20Poly1305::new_from_slice(key).unwrap();
    cipher.decrypt(XNonce::from_slice(nonce), Payload { msg: sealed, aad }).ok()
}

/// Calls `rand::rng().fill_bytes` on a fresh buffer of `n` bytes. Only the
/// length of the result is claimed: its content is random.
#[verifier::external_body]
fn random_bytes(n: usize) -> (v: Vec<u8>)
    ensures
        v@.len() == n,
{
    let mut v = vec![0u8; n];
    rand::rng().fill_bytes(&mut v);
    v
}

// Header, nonces and associated data

/// The 64-byte container header.
pub open spec fn header_spec(m: u32, t: u32, p: u32, salt: Seq<u8>, base_nonce: Seq<u8>, chunk_size: u32, plaintext_len: u64) -> Seq<u8> {
    le_bytes(m as nat, 4) + le_bytes(t as nat, 4) + le_bytes(p as nat, 4) + salt + base_nonce
        + le_bytes(chunk_size as nat, 4) + le_bytes(plaintext_len as nat, 8)
}

/// The flag byte that marks the final chunk.
pub open spec fn flag_byte(last: bool) -> u8 {
    if last { 1 } else { 0 }
}

/// Per-chunk nonce: the first 16 bytes of the base nonce, the chunk index as a
/// 7-byte big-endian counter, and the final-chunk flag.
pub open spec fn stream_nonce_spec(base_nonce: Seq<u8>, index: nat, last: bool) -> Seq<u8> {
    base_nonce.subrange(0, 16) + le_bytes(index, 7).reverse() + seq![flag_byte(last)]
}

/// Per-chunk associated data: the header, the chunk index (8 bytes) and the
/// final-chunk flag.
pub open spec fn chunk_aad_spec(header: Seq<u8>, index: nat, last: bool) -> Seq<u8> {
    header + le_bytes(index, 8) + seq![flag_byte(last)]
}

/// Per-chunk nonce, see `stream_nonce_spec`.
pub fn stream_nonce(base_nonce: &[u8], index: u64, last: bool) -> (n: Vec<u8>)
    requires
        base_nonce@.len() == NONCE_LEN,
    ensures
        n@ == stream_nonce_spec(base_nonce@, index as nat, last),
        n@.len() == NONCE_LEN,
{
    let mut n: Vec<u8> = Vec::new();
    let mut i: usize = 0;
    while i < 16
        invariant
            i <= 16,
            base_nonce@.len() == NONCE_LEN,
            n@ == base_nonce@.subrange(0, i as int),
        decreases 16 - i,
    {
        n.push(base_nonce[i]);
        i = i + 1;
        assert(n@ =~= base_nonce@.subrange(0, i as int));
    }
    let mut ctr: Vec<u8> = Vec::new();
    put_le(&mut ctr, index, 7);
    proof {
        lemma_le_bytes_len(index as nat, 7);
    }
    let ghost before = n@;
    let mut k: usize = 7;
    while k > 0
        invariant
            k <= 7,
            ctr@ == le_bytes(index as nat, 7),
            ctr@.len() == 7,
            n@ == before + ctr@.subrange(k as int, 7).reverse(),
        decreases k,
    {
        n.push(ctr[k - 1]);
        proof {
            assert(ctr@.subrange(k - 1, 7).reverse() =~= ctr@.subrange(k as int, 7).reverse()
                + seq![ctr@[k - 1]]);
        }
        k = k - 1;
    }
    assert(ctr@.subrange(0, 7) =~= ctr@);
    n.push(if last { 1u8 } else { 0u8 });
    n
}

/// Per-chunk associated data, see `chunk_aad_spec`.
pub fn chunk_aad(header: &[u8], index: u64, last: bool) -> (a: Vec<u8>)
    ensures
        a@ == chunk_aad_spec(header@, index as nat, last),
{
    let mut a: Vec<u8> = Vec::new();
    a.extend_from_slice(header);
    put_u64(&mut a, index);
    a.push(if last { 1u8 } else { 0u8 });
    a
}


// Integer and string fields

/// The error reported when a field runs past the end of its buffer.
pub fn truncated_header() -> (e: DfmError)
    ensures
        e matches DfmError::InvalidData(m) && m@ == "encrypted header is truncated"@,
{
    DfmError::InvalidData("encrypted header is truncated".to_owned())
}

/// The error reported when a container ends early.
pub fn truncated() -> (e: DfmError)
    ensures
        e matches DfmError::InvalidData(m) && m@ == "encrypted file is truncated"@,
{
    DfmError::InvalidData("encrypted file is truncated".to_owned())
}

/// Read a little-endian `u16` at `pos`.
pub fn read_u16_le(data: &[u8], pos: usize) -> (r: Result<u16, DfmError>)
    ensures
        r is Ok <==> pos + 2 <= data@.len(),
        r matches Ok(v) ==> v as nat == le_value(data@.subrange(pos as int, pos + 2)),
        r matches Err(e) ==> e is InvalidData,
{
    if pos > data.len() || data.len() - pos < 2 {
        return Err(truncated_header());
    }
    let v = read_le(data, pos, 2);
    proof {
        crate::bytes::lemma_le_value_bound(data@.subrange(pos as int, pos + 2));
        reveal_with_fuel(crate::bytes::pow256, 3);
    }
    Ok(v as u16)
}

/// Read a little-endian `u32` at `at`.
pub fn read_u32_le(data: &[u8], at: usize) -> (r: Result<u32, DfmError>)
    ensures
        r is Ok <==> at + 4 <= data@.len(),
        r matches Ok(v) ==> v as nat == le_value(data@.subrange(at as int, at + 4)),
        r matches Err(e) ==> e is InvalidData,
{
    if at > data.len() || data.len() - at < 4 {
        return Err(truncated_header());
    }
    let v = read_le(data, at, 4);
    proof {
        crate::bytes::lemma_le_value_bound(data@.subrange(at as int, at + 4));
        reveal_with_fuel(crate::bytes::pow256, 5);
    }
    Ok(v as u32)
}

/// Read a little-endian `u64` at `at`.
pub fn read_u64_le(data: &[u8], at: usize) -> (r: Result<u64, DfmError>)
    ensures
        r is Ok <==> at + 8 <= data@.len(),
        r matches Ok(v) ==> v as nat == le_value(data@.subrange(at as int, at + 8)),
        r matches Err(e) ==> e is InvalidData,
{
    if at > data.len() || data.len() - at < 8 {
        return Err(truncated_header());
    }
    Ok(read_le(data, at, 8))
}

/// A length-prefixed string: a `u16` byte count and the UTF-8 bytes. A count
/// that does not fit into 16 bits keeps its low 16 bits.
pub open spec fn enc_string(s: Seq<char>) -> Seq<u8> {
    le_bytes(encode_utf8(s).len(), 2) + encode_utf8(s)
}

/// Append a length-prefixed string, see `enc_string`.
pub fn push_string(buf: &mut Vec<u8>, s: &str)
    ensures
        final(buf)@ == old(buf)@ + enc_string(s@),
{
    let bytes = s.as_bytes();
    put_le(buf, bytes.len() as u64, 2);
    buf.extend_from_slice(bytes);
}

/// The string read at `pos`, with the position after it; `None` when the
/// buffer ends early or the bytes are not UTF-8.
pub open spec fn take_string_spec(data: Seq<u8>, pos: nat) -> Option<(Seq<char>, nat)> {
    if pos + 2 > data.len() {
        None
    } else {
        let len = le_value(data.subrange(pos as int, pos + 2 as int));
        let start = pos + 2;
        if start + len > data.len() {
            None
        } else if valid_utf8(data.subrange(start as int, (start + len) as int)) {
            Some((decode_utf8(data.subrange(start as int, (start + len) as int)), (start + len) as nat))
        } else {
            None
        }
    }
}

/// Read a length-prefixed string at `*pos` and advance `*pos` past it.
pub fn take_string(data: &[u8], pos: &mut usize) -> (r: Result<String, DfmError>)
    ensures
        r is Ok <==> take_string_spec(data@, *old(pos) as nat) is Some,
        r matches Ok(s) ==> (s@, *final(pos) as nat) == take_string_spec(data@, *old(pos) as nat)->0,
        r matches Err(e) ==> e is InvalidData,
{
    let len = match read_u16_le(data, *pos) {
        Ok(v) => v,
        Err(e) => return Err(e),
    };
    assert(*pos + 2 <= data@.len());
    assert(data@.len() == data.len());
    let start: usize = *pos + 2;
    if len as usize > data.len() - start {
        return Err(truncated_header());
    }
    let end: usize = start + len as usize;
    let piece = crate::text::slice_bytes(data, start, end);
    match utf8_decode(piece.as_slice()) {
        Some(s) => {
            *pos = end;
            Ok(s)
        },
        None => Err(DfmError::InvalidData("non-UTF-8 string in encrypted header".to_owned())),
    }
}

/// The directory entries: each a string and a `u32` mode.
pub open spec fn enc_dirs(dirs: Seq<(Seq<char>, u32)>) -> Seq<u8>
    decreases dirs.len(),
{
    if dirs.len() == 0 {
        Seq::empty()
    } else {
        enc_string(dirs[0].0) + le_bytes(dirs[0].1 as nat, 4) + enc_dirs(dirs.drop_first())
    }
}

/// The metadata section: inner name, file mode, directory count and entries.
pub open spec fn metadata_spec(inner_name: Seq<char>, file_mode: u32, dirs: Seq<(Seq<char>, u32)>) -> Seq<u8> {
    enc_string(inner_name) + le_bytes(file_mode as nat, 4) + le_bytes(dirs.len(), 2) + enc_dirs(dirs)
}

/// The metadata section with its `u32` length prefix, as it opens the plaintext.
pub open spec fn metadata_prefix_spec(inner_name: Seq<char>, file_mode: u32, dirs: Seq<(Seq<char>, u32)>) -> Seq<u8> {
    le_bytes(metadata_spec(inner_name, file_mode, dirs).len(), 4) + metadata_spec(inner_name, file_mode, dirs)
}

/// The abstract value of a directory list.
pub open spec fn dirs_view(dirs: Seq<(String, u32)>) -> Seq<(Seq<char>, u32)> {
    dirs.map_values(|d: (String, u32)| (d.0@, d.1))
}

/// Serialize the metadata section, including its leading length prefix.
pub fn serialize_metadata(inner_name: &str, file_mode: u32, dirs: &[(String, u32)]) -> (out: Vec<u8>)
    ensures
        out@ == metadata_prefix_spec(inner_name@, file_mode, dirs_view(dirs@)),
{
    let mut metadata: Vec<u8> = Vec::new();
    push_string(&mut metadata, inner_name);
    put_u32(&mut metadata, file_mode);
    put_le(&mut metadata, dirs.len() as u64, 2);
    let ghost head = metadata@;
    let mut i: usize = 0;
    assert(dirs_view(dirs@).subrange(0, dirs@.len() as int) =~= dirs_view(dirs@));
    while i < dirs.len()
        invariant
            i <= dirs.len(),
            metadata@ + enc_dirs(dirs_view(dirs@).subrange(i as int, dirs@.len() as int))
                == head + enc_dirs(dirs_view(dirs@)),
        decreases dirs.len() - i,
    {
        let ghost rest = dirs_view(dirs@).subrange(i as int, dirs@.len() as int);
        let ghost m0 = metadata@;
        proof {
            assert(rest.drop_first() =~= dirs_view(dirs@).subrange(i + 1, dirs@.len() as int));
            assert(rest[0] == (dirs@[i as int].0@, dirs@[i as int].1));
        }
        push_string(&mut metadata, dirs[i].0.as_str());
        put_u32(&mut metadata, dirs[i].1);
        i = i + 1;
        proof {
            assert(enc_dirs(rest) == enc_string(rest[0].0) + le_bytes(rest[0].1 as nat, 4)
                + enc_dirs(rest.drop_first()));
            assert(metadata@ + enc_dirs(rest.drop_first()) =~= m0 + enc_dirs(rest));
        }
    }
    proof {
        assert(dirs_view(dirs@).subrange(dirs@.len() as int, dirs@.len() as int) =~= Seq::<(Seq<char>, u32)>::empty());
        assert(metadata@ =~= head + enc_dirs(dirs_view(dirs@)));
    }
    let mut prefix: Vec<u8> = Vec::new();
    put_le(&mut prefix, metadata.len() as u64, 4);
    prefix.extend_from_slice(metadata.as_slice());
    prefix
}


/// The directory entries read at `pos`, `count` of them, with the position
/// after them.
pub open spec fn take_dirs_spec(data: Seq<u8>, pos: nat, count: nat) -> Option<(Seq<(Seq<char>, u32)>, nat)>
    decreases count,
{
    if count == 0 {
        Some((Seq::empty(), pos))
    } else {
        match take_string_spec(data, pos) {
            None => None,
            Some((name, p1)) => if p1 + 4 > data.len() {
                None
            } else {
                let mode = le_value(data.subrange(p1 as int, p1 + 4 as int)) as u32;
                match take_dirs_spec(data, p1 + 4, (count - 1) as nat) {
                    None => None,
                    Some((rest, p2)) => Some((seq![(name, mode)] + rest, p2)),
                }
            },
        }
    }
}

/// The metadata recovered from the first plaintext chunk: inner name, file
/// mode, directory entries, and where the file content starts.
pub open spec fn parse_metadata_spec(chunk: Seq<u8>) -> Option<(Seq<char>, u32, Seq<(Seq<char>, u32)>, nat)> {
    if chunk.len() < 4 {
        None
    } else {
        let mlen = le_value(chunk.subrange(0, 4));
        if 4 + mlen > chunk.len() {
            None
        } else {
            let meta = chunk.subrange(4, 4 + mlen as int);
            match take_string_spec(meta, 0) {
                None => None,
                Some((name, p)) => if p + 6 > meta.len() {
                    None
                } else {
                    let mode = le_value(meta.subrange(p as int, p + 4 as int)) as u32;
                    let count = le_value(meta.subrange(p + 4 as int, p + 6 as int));
                    match take_dirs_spec(meta, p + 6, count) {
                        None => None,
                        Some((dirs, _)) => Some((name, mode, dirs, (4 + mlen) as nat)),
                    }
                },
            }
        }
    }
}

/// Metadata recovered from the first plaintext chunk.
pub struct PlainMeta {
    pub file_mode: u32,
    pub inner_name: String,
    pub dirs: Vec<(String, u32)>,
}

/// Parse the metadata section at the start of the first plaintext chunk;
/// returns it with the offset where the file content starts.
#[verifier::rlimit(60)]
pub fn parse_metadata(first_chunk: &[u8]) -> (r: Result<(PlainMeta, usize), DfmError>)
    ensures
        r is Ok <==> parse_metadata_spec(first_chunk@) is Some,
        r matches Ok((m, end)) ==> parse_metadata_spec(first_chunk@) == Some(
            (m.inner_name@, m.file_mode, dirs_view(m.dirs@), end as nat),
        ),
        r matches Err(e) ==> e is InvalidData,
{
    let metadata_len = match read_u32_le(first_chunk, 0) {
        Ok(v) => v,
        Err(e) => return Err(e),
    };
    if metadata_len as usize > first_chunk.len() - 4 {
        return Err(DfmError::InvalidData("encrypted metadata is truncated".to_owned()));
    }
    let end: usize = 4 + metadata_len as usize;
    let metadata = crate::text::slice_bytes(first_chunk, 4, end);
    let ghost meta = metadata@;
    let mut pos: usize = 0;
    let inner_name = match take_string(metadata.as_slice(), &mut pos) {
        Ok(s) => s,
        Err(e) => return Err(e),
    };
    let file_mode = match read_u32_le(metadata.as_slice(), pos) {
        Ok(v) => v,
        Err(e) => return Err(e),
    };
    pos = pos + 4;
    let dir_count = match read_u16_le(metadata.as_slice(), pos) {
        Ok(v) => v,
        Err(e) => return Err(e),
    };
    pos = pos + 2;
    let ghost pos0 = pos as nat;
    let mut dirs: Vec<(String, u32)> = Vec::new();
    let mut i: u16 = 0;
    while i < dir_count
        invariant
            meta == metadata@,
            parse_metadata_spec(first_chunk@) == match take_dirs_spec(meta, pos0, dir_count as nat) {
                None => None,
                Some((d, _)) => Some((inner_name@, file_mode, d, end as nat)),
            },
            i <= dir_count,
            pos <= meta.len(),
            take_dirs_spec(meta, pos0, dir_count as nat) == match take_dirs_spec(
                meta,
                pos as nat,
                (dir_count - i) as nat,
            ) {
                None => None,
                Some((rest, p)) => Some((dirs_view(dirs@) + rest, p)),
            },
        decreases dir_count - i,
    {
        let ghost before = dirs_view(dirs@);
        let ghost p_before = pos as nat;
        let ghost k = (dir_count - i) as nat;
        let name = match take_string(metadata.as_slice(), &mut pos) {
            Ok(s) => s,
            Err(e) => {
                assert(take_dirs_spec(meta, p_before, k) is None);
                return Err(e);
            },
        };
        let mode = match read_u32_le(metadata.as_slice(), pos) {
            Ok(v) => v,
            Err(e) => {
                assert(take_dirs_spec(meta, p_before, k) is None);
                return Err(e);
            },
        };
        assert(pos + 4 <= metadata@.len() && metadata@.len() == metadata.len());
        pos = pos + 4;
        dirs.push((name, mode));
        i = i + 1;
        proof {
            assert(dirs_view(dirs@) =~= before + seq![(name@, mode)]);
            match take_dirs_spec(meta, pos as nat, (dir_count - i) as nat) {
                None => {},
                Some((rest, p)) => {
                    assert(dirs_view(dirs@) + rest =~= before + (seq![(name@, mode)] + rest));
                },
            }
        }
    }
    assert(dirs_view(dirs@) + Seq::<(Seq<char>, u32)>::empty() =~= dirs_view(dirs@));
    Ok((PlainMeta { file_mode, inner_name, dirs }, end))
}

/// A length-prefixed string is read back from where it was written.
pub proof fn lemma_take_string_at(data: Seq<u8>, pos: nat, s: Seq<char>)
    requires
        encode_utf8(s).len() < 65536,
        pos + enc_string(s).len() <= data.len(),
        data.subrange(pos as int, (pos + enc_string(s).len()) as int) == enc_string(s),
    ensures
        take_string_spec(data, pos) == Some((s, pos + enc_string(s).len())),
{
    let b = encode_utf8(s);
    let n = b.len();
    crate::bytes::lemma_le_bytes_len(n, 2);
    reveal_with_fuel(crate::bytes::pow256, 3);
    crate::bytes::lemma_le_roundtrip(n, 2);
    encode_utf8_valid_utf8(s);
    encode_utf8_decode_utf8(s);
    let e = enc_string(s);
    assert(data.subrange(pos as int, pos as int + 2) =~= e.subrange(0, 2));
    assert(e.subrange(0, 2) =~= le_bytes(n, 2));
    assert(data.subrange(pos as int + 2, (pos + 2 + n) as int) =~= e.subrange(2, 2 + n as int));
    assert(e.subrange(2, 2 + n as int) =~= b);
}

/// Directory entries are read back from where they were written.
pub proof fn lemma_take_dirs_at(data: Seq<u8>, pos: nat, dirs: Seq<(Seq<char>, u32)>)
    requires
        forall|i: int| 0 <= i < dirs.len() ==> encode_utf8(#[trigger] dirs[i].0).len() < 65536,
        pos + enc_dirs(dirs).len() <= data.len(),
        data.subrange(pos as int, (pos + enc_dirs(dirs).len()) as int) == enc_dirs(dirs),
    ensures
        take_dirs_spec(data, pos, dirs.len()) == Some((dirs, pos + enc_dirs(dirs).len())),
    decreases dirs.len(),
{
    if dirs.len() > 0 {
        let d = dirs[0];
        let es = enc_string(d.0);
        let em = le_bytes(d.1 as nat, 4);
        let rest = dirs.drop_first();
        let er = enc_dirs(rest);
        crate::bytes::lemma_le_bytes_len(d.1 as nat, 4);
        let whole = enc_dirs(dirs);
        assert(whole == es + em + er);
        let w = data.subrange(pos as int, (pos + whole.len()) as int);
        assert(w == whole);
        assert(data.subrange(pos as int, (pos + es.len()) as int) =~= w.subrange(0, es.len() as int));
        assert(w.subrange(0, es.len() as int) =~= es);
        lemma_take_string_at(data, pos, d.0);
        let p1 = pos + es.len();
        assert(data.subrange(p1 as int, p1 as int + 4) =~= w.subrange(es.len() as int, es.len() as int + 4));
        assert(w.subrange(es.len() as int, es.len() as int + 4) =~= em);
        reveal_with_fuel(crate::bytes::pow256, 5);
        crate::bytes::lemma_le_roundtrip(d.1 as nat, 4);
        assert forall|i: int| 0 <= i < rest.len() implies encode_utf8(#[trigger] rest[i].0).len() < 65536 by {
            assert(rest[i] == dirs[i + 1]);
        }
        assert(data.subrange(p1 as int + 4, (p1 + 4 + er.len()) as int) =~= w.subrange(es.len() as int + 4, whole.len() as int));
        assert(w.subrange(es.len() as int + 4, whole.len() as int) =~= er);
        lemma_take_dirs_at(data, p1 + 4, rest);
        assert(seq![(d.0, d.1)] + rest =~= dirs);
    }
}

/// The metadata that `serialize_metadata` writes is what `parse_metadata`
/// reads back from the start of a chunk, whatever follows it, as long as every
/// string fits its 16-bit length field, the directory count fits 16 bits and
/// the section fits its 32-bit length field.
pub proof fn lemma_metadata_roundtrip(inner_name: Seq<char>, file_mode: u32, dirs: Seq<(Seq<char>, u32)>, rest: Seq<u8>)
    requires
        encode_utf8(inner_name).len() < 65536,
        forall|i: int| 0 <= i < dirs.len() ==> encode_utf8(#[trigger] dirs[i].0).len() < 65536,
        dirs.len() < 65536,
        metadata_spec(inner_name, file_mode, dirs).len() < 0x1_0000_0000,
    ensures
        parse_metadata_spec(metadata_prefix_spec(inner_name, file_mode, dirs) + rest) == Some(
            (inner_name, file_mode, dirs, metadata_prefix_spec(inner_name, file_mode, dirs).len()),
        ),
{
    let meta = metadata_spec(inner_name, file_mode, dirs);
    let chunk = metadata_prefix_spec(inner_name, file_mode, dirs) + rest;
    reveal_with_fuel(crate::bytes::pow256, 5);
    crate::bytes::lemma_le_roundtrip(meta.len(), 4);
    crate::bytes::lemma_le_bytes_len(meta.len(), 4);
    assert(chunk.subrange(0, 4) =~= le_bytes(meta.len(), 4));
    let m2 = chunk.subrange(4, 4 + meta.len() as int);
    assert(m2 =~= meta);
    let es = enc_string(inner_name);
    let em = le_bytes(file_mode as nat, 4);
    let ec = le_bytes(dirs.len(), 2);
    let ed = enc_dirs(dirs);
    crate::bytes::lemma_le_bytes_len(file_mode as nat, 4);
    crate::bytes::lemma_le_bytes_len(dirs.len(), 2);
    assert(meta == es + em + ec + ed);
    assert(meta.subrange(0, es.len() as int) =~= es);
    lemma_take_string_at(meta, 0, inner_name);
    let p = es.len();
    assert(meta.subrange(p as int, p as int + 4) =~= em);
    crate::bytes::lemma_le_roundtrip(file_mode as nat, 4);
    assert(meta.subrange(p as int + 4, p as int + 6) =~= ec);
    crate::bytes::lemma_le_roundtrip(dirs.len(), 2);
    assert(meta.subrange(p as int + 6, (p + 6 + ed.len()) as int) =~= ed);
    lemma_take_dirs_at(meta, p + 6, dirs);
}


// The container

/// Magic, format version and header length: the first 12 bytes.
pub open spec fn preamble_spec() -> Seq<u8> {
    magic() + seq![FORMAT_VERSION] + le_bytes(HEADER_LEN as nat, 4)
}

/// The key a password stretches to under a salt and Argon2id costs.
pub open spec fn password_key(password: Seq<char>, salt: Seq<u8>, m: u32, t: u32, p: u32) -> Option<Seq<u8>> {
    argon2id_key(encode_utf8(password), salt, m, t, p)
}

/// A chunk seals to its length plus the tag, and opens back to itself.
pub open spec fn chunk_sound(key: Seq<u8>, nonce: Seq<u8>, aad: Seq<u8>, chunk: Seq<u8>) -> bool {
    &&& xchacha_seal(key, nonce, aad, chunk).len() == chunk.len() + TAG_LEN
    &&& xchacha_open(key, nonce, aad, xchacha_seal(key, nonce, aad, chunk)) == Some(chunk)
}

/// The records of plaintext `pt` cut into chunks of `cs` bytes, numbered from
/// `index`; the record holding the end of `pt` is the final one.
pub open spec fn sealed_records(key: Seq<u8>, header: Seq<u8>, base: Seq<u8>, pt: Seq<u8>, cs: nat, index: nat) -> Seq<u8>
    decreases pt.len(),
{
    if cs == 0 || pt.len() <= cs {
        xchacha_seal(key, stream_nonce_spec(base, index, true), chunk_aad_spec(header, index, true), pt)
    } else {
        xchacha_seal(key, stream_nonce_spec(base, index, false), chunk_aad_spec(header, index, false), pt.take(cs as int))
            + sealed_records(key, header, base, pt.skip(cs as int), cs, index + 1)
    }
}

/// Every record of `sealed_records` is sound (see `chunk_sound`).
pub open spec fn records_sound(key: Seq<u8>, header: Seq<u8>, base: Seq<u8>, pt: Seq<u8>, cs: nat, index: nat) -> bool
    decreases pt.len(),
{
    if cs == 0 || pt.len() <= cs {
        chunk_sound(key, stream_nonce_spec(base, index, true), chunk_aad_spec(header, index, true), pt)
    } else {
        chunk_sound(key, stream_nonce_spec(base, index, false), chunk_aad_spec(header, index, false), pt.take(cs as int))
            && records_sound(key, header, base, pt.skip(cs as int), cs, index + 1)
    }
}

/// The header written for plaintext `pt` under the given costs.
pub open spec fn default_header(costs: KdfCosts, salt: Seq<u8>, base: Seq<u8>, pt: Seq<u8>) -> Seq<u8> {
    header_spec(costs.m_cost, costs.t_cost, costs.p_cost, salt, base, CHUNK_SIZE, pt.len() as u64)
}

/// The container holding plaintext `pt` sealed under `key`.
pub open spec fn container_spec(key: Seq<u8>, costs: KdfCosts, salt: Seq<u8>, base: Seq<u8>, pt: Seq<u8>) -> Seq<u8> {
    preamble_spec() + default_header(costs, salt, base, pt) + sealed_records(key, default_header(costs, salt, base, pt), base, pt, CHUNK_SIZE as nat, 0)
}

/// `blob` is plaintext `pt` sealed under the key `password` stretches to with
/// `salt` under `costs`, with base nonce `base`, every record sound; the
/// plaintext length fits the header's 64-bit field.
pub open spec fn is_sealing_of(blob: Seq<u8>, password: Seq<char>, costs: KdfCosts, salt: Seq<u8>, base: Seq<u8>, pt: Seq<u8>) -> bool {
    let key = password_key(password, salt, costs.m_cost, costs.t_cost, costs.p_cost);
    &&& costs_in_bounds(costs)
    &&& salt.len() == SALT_LEN
    &&& base.len() == NONCE_LEN
    &&& key is Some
    &&& pt.len() < 0x1_0000_0000_0000_0000
    &&& blob == container_spec(key->0, costs, salt, base, pt)
    &&& records_sound(key->0, default_header(costs, salt, base, pt), base, pt, CHUNK_SIZE as nat, 0)
}

/// Append the preamble.
fn push_preamble(out: &mut Vec<u8>)
    ensures
        final(out)@ == old(out)@ + preamble_spec(),
{
    out.push(0x44u8);
    out.push(0x46u8);
    out.push(0x4du8);
    out.push(0x45u8);
    out.push(0x4eu8);
    out.push(0x43u8);
    out.push(0x00u8);
    out.push(FORMAT_VERSION);
    let ghost mid = out@;
    put_u32(out, HEADER_LEN as u32);
    assert(out@ =~= old(out)@ + preamble_spec());
}

/// A container being written one record at a time: the key, the header, the
/// metadata that opens the first record, the plaintext length the header
/// declares, how much of it is sealed and the number of the next record. A
/// writer asks `next_content_len` how many content bytes to hand over next
/// and gives them to `seal_next`; `seal_container` does so over a whole
/// buffer.
pub struct EncryptSession {
    key: Vec<u8>,
    header: Vec<u8>,
    base_nonce: Vec<u8>,
    prefix: Vec<u8>,
    total: u64,
    consumed: u64,
    index: u64,
    done: bool,
}

impl EncryptSession {
    /// The key the password stretched to.
    pub closed spec fn key_view(&self) -> Seq<u8> {
        self.key@
    }

    /// The header bytes, which every record authenticates.
    pub closed spec fn header_view(&self) -> Seq<u8> {
        self.header@
    }

    /// The nonce the record nonces derive from.
    pub closed spec fn base_view(&self) -> Seq<u8> {
        self.base_nonce@
    }

    /// The metadata section that starts the plaintext.
    pub closed spec fn prefix_view(&self) -> Seq<u8> {
        self.prefix@
    }

    /// The plaintext length: the metadata section and the content.
    pub closed spec fn total_view(&self) -> nat {
        self.total as nat
    }

    /// The plaintext bytes sealed so far.
    pub closed spec fn consumed_view(&self) -> nat {
        self.consumed as nat
    }

    /// The number of the next record.
    pub closed spec fn index_view(&self) -> nat {
        self.index as nat
    }

    /// Whether the final record has been sealed.
    pub closed spec fn done_view(&self) -> bool {
        self.done
    }

    /// The key and nonce have their lengths, the metadata fits the first
    /// record, and until the end every record before the next one was full.
    pub closed spec fn wf(&self) -> bool {
        &&& self.key@.len() == KEY_LEN
        &&& self.base_nonce@.len() == NONCE_LEN
        &&& self.prefix@.len() <= CHUNK_SIZE
        &&& self.prefix@.len() <= self.total
        &&& self.consumed <= self.total
        &&& !self.done ==> self.consumed == self.index * (CHUNK_SIZE as nat)
        &&& self.done ==> self.consumed == self.total
    }

    /// The plaintext bytes of the next record.
    pub open spec fn want(&self) -> nat {
        let rem = self.total_view() - self.consumed_view();
        if rem < CHUNK_SIZE { rem as nat } else { CHUNK_SIZE as nat }
    }

    /// Whether the next record is the final one.
    pub open spec fn last(&self) -> bool {
        self.total_view() - self.consumed_view() <= CHUNK_SIZE
    }

    /// The content bytes of the next record: the first one holds the
    /// metadata section too.
    pub open spec fn content_want(&self) -> nat {
        if self.index_view() == 0 { (self.want() - self.prefix_view().len()) as nat } else { self.want() }
    }

    /// The plaintext of the next record, from its content bytes.
    pub open spec fn piece(&self, content: Seq<u8>) -> Seq<u8> {
        if self.index_view() == 0 { self.prefix_view() + content } else { content }
    }

    /// Stretch the password to the key and write the preamble and header of
    /// a container for the metadata section and `content_len` bytes of
    /// content; gives the session and those first bytes.
    #[verifier::spinoff_prover]
    pub fn start(password: &str, costs: KdfCosts, salt: &[u8], base_nonce: &[u8], metadata_prefix: &[u8], content_len: u64)
        -> (r: Result<(EncryptSession, Vec<u8>), DfmError>)
        requires
            salt@.len() == SALT_LEN,
            base_nonce@.len() == NONCE_LEN,
            costs_in_bounds(costs),
        ensures
            metadata_prefix@.len() > CHUNK_SIZE ==> (r matches Err(e) && e is InvalidData),
            metadata_prefix@.len() <= CHUNK_SIZE && metadata_prefix@.len() + content_len >= 0x1_0000_0000_0000_0000
                ==> (r matches Err(e) && e is InvalidData),
            metadata_prefix@.len() <= CHUNK_SIZE && metadata_prefix@.len() + content_len < 0x1_0000_0000_0000_0000
                ==> (r is Ok <==> password_key(password@, salt@, costs.m_cost, costs.t_cost, costs.p_cost) is Some),
            metadata_prefix@.len() <= CHUNK_SIZE && metadata_prefix@.len() + content_len < 0x1_0000_0000_0000_0000
                && encode_utf8(password@).len() <= 0xFFFF_FFFF && 8 <= costs.m_cost
                && 8 * costs.p_cost <= costs.m_cost && 1 <= costs.t_cost && 1 <= costs.p_cost ==> r is Ok,
            r matches Ok((s, head)) ==> {
                &&& s.wf()
                &&& s.key_view() == password_key(password@, salt@, costs.m_cost, costs.t_cost, costs.p_cost)->0
                &&& s.header_view() == header_spec(costs.m_cost, costs.t_cost, costs.p_cost, salt@, base_nonce@, CHUNK_SIZE,
                    (metadata_prefix@.len() + content_len) as u64)
                &&& s.base_view() == base_nonce@
                &&& s.prefix_view() == metadata_prefix@
                &&& s.total_view() == metadata_prefix@.len() + content_len
                &&& s.consumed_view() == 0
                &&& s.index_view() == 0
                &&& !s.done_view()
                &&& head@ == preamble_spec() + s.header_view()
            },
    {
        if metadata_prefix.len() > CHUNK_SIZE as usize {
            return Err(DfmError::InvalidData("encrypted metadata does not fit into one chunk".to_owned()));
        }
        let plen: u64 = metadata_prefix.len() as u64;
        if content_len > 0xFFFF_FFFF_FFFF_FFFFu64 - plen {
            return Err(DfmError::InvalidData("input is too long to encrypt".to_owned()));
        }
        let key = match argon2id_derive(password.as_bytes(), salt, costs.m_cost, costs.t_cost, costs.p_cost) {
            Ok(k) => k,
            Err(msg) => return Err(DfmError::Other(msg)),
        };
        let total: u64 = plen + content_len;
        let mut header: Vec<u8> = Vec::new();
        put_u32(&mut header, costs.m_cost);
        put_u32(&mut header, costs.t_cost);
        put_u32(&mut header, costs.p_cost);
        header.extend_from_slice(salt);
        header.extend_from_slice(base_nonce);
        put_u32(&mut header, CHUNK_SIZE);
        put_u64(&mut header, total);
        assert(header@ =~= header_spec(costs.m_cost, costs.t_cost, costs.p_cost, salt@, base_nonce@, CHUNK_SIZE, total));
        let mut head: Vec<u8> = Vec::new();
        push_preamble(&mut head);
        head.extend_from_slice(header.as_slice());
        let s = EncryptSession {
            key,
            header,
            base_nonce: crate::text::slice_bytes(base_nonce, 0, base_nonce.len()),
            prefix: crate::text::slice_bytes(metadata_prefix, 0, metadata_prefix.len()),
            total,
            consumed: 0,
            index: 0,
            done: false,
        };
        assert(s.base_nonce@ =~= base_nonce@);
        assert(s.prefix@ =~= metadata_prefix@);
        Ok((s, head))
    }

    /// Start a container for a file's metadata (inner name, file mode and
    /// enclosing directories) and `content_len` bytes of content under
    /// `costs`, with a fresh random salt and base nonce.
    #[verifier::spinoff_prover]
    pub fn begin(password: &str, costs: KdfCosts, inner_name: &str, file_mode: u32, dirs: &[(String, u32)], content_len: u64)
        -> (r: Result<(EncryptSession, Vec<u8>), DfmError>)
        requires
            costs_in_bounds(costs),
        ensures
            metadata_prefix_spec(inner_name@, file_mode, dirs_view(dirs@)).len() > CHUNK_SIZE
                ==> (r matches Err(e) && e is InvalidData),
            metadata_prefix_spec(inner_name@, file_mode, dirs_view(dirs@)).len() <= CHUNK_SIZE
                && metadata_prefix_spec(inner_name@, file_mode, dirs_view(dirs@)).len() + content_len < 0x1_0000_0000_0000_0000
                && encode_utf8(password@).len() <= 0xFFFF_FFFF && 8 <= costs.m_cost && 8 * costs.p_cost <= costs.m_cost
                && 1 <= costs.t_cost && 1 <= costs.p_cost ==> r is Ok,
            r matches Ok((s, head)) ==> {
                &&& s.wf()
                &&& s.prefix_view() == metadata_prefix_spec(inner_name@, file_mode, dirs_view(dirs@))
                &&& s.total_view() == s.prefix_view().len() + content_len
                &&& s.consumed_view() == 0
                &&& s.index_view() == 0
                &&& !s.done_view()
                &&& head@ == preamble_spec() + s.header_view()
                &&& exists|salt: Seq<u8>, base: Seq<u8>| {
                    &&& salt.len() == SALT_LEN
                    &&& base.len() == NONCE_LEN
                    &&& password_key(password@, salt, costs.m_cost, costs.t_cost, costs.p_cost) is Some
                    &&& s.key_view() == password_key(password@, salt, costs.m_cost, costs.t_cost, costs.p_cost)->0
                    &&& s.header_view() == header_spec(costs.m_cost, costs.t_cost, costs.p_cost, salt, base, CHUNK_SIZE, s.total_view() as u64)
                    &&& s.base_view() == base
                }
            },
    {
        let prefix = serialize_metadata(inner_name, file_mode, dirs);
        let salt = random_bytes(SALT_LEN);
        let base_nonce = random_bytes(NONCE_LEN);
        let r = EncryptSession::start(password, costs, salt.as_slice(), base_nonce.as_slice(), prefix.as_slice(), content_len);
        proof {
            if r is Ok {
                let s = r->Ok_0.0;
                assert(s.base_view() == base_nonce@);
            }
        }
        r
    }

    /// Whether the final record has been sealed.
    pub fn is_done(&self) -> (b: bool)
        ensures
            b == self.done_view(),
    {
        self.done
    }

    /// How many content bytes the next record takes.
    #[verifier::spinoff_prover]
    pub fn next_content_len(&self) -> (n: usize)
        requires
            self.wf(),
            !self.done_view(),
        ensures
            n == self.content_want(),
    {
        let rem: u64 = self.total - self.consumed;
        let want: usize = if rem < 65536 { rem as usize } else { 65536 };
        if self.index == 0 {
            want - self.prefix.len()
        } else {
            want
        }
    }

    /// Seal the next record from its content bytes (the first of `content`,
    /// as many as `next_content_len` asks for): the record is the cipher's
    /// sealing of its plaintext under the record's nonce and associated data.
    /// Too few bytes mean the input ended before its declared length.
    #[verifier::spinoff_prover]
    pub fn seal_next(&mut self, content: &[u8]) -> (r: Result<Vec<u8>, DfmError>)
        requires
            old(self).wf(),
            !old(self).done_view(),
        ensures
            content@.len() < old(self).content_want() ==> (r matches Err(DfmError::InvalidData(m))
                && m@ == "input ended before its declared length"@),
            content@.len() >= old(self).content_want() ==> r is Ok,
            r matches Ok(rec) ==> {
                let piece = old(self).piece(content@.take(old(self).content_want() as int));
                let nonce = stream_nonce_spec(old(self).base_view(), old(self).index_view(), old(self).last());
                let aad = chunk_aad_spec(old(self).header_view(), old(self).index_view(), old(self).last());
                &&& piece.len() == old(self).want()
                &&& rec@ == xchacha_seal(old(self).key_view(), nonce, aad, piece)
                &&& chunk_sound(old(self).key_view(), nonce, aad, piece)
                &&& final(self).wf()
                &&& final(self).key_view() == old(self).key_view()
                &&& final(self).header_view() == old(self).header_view()
                &&& final(self).base_view() == old(self).base_view()
                &&& final(self).prefix_view() == old(self).prefix_view()
                &&& final(self).total_view() == old(self).total_view()
                &&& final(self).consumed_view() == old(self).consumed_view() + old(self).want()
                &&& final(self).done_view() == old(self).last()
                &&& final(self).index_view() == if old(self).last() { old(self).index_view() } else { old(self).index_view() + 1 }
            },
    {
        let rem: u64 = self.total - self.consumed;
        let want: usize = if rem < 65536 { rem as usize } else { 65536 };
        let last: bool = rem <= 65536;
        let cw: usize = if self.index == 0 { want - self.prefix.len() } else { want };
        if content.len() < cw {
            return Err(DfmError::InvalidData("input ended before its declared length".to_owned()));
        }
        let mut piece: Vec<u8> = Vec::new();
        if self.index == 0 {
            piece.extend_from_slice(self.prefix.as_slice());
        }
        let part = crate::text::slice_bytes(content, 0, cw);
        piece.extend_from_slice(part.as_slice());
        assert(piece@ =~= self.piece(content@.take(cw as int)));
        let nonce = stream_nonce(self.base_nonce.as_slice(), self.index, last);
        let aad = chunk_aad(self.header.as_slice(), self.index, last);
        let rec = aead_seal(self.key.as_slice(), nonce.as_slice(), aad.as_slice(), piece.as_slice());
        self.consumed = self.consumed + want as u64;
        if last {
            self.done = true;
        } else {
            self.index = self.index + 1;
        }
        Ok(rec)
    }
}

/// Seal `metadata_prefix` followed by `content` into a container under the
/// key that `password` stretches to with `salt` under `costs`, using
/// `base_nonce`.
#[verifier::spinoff_prover]
pub fn seal_container(password: &str, costs: KdfCosts, salt: &[u8], base_nonce: &[u8], metadata_prefix: &[u8], content: &[u8]) -> (r: Result<Vec<u8>, DfmError>)
    requires
        salt@.len() == SALT_LEN,
        base_nonce@.len() == NONCE_LEN,
        costs_in_bounds(costs),
    ensures
        metadata_prefix@.len() > CHUNK_SIZE ==> (r matches Err(e) && e is InvalidData),
        metadata_prefix@.len() <= CHUNK_SIZE && metadata_prefix@.len() + content@.len() >= 0x1_0000_0000_0000_0000
            ==> (r matches Err(e) && e is InvalidData),
        metadata_prefix@.len() <= CHUNK_SIZE && metadata_prefix@.len() + content@.len() < 0x1_0000_0000_0000_0000
            ==> (r is Ok <==> password_key(password@, salt@, costs.m_cost, costs.t_cost, costs.p_cost) is Some),
        metadata_prefix@.len() <= CHUNK_SIZE && metadata_prefix@.len() + content@.len() < 0x1_0000_0000_0000_0000
            && encode_utf8(password@).len() <= 0xFFFF_FFFF && 8 <= costs.m_cost
            && 8 * costs.p_cost <= costs.m_cost && 1 <= costs.t_cost && 1 <= costs.p_cost ==> r is Ok,
        r matches Ok(blob) ==> is_sealing_of(blob@, password@, costs, salt@, base_nonce@, metadata_prefix@ + content@),
{
    if metadata_prefix.len() > CHUNK_SIZE as usize {
        return Err(DfmError::InvalidData("encrypted metadata does not fit into one chunk".to_owned()));
    }
    let ghost ptv = metadata_prefix@ + content@;
    let (mut session, mut out) = match EncryptSession::start(password, costs, salt, base_nonce, metadata_prefix, content.len() as u64) {
        Ok(x) => x,
        Err(e) => return Err(e),
    };
    let ghost keyv = session.key_view();
    let ghost hv = session.header_view();
    let ghost full = container_spec(keyv, costs, salt@, base_nonce@, ptv);
    let ghost cs = CHUNK_SIZE as nat;
    let ghost plen = metadata_prefix@.len();
    assert(hv =~= default_header(costs, salt@, base_nonce@, ptv));
    assert(ptv.skip(0) =~= ptv);
    let mut pos: usize = 0;
    while !session.is_done()
        invariant
            session.wf(),
            session.key_view() == keyv,
            session.header_view() == hv,
            session.base_view() == base_nonce@,
            session.prefix_view() == metadata_prefix@,
            session.total_view() == ptv.len(),
            ptv == metadata_prefix@ + content@,
            plen == metadata_prefix@.len(),
            hv == default_header(costs, salt@, base_nonce@, ptv),
            keyv.len() == KEY_LEN,
            cs == CHUNK_SIZE as nat,
            full == preamble_spec() + hv + sealed_records(keyv, hv, base_nonce@, ptv, cs, 0),
            pos <= content@.len(),
            !session.done_view() && session.index_view() == 0 ==> pos == 0,
            !session.done_view() ==> session.consumed_view() == (if session.index_view() == 0 { 0 } else { pos + plen }),
            !session.done_view() ==> out@ + sealed_records(keyv, hv, base_nonce@, ptv.skip(session.consumed_view() as int), cs, session.index_view()) == full,
            session.done_view() ==> out@ == full,
            !session.done_view() ==> (records_sound(keyv, hv, base_nonce@, ptv.skip(session.consumed_view() as int), cs, session.index_view())
                ==> records_sound(keyv, hv, base_nonce@, ptv, cs, 0)),
            session.done_view() ==> records_sound(keyv, hv, base_nonce@, ptv, cs, 0),
        decreases ptv.len() - session.consumed_view() + (if session.done_view() { 0int } else { 1int }),
    {
        let n = session.next_content_len();
        let ghost consumed = session.consumed_view();
        let ghost index = session.index_view();
        let ghost last = session.last();
        let ghost want = session.want();
        let ghost rest = ptv.skip(consumed as int);
        let clen: usize = content.len();
        assert(n <= clen - pos);
        let chunk = crate::text::slice_bytes(content, pos, pos + n);
        let ghost piece = session.piece(chunk@.take(n as int));
        let rec = match session.seal_next(chunk.as_slice()) {
            Ok(r) => r,
            Err(e) => return Err(e),
        };
        proof {
            assert(chunk@.take(n as int) =~= chunk@);
            if index == 0 {
                assert(piece =~= rest.take(want as int));
            } else {
                assert(piece =~= rest.take(want as int));
            }
            if last {
                assert(rest.take(want as int) =~= rest);
            } else {
                assert(rest.skip(65536) =~= ptv.skip(consumed + 65536int));
            }
        }
        out.extend_from_slice(rec.as_slice());
        pos = pos + n;
    }
    Ok(out)
}

/// Encrypt `content` together with its metadata (inner name, file mode and
/// enclosing directories) into a new container under `costs`, with a fresh
/// random salt and base nonce.
pub fn encrypt_bytes_with_costs(password: &str, content: &[u8], file_mode: u32, inner_name: &str, dirs: &[(String, u32)], costs: KdfCosts) -> (r: Result<Vec<u8>, DfmError>)
    requires
        costs_in_bounds(costs),
    ensures
        metadata_prefix_spec(inner_name@, file_mode, dirs_view(dirs@)).len() > CHUNK_SIZE
            ==> (r matches Err(e) && e is InvalidData),
        metadata_prefix_spec(inner_name@, file_mode, dirs_view(dirs@)).len() <= CHUNK_SIZE
            && metadata_prefix_spec(inner_name@, file_mode, dirs_view(dirs@)).len() + content@.len() < 0x1_0000_0000_0000_0000
            && encode_utf8(password@).len() <= 0xFFFF_FFFF && 8 <= costs.m_cost && 8 * costs.p_cost <= costs.m_cost
            && 1 <= costs.t_cost && 1 <= costs.p_cost ==> r is Ok,
        r matches Ok(blob) ==> exists|salt: Seq<u8>, base: Seq<u8>| is_sealing_of(
            blob@,
            password@,
            costs,
            salt,
            base,
            metadata_prefix_spec(inner_name@, file_mode, dirs_view(dirs@)) + content@,
        ),
{
    let prefix = serialize_metadata(inner_name, file_mode, dirs);
    let salt = random_bytes(SALT_LEN);
    let base_nonce = random_bytes(NONCE_LEN);
    let r = seal_container(password, costs, salt.as_slice(), base_nonce.as_slice(), prefix.as_slice(), content);
    proof {
        if r is Ok {
            assert(is_sealing_of(r->Ok_0@, password@, costs, salt@, base_nonce@, prefix@ + content@));
        }
    }
    r
}

/// Encrypt `content` together with its metadata into a new container under
/// the standard costs, see `encrypt_bytes_with_costs`.
pub fn encrypt_bytes(password: &str, content: &[u8], file_mode: u32, inner_name: &str, dirs: &[(String, u32)]) -> (r: Result<Vec<u8>, DfmError>)
    ensures
        metadata_prefix_spec(inner_name@, file_mode, dirs_view(dirs@)).len() > CHUNK_SIZE
            ==> (r matches Err(e) && e is InvalidData),
        metadata_prefix_spec(inner_name@, file_mode, dirs_view(dirs@)).len() <= CHUNK_SIZE
            && metadata_prefix_spec(inner_name@, file_mode, dirs_view(dirs@)).len() + content@.len() < 0x1_0000_0000_0000_0000
            && encode_utf8(password@).len() <= 0xFFFF_FFFF ==> r is Ok,
        r matches Ok(blob) ==> exists|salt: Seq<u8>, base: Seq<u8>| is_sealing_of(
            blob@,
            password@,
            KdfCosts { m_cost: KDF_M_COST_KIB, t_cost: KDF_T_COST, p_cost: KDF_P_COST },
            salt,
            base,
            metadata_prefix_spec(inner_name@, file_mode, dirs_view(dirs@)) + content@,
        ),
{
    let costs = KdfCosts::standard();
    encrypt_bytes_with_costs(password, content, file_mode, inner_name, dirs, costs)
}


// Opening a container

/// Why opening a container failed.
#[derive(Debug)]
pub enum DecryptError {
    /// The first record does not authenticate: with an intact header, the
    /// password is wrong.
    WrongPassword,
    /// The container is malformed, truncated, extended or corrupted.
    Invalid(DfmError),
}

/// The kinds of `DecryptError`, for contracts.
pub enum OpenFault {
    WrongPassword,
    Invalid,
}

/// Everything a container holds.
#[derive(Debug)]
pub struct Decrypted {
    pub content: Vec<u8>,
    pub file_mode: u32,
    pub inner_name: String,
    pub dirs: Vec<(String, u32)>,
}

/// The little-endian `u32` at `at`.
pub open spec fn field_u32(data: Seq<u8>, at: int) -> nat {
    le_value(data.subrange(at, at + 4))
}

/// The preamble and header are well formed and their values in bounds.
pub open spec fn header_ok(data: Seq<u8>) -> bool {
    &&& data.len() >= PREAMBLE_LEN + HEADER_LEN
    &&& data.subrange(0, 7) == magic()
    &&& data[7] == FORMAT_VERSION
    &&& field_u32(data, 8) == HEADER_LEN
    &&& field_u32(data, 12) <= MAX_KDF_M_COST_KIB
    &&& field_u32(data, 16) <= MAX_KDF_T_COST
    &&& field_u32(data, 20) <= MAX_KDF_P_COST
    &&& MIN_CHUNK_SIZE <= field_u32(data, 64) <= MAX_CHUNK_SIZE
}

/// A container's header, as read.
pub struct ContainerHeader {
    pub raw: Vec<u8>,
    pub m_cost: u32,
    pub t_cost: u32,
    pub p_cost: u32,
    pub salt: Vec<u8>,
    pub base_nonce: Vec<u8>,
    pub chunk_size: u32,
    pub plaintext_len: u64,
}

/// Read and check the preamble and header.
pub fn read_container_header(data: &[u8]) -> (r: Result<ContainerHeader, DfmError>)
    ensures
        r is Ok <==> header_ok(data@),
        r matches Ok(h) ==> {
            &&& h.raw@ == data@.subrange(12, 76)
            &&& h.m_cost == field_u32(data@, 12)
            &&& h.t_cost == field_u32(data@, 16)
            &&& h.p_cost == field_u32(data@, 20)
            &&& h.salt@ == data@.subrange(24, 40)
            &&& h.base_nonce@ == data@.subrange(40, 64)
            &&& h.chunk_size == field_u32(data@, 64)
            &&& h.plaintext_len == le_value(data@.subrange(68, 76))
        },
        r matches Err(e) ==> e is InvalidData,
{
    if data.len() < 12 {
        return Err(truncated());
    }
    if data[0] != 0x44u8 || data[1] != 0x46u8 || data[2] != 0x4du8 || data[3] != 0x45u8
        || data[4] != 0x4eu8 || data[5] != 0x43u8 || data[6] != 0x00u8 {
        return Err(DfmError::InvalidData("not a dfm encrypted file (bad magic)".to_owned()));
    }
    assert(data@.subrange(0, 7) =~= magic());
    if data[7] != FORMAT_VERSION {
        return Err(DfmError::InvalidData("unsupported encrypted format version".to_owned()));
    }
    let header_len = match read_u32_le(data, 8) {
        Ok(v) => v,
        Err(e) => return Err(e),
    };
    if header_len != 64 {
        return Err(DfmError::InvalidData("unsupported encrypted header length".to_owned()));
    }
    if data.len() < 76 {
        return Err(truncated());
    }
    let m_cost = match read_u32_le(data, 12) {
        Ok(v) => v,
        Err(e) => return Err(e),
    };
    let t_cost = match read_u32_le(data, 16) {
        Ok(v) => v,
        Err(e) => return Err(e),
    };
    let p_cost = match read_u32_le(data, 20) {
        Ok(v) => v,
        Err(e) => return Err(e),
    };
    if m_cost > MAX_KDF_M_COST_KIB || t_cost > MAX_KDF_T_COST || p_cost > MAX_KDF_P_COST {
        return Err(DfmError::InvalidData("unreasonable KDF parameters in encrypted header".to_owned()));
    }
    let chunk_size = match read_u32_le(data, 64) {
        Ok(v) => v,
        Err(e) => return Err(e),
    };
    if chunk_size < MIN_CHUNK_SIZE || chunk_size > MAX_CHUNK_SIZE {
        return Err(DfmError::InvalidData("unreasonable chunk size in encrypted header".to_owned()));
    }
    let plaintext_len = match read_u64_le(data, 68) {
        Ok(v) => v,
        Err(e) => return Err(e),
    };
    Ok(ContainerHeader {
        raw: crate::text::slice_bytes(data, 12, 76),
        m_cost,
        t_cost,
        p_cost,
        salt: crate::text::slice_bytes(data, 24, 40),
        base_nonce: crate::text::slice_bytes(data, 40, 64),
        chunk_size,
        plaintext_len,
    })
}

/// The plaintext of the records after the first one: `remaining` bytes in
/// chunks of `cs`, numbered from `index`; `None` when a record is missing or
/// does not authenticate, the stream is too long, or bytes follow the final
/// record.
pub open spec fn open_rest_spec(key: Seq<u8>, header: Seq<u8>, base: Seq<u8>, data: Seq<u8>, remaining: nat, cs: nat, index: nat) -> Option<Seq<u8>>
    decreases remaining,
{
    if remaining == 0 {
        if data.len() == 0 { Some(Seq::empty()) } else { None }
    } else if cs == 0 {
        None
    } else {
        let want = if remaining < cs { remaining } else { cs };
        let last = remaining <= cs;
        if data.len() < want + TAG_LEN {
            None
        } else {
            match xchacha_open(key, stream_nonce_spec(base, index, last), chunk_aad_spec(header, index, last), data.take(want + TAG_LEN)) {
                None => None,
                Some(p) => if !last && index + 1 >= MAX_STREAM_CHUNKS {
                    None
                } else {
                    match open_rest_spec(key, header, base, data.skip(want + TAG_LEN), (remaining - want) as nat, cs, index + 1) {
                        None => None,
                        Some(r) => Some(p + r),
                    }
                },
            }
        }
    }
}

/// What opening container `data` with `password` yields: the content, inner
/// name, file mode and directories, or the kind of failure.
pub open spec fn decrypt_spec(data: Seq<u8>, password: Seq<char>) -> Result<(Seq<u8>, Seq<char>, u32, Seq<(Seq<char>, u32)>), OpenFault> {
    if !header_ok(data) {
        Err(OpenFault::Invalid)
    } else {
        let header = data.subrange(12, 76);
        let salt = data.subrange(24, 40);
        let base = data.subrange(40, 64);
        let cs = field_u32(data, 64);
        let ptlen = le_value(data.subrange(68, 76));
        match password_key(password, salt, field_u32(data, 12) as u32, field_u32(data, 16) as u32, field_u32(data, 20) as u32) {
            None => Err(OpenFault::Invalid),
            Some(key) => {
                let first = if cs < ptlen { cs } else { ptlen };
                let last0 = ptlen == first;
                if data.len() < 76 + first + TAG_LEN {
                    Err(OpenFault::Invalid)
                } else {
                    match xchacha_open(key, stream_nonce_spec(base, 0, last0), chunk_aad_spec(header, 0, last0), data.subrange(76, 76 + first + TAG_LEN)) {
                        None => Err(OpenFault::WrongPassword),
                        Some(chunk0) => match parse_metadata_spec(chunk0) {
                            None => Err(OpenFault::Invalid),
                            Some((name, mode, dirs, end)) => match open_rest_spec(key, header, base, data.skip(76 + first + TAG_LEN), (ptlen - first) as nat, cs, 1) {
                                None => Err(OpenFault::Invalid),
                                Some(rest) => Ok((chunk0.skip(end as int) + rest, name, mode, dirs)),
                            },
                        },
                    }
                }
            },
        }
    }
}

/// The corruption error of a record after the first.
fn corrupted() -> (e: DfmError)
    ensures
        e matches DfmError::InvalidData(m) && m@ == "encrypted file is corrupted (authentication failed)"@,
{
    DfmError::InvalidData("encrypted file is corrupted (authentication failed)".to_owned())
}

/// The error of a container that holds more records than the format allows.
fn too_long() -> (e: DfmError)
    ensures
        e matches DfmError::InvalidData(m) && m@ == "encrypted stream is too long"@,
{
    DfmError::InvalidData("encrypted stream is too long".to_owned())
}

/// A container being opened one record at a time: the key, the header, the
/// plaintext bytes still to come and the number of the next record. A reader
/// asks `next_record_len` how many bytes to hand over next, gives the first
/// record to `open_first` and each later one to `open_next`, and calls
/// `finish` at the end; `decrypt_bytes` does so over a whole buffer.
pub struct DecryptSession {
    key: Vec<u8>,
    header: ContainerHeader,
    remaining: u64,
    index: u64,
}

impl DecryptSession {
    /// The key the password stretched to.
    pub closed spec fn key_view(&self) -> Seq<u8> {
        self.key@
    }

    /// The header bytes, which every record authenticates.
    pub closed spec fn header_view(&self) -> Seq<u8> {
        self.header.raw@
    }

    /// The nonce the record nonces derive from.
    pub closed spec fn base_view(&self) -> Seq<u8> {
        self.header.base_nonce@
    }

    /// The plaintext bytes of a full record.
    pub closed spec fn cs_view(&self) -> nat {
        self.header.chunk_size as nat
    }

    /// The plaintext bytes still to come.
    pub closed spec fn remaining_view(&self) -> nat {
        self.remaining as nat
    }

    /// The number of the next record.
    pub closed spec fn index_view(&self) -> nat {
        self.index as nat
    }

    /// The key and nonce have their lengths, the chunk size its bounds, and a
    /// record still to come has a number below the limit.
    pub closed spec fn wf(&self) -> bool {
        &&& self.key@.len() == KEY_LEN
        &&& self.header.base_nonce@.len() == NONCE_LEN
        &&& MIN_CHUNK_SIZE <= self.header.chunk_size <= MAX_CHUNK_SIZE
        &&& self.index <= MAX_STREAM_CHUNKS
        &&& (self.remaining > 0 && self.index > 0) ==> self.index < MAX_STREAM_CHUNKS
    }

    /// The plaintext bytes of the next record.
    pub open spec fn want(&self) -> nat {
        if self.remaining_view() < self.cs_view() { self.remaining_view() } else { self.cs_view() }
    }

    /// Whether the next record is the final one.
    pub open spec fn last(&self) -> bool {
        self.remaining_view() <= self.cs_view()
    }

    /// The next record opened: its first `want() + TAG_LEN` bytes
    /// authenticated and decrypted under the record's nonce and associated
    /// data.
    pub open spec fn record_opened(&self, record: Seq<u8>) -> Option<Seq<u8>> {
        xchacha_open(
            self.key_view(),
            stream_nonce_spec(self.base_view(), self.index_view(), self.last()),
            chunk_aad_spec(self.header_view(), self.index_view(), self.last()),
            record.take(self.want() + TAG_LEN),
        )
    }

    /// `next` is this session one record further on.
    pub open spec fn advanced(&self, next: DecryptSession) -> bool {
        &&& next.wf()
        &&& next.key_view() == self.key_view()
        &&& next.header_view() == self.header_view()
        &&& next.base_view() == self.base_view()
        &&& next.cs_view() == self.cs_view()
        &&& next.remaining_view() == self.remaining_view() - self.want()
        &&& next.index_view() == self.index_view() + 1
    }

    /// Check the preamble and header in the first bytes of a container (76
    /// of them, fewer when it is shorter) and stretch the password to the
    /// key; the first record comes next.
    #[verifier::spinoff_prover]
    pub fn start(head: &[u8], password: &str) -> (r: Result<DecryptSession, DecryptError>)
        ensures
            r is Ok <==> header_ok(head@) && password_key(password@, head@.subrange(24, 40), field_u32(head@, 12) as u32,
                field_u32(head@, 16) as u32, field_u32(head@, 20) as u32) is Some,
            r matches Ok(s) ==> {
                &&& s.wf()
                &&& s.key_view() == password_key(password@, head@.subrange(24, 40), field_u32(head@, 12) as u32,
                    field_u32(head@, 16) as u32, field_u32(head@, 20) as u32)->0
                &&& s.header_view() == head@.subrange(12, 76)
                &&& s.base_view() == head@.subrange(40, 64)
                &&& s.cs_view() == field_u32(head@, 64)
                &&& s.remaining_view() == le_value(head@.subrange(68, 76))
                &&& s.index_view() == 0
            },
            r matches Err(e) ==> e is Invalid,
    {
        let header = match read_container_header(head) {
            Ok(h) => h,
            Err(e) => return Err(DecryptError::Invalid(e)),
        };
        let key = match argon2id_derive(password.as_bytes(), header.salt.as_slice(), header.m_cost, header.t_cost, header.p_cost) {
            Ok(k) => k,
            Err(msg) => return Err(DecryptError::Invalid(DfmError::Other(msg))),
        };
        let remaining = header.plaintext_len;
        Ok(DecryptSession { key, header, remaining, index: 0 })
    }

    /// How many bytes the next record takes: its plaintext and the tag (the
    /// first record is there even when it holds no plaintext), or none when
    /// every record has been read.
    #[verifier::spinoff_prover]
    pub fn next_record_len(&self) -> (n: usize)
        requires
            self.wf(),
        ensures
            n == (if self.index_view() > 0 && self.remaining_view() == 0 { 0 } else { self.want() + TAG_LEN }),
    {
        if self.index > 0 && self.remaining == 0 {
            0
        } else {
            let cs: u64 = self.header.chunk_size as u64;
            let want: usize = if self.remaining < cs { self.remaining as usize } else { cs as usize };
            want + 16
        }
    }

    /// Open the first record and recover the metadata from it: a record
    /// that does not authenticate means a wrong password (the header is
    /// intact); gives the metadata and the content that follows it in the
    /// record.
    #[verifier::spinoff_prover]
    pub fn open_first(&mut self, record: &[u8]) -> (r: Result<(PlainMeta, Vec<u8>), DecryptError>)
        requires
            old(self).wf(),
            old(self).index_view() == 0,
        ensures
            record@.len() < old(self).want() + TAG_LEN ==> r matches Err(DecryptError::Invalid(_)),
            record@.len() >= old(self).want() + TAG_LEN ==> match old(self).record_opened(record@) {
                None => r matches Err(DecryptError::WrongPassword),
                Some(chunk0) => match parse_metadata_spec(chunk0) {
                    None => r matches Err(DecryptError::Invalid(_)),
                    Some((name, mode, dirs, end)) => r matches Ok((m, rest)) && m.inner_name@ == name && m.file_mode == mode
                        && dirs_view(m.dirs@) == dirs && rest@ == chunk0.skip(end as int),
                },
            },
            r is Ok ==> old(self).advanced(*final(self)),
    {
        let want: usize = if self.remaining < self.header.chunk_size as u64 { self.remaining as usize } else { self.header.chunk_size as usize };
        if record.len() < want + 16 {
            return Err(DecryptError::Invalid(truncated()));
        }
        let last = self.remaining <= self.header.chunk_size as u64;
        let nonce = stream_nonce(self.header.base_nonce.as_slice(), 0, last);
        let aad = chunk_aad(self.header.raw.as_slice(), 0, last);
        let sealed = crate::text::slice_bytes(record, 0, want + 16);
        assert(sealed@ =~= record@.take(want + 16));
        let chunk0 = match aead_open(self.key.as_slice(), nonce.as_slice(), aad.as_slice(), sealed.as_slice()) {
            Some(p) => p,
            None => return Err(DecryptError::WrongPassword),
        };
        let (meta, meta_end) = match parse_metadata(chunk0.as_slice()) {
            Ok(x) => x,
            Err(e) => return Err(DecryptError::Invalid(e)),
        };
        let rest = crate::text::slice_bytes(chunk0.as_slice(), meta_end, chunk0.len());
        assert(rest@ =~= chunk0@.skip(meta_end as int));
        self.remaining = self.remaining - want as u64;
        self.index = 1;
        Ok((meta, rest))
    }

    /// Open a record after the first: one that does not authenticate means
    /// corruption; gives its plaintext.
    #[verifier::spinoff_prover]
    pub fn open_next(&mut self, record: &[u8]) -> (r: Result<Vec<u8>, DfmError>)
        requires
            old(self).wf(),
            old(self).index_view() >= 1,
            old(self).remaining_view() > 0,
        ensures
            record@.len() < old(self).want() + TAG_LEN ==> (r matches Err(DfmError::InvalidData(m)) && m@ == "encrypted file is truncated"@),
            record@.len() >= old(self).want() + TAG_LEN ==> match old(self).record_opened(record@) {
                None => r matches Err(DfmError::InvalidData(m)) && m@ == "encrypted file is corrupted (authentication failed)"@,
                Some(p) => if !old(self).last() && old(self).index_view() + 1 >= MAX_STREAM_CHUNKS {
                    r matches Err(DfmError::InvalidData(m)) && m@ == "encrypted stream is too long"@
                } else {
                    r matches Ok(q) && q@ == p
                },
            },
            r is Ok ==> old(self).advanced(*final(self)),
    {
        let cs: u64 = self.header.chunk_size as u64;
        let want: usize = if self.remaining < cs { self.remaining as usize } else { cs as usize };
        if record.len() < want + 16 {
            return Err(truncated());
        }
        let last = self.remaining <= cs;
        let nonce = stream_nonce(self.header.base_nonce.as_slice(), self.index, last);
        let aad = chunk_aad(self.header.raw.as_slice(), self.index, last);
        let sealed = crate::text::slice_bytes(record, 0, want + 16);
        assert(sealed@ =~= record@.take(want + 16));
        let piece = match aead_open(self.key.as_slice(), nonce.as_slice(), aad.as_slice(), sealed.as_slice()) {
            Some(p) => p,
            None => return Err(corrupted()),
        };
        if !last && self.index + 1 >= MAX_STREAM_CHUNKS {
            return Err(too_long());
        }
        self.remaining = self.remaining - want as u64;
        self.index = self.index + 1;
        Ok(piece)
    }

    /// The end of a container: every record read, and nothing after the
    /// final one.
    #[verifier::spinoff_prover]
    pub fn finish(&self, trailing_bytes: bool) -> (r: Result<(), DfmError>)
        ensures
            r is Ok <==> self.remaining_view() == 0 && !trailing_bytes,
            self.remaining_view() > 0 ==> (r matches Err(DfmError::InvalidData(m)) && m@ == "encrypted file is truncated"@),
            self.remaining_view() == 0 && trailing_bytes ==> (r matches Err(DfmError::InvalidData(m))
                && m@ == "trailing bytes after the final encrypted chunk"@),
    {
        if self.remaining > 0 {
            Err(truncated())
        } else if trailing_bytes {
            Err(DfmError::InvalidData("trailing bytes after the final encrypted chunk".to_owned()))
        } else {
            Ok(())
        }
    }
}

/// Open container `data` with `password`: check the header, derive the key,
/// authenticate and decrypt every record in order, and recover the metadata
/// from the first one. A first record that does not authenticate is reported
/// as a wrong password; every other failure as invalid data.
#[verifier::rlimit(40)]
pub fn decrypt_bytes(data: &[u8], password: &str) -> (r: Result<Decrypted, DecryptError>)
    ensures
        match decrypt_spec(data@, password@) {
            Err(OpenFault::WrongPassword) => r matches Err(DecryptError::WrongPassword),
            Err(OpenFault::Invalid) => r matches Err(DecryptError::Invalid(_)),
            Ok((content, name, mode, dirs)) => r matches Ok(d) && d.content@ == content
                && d.inner_name@ == name && d.file_mode == mode && dirs_view(d.dirs@) == dirs,
        },
{
    let head_len: usize = if data.len() < 76 { data.len() } else { 76 };
    let head = crate::text::slice_bytes(data, 0, head_len);
    proof {
        if data@.len() >= 76 {
            assert(head@.subrange(0, 7) =~= data@.subrange(0, 7));
            assert(head@[7] == data@[7]);
            assert(head@.subrange(8, 12) =~= data@.subrange(8, 12));
            assert(head@.subrange(12, 16) =~= data@.subrange(12, 16));
            assert(head@.subrange(16, 20) =~= data@.subrange(16, 20));
            assert(head@.subrange(20, 24) =~= data@.subrange(20, 24));
            assert(head@.subrange(24, 40) =~= data@.subrange(24, 40));
            assert(head@.subrange(40, 64) =~= data@.subrange(40, 64));
            assert(head@.subrange(64, 68) =~= data@.subrange(64, 68));
            assert(head@.subrange(68, 76) =~= data@.subrange(68, 76));
            assert(head@.subrange(12, 76) =~= data@.subrange(12, 76));
        }
    }
    let mut session = match DecryptSession::start(head.as_slice(), password) {
        Ok(s) => s,
        Err(e) => return Err(e),
    };
    let ghost keyv = session.key_view();
    let ghost hv = session.header_view();
    let ghost basev = session.base_view();
    let ghost csn = session.cs_view();
    let ghost ptlen = session.remaining_view();
    let n0 = session.next_record_len();
    let end0: usize = if data.len() - 76 < n0 { data.len() } else { 76 + n0 };
    let rec0 = crate::text::slice_bytes(data, 76, end0);
    proof {
        if rec0@.len() >= session.want() + TAG_LEN {
            assert(rec0@.take(session.want() + TAG_LEN) =~= data@.subrange(76, 76 + session.want() + TAG_LEN));
        }
    }
    let (meta, rest0) = match session.open_first(rec0.as_slice()) {
        Ok(x) => x,
        Err(e) => return Err(e),
    };
    let mut content = rest0;
    let mut pos: usize = end0;
    let ghost total = match open_rest_spec(keyv, hv, basev, data@.skip(pos as int), session.remaining_view(), csn, 1) {
        None => None,
        Some(rest) => Some(content@ + rest),
    };
    while session.next_record_len() > 0
        invariant
            session.wf(),
            session.key_view() == keyv,
            session.header_view() == hv,
            session.base_view() == basev,
            session.cs_view() == csn,
            session.index_view() >= 1,
            pos <= data@.len(),
            decrypt_spec(data@, password@) == match total {
                None => Err(OpenFault::Invalid),
                Some(c) => Ok((c, meta.inner_name@, meta.file_mode, dirs_view(meta.dirs@))),
            },
            total == match open_rest_spec(keyv, hv, basev, data@.skip(pos as int), session.remaining_view(), csn, session.index_view()) {
                None => None,
                Some(rest) => Some(content@ + rest),
            },
        decreases session.remaining_view(),
    {
        let n = session.next_record_len();
        let end: usize = if data.len() - pos < n { data.len() } else { pos + n };
        let rec = crate::text::slice_bytes(data, pos, end);
        proof {
            if rec@.len() >= session.want() + TAG_LEN {
                assert(rec@.take(session.want() + TAG_LEN) =~= data@.skip(pos as int).take(session.want() + TAG_LEN));
            }
        }
        let ghost before = content@;
        let ghost old_session_remaining = session.remaining_view();
        let piece = match session.open_next(rec.as_slice()) {
            Ok(p) => p,
            Err(e) => return Err(DecryptError::Invalid(e)),
        };
        content.extend_from_slice(piece.as_slice());
        assert(data@.skip(pos as int).skip(n as int) =~= data@.skip(end as int));
        pos = end;
        proof {
            match open_rest_spec(keyv, hv, basev, data@.skip(pos as int), session.remaining_view(), csn, session.index_view()) {
                None => {},
                Some(rest) => {
                    assert(before + (piece@ + rest) =~= content@ + rest);
                },
            }
        }
    }
    match session.finish(pos < data.len()) {
        Ok(()) => {},
        Err(e) => return Err(DecryptError::Invalid(e)),
    }
    assert(data@.skip(pos as int) =~= Seq::<u8>::empty());
    assert(content@ + Seq::<u8>::empty() =~= content@);
    Ok(Decrypted { content, file_mode: meta.file_mode, inner_name: meta.inner_name, dirs: meta.dirs })
}


// What a container gives back

/// The records after the first open back to the plaintext they were sealed
/// from.
proof fn lemma_open_sealed_records(key: Seq<u8>, header: Seq<u8>, base: Seq<u8>, q: Seq<u8>, index: nat)
    requires
        q.len() > 0,
        records_sound(key, header, base, q, CHUNK_SIZE as nat, index),
        index * 65536 + q.len() <= 0x1_0000_0000_0000_0000,
    ensures
        open_rest_spec(key, header, base, sealed_records(key, header, base, q, CHUNK_SIZE as nat, index), q.len(), CHUNK_SIZE as nat, index) == Some(q),
    decreases q.len(),
{
    let cs = CHUNK_SIZE as nat;
    let data = sealed_records(key, header, base, q, cs, index);
    if q.len() <= cs {
        let n = stream_nonce_spec(base, index, true);
        let a = chunk_aad_spec(header, index, true);
        assert(data == xchacha_seal(key, n, a, q));
        assert(data.len() == q.len() + TAG_LEN);
        assert(data.take(q.len() + TAG_LEN) =~= data);
        assert(data.skip(q.len() + TAG_LEN) =~= Seq::<u8>::empty());
        assert(open_rest_spec(key, header, base, data.skip(q.len() + TAG_LEN), 0, cs, index + 1) == Some(Seq::<u8>::empty()));
        assert(q + Seq::<u8>::empty() =~= q);
    } else {
        let n0 = stream_nonce_spec(base, index, false);
        let a0 = chunk_aad_spec(header, index, false);
        let r0 = xchacha_seal(key, n0, a0, q.take(cs as int));
        let rest = sealed_records(key, header, base, q.skip(cs as int), cs, index + 1);
        assert(data == r0 + rest);
        assert(data.take(cs + TAG_LEN) =~= r0);
        assert(data.skip(cs + TAG_LEN) =~= rest);
        assert(xchacha_open(key, n0, a0, r0) == Some(q.take(cs as int)));
        assert(q.skip(cs as int).len() == q.len() - cs);
        lemma_open_sealed_records(key, header, base, q.skip(cs as int), index + 1);
        assert(q.take(cs as int) + q.skip(cs as int) =~= q);
    }
}

/// The header of a sealed container reads back as written.
proof fn lemma_container_header(key: Seq<u8>, costs: KdfCosts, salt: Seq<u8>, base: Seq<u8>, pt: Seq<u8>)
    requires
        costs_in_bounds(costs),
        salt.len() == SALT_LEN,
        base.len() == NONCE_LEN,
        pt.len() < 0x1_0000_0000_0000_0000,
    ensures ({
        let blob = container_spec(key, costs, salt, base, pt);
        let h = default_header(costs, salt, base, pt);
        &&& header_ok(blob)
        &&& blob.subrange(12, 76) == h
        &&& blob.subrange(24, 40) == salt
        &&& blob.subrange(40, 64) == base
        &&& field_u32(blob, 12) == costs.m_cost
        &&& field_u32(blob, 16) == costs.t_cost
        &&& field_u32(blob, 20) == costs.p_cost
        &&& field_u32(blob, 64) == CHUNK_SIZE
        &&& le_value(blob.subrange(68, 76)) == pt.len()
        &&& blob.skip(76) == sealed_records(key, h, base, pt, CHUNK_SIZE as nat, 0)
    }),
{
    let blob = container_spec(key, costs, salt, base, pt);
    let h = default_header(costs, salt, base, pt);
    let recs = sealed_records(key, h, base, pt, CHUNK_SIZE as nat, 0);
    let ptlen = pt.len();
    reveal_with_fuel(crate::bytes::pow256, 9);
    crate::bytes::lemma_le_bytes_len(HEADER_LEN as nat, 4);
    crate::bytes::lemma_le_bytes_len(costs.m_cost as nat, 4);
    crate::bytes::lemma_le_bytes_len(costs.t_cost as nat, 4);
    crate::bytes::lemma_le_bytes_len(costs.p_cost as nat, 4);
    crate::bytes::lemma_le_bytes_len(CHUNK_SIZE as nat, 4);
    crate::bytes::lemma_le_bytes_len(ptlen, 8);
    crate::bytes::lemma_le_roundtrip(HEADER_LEN as nat, 4);
    crate::bytes::lemma_le_roundtrip(costs.m_cost as nat, 4);
    crate::bytes::lemma_le_roundtrip(costs.t_cost as nat, 4);
    crate::bytes::lemma_le_roundtrip(costs.p_cost as nat, 4);
    crate::bytes::lemma_le_roundtrip(CHUNK_SIZE as nat, 4);
    crate::bytes::lemma_le_roundtrip(ptlen, 8);
    assert((ptlen as u64) as nat == ptlen);
    let pre = preamble_spec();
    assert(pre.len() == 12);
    assert(h.len() == 64);
    assert(blob == pre + h + recs);
    assert(blob.subrange(0, 7) =~= magic());
    assert(blob[7] == FORMAT_VERSION);
    assert(blob.subrange(8, 12) =~= le_bytes(HEADER_LEN as nat, 4));
    assert(blob.subrange(12, 16) =~= le_bytes(costs.m_cost as nat, 4));
    assert(blob.subrange(16, 20) =~= le_bytes(costs.t_cost as nat, 4));
    assert(blob.subrange(20, 24) =~= le_bytes(costs.p_cost as nat, 4));
    assert(blob.subrange(64, 68) =~= le_bytes(CHUNK_SIZE as nat, 4));
    assert(blob.subrange(68, 76) =~= le_bytes(ptlen, 8));
    assert(blob.subrange(12, 76) =~= h);
    assert(blob.subrange(24, 40) =~= salt);
    assert(blob.subrange(40, 64) =~= base);
    assert(blob.skip(76) =~= recs);
}

/// Opening a container gives back exactly what was sealed into it: the file
/// content, the inner name, the file mode and the directory entries, as long
/// as every string fits its 16-bit length field, the directory count fits 16
/// bits and the metadata fits the first chunk (`seal_container` refuses more).
/// Every container `encrypt_bytes` or `encrypt_bytes_with_costs` returns
/// meets the first `requires`.
pub proof fn lemma_decrypt_seal_roundtrip(
    blob: Seq<u8>,
    password: Seq<char>,
    inner_name: Seq<char>,
    file_mode: u32,
    dirs: Seq<(Seq<char>, u32)>,
    content: Seq<u8>,
)
    requires
        exists|costs: KdfCosts, salt: Seq<u8>, base: Seq<u8>|
            is_sealing_of(blob, password, costs, salt, base, metadata_prefix_spec(inner_name, file_mode, dirs) + content),
        encode_utf8(inner_name).len() < 65536,
        forall|i: int| 0 <= i < dirs.len() ==> encode_utf8(#[trigger] dirs[i].0).len() < 65536,
        dirs.len() < 65536,
        metadata_prefix_spec(inner_name, file_mode, dirs).len() <= CHUNK_SIZE,
    ensures
        decrypt_spec(blob, password) == Ok::<_, OpenFault>((content, inner_name, file_mode, dirs)),
{
    let prefix = metadata_prefix_spec(inner_name, file_mode, dirs);
    let meta = metadata_spec(inner_name, file_mode, dirs);
    let pt = prefix + content;
    let (costs, salt, base) = choose|costs: KdfCosts, salt: Seq<u8>, base: Seq<u8>| is_sealing_of(blob, password, costs, salt, base, pt);
    let h = default_header(costs, salt, base, pt);
    let key = password_key(password, salt, costs.m_cost, costs.t_cost, costs.p_cost)->0;
    let cs = CHUNK_SIZE as nat;
    let ptlen = pt.len();
    crate::bytes::lemma_le_bytes_len(meta.len(), 4);
    lemma_container_header(key, costs, salt, base, pt);
    assert(prefix.len() == 4 + meta.len());
    lemma_metadata_roundtrip_any(inner_name, file_mode, dirs, content, cs);
    let first = if cs < ptlen { cs } else { ptlen };
    let last0 = ptlen == first;
    let chunk0 = pt.take(first as int);
    let rest = pt.skip(first as int);
    lemma_records_open(key, h, base, pt, blob.skip(76));
    assert(blob.subrange(76, 76 + first + TAG_LEN) =~= blob.skip(76).take(first + TAG_LEN));
    assert(blob.skip(76 + first + TAG_LEN) =~= blob.skip(76).skip(first + TAG_LEN));
    assert(chunk0.skip(prefix.len() as int) + rest =~= content);
    lemma_decrypt_spec_ok(blob, password, key, chunk0, inner_name, file_mode, dirs, prefix.len(), rest);
}

/// `decrypt_spec` of a container whose header, key, first record, metadata and
/// remaining records all check out.
proof fn lemma_decrypt_spec_ok(
    data: Seq<u8>,
    password: Seq<char>,
    key: Seq<u8>,
    chunk0: Seq<u8>,
    name: Seq<char>,
    mode: u32,
    dirs: Seq<(Seq<char>, u32)>,
    end: nat,
    rest: Seq<u8>,
)
    requires
        header_ok(data),
        password_key(password, data.subrange(24, 40), field_u32(data, 12) as u32, field_u32(data, 16) as u32, field_u32(data, 20) as u32) == Some(key),
        ({
            let cs = field_u32(data, 64);
            let ptlen = le_value(data.subrange(68, 76));
            let first = if cs < ptlen { cs } else { ptlen };
            let last0 = ptlen == first;
            &&& data.len() >= 76 + first + TAG_LEN
            &&& xchacha_open(key, stream_nonce_spec(data.subrange(40, 64), 0, last0), chunk_aad_spec(data.subrange(12, 76), 0, last0),
                data.subrange(76, 76 + first + TAG_LEN)) == Some(chunk0)
            &&& open_rest_spec(key, data.subrange(12, 76), data.subrange(40, 64), data.skip(76 + first + TAG_LEN), (ptlen - first) as nat, cs, 1) == Some(rest)
        }),
        parse_metadata_spec(chunk0) == Some((name, mode, dirs, end)),
    ensures
        decrypt_spec(data, password) == Ok::<_, OpenFault>((chunk0.skip(end as int) + rest, name, mode, dirs)),
{
}

/// The first record of sealed records opens to the first chunk, and the rest
/// open to the remainder of the plaintext.
proof fn lemma_records_open(key: Seq<u8>, h: Seq<u8>, base: Seq<u8>, pt: Seq<u8>, recs: Seq<u8>)
    requires
        recs == sealed_records(key, h, base, pt, CHUNK_SIZE as nat, 0),
        records_sound(key, h, base, pt, CHUNK_SIZE as nat, 0),
        pt.len() < 0x1_0000_0000_0000_0000,
    ensures ({
        let cs = CHUNK_SIZE as nat;
        let first = if cs < pt.len() { cs } else { pt.len() };
        let last0 = pt.len() == first;
        &&& recs.len() >= first + TAG_LEN
        &&& xchacha_open(key, stream_nonce_spec(base, 0, last0), chunk_aad_spec(h, 0, last0), recs.take(first + TAG_LEN)) == Some(pt.take(first as int))
        &&& open_rest_spec(key, h, base, recs.skip(first + TAG_LEN), (pt.len() - first) as nat, cs, 1) == Some(pt.skip(first as int))
    }),
{
    let cs = CHUNK_SIZE as nat;
    if pt.len() <= cs {
        let n0 = stream_nonce_spec(base, 0, true);
        let a0 = chunk_aad_spec(h, 0, true);
        assert(recs == xchacha_seal(key, n0, a0, pt));
        assert(recs.take(pt.len() + TAG_LEN) =~= recs);
        assert(pt.take(pt.len() as int) =~= pt);
        assert(recs.skip(pt.len() + TAG_LEN) =~= Seq::<u8>::empty());
        assert(pt.skip(pt.len() as int) =~= Seq::<u8>::empty());
        assert(open_rest_spec(key, h, base, Seq::<u8>::empty(), 0, cs, 1) == Some(Seq::<u8>::empty()));
    } else {
        let n0 = stream_nonce_spec(base, 0, false);
        let a0 = chunk_aad_spec(h, 0, false);
        let r0 = xchacha_seal(key, n0, a0, pt.take(cs as int));
        let rest = sealed_records(key, h, base, pt.skip(cs as int), cs, 1);
        assert(recs == r0 + rest);
        assert(recs.take(cs + TAG_LEN) =~= r0);
        assert(recs.skip(cs + TAG_LEN) =~= rest);
        lemma_open_sealed_records(key, h, base, pt.skip(cs as int), 1);
    }
}

/// The metadata is read back from the start of any first chunk that holds it.
proof fn lemma_metadata_roundtrip_any(inner_name: Seq<char>, file_mode: u32, dirs: Seq<(Seq<char>, u32)>, content: Seq<u8>, cs: nat)
    requires
        encode_utf8(inner_name).len() < 65536,
        forall|i: int| 0 <= i < dirs.len() ==> encode_utf8(#[trigger] dirs[i].0).len() < 65536,
        dirs.len() < 65536,
        metadata_prefix_spec(inner_name, file_mode, dirs).len() <= cs,
        cs <= CHUNK_SIZE,
    ensures ({
        let prefix = metadata_prefix_spec(inner_name, file_mode, dirs);
        let pt = prefix + content;
        let first = if cs < pt.len() { cs } else { pt.len() };
        parse_metadata_spec(pt.take(first as int)) == Some((inner_name, file_mode, dirs, prefix.len()))
    }),
{
    let prefix = metadata_prefix_spec(inner_name, file_mode, dirs);
    let meta = metadata_spec(inner_name, file_mode, dirs);
    let pt = prefix + content;
    let first = if cs < pt.len() { cs } else { pt.len() };
    crate::bytes::lemma_le_bytes_len(meta.len(), 4);
    assert(prefix.len() == 4 + meta.len());
    let tail = content.take(first - prefix.len());
    assert(pt.take(first as int) =~= prefix + tail);
    lemma_metadata_roundtrip(inner_name, file_mode, dirs, tail);
}

} // verus!
