//! Authenticated encryption of small blobs under a 256-bit master key, and
//! the text form in which that key is kept.
//!
//! A sealed blob is the base64 text of `nonce || ciphertext || tag`, with a
//! fresh 12-byte nonce for each sealing.

use vstd::prelude::*;
use base64::Engine;
use chacha20poly1305::aead::{Aead, KeyInit};
use rand::RngCore;

verus! {

/// Length of a key in bytes.
pub const KEY_SIZE: usize = 32;

/// Length of a nonce in bytes.
pub const NONCE_SIZE: usize = 12;

/// Plaintexts shorter than this (2^32 - 1 blocks of 64 bytes) can be sealed.
pub const MAX_PLAIN_LEN: u64 = 274_877_906_880;

/// The standard base64 text of `b`, with padding.
pub uninterp spec fn base64_text(b: Seq<u8>) -> Seq<char>;

/// The bytes that the standard base64 text `s` encodes, or `None` where `s`
/// is not such a text.
pub uninterp spec fn base64_bytes(s: Seq<char>) -> Option<Seq<u8>>;

/// ChaCha20-Poly1305 ciphertext and tag of `plain` under `key` and `nonce`,
/// with no associated data.
pub uninterp spec fn sealed(key: Seq<u8>, nonce: Seq<u8>, plain: Seq<u8>) -> Seq<u8>;

/// The plaintext of a ChaCha20-Poly1305 ciphertext and tag under `key` and
/// `nonce`, or `None` where authentication fails.
pub uninterp spec fn opened(key: Seq<u8>, nonce: Seq<u8>, cipher: Seq<u8>) -> Option<Seq<u8>>;

/// Relies on base64's `general_purpose::STANDARD.encode`: it returns the
/// standard padded text, which `STANDARD.decode` maps back.
#[verifier::external_body]
fn encode_base64(b: &[u8]) -> (r: String)
    ensures
        r@ == base64_text(b@),
        base64_bytes(r@) == Some(b@),
{
    base64::engine::general_purpose::STANDARD.encode(b)
}

/// Relies on base64's `general_purpose::STANDARD.decode`: the bytes of a
/// standard padded text, an error otherwise.
#[verifier::external_body]
fn decode_base64(s: &str) -> (r: Result<Vec<u8>, String>)
    ensures
        r is Ok <==> base64_bytes(s@) is Some,
        r matches Ok(b) ==> Some(b@) == base64_bytes(s@),
{
    base64::engine::general_purpose::STANDARD.decode(s).map_err(|e| e.to_string())
}

/// Relies on `rand::rngs::OsRng::try_fill_bytes`: `len` bytes from the
/// operating system's generator, or its error.
#[verifier::external_body]
fn random_bytes(len: usize) -> (r: Result<Vec<u8>, String>)
    ensures
        r matches Ok(b) ==> b.len() == len,
{
    let mut b = vec![0u8; len];
    rand::rngs::OsRng.try_fill_bytes(&mut b).map_err(|e| e.to_string())?;
    Ok(b)
}

/// Relies on `ChaCha20Poly1305::new_from_slice` and `Aead::encrypt`: with a
/// 32-byte key and a 12-byte nonce, the ciphertext followed by its 16-byte
/// tag, which `Aead::decrypt` opens again under the same key and nonce; it
/// fails only for a plaintext of `MAX_PLAIN_LEN` bytes or more.
#[verifier::external_body]
fn chacha_seal(key: &[u8], nonce: &[u8], plain: &[u8]) -> (r: Result<Vec<u8>, String>)
    requires
        key.len() == KEY_SIZE,
        nonce.len() == NONCE_SIZE,
    ensures
        plain.len() < MAX_PLAIN_LEN ==> r is Ok,
        r matches Ok(c) ==> c.len() == plain.len() + 16,
        r matches Ok(c) ==> c@ == sealed(key@, nonce@, plain@) && opened(key@, nonce@, c@) == Some(
            plain@,
        ),
{
    let cipher = chacha20poly1305::ChaCha20Poly1305::new_from_slice(key).map_err(|e| e.to_string())?;
    cipher.encrypt(chacha20poly1305::Nonce::from_slice(nonce), plain).map_err(|e| e.to_string())
}

/// Relies on `ChaCha20Poly1305::new_from_slice` and `Aead::decrypt`: with a
/// 32-byte key and a 12-byte nonce, the plaintext when the tag checks, an
/// error otherwise.
#[verifier::external_body]
fn chacha_open(key: &[u8], nonce: &[u8], cipher: &[u8]) -> (r: Result<Vec<u8>, String>)
    requires
        key.len() == KEY_SIZE,
        nonce.len() == NONCE_SIZE,
    ensures
        r is Ok <==> opened(key@, nonce@, cipher@) is Some,
        r matches Ok(p) ==> Some(p@) == opened(key@, nonce@, cipher@),
{
    let c = chacha20poly1305::ChaCha20Poly1305::new_from_slice(key).map_err(|e| e.to_string())?;
    c.decrypt(chacha20poly1305::Nonce::from_slice(nonce), cipher).map_err(|e| e.to_string())
}

/// Why sealing or opening failed.
pub enum EncryptionError {
    EncryptionFailed(String),
    DecryptionFailed(String),
    InvalidKeyLength(usize),
    InvalidFormat,
    Base64Error(String),
}

/// The sealed text of `plain` under `key` with the nonce `nonce`.
pub open spec fn sealed_text(plain: Seq<u8>, key: Seq<u8>, nonce: Seq<u8>) -> Seq<char> {
    base64_text(nonce + sealed(key, nonce, plain))
}

/// Copies the bytes `b[lo..hi]` into a vector.
fn copy_range(b: &[u8], lo: usize, hi: usize) -> (r: Vec<u8>)
    requires
        lo <= hi <= b.len(),
    ensures
        r@ == b@.subrange(lo as int, hi as int),
{
    let mut r: Vec<u8> = Vec::new();
    let mut i = lo;
    while i < hi
        invariant
            lo <= i <= hi <= b.len(),
            r@ == b@.subrange(lo as int, i as int),
        decreases hi - i,
    {
        r.push(b[i]);
        i = i + 1;
    }
    r
}

/// What opening the sealed text `s` under `key` gives.
pub open spec fn decrypt_spec(s: Seq<char>, key: Seq<u8>) -> Option<Seq<u8>> {
    match base64_bytes(s) {
        Some(b) => if b.len() >= NONCE_SIZE {
            opened(key, b.take(NONCE_SIZE as int), b.skip(NONCE_SIZE as int))
        } else {
            None
        },
        None => None,
    }
}

proof fn lemma_open_sealed(plain: Seq<u8>, key: Seq<u8>, nonce: Seq<u8>)
    requires
        key.len() == KEY_SIZE,
        nonce.len() == NONCE_SIZE,
        opened(key, nonce, sealed(key, nonce, plain)) == Some(plain),
        base64_bytes(sealed_text(plain, key, nonce)) == Some(nonce + sealed(key, nonce, plain)),
    ensures
        decrypt_spec(sealed_text(plain, key, nonce), key) == Some(plain),
{
    let b = nonce + sealed(key, nonce, plain);
    assert(b.take(NONCE_SIZE as int) =~= nonce);
    assert(b.skip(NONCE_SIZE as int) =~= sealed(key, nonce, plain));
}

/// The bytes of a sealed blob: the nonce, then the ciphertext with its tag.
pub fn join_sealed(nonce: &[u8], body: &[u8]) -> (r: Vec<u8>)
    ensures
        r@ == nonce@ + body@,
{
    let mut combined = copy_range(nonce, 0, nonce.len());
    let mut i: usize = 0;
    while i < body.len()
        invariant
            i <= body.len(),
            combined@ == nonce@ + body@.take(i as int),
        decreases body.len() - i,
    {
        combined.push(body[i]);
        i = i + 1;
    }
    proof {
        assert(nonce@.subrange(0, nonce@.len() as int) =~= nonce@);
        assert(body@.take(body.len() as int) =~= body@);
    }
    combined
}

/// Splits the bytes of a sealed blob into its nonce and the rest.
pub fn split_sealed(combined: &[u8]) -> (r: Result<(Vec<u8>, Vec<u8>), EncryptionError>)
    ensures
        combined.len() < NONCE_SIZE ==> r == Err::<(Vec<u8>, Vec<u8>), EncryptionError>(
            EncryptionError::InvalidFormat,
        ),
        combined.len() >= NONCE_SIZE ==> (r matches Ok(p) && p.0@ == combined@.take(
            NONCE_SIZE as int,
        ) && p.1@ == combined@.skip(NONCE_SIZE as int)),
{
    if combined.len() < NONCE_SIZE {
        return Err(EncryptionError::InvalidFormat);
    }
    let nonce = copy_range(combined, 0, NONCE_SIZE);
    let body = copy_range(combined, NONCE_SIZE, combined.len());
    proof {
        assert(nonce@ =~= combined@.take(NONCE_SIZE as int));
        assert(body@ =~= combined@.skip(NONCE_SIZE as int));
    }
    Ok((nonce, body))
}

/// Seals `plain` under `key` with a given 12-byte nonce.
pub fn encrypt_with_nonce(plain: &[u8], key: &[u8], nonce: &[u8]) -> (r: Result<String, EncryptionError>)
    requires
        nonce.len() == NONCE_SIZE,
    ensures
        key.len() != KEY_SIZE <==> r == Err::<String, EncryptionError>(
            EncryptionError::InvalidKeyLength(key.len()),
        ),
        r matches Ok(s) ==> s@ == sealed_text(plain@, key@, nonce@),
        r matches Ok(s) ==> decrypt_spec(s@, key@) == Some(plain@),
        key.len() == KEY_SIZE && plain.len() < MAX_PLAIN_LEN ==> r is Ok,
        r matches Err(e) ==> key.len() != KEY_SIZE || e is EncryptionFailed,
{
    if key.len() != KEY_SIZE {
        return Err(EncryptionError::InvalidKeyLength(key.len()));
    }
    let body = match chacha_seal(key, nonce, plain) {
        Ok(c) => c,
        Err(msg) => return Err(EncryptionError::EncryptionFailed(msg)),
    };
    let combined = join_sealed(nonce, body.as_slice());
    let text = encode_base64(combined.as_slice());
    proof {
        lemma_open_sealed(plain@, key@, nonce@);
    }
    Ok(text)
}

/// Seals `plain` under a 32-byte `key` with a fresh random nonce.
pub fn encrypt(plain: &[u8], key: &[u8]) -> (r: Result<String, EncryptionError>)
    ensures
        key.len() != KEY_SIZE <==> r == Err::<String, EncryptionError>(
            EncryptionError::InvalidKeyLength(key.len()),
        ),
        r matches Ok(s) ==> exists|n: Seq<u8>|
            n.len() == NONCE_SIZE && s@ == #[trigger] sealed_text(plain@, key@, n),
        r matches Ok(s) ==> decrypt_spec(s@, key@) == Some(plain@),
        r matches Err(e) ==> key.len() != KEY_SIZE || e is EncryptionFailed,
{
    if key.len() != KEY_SIZE {
        return Err(EncryptionError::InvalidKeyLength(key.len()));
    }
    let nonce = match random_bytes(NONCE_SIZE) {
        Ok(n) => n,
        Err(msg) => return Err(EncryptionError::EncryptionFailed(msg)),
    };
    encrypt_with_nonce(plain, key, nonce.as_slice())
}

/// Opens a sealed text under a 32-byte `key`.
pub fn decrypt(sealed_b64: &str, key: &[u8]) -> (r: Result<Vec<u8>, EncryptionError>)
    ensures
        key.len() != KEY_SIZE ==> r == Err::<Vec<u8>, EncryptionError>(
            EncryptionError::InvalidKeyLength(key.len()),
        ),
        key.len() == KEY_SIZE ==> (r is Ok <==> decrypt_spec(sealed_b64@, key@) is Some),
        r matches Ok(p) ==> Some(p@) == decrypt_spec(sealed_b64@, key@),
        key.len() == KEY_SIZE && base64_bytes(sealed_b64@) is None ==> r matches Err(
            EncryptionError::Base64Error(_),
        ),
        key.len() == KEY_SIZE && base64_bytes(sealed_b64@) is Some && base64_bytes(
            sealed_b64@,
        )->0.len() < NONCE_SIZE ==> r == Err::<Vec<u8>, EncryptionError>(EncryptionError::InvalidFormat),
        key.len() == KEY_SIZE && base64_bytes(sealed_b64@) is Some && base64_bytes(
            sealed_b64@,
        )->0.len() >= NONCE_SIZE && r is Err ==> r matches Err(EncryptionError::DecryptionFailed(_)),
{
    if key.len() != KEY_SIZE {
        return Err(EncryptionError::InvalidKeyLength(key.len()));
    }
    let combined = match decode_base64(sealed_b64) {
        Ok(b) => b,
        Err(msg) => return Err(EncryptionError::Base64Error(msg)),
    };
    let (nonce, body) = split_sealed(combined.as_slice())?;
    match chacha_open(key, nonce.as_slice(), body.as_slice()) {
        Ok(p) => Ok(p),
        Err(msg) => Err(EncryptionError::DecryptionFailed(msg)),
    }
}

/// Why a stored master key could not be used.
pub enum KeychainError {
    KeyringError(String),
    Base64Error(String),
    InvalidKeyFormat(usize),
}

/// A new random 256-bit master key.
pub fn generate_master_key() -> (r: Result<Vec<u8>, KeychainError>)
    ensures
        r matches Ok(k) ==> k.len() == KEY_SIZE,
        r matches Err(e) ==> e is KeyringError,
{
    match random_bytes(KEY_SIZE) {
        Ok(k) => Ok(k),
        Err(msg) => Err(KeychainError::KeyringError(msg)),
    }
}

/// The master key held in its stored base64 form; it must be 32 bytes.
pub fn decode_master_key(stored: &str) -> (r: Result<Vec<u8>, KeychainError>)
    ensures
        r is Ok <==> (base64_bytes(stored@) is Some && base64_bytes(stored@)->0.len() == KEY_SIZE),
        r matches Ok(k) ==> Some(k@) == base64_bytes(stored@),
        base64_bytes(stored@) is None ==> r matches Err(KeychainError::Base64Error(_)),
        base64_bytes(stored@) is Some && base64_bytes(stored@)->0.len() != KEY_SIZE ==> r
            == Err::<Vec<u8>, KeychainError>(
            KeychainError::InvalidKeyFormat(base64_bytes(stored@)->0.len() as usize),
        ),
{
    let key = match decode_base64(stored) {
        Ok(k) => k,
        Err(msg) => return Err(KeychainError::Base64Error(msg)),
    };
    if key.len() != KEY_SIZE {
        return Err(KeychainError::InvalidKeyFormat(key.len()));
    }
    Ok(key)
}

/// The stored base64 form of a 32-byte master key.
pub fn encode_master_key(key: &[u8]) -> (r: Result<String, KeychainError>)
    ensures
        key.len() != KEY_SIZE <==> r == Err::<String, KeychainError>(
            KeychainError::InvalidKeyFormat(key.len()),
        ),
        r matches Ok(s) ==> s@ == base64_text(key@) && base64_bytes(s@) == Some(key@),
{
    if key.len() != KEY_SIZE {
        return Err(KeychainError::InvalidKeyFormat(key.len()));
    }
    Ok(encode_base64(key))
}

} // verus!
