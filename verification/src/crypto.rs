//! Cryptography: Argon2id key derivation and AES-256-GCM sealing.

use vstd::prelude::*;
use aes_gcm::aead::Aead;
use aes_gcm::aead::KeyInit;
use crate::error::VstorageError;

verus! {

/// The 32-byte key Argon2id derives from a password and salt with the
/// library's default parameters.
pub uninterp spec fn argon2id_key(password: Seq<char>, salt: Seq<u8>) -> Seq<u8>;

/// The AES-256-GCM sealing of a plaintext under a key and nonce: the
/// ciphertext with its 16-byte authentication tag appended.
pub uninterp spec fn aes_gcm_seal(key: Seq<u8>, nonce: Seq<u8>, plaintext: Seq<u8>) -> Seq<u8>;

/// The longest plaintext AES-GCM can seal: 2^36 - 32 bytes.
pub const AES_GCM_MAX_PLAINTEXT: u64 = 0xFFFFFFFE0;

/// The longest password the Argon2id key derivation is promised to accept:
/// this many characters take at most the 2^32 - 1 bytes the library allows.
pub const ARGON2_MAX_PASSWORD_CHARS: u64 = 0x3FFFFFFF;

/// Relies on `argon2::Argon2::hash_password_into` (Argon2id, default
/// parameters): the derived key is a function of the password and salt
/// alone, and derivation succeeds for every password within the library's
/// length bound (a 16-byte salt and 32-byte output are always accepted;
/// the roughly 19 MiB of working memory is assumed to allocate, as the
/// verifier's model assumes of every allocation).
#[verifier::external_body]
pub fn derive_key(password: &str, salt: &[u8; 16]) -> (r: Result<[u8; 32], ()>)
    ensures
        r matches Ok(k) ==> k@ == argon2id_key(password@, salt@) && k@.len() == 32,
        password@.len() <= ARGON2_MAX_PASSWORD_CHARS ==> r is Ok,
{
    let mut key = [0u8; 32];
    match argon2::Argon2::default().hash_password_into(password.as_bytes(), salt, &mut key) {
        Ok(()) => Ok(key),
        Err(_) => Err(()),
    }
}

/// Relies on `rand::fill` over the thread generator; nothing is assumed of
/// the bytes it produces.
#[verifier::external_body]
fn random_bytes_16() -> (r: [u8; 16]) {
    let mut b = [0u8; 16];
    rand::fill(&mut b);
    b
}

/// Relies on `rand::fill` over the thread generator; nothing is assumed of
/// the bytes it produces.
#[verifier::external_body]
fn random_bytes_12() -> (r: [u8; 12]) {
    let mut b = [0u8; 12];
    rand::fill(&mut b);
    b
}

/// Relies on `aes_gcm::Aes256Gcm` through `Aead::encrypt`: sealing is a
/// function of key, nonce and plaintext, appends a 16-byte tag, and fails
/// only beyond the mode's plaintext limit.
#[verifier::external_body]
fn aead_seal(key: &[u8; 32], nonce: &[u8; 12], plaintext: &Vec<u8>) -> (r: Result<Vec<u8>, ()>)
    ensures
        r matches Ok(ct) ==> ct@ == aes_gcm_seal(key@, nonce@, plaintext@) && ct@.len()
            == plaintext@.len() + 16,
        plaintext@.len() <= AES_GCM_MAX_PLAINTEXT ==> r is Ok,
{
    let cipher = match aes_gcm::Aes256Gcm::new_from_slice(key) {
        Ok(c) => c,
        Err(_) => {
            return Err(());
        },
    };
    match cipher.encrypt(aes_gcm::Nonce::from_slice(nonce), plaintext.as_slice()) {
        Ok(ct) => Ok(ct),
        Err(_) => Err(()),
    }
}

/// Relies on `aes_gcm::Aes256Gcm` through `Aead::decrypt`: opening succeeds
/// exactly on the sealings under this key and nonce, and returns the sealed
/// plaintext. The promise covers the sealings the mode can produce: a
/// plaintext of matching length within the mode's limit (longer ciphertexts
/// are rejected outright).
#[verifier::external_body]
fn aead_open(key: &[u8; 32], nonce: &[u8; 12], ciphertext: &Vec<u8>) -> (r: Result<Vec<u8>, ()>)
    ensures
        r matches Ok(pt) ==> ciphertext@ == aes_gcm_seal(key@, nonce@, pt@) && pt@.len() + 16
            == ciphertext@.len(),
        forall|pt: Seq<u8>|
            ciphertext@ == #[trigger] aes_gcm_seal(key@, nonce@, pt) && r is Ok ==> r->Ok_0@ == pt,
        forall|pt: Seq<u8>|
            pt.len() + 16 == ciphertext@.len() && pt.len() <= AES_GCM_MAX_PLAINTEXT && ciphertext@
                == #[trigger] aes_gcm_seal(key@, nonce@, pt) ==> (r is Ok && r->Ok_0@ == pt),
{
    let cipher = match aes_gcm::Aes256Gcm::new_from_slice(key) {
        Ok(c) => c,
        Err(_) => {
            return Err(());
        },
    };
    match cipher.decrypt(aes_gcm::Nonce::from_slice(nonce), ciphertext.as_slice()) {
        Ok(pt) => Ok(pt),
        Err(_) => Err(()),
    }
}

/// Encrypt data with AES-256-GCM under an Argon2id key derived from the
/// password and a fresh random salt, with a fresh random nonce. Returns the
/// ciphertext (plaintext length plus 16), the nonce and the salt. Succeeds
/// whenever the plaintext and password are within the libraries' length
/// limits.
pub fn encrypt(data: &Vec<u8>, password: &str) -> (r: Result<
    (Vec<u8>, [u8; 12], [u8; 16]),
    VstorageError,
>)
    ensures
        r matches Ok(t) ==> t.0@ == aes_gcm_seal(argon2id_key(password@, t.2@), t.1@, data@)
            && t.0@.len() == data@.len() + 16 && t.1@.len() == 12 && t.2@.len() == 16,
        r matches Err(e) ==> e is Crypto,
        data@.len() <= AES_GCM_MAX_PLAINTEXT && password@.len() <= ARGON2_MAX_PASSWORD_CHARS
            ==> r is Ok,
{
    let salt = random_bytes_16();
    let nonce = random_bytes_12();
    let key = match derive_key(password, &salt) {
        Ok(k) => k,
        Err(_) => {
            return Err(VstorageError::Crypto("key derivation failed"));
        },
    };
    match aead_seal(&key, &nonce, data) {
        Ok(ct) => Ok((ct, nonce, salt)),
        Err(_) => Err(VstorageError::Crypto("encryption failed")),
    }
}

/// Decrypt an AES-256-GCM sealing with the key derived from the password and
/// salt. A returned plaintext is exactly the one whose sealing the
/// ciphertext is, and a ciphertext that is the sealing of some plaintext of
/// matching length under this password's key is always opened to it; no
/// ciphertext ever opens to a different plaintext.
pub fn decrypt(ciphertext: &Vec<u8>, password: &str, nonce_bytes: &[u8; 12], salt: &[u8; 16]) -> (r:
    Result<Vec<u8>, VstorageError>)
    ensures
        r matches Ok(pt) ==> ciphertext@ == aes_gcm_seal(
            argon2id_key(password@, salt@),
            nonce_bytes@,
            pt@,
        ) && pt@.len() + 16 == ciphertext@.len(),
        forall|pt: Seq<u8>|
            ciphertext@ == #[trigger] aes_gcm_seal(argon2id_key(password@, salt@), nonce_bytes@, pt)
                && r is Ok ==> r->Ok_0@ == pt,
        forall|pt: Seq<u8>|
            pt.len() + 16 == ciphertext@.len() && pt.len() <= AES_GCM_MAX_PLAINTEXT && ciphertext@
                == #[trigger] aes_gcm_seal(argon2id_key(password@, salt@), nonce_bytes@, pt)
                && password@.len() <= ARGON2_MAX_PASSWORD_CHARS ==> (r is Ok && r->Ok_0@ == pt),
        r matches Err(e) ==> e is Crypto,
{
    let key = match derive_key(password, salt) {
        Ok(k) => k,
        Err(_) => {
            return Err(VstorageError::Crypto("key derivation failed"));
        },
    };
    match aead_open(&key, nonce_bytes, ciphertext) {
        Ok(pt) => Ok(pt),
        Err(_) => Err(VstorageError::Crypto("decryption failed")),
    }
}

} // verus!
