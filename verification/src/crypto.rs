//! Key derivation and authenticated encryption.
//!
//! A password and a salt are turned into a 32-byte symmetric key by a
//! memory-hard hash; byte buffers are sealed with XChaCha20-Poly1305 under
//! a fresh random 24-byte nonce per call. The outside primitives are named
//! by uninterpreted functions; everything around them is verified.

use vstd::prelude::*;
use vstd::string::*;

use argon2::Argon2;
use chacha20poly1305::aead::Aead;
use chacha20poly1305::{Key, KeyInit, XChaCha20Poly1305, XNonce};
use rand::RngCore;
use vstd::utf8::encode_utf8;

use crate::errors::VaultError;
use crate::numfmt::bytes_to_hex;
use crate::KEY_SIZE;
use crate::NONCE_SIZE;

verus! {

/// What the Argon2id hash of a password and a salt is, with the argon2
/// crate's default parameters and a 32-byte output.
pub uninterp spec fn argon2_hash(pwd: Seq<u8>, salt: Seq<u8>) -> Seq<u8>;

/// The XChaCha20-Poly1305 ciphertext (tag included) of a plaintext under a
/// key and a nonce.
pub uninterp spec fn xchacha_seal(key: Seq<u8>, nonce: Seq<u8>, plain: Seq<u8>) -> Seq<u8>;

/// The result of XChaCha20-Poly1305 decryption: the plaintext when the tag
/// authenticates, `None` otherwise.
pub uninterp spec fn xchacha_open(key: Seq<u8>, nonce: Seq<u8>, ct: Seq<u8>) -> Option<Seq<u8>>;

/// Shortest salt (in bytes) the password hash accepts.
pub const MIN_SALT_LEN: usize = 8;

/// 32 bytes of symmetric key material, owned by the unlocked session.
#[derive(Debug)]
pub struct MasterKey {
    key: [u8; KEY_SIZE],
}

impl View for MasterKey {
    type V = Seq<u8>;

    closed spec fn view(&self) -> Seq<u8> {
        self.key@
    }
}

impl MasterKey {
    /// Wraps raw key bytes.
    pub fn new(bytes: [u8; KEY_SIZE]) -> (r: Self)
        ensures
            r@ == bytes@,
    {
        MasterKey { key: bytes }
    }

    /// The raw key bytes (use carefully).
    pub fn as_bytes(&self) -> (r: &[u8; KEY_SIZE])
        ensures
            r@ == self@,
    {
        &self.key
    }

    /// Overwrites the key material with zeros. Called when a session ends,
    /// so the key does not linger in memory.
    pub fn zero(&mut self)
        ensures
            final(self)@.len() == KEY_SIZE,
            forall|i: int| 0 <= i < KEY_SIZE ==> final(self)@[i] == 0u8,
    {
        let mut i: usize = 0;
        while i < KEY_SIZE
            invariant
                i <= KEY_SIZE,
                self.key@.len() == KEY_SIZE,
                forall|j: int| 0 <= j < i ==> self.key@[j] == 0u8,
            decreases KEY_SIZE - i,
        {
            self.key[i] = 0;
            i += 1;
        }
    }
}

/// Relies on `Argon2::hash_password_into` of the argon2 crate: with the
/// default parameters the 32-byte output is a pure function of password and
/// salt; the call fails only on out-of-range input lengths or allocation
/// failure.
#[verifier::external_body]
fn argon2_derive_raw(pwd: &[u8], salt: &[u8]) -> (r: Result<[u8; KEY_SIZE], VaultError>)
    ensures
        match r {
            Ok(k) => k@ == argon2_hash(pwd@, salt@),
            Err(e) => e == VaultError::KeyDerivationError,
        },
{
    let mut out = [0u8; KEY_SIZE];
    match Argon2::default().hash_password_into(pwd, salt, &mut out) {
        Ok(()) => Ok(out),
        Err(_) => Err(VaultError::KeyDerivationError),
    }
}

/// Relies on `OsRng::fill_bytes` of the rand crate: the whole buffer is
/// filled; nothing is assumed about the random values.
#[verifier::external_body]
fn fresh_random_bytes(n: usize) -> (r: Vec<u8>)
    ensures
        r@.len() == n,
{
    let mut b = vec![0u8; n];
    rand::rngs::OsRng.fill_bytes(&mut b);
    b
}

/// Relies on `Aead::encrypt` of the chacha20poly1305 crate: deterministic in
/// key, nonce and plaintext, and decryption of the result under the same key
/// and nonce returns exactly the plaintext (AEAD correctness).
#[verifier::external_body]
fn aead_seal(key: &MasterKey, nonce: &[u8], plain: &[u8]) -> (r: Result<Vec<u8>, VaultError>)
    requires
        nonce@.len() == NONCE_SIZE,
    ensures
        match r {
            Ok(ct) => ct@ == xchacha_seal(key@, nonce@, plain@) && xchacha_open(key@, nonce@, ct@)
                == Some(plain@),
            Err(e) => e == VaultError::EncryptionError,
        },
{
    let cipher = XChaCha20Poly1305::new(&Key::from(key.key));
    let nonce_ref = XNonce::try_from(nonce).expect("nonce width is fixed by the caller");
    match cipher.encrypt(&nonce_ref, plain) {
        Ok(ct) => Ok(ct),
        Err(_) => Err(VaultError::EncryptionError),
    }
}

/// Relies on `Aead::decrypt` of the chacha20poly1305 crate: returns the
/// plaintext when the authentication tag verifies and an error otherwise.
#[verifier::external_body]
fn aead_open(key: &MasterKey, nonce: &[u8], ct: &[u8]) -> (r: Result<Vec<u8>, VaultError>)
    requires
        nonce@.len() == NONCE_SIZE,
    ensures
        match r {
            Ok(p) => xchacha_open(key@, nonce@, ct@) == Some(p@),
            Err(e) => e == VaultError::AuthenticationError && xchacha_open(key@, nonce@, ct@)
                is None,
        },
{
    let cipher = XChaCha20Poly1305::new(&Key::from(key.key));
    let nonce_ref = XNonce::try_from(nonce).expect("nonce width is fixed by the caller");
    match cipher.decrypt(&nonce_ref, ct) {
        Ok(p) => Ok(p),
        Err(_) => Err(VaultError::AuthenticationError),
    }
}

/// Stateless entry points for key derivation, sealing and opening.
pub struct CryptoEngine;

impl CryptoEngine {
    /// Derives a key from a password under a fresh random salt (vault
    /// creation). Returns the key and the salt to store.
    pub fn derive_key(password: &str) -> (r: Result<(MasterKey, String), VaultError>)
        ensures
            match r {
                Ok((key, salt)) => {
                    &&& key@ == argon2_hash(encode_utf8(password@), encode_utf8(salt@))
                    &&& salt@.len() == 32
                },
                Err(e) => e == VaultError::KeyDerivationError,
            },
    {
        let raw = fresh_random_bytes(16);
        let salt = bytes_to_hex(raw.as_slice());
        proof {
            crate::numfmt::lemma_bytes_hex_len(raw@);
        }
        match Self::derive_key_with_salt(password, salt.as_str()) {
            Ok((key, salt_out)) => Ok((key, salt_out)),
            Err(e) => Err(e),
        }
    }

    /// Derives a key from a password and a stored salt (vault unlock).
    /// A salt shorter than [`MIN_SALT_LEN`] bytes is rejected.
    pub fn derive_key_with_salt(password: &str, salt: &str) -> (r: Result<
        (MasterKey, String),
        VaultError,
    >)
        ensures
            match r {
                Ok((key, salt_out)) => {
                    &&& key@ == argon2_hash(encode_utf8(password@), encode_utf8(salt@))
                    &&& salt_out@ == salt@
                },
                Err(e) => e == VaultError::KeyDerivationError,
            },
            encode_utf8(salt@).len() < MIN_SALT_LEN ==> r is Err,
    {
        if salt.as_bytes().len() < MIN_SALT_LEN {
            return Err(VaultError::KeyDerivationError);
        }
        match argon2_derive_raw(password.as_bytes(), salt.as_bytes()) {
            Ok(raw) => Ok((MasterKey::new(raw), salt.to_owned())),
            Err(e) => Err(e),
        }
    }

    /// Seals a buffer under a fresh random nonce.
    /// Returns the ciphertext and the nonce.
    pub fn encrypt(data: &[u8], key: &MasterKey) -> (r: Result<(Vec<u8>, Vec<u8>), VaultError>)
        ensures
            match r {
                Ok((ct, nonce)) => {
                    &&& nonce@.len() == NONCE_SIZE
                    &&& ct@ == xchacha_seal(key@, nonce@, data@)
                    &&& xchacha_open(key@, nonce@, ct@) == Some(data@)
                },
                Err(e) => e == VaultError::EncryptionError,
            },
    {
        let nonce = fresh_random_bytes(NONCE_SIZE);
        match aead_seal(key, nonce.as_slice(), data) {
            Ok(ct) => Ok((ct, nonce)),
            Err(e) => Err(e),
        }
    }

    /// Opens a sealed buffer. Fails with [`VaultError::AuthenticationError`]
    /// on a malformed nonce length or a tag mismatch: a wrong password and
    /// corrupted data are indistinguishable here by design.
    pub fn decrypt(ciphertext: &[u8], nonce: &[u8], key: &MasterKey) -> (r: Result<
        Vec<u8>,
        VaultError,
    >)
        ensures
            nonce@.len() != NONCE_SIZE ==> r == Err::<Vec<u8>, VaultError>(
                VaultError::AuthenticationError,
            ),
            nonce@.len() == NONCE_SIZE ==> match r {
                Ok(p) => xchacha_open(key@, nonce@, ciphertext@) == Some(p@),
                Err(e) => e == VaultError::AuthenticationError && xchacha_open(
                    key@,
                    nonce@,
                    ciphertext@,
                ) is None,
            },
    {
        if nonce.len() != NONCE_SIZE {
            return Err(VaultError::AuthenticationError);
        }
        aead_open(key, nonce, ciphertext)
    }
}

} // verus!
