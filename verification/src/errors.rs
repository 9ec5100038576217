//! Error taxonomy of the vault.

use vstd::prelude::*;

verus! {

/// Every failure the storage engine and the filesystem adapter can report.
#[derive(Debug, Clone, Copy, PartialEq, Eq, Structural)]
pub enum VaultError {
    /// The password hash could not be computed or the salt is malformed.
    KeyDerivationError,
    /// The cipher failed while sealing a payload.
    EncryptionError,
    /// Authentication failed: wrong password or corrupted ciphertext.
    /// The two causes are indistinguishable by design.
    AuthenticationError,
    /// No stored block exists under the requested id.
    BlockNotFound,
    /// A stored block is shorter than the nonce prefix.
    CorruptBlock,
    /// Decompression failed after successful decryption.
    DecompressionError,
    /// No index replica could be decrypted and decoded.
    IndexUnrecoverable,
    /// No entry exists at the requested path.
    NotFound,
    /// An entry already exists at the requested path.
    Exists,
    /// The operation is not allowed: a directory opened as a file,
    /// or a non-empty directory removed.
    Forbidden,
}

impl VaultError {
    /// A short human-readable description, in place of a `Display` impl.
    pub fn message(&self) -> (r: &'static str)
        ensures
            r@.len() > 0,
    {
        proof {
            reveal_strlit("key derivation failed");
            reveal_strlit("encryption failure");
            reveal_strlit("wrong password or corrupted data");
            reveal_strlit("block not found");
            reveal_strlit("block file corrupted or too short");
            reveal_strlit("decompression failed");
            reveal_strlit("no valid index replica");
            reveal_strlit("not found");
            reveal_strlit("already exists");
            reveal_strlit("forbidden");
        }
        match self {
            VaultError::KeyDerivationError => "key derivation failed",
            VaultError::EncryptionError => "encryption failure",
            VaultError::AuthenticationError => "wrong password or corrupted data",
            VaultError::BlockNotFound => "block not found",
            VaultError::CorruptBlock => "block file corrupted or too short",
            VaultError::DecompressionError => "decompression failed",
            VaultError::IndexUnrecoverable => "no valid index replica",
            VaultError::NotFound => "not found",
            VaultError::Exists => "already exists",
            VaultError::Forbidden => "forbidden",
        }
    }
}

} // verus!
