//! An encrypted personal vault presented as a virtual filesystem.
//!
//! Files are split into content blocks; each block is compressed and
//! authenticated-encrypted before it is handed to the persistence layer.
//! A small replicated metadata index maps virtual paths to ordered block
//! lists, and a session-level adapter turns hierarchical filesystem calls
//! into operations on that flat map.

use vstd::prelude::*;

pub mod codec;
pub mod config;
pub mod crypto;
pub mod daemon;
pub mod errors;
pub mod index;
pub mod numfmt;
pub mod storage;
pub mod strutil;
pub mod vfs;

verus! {

/// Number of bytes of symmetric key material.
pub const KEY_SIZE: usize = 32;

/// Width of the random nonce kept in front of every ciphertext.
pub const NONCE_SIZE: usize = 24;

/// Number of redundant copies of the metadata index.
pub const REPLICA_COUNT: usize = 3;

} // verus!
