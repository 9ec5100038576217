//! Tunable knobs of the vault.

use vstd::prelude::*;

verus! {

/// Size of each content block and the zstd compression level.
#[derive(Debug, Clone, Copy)]
pub struct VaultConfig {
    /// Bytes a write buffer holds before it is flushed as one block.
    pub block_size: usize,
    /// Zstd compression level (1 to 22).
    pub compression_level: i32,
}

impl Default for VaultConfig {
    /// 64 KiB blocks, level 3 compression.
    fn default() -> (r: Self)
        ensures
            r.block_size == 65536,
            r.compression_level == 3,
    {
        VaultConfig { block_size: 65536, compression_level: 3 }
    }
}

} // verus!
