//! Byte offsets within the decrypted 448-byte header.

use vstd::prelude::*;

verus! {

/// ASCII "VERA".
pub const MAGIC: usize = 0;

/// Volume header format version (big-endian u16).
pub const HEADER_VERSION: usize = 4;

/// Minimum program version required to mount (big-endian u16).
pub const MIN_PROGRAM_VERSION: usize = 6;

/// CRC-32 of the master key area.
pub const MASTER_KEY_CRC32: usize = 8;

/// Size of the hidden volume in bytes (0 for normal volumes).
pub const HIDDEN_VOLUME_SIZE: usize = 28;

/// Size of the volume in bytes.
pub const VOLUME_SIZE: usize = 36;

/// Byte offset of the start of the encrypted data area.
pub const ENCRYPTED_AREA_START: usize = 44;

/// Size of the encrypted data area in bytes.
pub const ENCRYPTED_AREA_SIZE: usize = 52;

/// Flag bits (bit 0: system encryption).
pub const FLAGS: usize = 60;

/// Sector size in bytes (big-endian u32).
pub const SECTOR_SIZE: usize = 64;

/// CRC-32 of the bytes before it.
pub const HEADER_CRC32: usize = 188;

/// Concatenated master keys (256 bytes): all primary keys, then all secondary
/// keys.
pub const MASTER_KEYS: usize = 192;

} // verus!
