//! Constants of the container format.

use vstd::prelude::*;

verus! {

/// Salt length preceding the encrypted header.
pub const SALT_LEN: usize = 64;

/// Length of the encrypted header, after the salt.
pub const HEADER_ENC_LEN: usize = 448;

/// Total header region size: salt and encrypted header.
pub const HEADER_REGION_LEN: usize = 512;

/// Offset of the primary header from the start of the container.
pub const PRIMARY_HEADER_OFFSET: u64 = 0;

/// Offset of the hidden-volume header from the start of the container.
pub const HIDDEN_HEADER_OFFSET: u64 = 65_536;

/// The backup of the primary header lies this far from the end.
pub const BACKUP_STANDARD_FROM_END: u64 = 131_072;

/// The backup of the hidden header lies this far from the end.
pub const BACKUP_HIDDEN_FROM_END: u64 = 65_536;

} // verus!
