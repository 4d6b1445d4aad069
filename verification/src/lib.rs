pub mod bytes;
pub mod consts;
pub mod crypto;
pub mod device;
pub mod error;
pub mod exfat;
pub mod format;
pub mod header;
pub mod offsets;
pub mod registry;
pub mod text;
pub mod time;
pub mod vault;
pub mod vfs;
