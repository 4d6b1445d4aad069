//! Filesystems inside a volume: recognising them, and one interface to all.

pub mod detect;
pub mod device_io;
pub mod exfat;
pub mod fat;
pub mod ntfs;
pub mod order;
pub mod tree;
