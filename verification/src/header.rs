//! A parsed volume header and where it can lie in a container.

use vstd::prelude::*;

use crate::bytes::zeros;
use crate::crypto::secret::wipe;

verus! {

/// Length of the fields region covered by the header's checksum.
pub const HEADER_FIELDS_CRC_LEN: usize = 188;

/// Length of the master key area.
pub const MASTER_KEY_AREA_LEN: usize = 256;

/// Where a header candidate was found in the container.
#[derive(Debug, Clone, Copy, PartialEq, Eq, Hash, Structural)]
pub enum HeaderPosition {
    /// Offset 0.
    Primary,
    /// Offset 64 KiB; unlocking here yields the hidden volume.
    Hidden,
    /// 128 KiB before the end; used for recovery.
    BackupPrimary,
    /// 64 KiB before the end: backup of a hidden header.
    BackupHidden,
}

impl HeaderPosition {
    pub open spec fn hidden(self) -> bool {
        self is Hidden || self is BackupHidden
    }

    /// Whether this position addresses the hidden volume rather than the
    /// outer or normal one.
    pub fn is_hidden(self) -> (r: bool)
        ensures
            r == self.hidden(),
    {
        matches!(self, HeaderPosition::Hidden | HeaderPosition::BackupHidden)
    }
}

/// Geometry needed by the data path, from a validated header.
#[derive(Debug, Clone, Copy, PartialEq, Eq, Structural)]
pub struct VolumeGeometry {
    pub volume_size: u64,
    pub encrypted_area_start: u64,
    pub encrypted_area_size: u64,
    pub sector_size: u32,
    pub hidden_volume_size: u64,
}

/// A fully parsed, checksum-validated volume header. It holds the master keys:
/// keep instances scoped tightly, and wipe them when done.
pub struct VolumeHeader {
    pub header_version: u16,
    pub min_program_version: u16,
    pub flags: u32,
    pub geometry: VolumeGeometry,
    pub position: HeaderPosition,
    /// Raw 256-byte master key area; the scheme decides how it is split.
    pub master_keys: [u8; 256],
}

/// A header as a value.
#[verifier::ext_equal]
pub struct HeaderModel {
    pub header_version: u16,
    pub min_program_version: u16,
    pub flags: u32,
    pub geometry: VolumeGeometry,
    pub position: HeaderPosition,
    pub master_keys: Seq<u8>,
}

impl View for VolumeHeader {
    type V = HeaderModel;

    open spec fn view(&self) -> HeaderModel {
        HeaderModel {
            header_version: self.header_version,
            min_program_version: self.min_program_version,
            flags: self.flags,
            geometry: self.geometry,
            position: self.position,
            master_keys: self.master_keys@,
        }
    }
}

impl VolumeHeader {
    /// Overwrite the master keys; to be called once the header has served.
    pub fn wipe(&mut self)
        ensures
            final(self)@ == (HeaderModel { master_keys: zeros(256), ..old(self)@ }),
    {
        wipe(&mut self.master_keys);
    }
}

} // verus!
