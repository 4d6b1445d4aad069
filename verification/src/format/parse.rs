//! Validation and parsing of a decrypted header: magic, both checksums,
//! version gates, flag gates, sector size, in that order.

use vstd::prelude::*;

use crate::bytes::{be16, be32, be64, put, read_be16, read_be32, read_be64, slice_of};
use crate::crypto::crc::{crc32, crc32_of};
use crate::error::{fails_with, VcError, VcFault, VcResult};
use crate::header::{
    HeaderModel, HeaderPosition, VolumeGeometry, VolumeHeader, HEADER_FIELDS_CRC_LEN,
};
use crate::offsets;

verus! {

/// Highest minimum-program-version this build accepts, the value that current
/// VeraCrypt writes for standard volumes.
pub const SUPPORTED_MIN_PROGRAM_VERSION: u16 = 0x010b;

/// Lowest header format version accepted.
pub const MIN_HEADER_VERSION: u16 = 5;

/// System-encryption flag bit.
const FLAG_SYSTEM_ENCRYPTION: u32 = 0x1;

/// ASCII "VERA".
pub open spec fn header_magic() -> Seq<u8> {
    seq![0x56u8, 0x45, 0x52, 0x41]
}

/// The fields of a decrypted header, read off as they stand.
pub open spec fn header_fields(d: Seq<u8>, position: HeaderPosition) -> HeaderModel {
    HeaderModel {
        header_version: be16(d, 4),
        min_program_version: be16(d, 6),
        flags: be32(d, 60),
        geometry: VolumeGeometry {
            volume_size: be64(d, 36),
            encrypted_area_start: be64(d, 44),
            encrypted_area_size: be64(d, 52),
            sector_size: be32(d, 64),
            hidden_volume_size: be64(d, 28),
        },
        position,
        master_keys: slice_of(d, 192, 256),
    }
}

/// Whether both checksums of a decrypted header hold.
pub open spec fn checksums_hold(d: Seq<u8>) -> bool {
    &&& crc32_of(slice_of(d, 0, 188)) == be32(d, 188)
    &&& crc32_of(slice_of(d, 192, 256)) == be32(d, 8)
}

/// What a decrypted header says: its fields, or the first gate it fails. Only
/// a wrong magic reads as a wrong password.
pub open spec fn parsed(d: Seq<u8>, position: HeaderPosition) -> Result<HeaderModel, VcFault> {
    if slice_of(d, 0, 4) != header_magic() {
        Err(VcFault::NotFoundOrWrongPassword)
    } else if !checksums_hold(d) {
        Err(VcFault::HeaderDamaged)
    } else if be16(d, 4) < 5 || be16(d, 6) > 0x010b {
        Err(VcFault::VersionTooNew { required: be16(d, 6), supported: 0x010b })
    } else if be32(d, 60) & 1 != 0 {
        Err(VcFault::SystemVolume)
    } else if be32(d, 64) != 512 && be32(d, 64) != 4096 {
        Err(VcFault::HeaderDamaged)
    } else {
        Ok(header_fields(d, position))
    }
}

/// Parse and validate a candidate decrypted header region.
pub fn parse_decrypted_header(decrypted: &[u8; 448], position: HeaderPosition) -> (r: VcResult<
    VolumeHeader,
>)
    ensures
        match parsed(decrypted@, position) {
            Ok(h) => r matches Ok(v) && v@ == h,
            Err(f) => fails_with(r, f),
        },
{
    let d: &[u8] = decrypted.as_slice();
    let magic: bool = d[0] == 0x56 && d[1] == 0x45 && d[2] == 0x52 && d[3] == 0x41;
    assert(magic == (slice_of(d@, 0, 4) == header_magic())) by {
        let m = slice_of(d@, 0, 4);
        assert(m[0] == d@[0] && m[1] == d@[1] && m[2] == d@[2] && m[3] == d@[3]);
        if magic {
            assert(m =~= header_magic());
        }
    }
    if !magic {
        return Err(VcError::NotFoundOrWrongPassword);
    }
    // From here on a mismatch is corruption: a wrong key garbles the magic.
    if crc32(&d[0..HEADER_FIELDS_CRC_LEN]) != read_be32(d, offsets::HEADER_CRC32) {
        return Err(VcError::HeaderDamaged);
    }
    if crc32(&d[offsets::MASTER_KEYS..448]) != read_be32(d, offsets::MASTER_KEY_CRC32) {
        return Err(VcError::HeaderDamaged);
    }
    let header_version: u16 = read_be16(d, offsets::HEADER_VERSION);
    let min_program_version: u16 = read_be16(d, offsets::MIN_PROGRAM_VERSION);
    if header_version < MIN_HEADER_VERSION || min_program_version > SUPPORTED_MIN_PROGRAM_VERSION {
        return Err(
            VcError::VersionTooNew {
                required: min_program_version,
                supported: SUPPORTED_MIN_PROGRAM_VERSION,
            },
        );
    }
    let flags: u32 = read_be32(d, offsets::FLAGS);
    if flags & FLAG_SYSTEM_ENCRYPTION != 0 {
        return Err(VcError::SystemVolume);
    }
    let sector_size: u32 = read_be32(d, offsets::SECTOR_SIZE);
    if sector_size != 512 && sector_size != 4096 {
        return Err(VcError::HeaderDamaged);
    }
    let mut master_keys: [u8; 256] = [0u8; 256];
    put(&mut master_keys, 0, &d[offsets::MASTER_KEYS..448]);
    assert(master_keys@ =~= slice_of(d@, 192, 256));
    Ok(
        VolumeHeader {
            header_version,
            min_program_version,
            flags,
            geometry: VolumeGeometry {
                volume_size: read_be64(d, offsets::VOLUME_SIZE),
                encrypted_area_start: read_be64(d, offsets::ENCRYPTED_AREA_START),
                encrypted_area_size: read_be64(d, offsets::ENCRYPTED_AREA_SIZE),
                sector_size,
                hidden_volume_size: read_be64(d, offsets::HIDDEN_VOLUME_SIZE),
            },
            position,
            master_keys,
        },
    )
}

/// A header is accepted exactly when its magic is right, both checksums hold,
/// its versions are within reach, it is not a system volume's, and its sector
/// size is supported.
pub proof fn accepted_exactly_when_valid(d: Seq<u8>, position: HeaderPosition)
    ensures
        parsed(d, position) is Ok <==> {
            &&& slice_of(d, 0, 4) == header_magic()
            &&& checksums_hold(d)
            &&& be16(d, 4) >= 5
            &&& be16(d, 6) <= 0x010b
            &&& be32(d, 60) & 1 == 0
            &&& (be32(d, 64) == 512 || be32(d, 64) == 4096)
        },
{
}

/// Once the magic matches, no failure reads as a wrong password; and with the
/// checksums intact, only an unsupported sector size reads as damage.
pub proof fn damage_is_not_a_wrong_password(d: Seq<u8>, position: HeaderPosition)
    requires
        slice_of(d, 0, 4) == header_magic(),
    ensures
        parsed(d, position) != Err::<HeaderModel, VcFault>(VcFault::NotFoundOrWrongPassword),
        checksums_hold(d) && parsed(d, position) == Err::<HeaderModel, VcFault>(
            VcFault::HeaderDamaged,
        ) ==> be32(d, 64) != 512 && be32(d, 64) != 4096,
{
}

} // verus!
