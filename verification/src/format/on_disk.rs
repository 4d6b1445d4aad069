//! Where things lie in a container, and what that means to whoever opens it.

use vstd::prelude::*;

use super::create::{
    draw_ok, header_plaintext, header_region_fields, hidden_created, hidden_draw_ok,
    hidden_geometry, hidden_refusal, volume_created, volume_geometry, volume_refusal, Draw,
};
use super::decrypted::{cipher_unit, plain_area};
use super::parse::{header_magic, parsed};
use super::protect::guarded_write;
use super::repair::{
    backup_only, has_backup, header_pair, position_pair, primary_only, rekeyed,
};
use super::search::{
    all_positions, header_key, offset_of, scheme_trial, slot_at, FoundModel, SecretModel,
    Slot,
};
use crate::bytes::{be16, be32, be32_bytes, be64, be64_bytes, slice_of};
use crate::crypto::crc::crc32_of;
use crate::crypto::kdf::{
    each_name_derives_by_its_hash, pbkdf2_blake2s, pbkdf2_sha256, pbkdf2_sha512, pbkdf2_streebog,
    pbkdf2_whirlpool,
};
use crate::crypto::xts::{
    a_cipher_splits_its_key_in_two, aes_decrypted, unit_decrypted, LayerKeys,
};
use crate::device::{Disk, DiskOp};
use crate::error::VcFault;
use crate::header::{HeaderPosition, VolumeGeometry};
use crate::registry::{scheme_table, Cipher, PrfModel, Scheme};

verus! {

/// What a decrypted header says, byte by byte. It begins with `VERA`, or it is
/// none. The CRC-32 of its first 188 bytes follows them, and that of the 256
/// key bytes from 192 on stands at 8; else it is damaged. It is of version 5 or
/// later and asks for no program later than 1.11; no system volume; its sectors
/// have 512 or 4096 bytes. Its numbers are big-endian.
pub proof fn what_a_header_says(d: Seq<u8>, position: HeaderPosition)
    requires
        d.len() == 448,
    ensures
        ({
            let named = d[0] == 0x56 && d[1] == 0x45 && d[2] == 0x52 && d[3] == 0x41;
            let whole = crc32_of(d.subrange(0, 188)) == be32(d, 188) && crc32_of(
                d.subrange(192, 448),
            ) == be32(d, 8);
            let known = be16(d, 4) >= 5 && be16(d, 6) <= 0x010b;
            let sectors = be32(d, 64) == 512 || be32(d, 64) == 4096;
            match parsed(d, position) {
                Err(VcFault::NotFoundOrWrongPassword) => !named,
                Err(VcFault::HeaderDamaged) => named && (!whole || (known && d[63] % 2 == 0
                    && !sectors)),
                Err(VcFault::VersionTooNew { required, supported }) => named && whole && !known
                    && required == be16(d, 6) && supported == 0x010b,
                Err(VcFault::SystemVolume) => named && whole && known && d[63] % 2 == 1,
                Err(_) => false,
                Ok(h) => {
                    &&& named && whole && known && d[63] % 2 == 0 && sectors
                    &&& h.position == position
                    &&& h.header_version == be16(d, 4)
                    &&& h.min_program_version == be16(d, 6)
                    &&& h.flags == be32(d, 60)
                    &&& h.geometry.hidden_volume_size == be64(d, 28)
                    &&& h.geometry.volume_size == be64(d, 36)
                    &&& h.geometry.encrypted_area_start == be64(d, 44)
                    &&& h.geometry.encrypted_area_size == be64(d, 52)
                    &&& h.geometry.sector_size == be32(d, 64)
                    &&& h.master_keys == d.subrange(192, 448)
                },
            }
        }),
{
    let start = slice_of(d, 0, 4);
    assert(start == header_magic() <==> d[0] == 0x56 && d[1] == 0x45 && d[2] == 0x52 && d[3]
        == 0x41) by {
        assert(start[0] == d[0] && start[1] == d[1] && start[2] == d[2] && start[3] == d[3]);
        if d[0] == 0x56 && d[1] == 0x45 && d[2] == 0x52 && d[3] == 0x41 {
            assert(start =~= header_magic());
        }
        assert(header_magic()[0] == 0x56 && header_magic()[1] == 0x45 && header_magic()[2] == 0x52
            && header_magic()[3] == 0x41);
    }
    crate::bytes::bytes_have_their_worth(d, 60);
    let flags = be32(d, 60);
    assert(flags & 1 == flags % 2) by (bit_vector);
}

/// What a new header leaves empty: the sixteen bytes before its numbers, and
/// all between them and their checksum.
pub proof fn a_new_header_is_empty_elsewhere(g: VolumeGeometry, master_keys: Seq<u8>, i: int)
    requires
        master_keys.len() == 256,
    ensures
        header_plaintext(g, master_keys).len() == 448,
        12 <= i < 28 || 60 <= i < 64 || 68 <= i < 188 ==> header_plaintext(g, master_keys)[i] == 0,
{
    reveal(header_plaintext);
    reveal(crate::bytes::be16_bytes);
    reveal(be32_bytes);
    reveal(be64_bytes);
    let fields = header_region_fields(g, master_keys);
    assert(fields.len() == 188);
}

/// A volume's data lies between the two header groups of 128 KiB at either end
/// of its container, and a hidden volume's is the last part of that, with at
/// least a mebibyte of the outer volume before it.
pub proof fn data_lies_between_the_headers(
    size: u64,
    sector_size: u32,
    hidden_size: u64,
)
    ensures
        volume_refusal(size, sector_size) is None <==> (sector_size == 512 || sector_size == 4096)
            && size > 262_144 && size as int % sector_size as int == 0,
        hidden_refusal(size, sector_size, hidden_size) is None <==> volume_refusal(
            size,
            sector_size,
        ) is None && hidden_size > 0 && hidden_size as int % sector_size as int == 0
            && 131_072 + 1_048_576 + hidden_size + 131_072 <= size,
        volume_refusal(size, sector_size) is None ==> ({
            let g = volume_geometry(size, sector_size);
            &&& g.encrypted_area_start == 131_072
            &&& g.encrypted_area_start + g.encrypted_area_size + 131_072 == size
            &&& g.volume_size == g.encrypted_area_size
            &&& g.sector_size == sector_size
            &&& g.hidden_volume_size == 0
        }),
        hidden_refusal(size, sector_size, hidden_size) is None ==> ({
            let g = hidden_geometry(size, sector_size, hidden_size);
            &&& g.encrypted_area_start + hidden_size + 131_072 == size
            &&& g.encrypted_area_start >= 131_072 + 1_048_576
            &&& g.encrypted_area_size == hidden_size
            &&& g.volume_size == hidden_size
            &&& g.hidden_volume_size == hidden_size
            &&& g.sector_size == sector_size
        }),
{
}

/// The four places of a header: at the start, 64 KiB behind it, and as far
/// before the end as their groups are long. Each holds 64 bytes of salt and
/// 448 of header, and none that a container is too short for is looked at. A
/// header and its backup are the two of one kind.
pub proof fn headers_have_four_places(bytes: Seq<u8>, position: HeaderPosition)
    ensures
        offset_of(position, bytes.len() as int) is Some <==> bytes.len() >= (match position {
            HeaderPosition::Primary => 512int,
            HeaderPosition::Hidden => 66_048int,
            HeaderPosition::BackupPrimary => 131_072int,
            HeaderPosition::BackupHidden => 65_536int,
        }),
        offset_of(position, bytes.len() as int) matches Some(o) ==> {
            &&& o == (match position {
                HeaderPosition::Primary => 0int,
                HeaderPosition::Hidden => 65_536int,
                HeaderPosition::BackupPrimary => bytes.len() - 131_072,
                HeaderPosition::BackupHidden => bytes.len() - 65_536,
            })
            &&& slot_at(bytes, position).position == position
            &&& slot_at(bytes, position).salt + slot_at(bytes, position).enc == bytes.subrange(
                o,
                o + 512,
            )
            &&& slot_at(bytes, position).salt.len() == 64
        },
        position.hidden() <==> position is Hidden || position is BackupHidden,
        bytes.len() >= 262_144 ==> offset_of(
            position_pair(position).0,
            bytes.len() as int,
        ) == Some(header_pair(position, bytes.len() as int).0) && offset_of(
            position_pair(position).1,
            bytes.len() as int,
        ) == Some(header_pair(position, bytes.len() as int).1),
        position == position_pair(position).0 || position == position_pair(position).1,
        all_positions() == seq![
            HeaderPosition::Primary,
            HeaderPosition::Hidden,
            HeaderPosition::BackupPrimary,
            HeaderPosition::BackupHidden,
        ],
{
    if let Some(o) = offset_of(position, bytes.len() as int) {
        assert(slot_at(bytes, position).salt + slot_at(bytes, position).enc =~= bytes.subrange(
            o,
            o + 512,
        ));
    }
}

/// A header is decrypted as data unit 0 under keys that PBKDF2 derives from the
/// password, the slot's own salt and the iterations of the PIM.
pub proof fn a_header_is_tried_under_its_salt(
    prf: PrfModel,
    secret: SecretModel,
    slot: Slot,
    len: nat,
    i: int,
)
    requires
        0 <= i < len,
        prf.default_iterations == 500_000,
    ensures
        ({
            let rounds = (if secret.pim == 0 {
                500_000int
            } else {
                15_000 + 1_000 * secret.pim
            }) as u32;
            let k = header_key(prf, secret, slot.salt, len)[i];
            let (p, s) = (secret.passphrase, slot.salt);
            &&& prf.name == "SHA-512"@ ==> k == pbkdf2_sha512(p, s, rounds, i)
            &&& prf.name == "SHA-256"@ ==> k == pbkdf2_sha256(p, s, rounds, i)
            &&& prf.name == "Whirlpool"@ ==> k == pbkdf2_whirlpool(p, s, rounds, i)
            &&& prf.name == "BLAKE2s-256"@ ==> k == pbkdf2_blake2s(p, s, rounds, i)
            &&& prf.name == "Streebog"@ ==> k == pbkdf2_streebog(p, s, rounds, i)
        }),
        header_key(prf, secret, slot.salt, len).len() == len,
        scheme_trial(prf, scheme_table()[0], secret, slot) == parsed(
            aes_decrypted(
                header_key(prf, secret, slot.salt, 64).subrange(0, 32),
                header_key(prf, secret, slot.salt, 64).subrange(32, 64),
                slot.enc,
                0,
            ),
            slot.position,
        ),
{
    let rounds = (if secret.pim == 0 {
        500_000int
    } else {
        15_000 + 1_000 * secret.pim
    }) as u32;
    each_name_derives_by_its_hash(secret.passphrase, slot.salt, rounds, len, i);
    assert(scheme_table()[0].layers == seq![Cipher::Aes]);
    a_cipher_splits_its_key_in_two(header_key(prf, secret, slot.salt, 64), slot.enc, 0);
}

/// On a data area that starts on a unit, each 512 bytes are one data unit,
/// decrypted under its number in the whole container.
pub proof fn units_are_numbered_through_the_container(
    container: Seq<u8>,
    layers: Seq<LayerKeys>,
    start: int,
    len: int,
    k: int,
    m: int,
)
    requires
        0 <= start,
        0 <= k,
        0 <= m < 512,
        512 * k + m < len,
        512 * (start + k) + 512 <= container.len(),
    ensures
        plain_area(container, layers, 512 * start, len).len() == len,
        plain_area(container, layers, 512 * start, len)[512 * k + m] == unit_decrypted(
            layers,
            container.subrange(512 * (start + k), 512 * (start + k) + 512),
            start + k,
        )[m],
{
    let a = 512 * start + (512 * k + m);
    assert(a / 512 == start + k && a % 512 == m);
    assert(cipher_unit(container, start + k) =~= container.subrange(
        512 * (start + k),
        512 * (start + k) + 512,
    ));
}

/// Whether a byte of a write lies in a region.
pub open spec fn reaches(offset: int, data: Seq<u8>, region: (int, int), p: int) -> bool {
    offset <= p < offset + data.len() && region.0 <= p < region.1
}

/// A write is refused exactly where it has a byte in the protected region, or
/// where one was refused before; one that is not changes what it says and
/// nothing else.
pub proof fn refused_exactly_where_a_byte_is_protected(
    bytes: Seq<u8>,
    latched: bool,
    region: (int, int),
    offset: int,
    data: Seq<u8>,
)
    requires
        0 <= region.0 < u64::MAX,
        region.0 < region.1,
        0 <= offset,
        offset + data.len() <= bytes.len(),
    ensures
        guarded_write(bytes, latched, region, offset, data).1 <==> latched || exists|p: int|
            #[trigger] reaches(offset, data, region, p),
        ({
            let (after, refused) = guarded_write(bytes, latched, region, offset, data);
            &&& after.len() == bytes.len()
            &&& refused ==> after == bytes
            &&& !refused ==> forall|i: int|
                0 <= i < bytes.len() ==> #[trigger] after[i] == (if offset <= i < offset
                    + data.len() {
                    data[i - offset]
                } else {
                    bytes[i]
                })
        }),
{
    let p = if offset >= region.0 {
        offset
    } else {
        region.0
    };
    if data.len() > 0 && offset < region.1 && offset + data.len() > region.0 {
        assert(reaches(offset, data, region, p));
    }
}

/// A new container's two header groups are noise but for the header that each
/// begins with, and what lies between them is as it was; a hidden volume's
/// headers change nothing else.
pub proof fn headers_lie_in_noise(
    disk: Disk,
    prf: PrfModel,
    scheme: Scheme,
    secret: SecretModel,
    size: u64,
    sector_size: u32,
    hidden_size: u64,
    d: Draw,
    h: Draw,
    i: int,
)
    requires
        draw_ok(d, prf, scheme, secret, volume_geometry(size, sector_size)),
        hidden_draw_ok(h, prf, scheme, secret, hidden_geometry(size, sector_size, hidden_size)),
        disk.bytes.len() == size,
        size > 262_144,
        0 <= i < size,
    ensures
        ({
            let made = volume_created(disk, prf, scheme, secret, size, sector_size, d).bytes;
            let both = hidden_created(
                disk,
                prf,
                scheme,
                secret,
                size,
                sector_size,
                hidden_size,
                h,
            ).bytes;
            &&& made.len() == size
            &&& 512 <= i < 131_072 ==> made[i] == d.first_noise[i]
            &&& 131_072 <= i < size - 131_072 ==> made[i] == disk.bytes[i]
            &&& size - 131_072 + 512 <= i ==> made[i] == d.second_noise[i - (size - 131_072)]
            &&& made.subrange(0, 64) == d.first_salt
            &&& made.subrange(size - 131_072, size - 131_072 + 64) == d.second_salt
            &&& both.len() == size
            &&& !(65_536 <= i < 66_048) && !(size - 65_536 <= i < size - 65_536 + 512)
                ==> both[i] == disk.bytes[i]
            &&& both.subrange(65_536, 65_600) == h.first_salt
            &&& both.subrange(size - 65_536, size - 65_536 + 64) == h.second_salt
        }),
{
    let made = volume_created(disk, prf, scheme, secret, size, sector_size, d).bytes;
    let both = hidden_created(disk, prf, scheme, secret, size, sector_size, hidden_size, h).bytes;
    assert(made.subrange(0, 64) =~= d.first_salt);
    assert(made.subrange(size - 131_072, size - 131_072 + 64) =~= d.second_salt);
    assert(both.subrange(65_536, 65_600) =~= h.first_salt);
    assert(both.subrange(size - 65_536, size - 65_536 + 64) =~= h.second_salt);
}

/// A header is rekeyed with its backup, so where its container is long enough
/// for one; and what is looked at to repair one is the other.
pub proof fn a_header_is_rekeyed_with_its_backup(position: HeaderPosition, len: int)
    ensures
        has_backup(position, len) <==> offset_of(position_pair(position).1, len) is Some,
        position_pair(position).1 is BackupPrimary || position_pair(position).1 is BackupHidden,
        primary_only() == seq![HeaderPosition::Primary],
        backup_only() == seq![HeaderPosition::BackupPrimary],
{
}

/// New headers are written, the backup behind the first, and then flushed; and
/// so are headers under a new password.
pub proof fn headers_are_flushed(
    disk: Disk,
    prf: PrfModel,
    scheme: Scheme,
    secret: SecretModel,
    size: u64,
    sector_size: u32,
    hidden_size: u64,
    d: Draw,
    found: FoundModel,
    plaintext: Seq<u8>,
    first_salt: Seq<u8>,
    second_salt: Seq<u8>,
)
    ensures
        ({
            let n = disk.log.len() as int;
            let made = volume_created(disk, prf, scheme, secret, size, sector_size, d).log;
            let hid = hidden_created(
                disk,
                prf,
                scheme,
                secret,
                size,
                sector_size,
                hidden_size,
                d,
            ).log;
            let new = rekeyed(disk, found, secret, plaintext, first_salt, second_salt).log;
            let hidden = found.header.position is Hidden || found.header.position is BackupHidden;
            &&& made.len() == n + 3
            &&& made[n] matches DiskOp::Write { offset, .. } && offset == 0
            &&& made[n + 1] matches DiskOp::Write { offset, .. } && offset == size - 131_072
            &&& made[n + 2] is Flush
            &&& hid.len() == n + 3
            &&& hid[n] matches DiskOp::Write { offset, .. } && offset == 65_536
            &&& hid[n + 1] matches DiskOp::Write { offset, .. } && offset == size - 65_536
            &&& hid[n + 2] is Flush
            &&& new.len() == n + 3
            &&& new[n] matches DiskOp::Write { offset, .. } && offset == (if hidden {
                65_536int
            } else {
                0int
            })
            &&& new[n + 1] matches DiskOp::Write { offset, .. } && offset == disk.bytes.len() - (
            if hidden {
                65_536int
            } else {
                131_072int
            })
            &&& new[n + 2] is Flush
        }),
{
}

} // verus!
