//! New containers: a volume with its header and embedded backup, and a hidden
//! volume inside one.
//!
//! The leading and trailing 128 KiB of a container are header groups; what of
//! them is not a header is random, and so is every header's salt, so that a
//! slot in use looks like one that is not. The data area lies between them. A
//! hidden volume takes the tail of the data area.

use vstd::prelude::*;

use crate::bytes::{
    append, append_be16, append_be32, append_be64, append_zeros, be16, be16_bytes, be32,
    be32_bytes, be64, be64_bytes, put, read_16, read_32, read_64, slice_of, splice, zeroed, zeros,
};
use crate::consts::{BACKUP_HIDDEN_FROM_END, HIDDEN_HEADER_OFFSET};
use crate::crypto::crc::{crc32, crc32_of};
use crate::crypto::kdf::prf_known;
use crate::crypto::keyfile::{apply_keyfiles, contents_of, secret_of};
use crate::crypto::secret::{is_rng_fault, random_fill, wipe};
use crate::crypto::xts::{unit_decrypted, unit_encrypted};
use crate::device::{BlockDevice, Disk};
use crate::error::{fails_with, VcError, VcFault, VcResult};
use crate::format::parse::{header_magic, parsed};
use crate::format::repair::{opens, seal, sealed};
use crate::format::search::{
    all_positions, comes_first, header_layers, prf_registered, registered, scheme_trial, search,
    slot_at, some_match_opens, what_comes_first_is_found, FoundModel, SecretModel, UnlockSecret,
};
use crate::header::{HeaderModel, HeaderPosition, VolumeGeometry};
use crate::registry::{pim_ok, EncryptionScheme, Prf, PrfModel, Scheme};

verus! {

broadcast use crate::bytes::group_widths;

/// Size of a header group.
const GROUP: u64 = 131_072;

/// What both header groups take of a container.
const OVERHEAD: u64 = 262_144;

/// What a hidden volume must leave of the outer data area.
pub const OUTER_MARGIN: u64 = 1_048_576;

/// What a new volume is to be.
pub struct CreateParams<'a> {
    pub scheme: EncryptionScheme,
    pub prf: Prf,
    /// PIM; 0 means the hash's default schedule.
    pub pim: u32,
    pub passphrase: &'a [u8],
    pub keyfiles: &'a [Vec<u8>],
    /// Size of the container in bytes.
    pub size: u64,
    pub sector_size: u32,
}

impl<'a> CreateParams<'a> {
    /// The secret that will open the volume.
    pub open spec fn secret(&self) -> SecretModel {
        SecretModel {
            passphrase: secret_of(self.passphrase@, contents_of(self.keyfiles@)),
            pim: self.pim,
        }
    }

    /// The scheme needs no more key than is ever derived, and the PIM keeps
    /// the iteration count within 32 bits.
    pub open spec fn usable(&self) -> bool {
        self.scheme@.layers.len() <= 3 && pim_ok(self.pim)
    }
}

/// The plaintext of a header.
#[verifier::opaque]
pub open spec fn header_plaintext(g: VolumeGeometry, master_keys: Seq<u8>) -> Seq<u8> {
    let fields = header_region_fields(g, master_keys);
    fields + be32_bytes(crc32_of(fields)) + master_keys
}

/// The part of a header that its checksum covers.
pub open spec fn header_region_fields(g: VolumeGeometry, master_keys: Seq<u8>) -> Seq<u8> {
    header_magic() + be16_bytes(5) + be16_bytes(0x010b) + be32_bytes(crc32_of(master_keys)) + zeros(
        16,
    ) + be64_bytes(g.hidden_volume_size) + be64_bytes(g.volume_size) + be64_bytes(
        g.encrypted_area_start,
    ) + be64_bytes(g.encrypted_area_size) + be32_bytes(0) + be32_bytes(g.sector_size) + zeros(120)
}

/// A header that is built parses back to what it was built from.
#[verifier::spinoff_prover]
#[verifier::rlimit(40)]
pub proof fn built_header_parses(g: VolumeGeometry, master_keys: Seq<u8>, position: HeaderPosition)
    requires
        master_keys.len() == 256,
        g.sector_size == 512 || g.sector_size == 4096,
    ensures
        header_plaintext(g, master_keys).len() == 448,
        parsed(header_plaintext(g, master_keys), position) == Ok::<HeaderModel, VcFault>(
            HeaderModel {
                header_version: 5,
                min_program_version: 0x010b,
                flags: 0,
                geometry: g,
                position,
                master_keys,
            },
        ),
{
    reveal(header_plaintext);
    let f = header_region_fields(g, master_keys);
    let p = header_plaintext(g, master_keys);
    lemma_field_layout(
        header_magic(),
        be16_bytes(5),
        be16_bytes(0x010b),
        be32_bytes(crc32_of(master_keys)),
        be64_bytes(g.hidden_volume_size),
        be64_bytes(g.volume_size),
        be64_bytes(g.encrypted_area_start),
        be64_bytes(g.encrypted_area_size),
        be32_bytes(0),
        be32_bytes(g.sector_size),
        be32_bytes(crc32_of(f)),
        master_keys,
    );
    lemma_fields_read(p, g, crc32_of(master_keys), crc32_of(f));
    lemma_fields_parse(p, g, master_keys, position);
}

#[verifier::spinoff_prover]
proof fn lemma_fields_parse(
    p: Seq<u8>,
    g: VolumeGeometry,
    master_keys: Seq<u8>,
    position: HeaderPosition,
)
    requires
        g.sector_size == 512 || g.sector_size == 4096,
        slice_of(p, 0, 4) == header_magic(),
        slice_of(p, 192, 256) == master_keys,
        be16(p, 4) == 5,
        be16(p, 6) == 0x010b,
        be32(p, 8) == crc32_of(master_keys),
        be64(p, 28) == g.hidden_volume_size,
        be64(p, 36) == g.volume_size,
        be64(p, 44) == g.encrypted_area_start,
        be64(p, 52) == g.encrypted_area_size,
        be32(p, 60) == 0,
        be32(p, 64) == g.sector_size,
        be32(p, 188) == crc32_of(slice_of(p, 0, 188)),
    ensures
        parsed(p, position) == Ok::<HeaderModel, VcFault>(
            HeaderModel {
                header_version: 5,
                min_program_version: 0x010b,
                flags: 0,
                geometry: g,
                position,
                master_keys,
            },
        ),
{
    assert(0u32 & 1 == 0) by (bit_vector);
}

/// Where the pieces of a header come to lie.
#[verifier::spinoff_prover]
proof fn lemma_field_layout(
    magic: Seq<u8>,
    version: Seq<u8>,
    program: Seq<u8>,
    key_crc: Seq<u8>,
    hidden: Seq<u8>,
    volume: Seq<u8>,
    start: Seq<u8>,
    size: Seq<u8>,
    flags: Seq<u8>,
    sector: Seq<u8>,
    crc: Seq<u8>,
    keys: Seq<u8>,
)
    requires
        magic.len() == 4,
        version.len() == 2,
        program.len() == 2,
        key_crc.len() == 4,
        hidden.len() == 8,
        volume.len() == 8,
        start.len() == 8,
        size.len() == 8,
        flags.len() == 4,
        sector.len() == 4,
        crc.len() == 4,
        keys.len() == 256,
    ensures
        ({
            let f = magic + version + program + key_crc + zeros(16) + hidden + volume + start + size
                + flags + sector + zeros(120);
            let p = f + crc + keys;
            &&& f.len() == 188
            &&& p.len() == 448
            &&& slice_of(p, 0, 4) == magic
            &&& slice_of(p, 4, 2) == version
            &&& slice_of(p, 6, 2) == program
            &&& slice_of(p, 8, 4) == key_crc
            &&& slice_of(p, 28, 8) == hidden
            &&& slice_of(p, 36, 8) == volume
            &&& slice_of(p, 44, 8) == start
            &&& slice_of(p, 52, 8) == size
            &&& slice_of(p, 60, 4) == flags
            &&& slice_of(p, 64, 4) == sector
            &&& slice_of(p, 0, 188) == f
            &&& slice_of(p, 188, 4) == crc
            &&& slice_of(p, 192, 256) == keys
        }),
{
    let f = magic + version + program + key_crc + zeros(16) + hidden + volume + start + size + flags
        + sector + zeros(120);
    let p = f + crc + keys;
    assert(f.len() == 188);
    assert(slice_of(p, 0, 4) =~= magic);
    assert(slice_of(p, 4, 2) =~= version);
    assert(slice_of(p, 6, 2) =~= program);
    assert(slice_of(p, 8, 4) =~= key_crc);
    assert(slice_of(p, 28, 8) =~= hidden);
    assert(slice_of(p, 36, 8) =~= volume);
    assert(slice_of(p, 44, 8) =~= start);
    assert(slice_of(p, 52, 8) =~= size);
    assert(slice_of(p, 60, 4) =~= flags);
    assert(slice_of(p, 64, 4) =~= sector);
    assert(slice_of(p, 0, 188) =~= f);
    assert(slice_of(p, 188, 4) =~= crc);
    assert(slice_of(p, 192, 256) =~= keys);
}

#[verifier::spinoff_prover]
proof fn lemma_fields_read(p: Seq<u8>, g: VolumeGeometry, key_crc: u32, crc: u32)
    requires
        p.len() == 448,
        slice_of(p, 4, 2) == be16_bytes(5),
        slice_of(p, 6, 2) == be16_bytes(0x010b),
        slice_of(p, 8, 4) == be32_bytes(key_crc),
        slice_of(p, 28, 8) == be64_bytes(g.hidden_volume_size),
        slice_of(p, 36, 8) == be64_bytes(g.volume_size),
        slice_of(p, 44, 8) == be64_bytes(g.encrypted_area_start),
        slice_of(p, 52, 8) == be64_bytes(g.encrypted_area_size),
        slice_of(p, 60, 4) == be32_bytes(0),
        slice_of(p, 64, 4) == be32_bytes(g.sector_size),
        slice_of(p, 188, 4) == be32_bytes(crc),
    ensures
        be16(p, 4) == 5,
        be16(p, 6) == 0x010b,
        be32(p, 8) == key_crc,
        be64(p, 28) == g.hidden_volume_size,
        be64(p, 36) == g.volume_size,
        be64(p, 44) == g.encrypted_area_start,
        be64(p, 52) == g.encrypted_area_size,
        be32(p, 60) == 0,
        be32(p, 64) == g.sector_size,
        be32(p, 188) == crc,
{
    read_16(p, 4, 5);
    read_16(p, 6, 0x010b);
    read_32(p, 8, key_crc);
    read_64(p, 28, g.hidden_volume_size);
    read_64(p, 36, g.volume_size);
    read_64(p, 44, g.encrypted_area_start);
    read_64(p, 52, g.encrypted_area_size);
    read_32(p, 60, 0);
    read_32(p, 64, g.sector_size);
    read_32(p, 188, crc);
}

proof fn built_header_len(g: VolumeGeometry, master_keys: Seq<u8>)
    requires
        master_keys.len() == 256,
    ensures
        header_plaintext(g, master_keys).len() == 448,
{
    reveal(header_plaintext);
}

fn build_header(g: &VolumeGeometry, master_keys: &[u8; 256]) -> (r: [u8; 448])
    ensures
        r@ == header_plaintext(*g, master_keys@),
{
    let mut v: Vec<u8> = Vec::new();
    let magic: [u8; 4] = [0x56, 0x45, 0x52, 0x41];
    append(&mut v, magic.as_slice());
    append_be16(&mut v, 5);
    append_be16(&mut v, 0x010b);
    append_be32(&mut v, crc32(master_keys.as_slice()));
    append_zeros(&mut v, 16);
    append_be64(&mut v, g.hidden_volume_size);
    append_be64(&mut v, g.volume_size);
    append_be64(&mut v, g.encrypted_area_start);
    append_be64(&mut v, g.encrypted_area_size);
    append_be32(&mut v, 0);
    append_be32(&mut v, g.sector_size);
    append_zeros(&mut v, 120);
    assert(v@ =~= header_region_fields(*g, master_keys@)) by {
        assert(magic@ =~= header_magic());
    }
    let crc: u32 = crc32(v.as_slice());
    append_be32(&mut v, crc);
    append(&mut v, master_keys.as_slice());
    assert(v@ =~= header_plaintext(*g, master_keys@)) by {
        reveal(header_plaintext);
    }
    proof {
        built_header_len(*g, master_keys@);
    }
    let mut out: [u8; 448] = [0u8; 448];
    put(&mut out, 0, v.as_slice());
    wipe(v.as_mut_slice());
    assert(out@ =~= header_plaintext(*g, master_keys@));
    out
}

/// Why a volume of these measures cannot be created, if it cannot.
pub open spec fn volume_refusal(size: u64, sector_size: u32) -> Option<VcFault> {
    if sector_size != 512 && sector_size != 4096 {
        Some(VcFault::Internal("unsupported sector size"@))
    } else if size <= 262_144 {
        Some(VcFault::Internal("container too small"@))
    } else if size as int % sector_size as int != 0 {
        Some(VcFault::Internal("container size is not a multiple of the sector size"@))
    } else {
        None
    }
}

/// The geometry of a new volume: everything between the header groups.
pub open spec fn volume_geometry(size: u64, sector_size: u32) -> VolumeGeometry {
    VolumeGeometry {
        volume_size: (size - 262_144) as u64,
        encrypted_area_start: 131_072,
        encrypted_area_size: (size - 262_144) as u64,
        sector_size,
        hidden_volume_size: 0,
    }
}

/// Why a hidden volume of these measures cannot be created, if it cannot.
pub open spec fn hidden_refusal(size: u64, sector_size: u32, hidden_size: u64) -> Option<VcFault> {
    if volume_refusal(size, sector_size) is Some {
        volume_refusal(size, sector_size)
    } else if hidden_size == 0 || hidden_size as int % sector_size as int != 0 {
        Some(VcFault::Internal("hidden size is not a positive multiple of the sector size"@))
    } else if hidden_size + 1_048_576 > size - 262_144 {
        Some(VcFault::Internal("hidden volume leaves the outer volume too little room"@))
    } else {
        None
    }
}

/// The geometry of a new hidden volume: the tail of the data area.
pub open spec fn hidden_geometry(size: u64, sector_size: u32, hidden_size: u64) -> VolumeGeometry {
    VolumeGeometry {
        volume_size: hidden_size,
        encrypted_area_start: (size - 131_072 - hidden_size) as u64,
        encrypted_area_size: hidden_size,
        sector_size,
        hidden_volume_size: hidden_size,
    }
}

fn check_volume(size: u64, sector_size: u32) -> (r: VcResult<()>)
    ensures
        match volume_refusal(size, sector_size) {
            Some(f) => fails_with(r, f),
            None => r is Ok,
        },
{
    if sector_size != 512 && sector_size != 4096 {
        Err(VcError::Internal("unsupported sector size".to_string()))
    } else if size <= OVERHEAD {
        Err(VcError::Internal("container too small".to_string()))
    } else if size % (sector_size as u64) != 0 {
        Err(
            VcError::Internal(
                "container size is not a multiple of the sector size".to_string(),
            ),
        )
    } else {
        Ok(())
    }
}

/// A header group: the sealed header, and randomness behind it.
pub open spec fn group_of(region: Seq<u8>, noise: Seq<u8>) -> Seq<u8> {
    splice(noise, 0, region)
}

/// What is random in a new volume.
pub struct Draw {
    pub master_keys: Seq<u8>,
    pub first_salt: Seq<u8>,
    pub second_salt: Seq<u8>,
    pub first_noise: Seq<u8>,
    pub second_noise: Seq<u8>,
}

/// A draw has the right lengths, and the headers made with it open.
pub open spec fn draw_ok(
    d: Draw,
    prf: PrfModel,
    scheme: Scheme,
    secret: SecretModel,
    g: VolumeGeometry,
) -> bool {
    &&& d.master_keys.len() == 256
    &&& d.first_salt.len() == 64
    &&& d.second_salt.len() == 64
    &&& d.first_noise.len() == 131_072
    &&& d.second_noise.len() == 131_072
    &&& opens(prf, scheme, secret, d.first_salt, header_plaintext(g, d.master_keys))
    &&& opens(prf, scheme, secret, d.second_salt, header_plaintext(g, d.master_keys))
}

/// A container once a volume is created in it: both header groups are written,
/// and nothing else.
pub open spec fn volume_created(
    disk: Disk,
    prf: PrfModel,
    scheme: Scheme,
    secret: SecretModel,
    size: u64,
    sector_size: u32,
    d: Draw,
) -> Disk {
    let plaintext = header_plaintext(volume_geometry(size, sector_size), d.master_keys);
    disk.written(
        0,
        group_of(sealed(prf, scheme, secret, d.first_salt, plaintext), d.first_noise),
    ).written(
        size - 131_072,
        group_of(sealed(prf, scheme, secret, d.second_salt, plaintext), d.second_noise),
    ).flushed()
}

/// A container once a hidden volume is created in it: its header and the
/// header's backup are written, and nothing else.
pub open spec fn hidden_created(
    disk: Disk,
    prf: PrfModel,
    scheme: Scheme,
    secret: SecretModel,
    size: u64,
    sector_size: u32,
    hidden_size: u64,
    d: Draw,
) -> Disk {
    let plaintext = header_plaintext(
        hidden_geometry(size, sector_size, hidden_size),
        d.master_keys,
    );
    disk.written(65_536, sealed(prf, scheme, secret, d.first_salt, plaintext)).written(
        size - 65_536,
        sealed(prf, scheme, secret, d.second_salt, plaintext),
    ).flushed()
}

/// A header group around a sealed region.
fn group_around(noise: Vec<u8>, region: &[u8]) -> (r: Vec<u8>)
    requires
        region@.len() == 512,
        noise@.len() == 131_072,
    ensures
        r@ == group_of(region@, noise@),
{
    let mut group: Vec<u8> = noise;
    put(group.as_mut_slice(), 0, region);
    group
}

/// Whether a disk has room for `size` bytes.
pub open spec fn has_room_for(disk: Disk, size: u64) -> bool {
    !disk.fixed || size <= disk.bytes.len()
}

/// What is said of a hash that nothing here computes.
pub open spec fn unknown_prf(name: Seq<char>) -> VcFault {
    VcFault::Internal("unknown PRF "@ + name)
}

/// Draw master keys; where that fails, nothing of what was drawn is left.
fn fill_keys(keys: &mut [u8; 256]) -> (r: VcResult<()>)
    ensures
        r matches Err(e) ==> is_rng_fault(e@) && final(keys)@ == zeros(256),
{
    match random_fill(keys) {
        Ok(_) => Ok(()),
        Err(e) => {
            wipe(keys);
            Err(e)
        },
    }
}

/// Write a fresh volume into `dev`, which is to be `params.size` bytes long:
/// random master keys, sealed twice under the secret. Returns where the data
/// area starts and how long it is. Of what is drawn nothing is said but that
/// the headers made with it open; where drawing fails, nothing is written.
pub fn create_volume<D: BlockDevice>(dev: &mut D, params: &CreateParams<'_>) -> (r: VcResult<
    (u64, u64),
>)
    requires
        params.usable(),
    ensures
        old(dev).reliable() ==> final(dev).reliable(),
        match volume_refusal(params.size, params.sector_size) {
            Some(f) => fails_with(r, f) && final(dev).disk() == old(dev).disk(),
            None => {
                &&& r matches Ok(area) ==> area == (131_072u64, (params.size - 262_144) as u64)
                    && exists|d: Draw|
                    #![trigger volume_created(old(dev).disk(), params.prf@, params.scheme@, params.secret(), params.size, params.sector_size, d)]
                    draw_ok(
                        d,
                        params.prf@,
                        params.scheme@,
                        params.secret(),
                        volume_geometry(params.size, params.sector_size),
                    ) && final(dev).disk() == volume_created(
                        old(dev).disk(),
                        params.prf@,
                        params.scheme@,
                        params.secret(),
                        params.size,
                        params.sector_size,
                        d,
                    )
                &&& !prf_known(params.prf@.name) ==> final(dev).disk() == old(dev).disk() && (
                fails_with(r, unknown_prf(params.prf@.name)) || (r matches Err(e) && is_rng_fault(
                    e@,
                )))
                &&& prf_known(params.prf@.name) && old(dev).reliable() && has_room_for(
                    old(dev).disk(),
                    params.size,
                ) ==> (r matches Err(e) ==> is_rng_fault(e@) && final(dev).disk() == old(
                    dev,
                ).disk())
            },
        },
{
    check_volume(params.size, params.sector_size)?;
    // What is secret is drawn last: nothing can fail between that and the end.
    let mut first_salt: [u8; 64] = [0u8; 64];
    random_fill(&mut first_salt)?;
    let mut second_salt: [u8; 64] = [0u8; 64];
    random_fill(&mut second_salt)?;
    let mut first_noise: Vec<u8> = zeroed(131_072);
    random_fill(first_noise.as_mut_slice())?;
    let mut second_noise: Vec<u8> = zeroed(131_072);
    random_fill(second_noise.as_mut_slice())?;
    let mut keys: [u8; 256] = [0u8; 256];
    fill_keys(&mut keys)?;
    let made: VcResult<(u64, u64)> = lay_volume(
        dev,
        params,
        &keys,
        &first_salt,
        &second_salt,
        first_noise,
        second_noise,
    );
    wipe(&mut keys);
    made
}

/// Write a fresh volume with the given master keys, salts and randomness.
pub fn lay_volume<D: BlockDevice>(
    dev: &mut D,
    params: &CreateParams<'_>,
    keys: &[u8; 256],
    first_salt: &[u8; 64],
    second_salt: &[u8; 64],
    first_noise: Vec<u8>,
    second_noise: Vec<u8>,
) -> (r: VcResult<(u64, u64)>)
    requires
        params.usable(),
        first_noise@.len() == 131_072,
        second_noise@.len() == 131_072,
    ensures
        old(dev).reliable() ==> final(dev).reliable(),
        match volume_refusal(params.size, params.sector_size) {
            Some(f) => fails_with(r, f) && final(dev).disk() == old(dev).disk(),
            None => {
                let d = Draw {
                    master_keys: keys@,
                    first_salt: first_salt@,
                    second_salt: second_salt@,
                    first_noise: first_noise@,
                    second_noise: second_noise@,
                };
                &&& r matches Ok(area) ==> area == (131_072u64, (params.size - 262_144) as u64)
                    && draw_ok(
                    d,
                    params.prf@,
                    params.scheme@,
                    params.secret(),
                    volume_geometry(params.size, params.sector_size),
                ) && final(dev).disk() == volume_created(
                    old(dev).disk(),
                    params.prf@,
                    params.scheme@,
                    params.secret(),
                    params.size,
                    params.sector_size,
                    d,
                )
                &&& !prf_known(params.prf@.name) ==> fails_with(r, unknown_prf(params.prf@.name))
                    && final(dev).disk() == old(dev).disk()
                &&& prf_known(params.prf@.name) && old(dev).reliable() && has_room_for(
                    old(dev).disk(),
                    params.size,
                ) ==> r is Ok
            },
        },
{
    check_volume(params.size, params.sector_size)?;
    let g = VolumeGeometry {
        volume_size: params.size - OVERHEAD,
        encrypted_area_start: GROUP,
        encrypted_area_size: params.size - OVERHEAD,
        sector_size: params.sector_size,
        hidden_volume_size: 0,
    };
    assert(g == volume_geometry(params.size, params.sector_size));
    let (front, back): (Vec<u8>, Vec<u8>) = sealed_pair(params, &g, keys, first_salt, second_salt)?;
    let front: Vec<u8> = group_around(first_noise, front.as_slice());
    let back: Vec<u8> = group_around(second_noise, back.as_slice());
    dev.write_at(0, front.as_slice())?;
    dev.write_at(params.size - GROUP, back.as_slice())?;
    dev.flush()?;
    Ok((GROUP, params.size - OVERHEAD))
}

/// A header of the given geometry and keys, sealed twice under the secret.
fn sealed_pair(
    params: &CreateParams<'_>,
    g: &VolumeGeometry,
    keys: &[u8; 256],
    first_salt: &[u8; 64],
    second_salt: &[u8; 64],
) -> (r: VcResult<(Vec<u8>, Vec<u8>)>)
    requires
        params.usable(),
    ensures
        ({
            let plaintext = header_plaintext(*g, keys@);
            &&& prf_known(params.prf@.name) ==> r is Ok
            &&& !prf_known(params.prf@.name) ==> fails_with(r, unknown_prf(params.prf@.name))
            &&& r matches Ok((a, b)) ==> {
                &&& a@ == sealed(
                    params.prf@,
                    params.scheme@,
                    params.secret(),
                    first_salt@,
                    plaintext,
                )
                &&& b@ == sealed(
                    params.prf@,
                    params.scheme@,
                    params.secret(),
                    second_salt@,
                    plaintext,
                )
                &&& a@.len() == 512
                &&& b@.len() == 512
                &&& opens(params.prf@, params.scheme@, params.secret(), first_salt@, plaintext)
                &&& opens(params.prf@, params.scheme@, params.secret(), second_salt@, plaintext)
            }
        }),
{
    let mut secret: Vec<u8> = apply_keyfiles(params.passphrase, params.keyfiles);
    let mut plaintext: [u8; 448] = build_header(g, keys);
    let made: VcResult<(Vec<u8>, Vec<u8>)> = {
        let unlock = UnlockSecret { passphrase: secret.as_slice(), pim: params.pim };
        match seal(&params.prf, &params.scheme, &unlock, first_salt, &plaintext) {
            Err(e) => Err(e),
            Ok(front) => match seal(&params.prf, &params.scheme, &unlock, second_salt, &plaintext) {
                Err(e) => Err(e),
                Ok(back) => Ok((front, back)),
            },
        }
    };
    wipe(&mut plaintext);
    wipe(secret.as_mut_slice());
    made
}

/// Write the header of a hidden volume of `hidden_data_size` bytes into `dev`,
/// which already holds an outer volume of `params.size` bytes. The outer
/// header records no trace of it. Returns where the hidden data area starts
/// and how long it is. Of what is drawn nothing is said but that the headers
/// made with it open; where drawing fails, nothing is written.
pub fn create_hidden<D: BlockDevice>(
    dev: &mut D,
    params: &CreateParams<'_>,
    hidden_data_size: u64,
) -> (r: VcResult<(u64, u64)>)
    requires
        params.usable(),
    ensures
        old(dev).reliable() ==> final(dev).reliable(),
        match hidden_refusal(params.size, params.sector_size, hidden_data_size) {
            Some(f) => fails_with(r, f) && final(dev).disk() == old(dev).disk(),
            None => {
                &&& r matches Ok(area) ==> area == (
                    (params.size - 131_072 - hidden_data_size) as u64,
                    hidden_data_size,
                ) && exists|d: Draw|
                    #![trigger hidden_created(old(dev).disk(), params.prf@, params.scheme@, params.secret(), params.size, params.sector_size, hidden_data_size, d)]
                    hidden_draw_ok(
                        d,
                        params.prf@,
                        params.scheme@,
                        params.secret(),
                        hidden_geometry(params.size, params.sector_size, hidden_data_size),
                    ) && final(dev).disk() == hidden_created(
                        old(dev).disk(),
                        params.prf@,
                        params.scheme@,
                        params.secret(),
                        params.size,
                        params.sector_size,
                        hidden_data_size,
                        d,
                    )
                &&& !prf_known(params.prf@.name) ==> final(dev).disk() == old(dev).disk() && (
                fails_with(r, unknown_prf(params.prf@.name)) || (r matches Err(e) && is_rng_fault(
                    e@,
                )))
                &&& prf_known(params.prf@.name) && old(dev).reliable() && has_room_for(
                    old(dev).disk(),
                    params.size,
                ) ==> (r matches Err(e) ==> is_rng_fault(e@) && final(dev).disk() == old(
                    dev,
                ).disk())
            },
        },
{
    check_hidden(params.size, params.sector_size, hidden_data_size)?;
    // What is secret is drawn last: nothing can fail between that and the end.
    let mut first_salt: [u8; 64] = [0u8; 64];
    random_fill(&mut first_salt)?;
    let mut second_salt: [u8; 64] = [0u8; 64];
    random_fill(&mut second_salt)?;
    let mut keys: [u8; 256] = [0u8; 256];
    fill_keys(&mut keys)?;
    let made: VcResult<(u64, u64)> = lay_hidden(
        dev,
        params,
        hidden_data_size,
        &keys,
        &first_salt,
        &second_salt,
    );
    wipe(&mut keys);
    made
}

fn check_hidden(size: u64, sector_size: u32, hidden_size: u64) -> (r: VcResult<()>)
    ensures
        match hidden_refusal(size, sector_size, hidden_size) {
            Some(f) => fails_with(r, f),
            None => r is Ok,
        },
{
    check_volume(size, sector_size)?;
    if hidden_size == 0 || hidden_size % (sector_size as u64) != 0 {
        return Err(
            VcError::Internal(
                "hidden size is not a positive multiple of the sector size".to_string(),
            ),
        );
    }
    let data_size: u64 = size - OVERHEAD;
    if data_size < OUTER_MARGIN || hidden_size > data_size - OUTER_MARGIN {
        return Err(
            VcError::Internal(
                "hidden volume leaves the outer volume too little room".to_string(),
            ),
        );
    }
    Ok(())
}

/// A hidden volume's draw has the right lengths, and its headers open.
pub open spec fn hidden_draw_ok(
    d: Draw,
    prf: PrfModel,
    scheme: Scheme,
    secret: SecretModel,
    g: VolumeGeometry,
) -> bool {
    &&& d.master_keys.len() == 256
    &&& d.first_salt.len() == 64
    &&& d.second_salt.len() == 64
    &&& opens(prf, scheme, secret, d.first_salt, header_plaintext(g, d.master_keys))
    &&& opens(prf, scheme, secret, d.second_salt, header_plaintext(g, d.master_keys))
}

/// Write the header of a hidden volume with the given master keys and salts.
pub fn lay_hidden<D: BlockDevice>(
    dev: &mut D,
    params: &CreateParams<'_>,
    hidden_data_size: u64,
    keys: &[u8; 256],
    first_salt: &[u8; 64],
    second_salt: &[u8; 64],
) -> (r: VcResult<(u64, u64)>)
    requires
        params.usable(),
    ensures
        old(dev).reliable() ==> final(dev).reliable(),
        match hidden_refusal(params.size, params.sector_size, hidden_data_size) {
            Some(f) => fails_with(r, f) && final(dev).disk() == old(dev).disk(),
            None => {
                let d = Draw {
                    master_keys: keys@,
                    first_salt: first_salt@,
                    second_salt: second_salt@,
                    first_noise: seq![],
                    second_noise: seq![],
                };
                &&& r matches Ok(area) ==> area == (
                    (params.size - 131_072 - hidden_data_size) as u64,
                    hidden_data_size,
                ) && hidden_draw_ok(
                    d,
                    params.prf@,
                    params.scheme@,
                    params.secret(),
                    hidden_geometry(params.size, params.sector_size, hidden_data_size),
                ) && final(dev).disk() == hidden_created(
                    old(dev).disk(),
                    params.prf@,
                    params.scheme@,
                    params.secret(),
                    params.size,
                    params.sector_size,
                    hidden_data_size,
                    d,
                )
                &&& !prf_known(params.prf@.name) ==> fails_with(r, unknown_prf(params.prf@.name))
                    && final(dev).disk() == old(dev).disk()
                &&& prf_known(params.prf@.name) && old(dev).reliable() && has_room_for(
                    old(dev).disk(),
                    params.size,
                ) ==> r is Ok
            },
        },
{
    check_hidden(params.size, params.sector_size, hidden_data_size)?;
    let g = VolumeGeometry {
        volume_size: hidden_data_size,
        encrypted_area_start: params.size - GROUP - hidden_data_size,
        encrypted_area_size: hidden_data_size,
        sector_size: params.sector_size,
        hidden_volume_size: hidden_data_size,
    };
    assert(g == hidden_geometry(params.size, params.sector_size, hidden_data_size));
    let (front, back): (Vec<u8>, Vec<u8>) = sealed_pair(params, &g, keys, first_salt, second_salt)?;
    dev.write_at(HIDDEN_HEADER_OFFSET, front.as_slice())?;
    dev.write_at(params.size - BACKUP_HIDDEN_FROM_END, back.as_slice())?;
    dev.flush()?;
    Ok((params.size - GROUP - hidden_data_size, hidden_data_size))
}

/// A container that was created unlocks with its secret: the primary slot and
/// its backup hold, under the chosen hash and scheme, a header of the chosen
/// geometry with the drawn keys, and a full search succeeds. Where nothing that
/// it tries before the primary slot, the chosen hash and the chosen scheme holds
/// a valid header by chance, it is these that it reports, with that header.
#[verifier::spinoff_prover]
pub proof fn created_volume_opens(
    disk: Disk,
    prf: PrfModel,
    scheme: Scheme,
    secret: SecretModel,
    size: u64,
    sector_size: u32,
    d: Draw,
)
    requires
        volume_refusal(size, sector_size) is None,
        disk.bytes.len() == size,
        registered(scheme),
        prf_registered(prf),
        draw_ok(d, prf, scheme, secret, volume_geometry(size, sector_size)),
    ensures
        ({
            let after = volume_created(disk, prf, scheme, secret, size, sector_size, d).bytes;
            let header = HeaderModel {
                header_version: 5,
                min_program_version: 0x010b,
                flags: 0,
                geometry: volume_geometry(size, sector_size),
                position: HeaderPosition::Primary,
                master_keys: d.master_keys,
            };
            &&& scheme_trial(prf, scheme, secret, slot_at(after, HeaderPosition::Primary)) == Ok::<
                HeaderModel,
                VcFault,
            >(header)
            &&& scheme_trial(prf, scheme, secret, slot_at(after, HeaderPosition::BackupPrimary))
                == Ok::<HeaderModel, VcFault>(
                HeaderModel { position: HeaderPosition::BackupPrimary, ..header },
            )
            &&& search(after, secret, all_positions()) is Ok
            &&& comes_first(after, secret, prf, scheme, HeaderPosition::Primary) ==> search(
                after,
                secret,
                all_positions(),
            ) == Ok::<FoundModel, VcFault>(FoundModel { header, scheme, prf })
        }),
{
    let g = volume_geometry(size, sector_size);
    let plaintext = header_plaintext(g, d.master_keys);
    let after = volume_created(disk, prf, scheme, secret, size, sector_size, d).bytes;
    built_header_parses(g, d.master_keys, HeaderPosition::Primary);
    built_header_parses(g, d.master_keys, HeaderPosition::BackupPrimary);
    assert(after.len() == size);
    let first = sealed(prf, scheme, secret, d.first_salt, plaintext);
    let second = sealed(prf, scheme, secret, d.second_salt, plaintext);
    lemma_sealed_opens(prf, scheme, secret, d.first_salt, plaintext);
    lemma_sealed_opens(prf, scheme, secret, d.second_salt, plaintext);
    assert forall|k: int| 0 <= k < 512 implies after[0 + k] == #[trigger] first[k] by {}
    assert forall|k: int| 0 <= k < 512 implies after[size - 131_072 + k] == #[trigger] second[k] by {}
    lemma_slot_reads(after, 0, first, d.first_salt);
    lemma_slot_reads(after, size - 131_072, second, d.second_salt);
    assert(all_positions()[0] == HeaderPosition::Primary);
    some_match_opens(after, secret, all_positions(), 0, prf, scheme);
    if comes_first(after, secret, prf, scheme, HeaderPosition::Primary) {
        what_comes_first_is_found(after, secret, prf, scheme, HeaderPosition::Primary);
    }
}

/// A hidden volume that was created unlocks with its secret: the hidden slot
/// and its backup hold a header of the chosen geometry with the drawn keys.
/// Everything outside those two regions stays, the outer headers included.
#[verifier::spinoff_prover]
pub proof fn created_hidden_opens(
    disk: Disk,
    prf: PrfModel,
    scheme: Scheme,
    secret: SecretModel,
    size: u64,
    sector_size: u32,
    hidden_size: u64,
    d: Draw,
)
    requires
        hidden_refusal(size, sector_size, hidden_size) is None,
        disk.bytes.len() == size,
        registered(scheme),
        prf_registered(prf),
        hidden_draw_ok(d, prf, scheme, secret, hidden_geometry(size, sector_size, hidden_size)),
    ensures
        ({
            let after = hidden_created(
                disk,
                prf,
                scheme,
                secret,
                size,
                sector_size,
                hidden_size,
                d,
            ).bytes;
            let header = HeaderModel {
                header_version: 5,
                min_program_version: 0x010b,
                flags: 0,
                geometry: hidden_geometry(size, sector_size, hidden_size),
                position: HeaderPosition::Hidden,
                master_keys: d.master_keys,
            };
            &&& scheme_trial(prf, scheme, secret, slot_at(after, HeaderPosition::Hidden)) == Ok::<
                HeaderModel,
                VcFault,
            >(header)
            &&& scheme_trial(prf, scheme, secret, slot_at(after, HeaderPosition::BackupHidden))
                == Ok::<HeaderModel, VcFault>(
                HeaderModel { position: HeaderPosition::BackupHidden, ..header },
            )
            &&& search(after, secret, all_positions()) is Ok
            &&& slot_at(after, HeaderPosition::Primary) == slot_at(
                disk.bytes,
                HeaderPosition::Primary,
            )
            &&& slot_at(after, HeaderPosition::BackupPrimary) == slot_at(
                disk.bytes,
                HeaderPosition::BackupPrimary,
            )
            &&& forall|i: int|
                0 <= i < size && !(65_536 <= i < 66_048) && !(size - 65_536 <= i < size - 65_024)
                    ==> after[i] == #[trigger] disk.bytes[i]
        }),
{
    let g = hidden_geometry(size, sector_size, hidden_size);
    let plaintext = header_plaintext(g, d.master_keys);
    let after = hidden_created(
        disk,
        prf,
        scheme,
        secret,
        size,
        sector_size,
        hidden_size,
        d,
    ).bytes;
    built_header_parses(g, d.master_keys, HeaderPosition::Hidden);
    built_header_parses(g, d.master_keys, HeaderPosition::BackupHidden);
    assert(after.len() == size);
    let first = sealed(prf, scheme, secret, d.first_salt, plaintext);
    let second = sealed(prf, scheme, secret, d.second_salt, plaintext);
    lemma_sealed_opens(prf, scheme, secret, d.first_salt, plaintext);
    lemma_sealed_opens(prf, scheme, secret, d.second_salt, plaintext);
    assert forall|k: int| 0 <= k < 512 implies after[65_536 + k] == #[trigger] first[k] by {}
    assert forall|k: int| 0 <= k < 512 implies after[size - 65_536 + k] == #[trigger] second[k] by {}
    lemma_slot_reads(after, 65_536, first, d.first_salt);
    lemma_slot_reads(after, size - 65_536, second, d.second_salt);
    assert(all_positions()[1] == HeaderPosition::Hidden);
    some_match_opens(after, secret, all_positions(), 1, prf, scheme);
    assert(slot_at(after, HeaderPosition::Primary) =~= slot_at(
        disk.bytes,
        HeaderPosition::Primary,
    ));
    assert(slot_at(after, HeaderPosition::BackupPrimary) =~= slot_at(
        disk.bytes,
        HeaderPosition::BackupPrimary,
    ));
}

/// Two secrets select two volumes: in a container that holds an outer and a
/// hidden volume, the outer secret opens, in the outer places, what was created
/// first, and the hidden secret opens, in the hidden ones, what was created
/// second. Each is found among its own places; and where nothing that a full
/// search tries before holds a valid header by chance, the outer secret finds
/// the outer volume's primary header, and the hidden one the hidden header, of
/// which the data area starts elsewhere.
pub proof fn two_secrets_select_two_volumes(
    disk: Disk,
    prf: PrfModel,
    scheme: Scheme,
    secret: SecretModel,
    size: u64,
    sector_size: u32,
    d: Draw,
    hidden_prf: PrfModel,
    hidden_scheme: Scheme,
    hidden_secret: SecretModel,
    hidden_sector_size: u32,
    hidden_size: u64,
    hidden_d: Draw,
)
    requires
        volume_refusal(size, sector_size) is None,
        hidden_refusal(size, hidden_sector_size, hidden_size) is None,
        disk.bytes.len() == size,
        registered(scheme),
        prf_registered(prf),
        registered(hidden_scheme),
        prf_registered(hidden_prf),
        draw_ok(d, prf, scheme, secret, volume_geometry(size, sector_size)),
        hidden_draw_ok(
            hidden_d,
            hidden_prf,
            hidden_scheme,
            hidden_secret,
            hidden_geometry(size, hidden_sector_size, hidden_size),
        ),
    ensures
        ({
            let once = volume_created(disk, prf, scheme, secret, size, sector_size, d);
            let both = hidden_created(
                once,
                hidden_prf,
                hidden_scheme,
                hidden_secret,
                size,
                hidden_sector_size,
                hidden_size,
                hidden_d,
            ).bytes;
            let outer_at = seq![HeaderPosition::Primary, HeaderPosition::BackupPrimary];
            let hidden_at = seq![HeaderPosition::Hidden, HeaderPosition::BackupHidden];
            &&& scheme_trial(prf, scheme, secret, slot_at(both, HeaderPosition::Primary))
                matches Ok(h) && h.master_keys == d.master_keys && h.geometry == volume_geometry(
                size,
                sector_size,
            )
            &&& scheme_trial(
                hidden_prf,
                hidden_scheme,
                hidden_secret,
                slot_at(both, HeaderPosition::Hidden),
            ) matches Ok(h) && h.master_keys == hidden_d.master_keys && h.geometry
                == hidden_geometry(size, hidden_sector_size, hidden_size)
            &&& search(both, secret, all_positions()) is Ok
            &&& search(both, hidden_secret, all_positions()) is Ok
            &&& search(both, secret, outer_at) is Ok
            &&& search(both, hidden_secret, hidden_at) is Ok
            &&& comes_first(both, secret, prf, scheme, HeaderPosition::Primary) ==> (search(
                both,
                secret,
                all_positions(),
            ) matches Ok(found) && {
                &&& found.prf == prf
                &&& found.scheme == scheme
                &&& found.header.position == HeaderPosition::Primary
                &&& found.header.master_keys == d.master_keys
                &&& found.header.geometry.encrypted_area_start == 131_072
            })
            &&& comes_first(
                both,
                hidden_secret,
                hidden_prf,
                hidden_scheme,
                HeaderPosition::Hidden,
            ) ==> (search(both, hidden_secret, all_positions()) matches Ok(found) && {
                &&& found.prf == hidden_prf
                &&& found.scheme == hidden_scheme
                &&& found.header.position == HeaderPosition::Hidden
                &&& found.header.master_keys == hidden_d.master_keys
                &&& found.header.geometry.encrypted_area_start != 131_072
            })
        }),
{
    let once = volume_created(disk, prf, scheme, secret, size, sector_size, d);
    let both = hidden_created(
        once,
        hidden_prf,
        hidden_scheme,
        hidden_secret,
        size,
        hidden_sector_size,
        hidden_size,
        hidden_d,
    ).bytes;
    let outer_at = seq![HeaderPosition::Primary, HeaderPosition::BackupPrimary];
    let hidden_at = seq![HeaderPosition::Hidden, HeaderPosition::BackupHidden];
    created_volume_opens(disk, prf, scheme, secret, size, sector_size, d);
    created_hidden_opens(
        once,
        hidden_prf,
        hidden_scheme,
        hidden_secret,
        size,
        hidden_sector_size,
        hidden_size,
        hidden_d,
    );
    assert(both.len() == size);
    assert(all_positions()[0] == HeaderPosition::Primary);
    assert(outer_at[0] == HeaderPosition::Primary);
    assert(hidden_at[0] == HeaderPosition::Hidden);
    some_match_opens(both, secret, all_positions(), 0, prf, scheme);
    some_match_opens(both, secret, outer_at, 0, prf, scheme);
    some_match_opens(both, hidden_secret, hidden_at, 0, hidden_prf, hidden_scheme);
    if comes_first(both, secret, prf, scheme, HeaderPosition::Primary) {
        what_comes_first_is_found(both, secret, prf, scheme, HeaderPosition::Primary);
    }
    if comes_first(both, hidden_secret, hidden_prf, hidden_scheme, HeaderPosition::Hidden) {
        what_comes_first_is_found(
            both,
            hidden_secret,
            hidden_prf,
            hidden_scheme,
            HeaderPosition::Hidden,
        );
    }
}

proof fn lemma_sealed_opens(
    prf: PrfModel,
    scheme: Scheme,
    secret: SecretModel,
    salt: Seq<u8>,
    plaintext: Seq<u8>,
)
    requires
        salt.len() == 64,
        opens(prf, scheme, secret, salt, plaintext),
    ensures
        ({
            let region = sealed(prf, scheme, secret, salt, plaintext);
            &&& region.len() == 512
            &&& region.take(64) == salt
            &&& unit_decrypted(header_layers(prf, scheme, secret, salt), region.skip(64), 0)
                == plaintext
        }),
{
    let region = sealed(prf, scheme, secret, salt, plaintext);
    assert(region.take(64) =~= salt);
    assert(region.skip(64) =~= unit_encrypted(
        header_layers(prf, scheme, secret, salt),
        plaintext,
        0,
    ));
}

proof fn lemma_slot_reads(bytes: Seq<u8>, o: int, region: Seq<u8>, salt: Seq<u8>)
    requires
        salt.len() == 64,
        region.len() == 512,
        0 <= o,
        o + 512 <= bytes.len(),
        region.take(64) == salt,
        forall|k: int| 0 <= k < 512 ==> bytes[o + k] == #[trigger] region[k],
    ensures
        slice_of(bytes, o, 64) == salt,
        slice_of(bytes, o + 64, 448) == region.skip(64),
{
    assert(slice_of(bytes, o, 64) =~= region.take(64));
    assert forall|k: int| 0 <= k < 448 implies slice_of(bytes, o + 64, 448)[k] == region.skip(
        64,
    )[k] by {
        assert(bytes[o + (64 + k)] == region[64 + k]);
    }
    assert(slice_of(bytes, o + 64, 448) =~= region.skip(64));
}

} // verus!
