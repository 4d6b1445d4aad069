//! Probing a container: unlock its header, recognise the filesystem, and hand
//! back facts that may be shown and nothing secret.

use vstd::prelude::*;

use super::session::volume_engine;
use crate::bytes::slice_of;
use crate::crypto::xts::{unit_at, unit_decrypted, LayerKeys, SchemeXts};
use crate::device::BlockDevice;
use crate::error::{fails_with, VcResult};
use crate::format::decrypted::{cipher_unit, plain_area};
use crate::format::search::{
    all_positions, find_header, search, FoundHeader, FoundModel, SecretModel, UnlockProgress,
    UnlockSecret,
};
use crate::header::{HeaderPosition, VolumeGeometry};
use crate::registry::pim_ok;
use crate::vault::session::volume_layers;
use crate::vfs::detect::{kind_of, sniff, FsKind};

verus! {

/// Which copy of the header validated. The facts of a probe are meant to be
/// passed on, so they never reveal that a hidden volume exists: a hidden
/// header reads as a primary one, its backup as a backup.
#[derive(Debug, Clone, Copy, PartialEq, Eq, Structural)]
pub enum HeaderSource {
    Primary,
    Backup,
}

/// The copy that a position holds.
pub open spec fn source_of(p: HeaderPosition) -> HeaderSource {
    match p {
        HeaderPosition::Primary | HeaderPosition::Hidden => HeaderSource::Primary,
        HeaderPosition::BackupPrimary | HeaderPosition::BackupHidden => HeaderSource::Backup,
    }
}

impl vstd::std_specs::convert::FromSpecImpl<HeaderPosition> for HeaderSource {
    open spec fn obeys_from_spec() -> bool {
        true
    }

    open spec fn from_spec(p: HeaderPosition) -> HeaderSource {
        source_of(p)
    }
}

impl From<HeaderPosition> for HeaderSource {
    fn from(p: HeaderPosition) -> (r: HeaderSource) {
        match p {
            HeaderPosition::Primary | HeaderPosition::Hidden => HeaderSource::Primary,
            HeaderPosition::BackupPrimary | HeaderPosition::BackupHidden => HeaderSource::Backup,
        }
    }
}

/// What is shown of a header's place does not tell a hidden volume from a
/// normal one.
pub proof fn source_hides_hidden()
    ensures
        source_of(HeaderPosition::Hidden) == source_of(HeaderPosition::Primary),
        source_of(HeaderPosition::BackupHidden) == source_of(HeaderPosition::BackupPrimary),
{
}

/// The facts of a container. They hold no key material and no paths.
#[derive(Debug)]
pub struct VolumeInfo {
    pub scheme: &'static str,
    pub prf: &'static str,
    pub source: HeaderSource,
    pub header_version: u16,
    pub min_program_version: u16,
    pub geometry: VolumeGeometry,
    pub filesystem: FsKind,
}

/// A buffer of whole data units, each decrypted under its number.
pub open spec fn plain_units(raw: Seq<u8>, layers: Seq<LayerKeys>, first: int) -> Seq<u8> {
    Seq::new(
        raw.len(),
        |i: int| unit_decrypted(layers, unit_at(raw, 512, i / 512), first + i / 512)[i % 512],
    )
}

/// The facts due for a found header.
pub open spec fn info_due(bytes: Seq<u8>, found: FoundModel, info: VolumeInfo) -> bool {
    let g = found.header.geometry;
    &&& info.scheme@ == found.scheme.name
    &&& info.prf@ == found.prf.name
    &&& info.source == source_of(found.header.position)
    &&& info.header_version == found.header.header_version
    &&& info.min_program_version == found.header.min_program_version
    &&& info.geometry == g
    &&& info.filesystem == kind_of(
        plain_units(
            slice_of(bytes, g.encrypted_area_start as int, 4096),
            volume_layers(found),
            g.encrypted_area_start as int / 512,
        ),
    )
}

/// Unlock the container's header and recognise the filesystem inside. The
/// decrypted first sectors serve for that alone.
pub fn probe<D: BlockDevice, P: UnlockProgress>(
    dev: &mut D,
    passphrase: &[u8],
    pim: u32,
    progress: &mut P,
) -> (r: VcResult<VolumeInfo>)
    requires
        pim_ok(pim),
    ensures
        final(dev).disk() == old(dev).disk(),
        old(dev).reliable() ==> final(dev).reliable(),
        match search(
            old(dev).disk().bytes,
            SecretModel { passphrase: passphrase@, pim },
            all_positions(),
        ) {
            Err(f) => r is Err && (old(dev).reliable()
                ==> fails_with(r, f)),
            Ok(found) => {
                &&& r matches Ok(info) ==> info_due(old(dev).disk().bytes, found, info)
                &&& old(dev).reliable()
                    && found.header.geometry.encrypted_area_start + 4096
                    <= old(dev).disk().bytes.len() ==> r is Ok
            },
        },
{
    let ghost bytes = dev.disk().bytes;
    let secret = UnlockSecret { passphrase, pim };
    let found: FoundHeader = find_header(dev, &secret, progress)?;
    let ghost model = found@;
    let FoundHeader { mut header, scheme, prf } = found;
    let geometry: VolumeGeometry = header.geometry;
    let position: HeaderPosition = header.position;
    let header_version: u16 = header.header_version;
    let min_program_version: u16 = header.min_program_version;
    let mut boot: Vec<u8> = crate::bytes::zeroed(4096);
    match dev.read_at(geometry.encrypted_area_start, boot.as_mut_slice()) {
        Ok(_) => {},
        Err(e) => {
            header.wipe();
            return Err(e);
        },
    }
    let ghost raw = boot@;
    let mut xts: SchemeXts = volume_engine(&scheme, header)?;
    let first: u64 = geometry.encrypted_area_start / 512;
    xts.decrypt_units(boot.as_mut_slice(), first);
    xts.wipe();
    assert(boot@ =~= plain_units(raw, volume_layers(model), first as int)) by {
        assert forall|i: int| 0 <= i < 4096 implies boot@[i] == plain_units(
            raw,
            volume_layers(model),
            first as int,
        )[i] by {
            assert(unit_at(boot@, 512, i / 512)[i % 512] == boot@[i]);
        }
    }
    let filesystem: FsKind = sniff(boot.as_slice());
    Ok(
        VolumeInfo {
            scheme: scheme.name,
            prf: prf.name,
            source: HeaderSource::from(position),
            header_version,
            min_program_version,
            geometry,
            filesystem,
        },
    )
}

/// A probe tells whether the header or its backup was used.
pub proof fn a_probe_tells_a_backup(p: HeaderPosition)
    ensures
        source_of(p) is Backup <==> p is BackupPrimary || p is BackupHidden,
        source_of(p) is Primary <==> p is Primary || p is Hidden,
{
}

/// What a probe looks at are the first 4096 bytes of the volume as it is read
/// once it is open.
pub proof fn a_probe_sees_the_volume(bytes: Seq<u8>, layers: Seq<LayerKeys>, start: int)
    requires
        0 <= start,
        start % 512 == 0,
        start + 4096 <= bytes.len(),
    ensures
        plain_units(slice_of(bytes, start, 4096), layers, start / 512) == plain_area(
            bytes,
            layers,
            start,
            4096,
        ),
{
    let raw = slice_of(bytes, start, 4096);
    let a = plain_units(raw, layers, start / 512);
    let b = plain_area(bytes, layers, start, 4096);
    assert forall|i: int| 0 <= i < 4096 implies a[i] == b[i] by {
        let u = (start + i) / 512;
        assert(u == start / 512 + i / 512 && (start + i) % 512 == i % 512);
        assert(cipher_unit(bytes, u) =~= unit_at(raw, 512, i / 512));
    }
    assert(a =~= b);
}

/// What a probe tells of a volume: the names of its scheme and hash, the two
/// versions and the geometry that its header says, and the filesystem that its
/// first 4096 bytes show once they are decrypted.
pub proof fn what_a_probe_tells(bytes: Seq<u8>, found: FoundModel, info: VolumeInfo)
    requires
        info_due(bytes, found, info),
        found.header.geometry.encrypted_area_start % 512 == 0,
        found.header.geometry.encrypted_area_start + 4096 <= bytes.len(),
    ensures
        info.scheme@ == found.scheme.name,
        info.prf@ == found.prf.name,
        info.header_version == found.header.header_version,
        info.min_program_version == found.header.min_program_version,
        info.geometry == found.header.geometry,
        info.source is Backup <==> found.header.position is BackupPrimary
            || found.header.position is BackupHidden,
        info.filesystem == kind_of(
            plain_area(
                bytes,
                volume_layers(found),
                found.header.geometry.encrypted_area_start as int,
                4096,
            ),
        ),
{
    a_probe_sees_the_volume(
        bytes,
        volume_layers(found),
        found.header.geometry.encrypted_area_start as int,
    );
}

} // verus!
