//! Unlocked volumes, and new ones.

use vstd::prelude::*;

use crate::bytes::{le32, read_le32, slice_of};
use crate::crypto::keyfile::apply_keyfiles;
use crate::crypto::kdf::{prf_known, registered_prfs_are_known};
use crate::crypto::secret::{is_rng_fault, random_fill, wipe};
use crate::crypto::xts::{layers_of, LayerKeys, SchemeXts};
use crate::device::{BlockDevice, Disk};
use crate::error::{fails_with, VcError, VcFault, VcResult};
use crate::exfat::dir::EntryModel;
use crate::exfat::format::formatted;
use crate::exfat::fresh::a_new_volume_opens_empty;
use crate::exfat::fs::{children, opened, Volume};
use crate::exfat::io::{carries, unmoved, DeviceReadAt, ExFault};
use crate::format::create::{
    create_hidden, create_volume, created_volume_opens, draw_ok, hidden_created, hidden_draw_ok, hidden_geometry,
    hidden_refusal, two_secrets_select_two_volumes, unknown_prf, volume_created,
    volume_geometry, volume_refusal, CreateParams, Draw,
};
use crate::format::decrypted::{around, plain_area, unit_end, untouched_outside, DecryptedDevice};
use crate::format::protect::ProtectedDevice;
use crate::format::search::{
    all_positions, comes_first, data_writes_keep_the_headers, find_header, find_header_at, prf_registered, registered, search, FoundHeader, FoundModel,
    SecretModel, Silent, UnlockProgress, UnlockSecret,
};
use crate::header::{HeaderPosition, VolumeGeometry, VolumeHeader};
use crate::registry::{pim_ok, prf_table, scheme_table, schemes_fit_the_key_area, EncryptionScheme};
use crate::vfs::detect::{kind_of, sniff, FsKind};
use crate::vfs::exfat::{answers, fault_matches, format_exfat, ExfatVfs};
use crate::vfs::tree::Vfs;

verus! {

/// Which filesystem a new container is formatted with. FAT is the universal
/// default; exFAT lifts its 4 GiB limit per file.
#[derive(Debug, Clone, Copy, PartialEq, Eq, Structural)]
pub enum ContainerFs {
    Fat,
    Exfat,
}

/// Opaque handle that a shell holds.
#[derive(Debug, Clone, Copy, PartialEq, Eq, Hash, Structural)]
pub struct SessionId(pub u64);

/// The layers of a volume's data area: the first keys of the header's key
/// area, as many as the scheme needs.
pub open spec fn volume_layers(found: FoundModel) -> Seq<LayerKeys> {
    layers_of(
        found.scheme.layers,
        found.header.master_keys.take(64 * found.scheme.layers.len() as int),
    )
}

/// The decrypted data area of a volume that was found in a container.
pub open spec fn volume_disk(bytes: Seq<u8>, found: FoundModel) -> Disk {
    Disk {
        bytes: plain_area(
            bytes,
            volume_layers(found),
            found.header.geometry.encrypted_area_start as int,
            found.header.geometry.encrypted_area_size as int,
        ),
        log: seq![],
        fixed: true,
    }
}

/// Whether a container holds the whole data area of a volume.
pub open spec fn area_inside(bytes: Seq<u8>, g: VolumeGeometry) -> bool {
    &&& unit_end(g.encrypted_area_start + g.encrypted_area_size) <= bytes.len()
    &&& g.encrypted_area_start + g.encrypted_area_size + 511 <= u64::MAX
}

/// A volume reopens as it was left: writes to its data area, wherever they end,
/// change no header, so the same secret finds the same volume afterwards, and
/// with it whatever the area then holds.
pub proof fn a_volume_reopens_as_it_was_left(
    before: Seq<u8>,
    after: Seq<u8>,
    secret: SecretModel,
    from: int,
    to: int,
)
    requires
        before.len() == after.len(),
        search(before, secret, all_positions()) is Ok,
        ({
            let g = search(before, secret, all_positions())->Ok_0.header.geometry;
            &&& g.encrypted_area_start >= 131_072
            &&& g.encrypted_area_start % 512 == 0
            &&& g.encrypted_area_size % 512 == 0
            &&& g.encrypted_area_start + g.encrypted_area_size <= before.len() - 131_072
            &&& g.encrypted_area_start <= from
            &&& to <= g.encrypted_area_start + g.encrypted_area_size
        }),
        untouched_outside(before, after, from, to),
    ensures
        search(after, secret, all_positions()) == search(before, secret, all_positions()),
{
    let g = search(before, secret, all_positions())->Ok_0.header.geometry;
    assert(from / 512 * 512 >= g.encrypted_area_start);
    assert(unit_end(to) <= g.encrypted_area_start + g.encrypted_area_size);
    data_writes_keep_the_headers(before, after, secret, all_positions());
}

/// The engine for a volume's data area. The header's keys are wiped.
pub(crate) fn volume_engine(scheme: &EncryptionScheme, header: VolumeHeader) -> (r: VcResult<
    SchemeXts,
>)
    requires
        registered(scheme@),
    ensures
        r matches Ok(x) && x@ == layers_of(
            scheme@.layers,
            header@.master_keys.take(64 * scheme@.layers.len() as int),
        ),
{
    proof {
        let i = choose|i: int|
            0 <= i < scheme_table().len() && scheme@ == #[trigger] scheme_table()[i];
        schemes_fit_the_key_area(i);
    }
    let mut header: VolumeHeader = header;
    let keys: &[u8] = &header.master_keys.as_slice()[0..scheme.key_bytes()];
    assert(keys@ =~= header@.master_keys.take(64 * scheme@.layers.len() as int));
    let made: VcResult<SchemeXts> = SchemeXts::new(scheme, keys);
    header.wipe();
    made
}

/// A decrypted volume with its filesystem recognised: exFAT mounted, FAT and
/// NTFS as devices for their adapters.
pub enum Mounted<D: BlockDevice> {
    Fat(D),
    Exfat(ExfatVfs<D>),
    Ntfs(D),
}

/// Whether a device is the one that was given: it holds the same, is made of
/// the same, keeps and refuses the same, and fails no more than before.
pub open spec fn as_given<D: BlockDevice>(dev: D, d: D) -> bool {
    unmoved(DeviceReadAt { dev }, DeviceReadAt { dev: d })
}

/// Whether a mount is the one due for a device: by the filesystem it holds,
/// with a named refusal for one that is not supported.
pub open spec fn mount_due<D: BlockDevice>(dev: D, r: VcResult<Mounted<D>>) -> bool {
    let img = dev.disk().bytes;
    let kind = kind_of(img.take(4096));
    match r {
        Ok(Mounted::Fat(d)) => img.len() >= 4096 && kind is Fat && as_given(dev, d),
        Ok(Mounted::Ntfs(d)) => img.len() >= 4096 && kind is Ntfs && as_given(dev, d),
        Ok(Mounted::Exfat(v)) => {
            &&& img.len() >= 4096
            &&& kind is Exfat
            &&& opened(img) == Ok::<Volume, ExFault>(v.volume())
            &&& v.usable()
            &&& as_given(dev, v.device())
        },
        Err(e) => (dev.reliable() || dev.steady()) && img.len() >= 4096 ==> match kind {
            FsKind::Ext4 => e@ == VcFault::UnsupportedFilesystem("ext4"@),
            FsKind::Unknown => e@ == VcFault::UnknownFilesystem,
            FsKind::Exfat => answers(true, Err::<Volume, VcFault>(e@), opened(img)),
            _ => false,
        },
    }
}

/// Recognise the filesystem of a decrypted volume and mount it. Where that
/// fails, the device's keys are overwritten before it goes.
pub fn open_volume<D: BlockDevice>(dev: D) -> (r: VcResult<Mounted<D>>)
    ensures
        mount_due(dev, r),
{
    let ghost img = dev.disk().bytes;
    let mut dev: D = dev;
    let mut boot: [u8; 4096] = [0u8; 4096];
    match dev.read_at(0, &mut boot) {
        Ok(_) => {},
        Err(e) => {
            dev.wipe_keys();
            return Err(e);
        },
    }
    assert(boot@ =~= img.take(4096));
    match sniff(boot.as_slice()) {
        FsKind::Fat => Ok(Mounted::Fat(dev)),
        FsKind::Exfat => match ExfatVfs::open(dev) {
            Ok(v) => Ok(Mounted::Exfat(v)),
            Err(e) => Err(e),
        },
        FsKind::Ntfs => Ok(Mounted::Ntfs(dev)),
        FsKind::Ext4 => {
            dev.wipe_keys();
            Err(VcError::UnsupportedFilesystem("ext4".to_string()))
        },
        FsKind::Unknown => {
            dev.wipe_keys();
            Err(VcError::UnknownFilesystem)
        },
    }
}

/// One unlocked container. The keys of its volume live in the device it was
/// mounted from and nowhere else.
pub struct Session<D: BlockDevice> {
    mounted: Mounted<D>,
    scheme: &'static str,
    prf: &'static str,
}

impl<D: BlockDevice> Session<D> {
    /// What is mounted.
    pub closed spec fn volume(&self) -> Mounted<D> {
        self.mounted
    }

    pub closed spec fn scheme_name(&self) -> Seq<char> {
        self.scheme@
    }

    pub closed spec fn prf_name(&self) -> Seq<char> {
        self.prf@
    }

    pub fn scheme(&self) -> (r: &'static str)
        ensures
            r@ == self.scheme_name(),
    {
        self.scheme
    }

    pub fn prf(&self) -> (r: &'static str)
        ensures
            r@ == self.prf_name(),
    {
        self.prf
    }

    /// The mounted filesystem, to be worked with.
    pub fn vfs(&mut self) -> (r: &mut Mounted<D>)
        ensures
            *r == old(self).volume(),
            final(self).volume() == *final(r),
            final(self).scheme_name() == old(self).scheme_name(),
            final(self).prf_name() == old(self).prf_name(),
    {
        &mut self.mounted
    }

    /// Give up the session: the keys are overwritten, the device is closed.
    pub fn lock(self) {
        let _closed: Mounted<D> = self.close();
    }

    /// Take what is mounted out, its keys overwritten.
    pub fn close(self) -> (r: Mounted<D>)
        ensures
            match r {
                Mounted::Fat(d) => d.wiped() && self.volume() is Fat,
                Mounted::Ntfs(d) => d.wiped() && self.volume() is Ntfs,
                Mounted::Exfat(v) => v.wiped() && self.volume() is Exfat,
            },
    {
        match self.mounted {
            Mounted::Fat(d) => {
                let mut d: D = d;
                d.wipe_keys();
                Mounted::Fat(d)
            },
            Mounted::Ntfs(d) => {
                let mut d: D = d;
                d.wipe_keys();
                Mounted::Ntfs(d)
            },
            Mounted::Exfat(v) => {
                let mut v: ExfatVfs<D> = v;
                v.wipe_keys();
                Mounted::Exfat(v)
            },
        }
    }

    /// Take the mounted filesystem out, for an adapter that lives elsewhere.
    pub fn into_mounted(self) -> (r: Mounted<D>)
        ensures
            r == self.volume(),
    {
        self.mounted
    }
}

/// Whether a session over the decrypted data area is the one due: the found
/// volume is mounted under the names of what opened it.
pub open spec fn session_due<D: BlockDevice>(
    dev: D,
    found: FoundModel,
    r: VcResult<Session<DecryptedDevice<D>>>,
) -> bool {
    exists|vol: DecryptedDevice<D>|
        {
            &&& #[trigger] vol.disk() == volume_disk(dev.disk().bytes, found)
            &&& vol.container().disk() == dev.disk()
            &&& vol.layers() == volume_layers(found)
            &&& vol.area() == (
                found.header.geometry.encrypted_area_start as int,
                found.header.geometry.encrypted_area_size as int,
            )
            &&& dev.reliable() && area_inside(dev.disk().bytes, found.header.geometry)
                ==> vol.reliable()
            &&& match r {
                Ok(s) => mount_due(vol, Ok(s.volume())) && s.scheme_name() == found.scheme.name
                    && s.prf_name() == found.prf.name,
                Err(e) => mount_due(vol, Err(e)),
            }
        }
}

/// Open the decrypted data area of a found volume.
fn decrypt<D: BlockDevice>(dev: D, found: FoundHeader) -> (r: VcResult<DecryptedDevice<D>>)
    requires
        registered(found@.scheme),
    ensures
        r matches Ok(d) && {
            &&& d.container() == dev
            &&& d.disk() == volume_disk(dev.disk().bytes, found@)
            &&& d.layers() == volume_layers(found@)
            &&& d.area() == (
                found@.header.geometry.encrypted_area_start as int,
                found@.header.geometry.encrypted_area_size as int,
            )
            &&& d.reliable() == (dev.reliable() && area_inside(
                dev.disk().bytes,
                found@.header.geometry,
            ))
        },
{
    let FoundHeader { header, scheme, prf: _ } = found;
    let geometry: VolumeGeometry = header.geometry;
    let xts: SchemeXts = volume_engine(&scheme, header)?;
    Ok(DecryptedDevice::new(dev, xts, &geometry))
}

impl<D: BlockDevice> Session<DecryptedDevice<D>> {
    /// Unlock over an open device: the full candidate search, then the
    /// filesystem.
    pub fn unlock_device<P: UnlockProgress>(
        dev: D,
        passphrase: &[u8],
        pim: u32,
        progress: &mut P,
    ) -> (r: VcResult<Self>)
        requires
            pim_ok(pim),
        ensures
            match search(
                dev.disk().bytes,
                SecretModel { passphrase: passphrase@, pim },
                all_positions(),
            ) {
                Err(f) => r is Err && (dev.reliable()
                    ==> fails_with(r, f)),
                Ok(found) => dev.reliable() || r is Ok
                    ==> session_due(dev, found, r),
            },
    {
        let mut dev: D = dev;
        let ghost start = dev;
        let secret = UnlockSecret { passphrase, pim };
        let found: FoundHeader = find_header(&mut dev, &secret, progress)?;
        let scheme: &'static str = found.scheme.name;
        let prf: &'static str = found.prf.name;
        let vol: DecryptedDevice<D> = decrypt(dev, found)?;
        let ghost v = vol;
        let mounted: Mounted<DecryptedDevice<D>> = match open_volume(vol) {
            Ok(m) => m,
            Err(e) => {
                let r: VcResult<Self> = Err(e);
                assert(v.disk() == volume_disk(start.disk().bytes, found@));
                return r;
            },
        };
        assert(v.disk() == volume_disk(start.disk().bytes, found@));
        Ok(Session { mounted, scheme, prf })
    }
}

/// The positions at which the outer volume of a container is looked for.
pub open spec fn outer_positions() -> Seq<HeaderPosition> {
    seq![HeaderPosition::Primary, HeaderPosition::BackupPrimary]
}

/// The positions at which the hidden volume of a container is looked for.
pub open spec fn hidden_positions() -> Seq<HeaderPosition> {
    seq![HeaderPosition::Hidden, HeaderPosition::BackupHidden]
}

/// The hidden data area in the outer volume's coordinates, or why it cannot be
/// protected there.
pub open spec fn protected_region(outer: VolumeGeometry, hidden: VolumeGeometry) -> Result<
    (int, int),
    VcFault,
> {
    let start = hidden.encrypted_area_start - outer.encrypted_area_start;
    if start < 0 {
        Err(VcFault::Internal("hidden region precedes outer data"@))
    } else if start + hidden.encrypted_area_size > outer.encrypted_area_size {
        Err(VcFault::Internal("hidden region exceeds outer data area"@))
    } else {
        Ok((start, start + hidden.encrypted_area_size))
    }
}

fn region_of(outer: &VolumeGeometry, hidden: &VolumeGeometry) -> (r: VcResult<u64>)
    ensures
        match protected_region(*outer, *hidden) {
            Ok(region) => r matches Ok(start) && start == region.0,
            Err(f) => fails_with(r, f),
        },
{
    match hidden.encrypted_area_start.checked_sub(outer.encrypted_area_start) {
        None => Err(VcError::Internal("hidden region precedes outer data".to_string())),
        Some(start) => {
            if hidden.encrypted_area_size > outer.encrypted_area_size || start
                > outer.encrypted_area_size - hidden.encrypted_area_size {
                Err(VcError::Internal("hidden region exceeds outer data area".to_string()))
            } else {
                Ok(start)
            }
        },
    }
}

/// Whether a protected session is the one due: the outer volume is mounted
/// behind protection of the hidden volume's data area. The mounted device
/// shields that region and has refused no write yet; over a reliable
/// container, its reads do not fail, and what it shields stays.
pub open spec fn protected_due<D: BlockDevice>(
    dev: D,
    outer: FoundModel,
    region: (int, int),
    r: VcResult<Session<ProtectedDevice<DecryptedDevice<D>>>>,
) -> bool {
    exists|vol: ProtectedDevice<DecryptedDevice<D>>|
        {
            &&& #[trigger] vol.disk() == volume_disk(dev.disk().bytes, outer)
            &&& vol.region() == region
            &&& !vol.latched()
            &&& vol.shield() == Some(region)
            &&& !vol.stuck()
            &&& vol.wrapped().layers() == volume_layers(outer)
            &&& vol.wrapped().container().disk() == dev.disk()
            &&& dev.reliable() && area_inside(dev.disk().bytes, outer.header.geometry)
                ==> vol.steady()
            &&& match r {
                Ok(s) => mount_due(vol, Ok(s.volume())) && s.scheme_name() == outer.scheme.name
                    && s.prf_name() == outer.prf.name,
                Err(e) => mount_due(vol, Err(e)),
            }
        }
}

impl<D: BlockDevice> Session<ProtectedDevice<DecryptedDevice<D>>> {
    /// Open the outer volume for writing with the hidden one protected. Both
    /// passwords are needed: the outer one unlocks the outer volume, the
    /// hidden one only tells which bytes to shield. Where either is wrong, or
    /// there is no hidden volume, the error is that of a wrong password.
    pub fn unlock_outer_protected_device<P: UnlockProgress>(
        dev: D,
        outer_passphrase: &[u8],
        hidden_passphrase: &[u8],
        pim: u32,
        progress: &mut P,
    ) -> (r: VcResult<Self>)
        requires
            pim_ok(pim),
        ensures
            ({
                let bytes = dev.disk().bytes;
                let readable = dev.reliable();
                match search(
                    bytes,
                    SecretModel { passphrase: outer_passphrase@, pim },
                    outer_positions(),
                ) {
                    Err(f) => r is Err && (readable ==> fails_with(r, f)),
                    Ok(outer) => match search(
                        bytes,
                        SecretModel { passphrase: hidden_passphrase@, pim },
                        hidden_positions(),
                    ) {
                        Err(f) => r is Err && (readable ==> fails_with(r, f)),
                        Ok(hidden) => match protected_region(
                            outer.header.geometry,
                            hidden.header.geometry,
                        ) {
                            Err(f) => r is Err && (readable ==> fails_with(r, f)),
                            Ok(region) => readable || r is Ok ==> protected_due(
                                dev,
                                outer,
                                region,
                                r,
                            ),
                        },
                    },
                }
            }),
    {
        let mut dev: D = dev;
        let ghost start = dev;
        let outer_at: [HeaderPosition; 2] = [
            HeaderPosition::Primary,
            HeaderPosition::BackupPrimary,
        ];
        let hidden_at: [HeaderPosition; 2] = [HeaderPosition::Hidden, HeaderPosition::BackupHidden];
        assert(outer_at@ =~= outer_positions());
        assert(hidden_at@ =~= hidden_positions());
        let outer_secret = UnlockSecret { passphrase: outer_passphrase, pim };
        let mut outer: FoundHeader = find_header_at(
            &mut dev,
            &outer_secret,
            outer_at.as_slice(),
            progress,
        )?;
        // The hidden header, for its geometry alone.
        let mut silent: Silent = Silent::new();
        let hidden_secret = UnlockSecret { passphrase: hidden_passphrase, pim };
        let mut hidden: FoundHeader = match find_header_at(
            &mut dev,
            &hidden_secret,
            hidden_at.as_slice(),
            &mut silent,
        ) {
            Ok(h) => h,
            Err(e) => {
                outer.header.wipe();
                return Err(e);
            },
        };
        let hidden_geometry: VolumeGeometry = hidden.header.geometry;
        let ghost hidden_found = hidden@;
        hidden.header.wipe();
        let protected_start: u64 = match region_of(&outer.header.geometry, &hidden_geometry) {
            Ok(at) => at,
            Err(e) => {
                outer.header.wipe();
                return Err(e);
            },
        };
        let ghost outer_found = outer@;
        let scheme: &'static str = outer.scheme.name;
        let prf: &'static str = outer.prf.name;
        let plain: DecryptedDevice<D> = decrypt(dev, outer)?;
        let vol: ProtectedDevice<DecryptedDevice<D>> = ProtectedDevice::new(
            plain,
            protected_start,
            hidden_geometry.encrypted_area_size,
        );
        let ghost v = vol;
        assert(v.disk() == volume_disk(start.disk().bytes, outer_found));
        let mounted: Mounted<ProtectedDevice<DecryptedDevice<D>>> = open_volume(vol)?;
        Ok(Session { mounted, scheme, prf })
    }
}

/// A new volume's data area: formatted, or to be formatted with FAT by the
/// adapter for it.
pub enum Prepared<D: BlockDevice> {
    Formatted(DecryptedDevice<D>),
    NeedsFat(DecryptedDevice<D>),
}

/// The volume id that four drawn bytes stand for, lowest first; where drawing
/// them failed, that failure.
pub fn serial_of(filled: VcResult<()>, drawn: &[u8; 4]) -> (r: VcResult<u32>)
    ensures
        match filled {
            Ok(_) => r matches Ok(v) && v == le32(drawn@, 0),
            Err(e) => r matches Err(f) && f == e,
        },
{
    match filled {
        Ok(_) => Ok(read_le32(drawn.as_slice(), 0)),
        Err(e) => Err(e),
    }
}

/// A random volume id.
fn random_serial() -> (r: VcResult<u32>)
    ensures
        r matches Err(e) ==> is_rng_fault(e@),
{
    let mut b: [u8; 4] = [0u8; 4];
    let filled: VcResult<()> = random_fill(&mut b);
    serial_of(filled, &b)
}

/// Whether a data area lies between the header groups of a container, in whole
/// data units.
pub open spec fn between_headers(len: nat, g: VolumeGeometry) -> bool {
    &&& g.encrypted_area_start >= 131_072
    &&& g.encrypted_area_start % 512 == 0
    &&& g.encrypted_area_size % 512 == 0
    &&& g.encrypted_area_start + g.encrypted_area_size <= len - 131_072
    &&& g.encrypted_area_start + g.encrypted_area_size + 511 <= u64::MAX
}

/// Whether a data area was prepared as is due: with FAT it is the volume's
/// plaintext as it stands, with exFAT that plaintext formatted under some
/// volume id. The device is that of the volume that was found, and over a
/// reliable container that volume is found again by its secret. Preparing an
/// area that the container holds fails for want of randomness or where the
/// area cannot be formatted.
pub open spec fn prepared_due<D: BlockDevice>(
    reliable: bool,
    bytes: Seq<u8>,
    found: FoundModel,
    secret: SecretModel,
    fs: ContainerFs,
    r: VcResult<Prepared<D>>,
) -> bool {
    let plain = volume_disk(bytes, found);
    let g = found.header.geometry;
    let area = (g.encrypted_area_start as int, g.encrypted_area_size as int);
    match r {
        Ok(Prepared::NeedsFat(d)) => {
            &&& fs is Fat
            &&& d.disk() == plain
            &&& d.layers() == volume_layers(found)
            &&& d.area() == area
            &&& d.container().disk().bytes == bytes
        },
        Ok(Prepared::Formatted(d)) => {
            &&& fs is Exfat
            &&& d.layers() == volume_layers(found)
            &&& d.area() == area
            &&& exists|serial: u32|
                {
                    let want = #[trigger] formatted(plain, plain.bytes.len() as u64, serial);
                    want.1 is Ok && d.disk() == want.0.flushed()
                }
            &&& reliable && between_headers(bytes.len(), g) ==> d.container().reliable()
                && same_headers(bytes, d.container().disk().bytes) && search(d.container().disk().bytes, secret, all_positions()) == Ok::<
                FoundModel,
                VcFault,
            >(found)
        },
        Err(e) => fs is Exfat && (reliable && area_inside(bytes, g) ==> is_rng_fault(e@) || exists|
            serial: u32,
        |
            ({
                let want = #[trigger] formatted(plain, plain.bytes.len() as u64, serial);
                want.1 matches Err(f) && fault_matches(f, e@)
            })),
    }
}

/// Whether two containers have the same header groups.
pub open spec fn same_headers(a: Seq<u8>, b: Seq<u8>) -> bool {
    &&& a.len() == b.len()
    &&& a.len() >= 262_144
    &&& forall|i: int|
        0 <= i < a.len() && (i < 131_072 || i >= a.len() - 131_072) ==> a[i] == #[trigger] b[i]
}

/// What lies around a data area between the header groups has them in it.
proof fn lemma_headers_around(a: Seq<u8>, b: Seq<u8>, g: VolumeGeometry)
    requires
        between_headers(a.len(), g),
        around(a, g.encrypted_area_start as int, g.encrypted_area_size as int) == around(
            b,
            g.encrypted_area_start as int,
            g.encrypted_area_size as int,
        ),
    ensures
        same_headers(a, b),
{
    let x = around(a, g.encrypted_area_start as int, g.encrypted_area_size as int);
    let y = around(b, g.encrypted_area_start as int, g.encrypted_area_size as int);
    assert(a.len() == x.len() && b.len() == y.len());
    let start = g.encrypted_area_start as int;
    let end = start + g.encrypted_area_size;
    assert(start / 512 * 512 == start);
    assert(unit_end(end) == end);
    assert forall|i: int| 0 <= i < a.len() && (i < 131_072 || i >= a.len() - 131_072) implies a[i]
        == #[trigger] b[i] by {
        assert(!(start <= i < end));
        assert(x[i] == a[i]);
        assert(y[i] == b[i]);
    }
}

/// A new container opens as an empty volume: once its data area is formatted,
/// its secret finds the volume that was formatted, whose data area holds an
/// exFAT volume with nothing in it.
pub proof fn a_prepared_volume_opens_empty<D: BlockDevice>(
    bytes: Seq<u8>,
    found: FoundModel,
    secret: SecretModel,
    d: DecryptedDevice<D>,
)
    requires
        prepared_due(
            true,
            bytes,
            found,
            secret,
            ContainerFs::Exfat,
            Ok(Prepared::Formatted(d)),
        ),
        between_headers(bytes.len(), found.header.geometry),
    ensures
        ({
            let left = d.container().disk().bytes;
            let plain = volume_disk(left, found).bytes;
            &&& search(left, secret, all_positions()) == Ok::<FoundModel, VcFault>(found)
            &&& opened(plain) matches Ok(vol)
            &&& children(plain, vol.geo, None) == Ok::<Seq<EntryModel>, ExFault>(seq![])
        }),
{
    let left = d.container().disk().bytes;
    let before = volume_disk(bytes, found);
    let total = before.bytes.len() as u64;
    d.shows_its_container();
    assert(volume_disk(left, found).bytes == d.disk().bytes);
    let serial = choose|serial: u32|
        {
            let want = #[trigger] formatted(before, before.bytes.len() as u64, serial);
            want.1 is Ok && d.disk() == want.0.flushed()
        };
    a_new_volume_opens_empty(before, total, serial);
}

/// Lay a fresh exFAT filesystem, under a random volume id, on a device. Where
/// that fails, the device's keys are overwritten before it goes.
fn lay_exfat<D: BlockDevice>(dev: D) -> (r: VcResult<D>)
    ensures
        match r {
            Ok(d) => {
                &&& carries(DeviceReadAt { dev }, DeviceReadAt { dev: d })
                &&& exists|serial: u32|
                    {
                        let want = #[trigger] formatted(
                            dev.disk(),
                            dev.disk().bytes.len() as u64,
                            serial,
                        );
                        want.1 is Ok && d.disk() == want.0.flushed()
                    }
            },
            Err(e) => dev.reliable() ==> is_rng_fault(e@) || exists|serial: u32|
                {
                    let want = #[trigger] formatted(
                        dev.disk(),
                        dev.disk().bytes.len() as u64,
                        serial,
                    );
                    want.1 matches Err(f) && fault_matches(f, e@)
                },
        },
{
    let ghost start = dev.disk();
    let serial: u32 = match random_serial() {
        Ok(n) => n,
        Err(e) => {
            let mut dev: D = dev;
            dev.wipe_keys();
            return Err(e);
        },
    };
    let r: VcResult<D> = format_exfat(dev, serial);
    let ghost want = formatted(start, start.bytes.len() as u64, serial);
    assert(want.1 is Ok || want.1 is Err);
    r
}

/// Find the volume that `params` opens, open its data area, and lay a fresh
/// filesystem in it.
#[verifier::spinoff_prover]
#[verifier::rlimit(60)]
pub fn format_data<D: BlockDevice>(dev: D, params: &CreateParams<'_>, fs: ContainerFs) -> (r: VcResult<
    Prepared<D>,
>)
    requires
        pim_ok(params.pim),
    ensures
        match search(dev.disk().bytes, params.secret(), all_positions()) {
            Err(f) => r is Err && (dev.reliable() ==> fails_with(
                r,
                f,
            )),
            Ok(found) => dev.reliable() || r is Ok ==> prepared_due(
                dev.reliable(),
                dev.disk().bytes,
                found,
                params.secret(),
                fs,
                r,
            ),
        },
{
    let mut dev: D = dev;
    let ghost start = dev;
    let ghost bytes = dev.disk().bytes;
    let mut secret: Vec<u8> = apply_keyfiles(params.passphrase, params.keyfiles);
    let mut silent: Silent = Silent::new();
    let searched: VcResult<FoundHeader> = {
        let unlock = UnlockSecret { passphrase: secret.as_slice(), pim: params.pim };
        find_header(&mut dev, &unlock, &mut silent)
    };
    wipe(secret.as_mut_slice());
    let found: FoundHeader = searched?;
    let ghost model = found@;
    let vol: DecryptedDevice<D> = decrypt(dev, found)?;
    let ghost g = model.header.geometry;
    proof {
        vol.shows_its_container();
    }
    match fs {
        ContainerFs::Fat => Ok(Prepared::NeedsFat(vol)),
        ContainerFs::Exfat => {
            let ghost before = vol;
            let done: DecryptedDevice<D> = lay_exfat(vol)?;
            proof {
                done.shows_its_container();
                assert(done.strata()[0] == before.strata()[0]);
                let left = done.container().disk().bytes;
                if start.reliable() && between_headers(bytes.len(), g) {
                    let end = g.encrypted_area_start + g.encrypted_area_size;
                    assert(unit_end(end) == end);
                    assert(area_inside(bytes, g));
                    assert(done.beneath()[0] == before.beneath()[0]);
                    lemma_headers_around(bytes, left, g);
                    data_writes_keep_the_headers(bytes, left, params.secret(), all_positions());
                }
            }
            Ok(Prepared::Formatted(done))
        },
    }
}

/// What creating a container leaves: its header is in the container, and the
/// data area of the volume that its secret finds there is prepared.
pub open spec fn container_made<D: BlockDevice>(
    reliable: bool,
    disk: Disk,
    params: CreateParams<'_>,
    fs: ContainerFs,
    d: Draw,
    r: VcResult<Prepared<D>>,
) -> bool {
    let made = volume_created(
        disk,
        params.prf@,
        params.scheme@,
        params.secret(),
        params.size,
        params.sector_size,
        d,
    );
    &&& draw_ok(
        d,
        params.prf@,
        params.scheme@,
        params.secret(),
        volume_geometry(params.size, params.sector_size),
    )
    &&& search(made.bytes, params.secret(), all_positions()) matches Ok(found)
    &&& prepared_due(reliable, made.bytes, found, params.secret(), fs, r)
}

/// Whether a reliable device of the right size is to become a container of a
/// registered scheme and hash: then only drawing randomness, or formatting, can
/// fail.
pub open spec fn creatable<D: BlockDevice>(dev: D, params: CreateParams<'_>) -> bool {
    &&& dev.reliable()
    &&& dev.disk().bytes.len() == params.size
    &&& registered(params.scheme@)
    &&& prf_registered(params.prf@)
}

/// Create a new container in `dev`, which is to be `params.size` bytes long:
/// the volume, then a filesystem in its data area, so that it opens as an
/// empty volume.
pub fn create_container<D: BlockDevice>(dev: D, params: &CreateParams<'_>, fs: ContainerFs) -> (r:
    VcResult<Prepared<D>>)
    requires
        params.usable(),
    ensures
        volume_refusal(params.size, params.sector_size) matches Some(f) ==> fails_with(r, f),
        volume_refusal(params.size, params.sector_size) is None && !prf_known(params.prf@.name)
            ==> fails_with(r, unknown_prf(params.prf@.name)) || (r matches Err(e) && is_rng_fault(
            e@,
        )),
        r is Ok ==> exists|d: Draw|
            #[trigger] container_made(dev.reliable(), dev.disk(), *params, fs, d, r),
        volume_refusal(params.size, params.sector_size) is None && creatable(dev, *params) ==> (
        r matches Err(e) ==> is_rng_fault(e@) || exists|d: Draw|
            #[trigger] container_made(true, dev.disk(), *params, fs, d, r)),
{
    let mut dev: D = dev;
    let ghost start = dev;
    proof {
        if prf_registered(params.prf@) {
            let f = choose|f: int|
                0 <= f < prf_table().len() && params.prf@ == #[trigger] prf_table()[f];
            registered_prfs_are_known(f);
        }
    }
    create_volume(&mut dev, params)?;
    let ghost d = choose|d: Draw|
        #![trigger volume_created(start.disk(), params.prf@, params.scheme@, params.secret(), params.size, params.sector_size, d)]
        draw_ok(
            d,
            params.prf@,
            params.scheme@,
            params.secret(),
            volume_geometry(params.size, params.sector_size),
        ) && dev.disk() == volume_created(
            start.disk(),
            params.prf@,
            params.scheme@,
            params.secret(),
            params.size,
            params.sector_size,
            d,
        );
    proof {
        if creatable(start, *params) {
            created_volume_opens(
                start.disk(),
                params.prf@,
                params.scheme@,
                params.secret(),
                params.size,
                params.sector_size,
                d,
            );
        }
    }
    let r: VcResult<Prepared<D>> = format_data(dev, params, fs);
    assert(r is Ok || creatable(start, *params) ==> container_made(
        start.reliable(),
        start.disk(),
        *params,
        fs,
        d,
        r,
    ));
    r
}

/// A container once an outer and a hidden volume are created in it.
pub open spec fn both_created(
    disk: Disk,
    outer: CreateParams<'_>,
    hidden: CreateParams<'_>,
    hidden_size: u64,
    d1: Draw,
    d2: Draw,
) -> Disk {
    hidden_created(
        volume_created(
            disk,
            outer.prf@,
            outer.scheme@,
            outer.secret(),
            outer.size,
            outer.sector_size,
            d1,
        ),
        hidden.prf@,
        hidden.scheme@,
        hidden.secret(),
        hidden.size,
        hidden.sector_size,
        hidden_size,
        d2,
    )
}

/// The container that a prepared volume lies in.
pub open spec fn container_bytes<D: BlockDevice>(p: Prepared<D>) -> Seq<u8> {
    match p {
        Prepared::Formatted(d) => d.container().disk().bytes,
        Prepared::NeedsFat(d) => d.container().disk().bytes,
    }
}

/// What creating a container with a hidden volume leaves: both headers are in
/// the container; the outer data area is prepared; and, where that is complete,
/// so is the hidden one in the container that is left. Over a reliable
/// container both secrets then find their volumes.
pub open spec fn hidden_made<D: BlockDevice>(
    reliable: bool,
    disk: Disk,
    outer: CreateParams<'_>,
    hidden: CreateParams<'_>,
    hidden_size: u64,
    fs: ContainerFs,
    d1: Draw,
    d2: Draw,
    mid: DecryptedDevice<D>,
    p: Prepared<D>,
) -> bool {
    let both = both_created(disk, outer, hidden, hidden_size, d1, d2).bytes;
    &&& draw_ok(
        d1,
        outer.prf@,
        outer.scheme@,
        outer.secret(),
        volume_geometry(outer.size, outer.sector_size),
    )
    &&& hidden_draw_ok(
        d2,
        hidden.prf@,
        hidden.scheme@,
        hidden.secret(),
        hidden_geometry(hidden.size, hidden.sector_size, hidden_size),
    )
    &&& search(both, outer.secret(), all_positions()) matches Ok(found)
    &&& match fs {
        ContainerFs::Fat => p == Prepared::NeedsFat(mid) && prepared_due(
            reliable,
            both,
            found,
            outer.secret(),
            fs,
            Ok(p),
        ),
        ContainerFs::Exfat => {
            let left = mid.container().disk().bytes;
            &&& prepared_due(reliable, both, found, outer.secret(), fs, Ok(Prepared::Formatted(mid)))
            &&& search(left, hidden.secret(), all_positions()) matches Ok(inner)
            &&& prepared_due(
                reliable && between_headers(both.len(), found.header.geometry),
                left,
                inner,
                hidden.secret(),
                fs,
                Ok(p),
            )
            &&& reliable && between_headers(both.len(), found.header.geometry) && between_headers(
                left.len(),
                inner.header.geometry,
            ) ==> {
                &&& search(container_bytes(p), outer.secret(), all_positions()) == Ok::<
                    FoundModel,
                    VcFault,
                >(found)
                &&& search(container_bytes(p), hidden.secret(), all_positions()) == Ok::<
                    FoundModel,
                    VcFault,
                >(inner)
                &&& search(both, hidden.secret(), all_positions()) == Ok::<FoundModel, VcFault>(
                    inner,
                )
            }
        },
    }
}

/// How creating a container with a hidden volume fails once both headers are
/// in it: in preparing the outer data area, or, where the outer volume that is
/// found lies between the header groups, in preparing the hidden one.
pub open spec fn hidden_unfinished<D: BlockDevice>(
    disk: Disk,
    outer: CreateParams<'_>,
    hidden: CreateParams<'_>,
    hidden_size: u64,
    fs: ContainerFs,
    d1: Draw,
    d2: Draw,
    mid: DecryptedDevice<D>,
    e: VcError,
) -> bool {
    let both = both_created(disk, outer, hidden, hidden_size, d1, d2).bytes;
    let left = mid.container().disk().bytes;
    &&& search(both, outer.secret(), all_positions()) matches Ok(found)
    &&& {
        ||| prepared_due::<D>(true, both, found, outer.secret(), fs, Err(e))
        ||| {
            &&& fs is Exfat
            &&& prepared_due(true, both, found, outer.secret(), fs, Ok(Prepared::Formatted(mid)))
            &&& between_headers(both.len(), found.header.geometry) ==> (search(
                left,
                hidden.secret(),
                all_positions(),
            ) matches Ok(inner) && prepared_due::<D>(
                true,
                left,
                inner,
                hidden.secret(),
                fs,
                Err(e),
            ))
        }
    }
}

/// Create a container with a hidden volume inside it. Both headers are
/// written, then the outer data area is formatted; the hidden volume takes the
/// tail of it, which the outer filesystem sees as free space. With exFAT the
/// hidden data area is formatted too, and its device comes back; with FAT the
/// outer device comes back for the adapter, and the hidden data area is
/// formatted by a call of `format_data` afterwards.
pub fn create_container_with_hidden<D: BlockDevice>(
    dev: D,
    outer: &CreateParams<'_>,
    hidden: &CreateParams<'_>,
    hidden_data_size: u64,
    fs: ContainerFs,
) -> (r: VcResult<Prepared<D>>)
    requires
        outer.usable(),
        hidden.usable(),
    ensures
        volume_refusal(outer.size, outer.sector_size) matches Some(f) ==> fails_with(r, f),
        volume_refusal(outer.size, outer.sector_size) is None && hidden_refusal(
            hidden.size,
            hidden.sector_size,
            hidden_data_size,
        ) is Some ==> r is Err,
        r is Ok ==> (r->Ok_0 is NeedsFat <==> fs is Fat),
        r matches Ok(p) ==> exists|d1: Draw, d2: Draw, mid: DecryptedDevice<D>|
            hidden_made(
                dev.reliable(),
                dev.disk(),
                *outer,
                *hidden,
                hidden_data_size,
                fs,
                d1,
                d2,
                mid,
                p,
            ),
        volume_refusal(outer.size, outer.sector_size) is None && creatable(dev, *outer) && creatable(
            dev,
            *hidden,
        ) ==> (r matches Err(e) ==> {
            ||| is_rng_fault(e@)
            ||| hidden_refusal(hidden.size, hidden.sector_size, hidden_data_size) == Some(e@)
            ||| exists|d1: Draw, d2: Draw, mid: DecryptedDevice<D>|
                hidden_unfinished(
                    dev.disk(),
                    *outer,
                    *hidden,
                    hidden_data_size,
                    fs,
                    d1,
                    d2,
                    mid,
                    e,
                )
        }),
{
    let mut dev: D = dev;
    let ghost whole = dev;
    let ghost start = dev.disk();
    let ghost made = creatable(dev, *outer) && creatable(dev, *hidden);
    proof {
        if prf_registered(outer.prf@) {
            let f = choose|f: int|
                0 <= f < prf_table().len() && outer.prf@ == #[trigger] prf_table()[f];
            registered_prfs_are_known(f);
        }
        if prf_registered(hidden.prf@) {
            let f = choose|f: int|
                0 <= f < prf_table().len() && hidden.prf@ == #[trigger] prf_table()[f];
            registered_prfs_are_known(f);
        }
    }
    create_volume(&mut dev, outer)?;
    let ghost d1 = choose|d: Draw|
        #![trigger volume_created(start, outer.prf@, outer.scheme@, outer.secret(), outer.size, outer.sector_size, d)]
        draw_ok(
            d,
            outer.prf@,
            outer.scheme@,
            outer.secret(),
            volume_geometry(outer.size, outer.sector_size),
        ) && dev.disk() == volume_created(
            start,
            outer.prf@,
            outer.scheme@,
            outer.secret(),
            outer.size,
            outer.sector_size,
            d,
        );
    let ghost once = dev.disk();
    create_hidden(&mut dev, hidden, hidden_data_size)?;
    let ghost d2 = choose|d: Draw|
        #![trigger hidden_created(once, hidden.prf@, hidden.scheme@, hidden.secret(), hidden.size, hidden.sector_size, hidden_data_size, d)]
        hidden_draw_ok(
            d,
            hidden.prf@,
            hidden.scheme@,
            hidden.secret(),
            hidden_geometry(hidden.size, hidden.sector_size, hidden_data_size),
        ) && dev.disk() == hidden_created(
            once,
            hidden.prf@,
            hidden.scheme@,
            hidden.secret(),
            hidden.size,
            hidden.sector_size,
            hidden_data_size,
            d,
        );
    let ghost both = dev.disk().bytes;
    proof {
        if made {
            two_secrets_select_two_volumes(
                start,
                outer.prf@,
                outer.scheme@,
                outer.secret(),
                outer.size,
                outer.sector_size,
                d1,
                hidden.prf@,
                hidden.scheme@,
                hidden.secret(),
                hidden.sector_size,
                hidden_data_size,
                d2,
            );
        }
    }
    let first: Prepared<D> = match format_data(dev, outer, fs) {
        Ok(p) => p,
        Err(e) => {
            assert(made ==> hidden_unfinished(
                start,
                *outer,
                *hidden,
                hidden_data_size,
                fs,
                d1,
                d2,
                arbitrary::<DecryptedDevice<D>>(),
                e,
            ));
            return Err(e);
        },
    };
    match first {
        Prepared::NeedsFat(d) => {
            assert(hidden_made(
                whole.reliable(),
                start,
                *outer,
                *hidden,
                hidden_data_size,
                fs,
                d1,
                d2,
                d,
                Prepared::NeedsFat(d),
            ));
            Ok(Prepared::NeedsFat(d))
        },
        Prepared::Formatted(d) => {
            let ghost mid = d;
            let ghost left = mid.container().disk().bytes;
            proof {
                let g = search(both, outer.secret(), all_positions())->Ok_0.header.geometry;
                if whole.reliable() && between_headers(both.len(), g) {
                    data_writes_keep_the_headers(both, left, hidden.secret(), all_positions());
                }
            }
            let container: D = d.into_container();
            let done: Prepared<D> = match format_data(container, hidden, fs) {
                Ok(p) => p,
                Err(e) => {
                    assert(made ==> hidden_unfinished(
                        start,
                        *outer,
                        *hidden,
                        hidden_data_size,
                        fs,
                        d1,
                        d2,
                        mid,
                        e,
                    ));
                    return Err(e);
                },
            };
            proof {
                let found = search(both, outer.secret(), all_positions())->Ok_0;
                let inner = search(left, hidden.secret(), all_positions())->Ok_0;
                if whole.reliable() && between_headers(both.len(), found.header.geometry)
                    && between_headers(left.len(), inner.header.geometry) {
                    data_writes_keep_the_headers(
                        left,
                        container_bytes(done),
                        outer.secret(),
                        all_positions(),
                    );
                }
            }
            assert(hidden_made(
                whole.reliable(),
                start,
                *outer,
                *hidden,
                hidden_data_size,
                fs,
                d1,
                d2,
                mid,
                done,
            ));
            Ok(done)
        },
    }
}

/// A container that was created unlocks with its secret, under the names of
/// the scheme and hash it was created with, and holds an exFAT volume with
/// nothing in it. (By chance, which nothing rules out, something that a search
/// tries before these might hold a valid header, too: that is left out.)
#[verifier::spinoff_prover]
#[verifier::rlimit(30)]
pub proof fn a_created_container_unlocks_empty<D: BlockDevice, E: BlockDevice>(
    disk: Disk,
    params: CreateParams<'_>,
    d: Draw,
    made: DecryptedDevice<D>,
    dev: E,
    r: VcResult<Session<DecryptedDevice<E>>>,
)
    requires
        volume_refusal(params.size, params.sector_size) is None,
        disk.bytes.len() == params.size,
        registered(params.scheme@),
        prf_registered(params.prf@),
        container_made(true, disk, params, ContainerFs::Exfat, d, Ok(Prepared::Formatted(made))),
        comes_first(
            volume_created(
                disk,
                params.prf@,
                params.scheme@,
                params.secret(),
                params.size,
                params.sector_size,
                d,
            ).bytes,
            params.secret(),
            params.prf@,
            params.scheme@,
            HeaderPosition::Primary,
        ),
        dev.reliable(),
        dev.disk().bytes == made.container().disk().bytes,
        search(dev.disk().bytes, params.secret(), all_positions()) matches Ok(found)
            ==> session_due(dev, found, r),
    ensures
        r matches Ok(s) && {
            &&& s.scheme_name() == params.scheme@.name
            &&& s.prf_name() == params.prf@.name
            &&& s.volume() matches Mounted::Exfat(v)
            &&& children(v.disk().bytes, v.volume().geo, None) == Ok::<Seq<EntryModel>, ExFault>(
                seq![],
            )
        },
{
    let secret = params.secret();
    let bytes = volume_created(
        disk,
        params.prf@,
        params.scheme@,
        secret,
        params.size,
        params.sector_size,
        d,
    ).bytes;
    created_volume_opens(
        disk,
        params.prf@,
        params.scheme@,
        secret,
        params.size,
        params.sector_size,
        d,
    );
    let found = search(bytes, secret, all_positions())->Ok_0;
    let g = found.header.geometry;
    assert(bytes.len() == params.size);
    assert(params.size as int % 512 == 0) by {
        let n = params.size as int;
        if params.sector_size == 4096 {
            assert(n % 4096 == 0);
        }
    }
    assert(between_headers(bytes.len(), g));
    a_prepared_volume_opens_empty(bytes, found, secret, made);
    let left = dev.disk().bytes;
    let plain = volume_disk(left, found).bytes;
    let vol = choose|vol: DecryptedDevice<E>|
        {
            &&& #[trigger] vol.disk() == volume_disk(dev.disk().bytes, found)
            &&& vol.container().disk() == dev.disk()
            &&& vol.layers() == volume_layers(found)
            &&& vol.area() == (
                found.header.geometry.encrypted_area_start as int,
                found.header.geometry.encrypted_area_size as int,
            )
            &&& dev.reliable() && area_inside(dev.disk().bytes, found.header.geometry)
                ==> vol.reliable()
            &&& match r {
                Ok(s) => mount_due(vol, Ok(s.volume())) && s.scheme_name() == found.scheme.name
                    && s.prf_name() == found.prf.name,
                Err(e) => mount_due(vol, Err(e)),
            }
        };
    let end = g.encrypted_area_start + g.encrypted_area_size;
    assert(unit_end(end) == end);
    assert(left.len() == bytes.len());
    assert(vol.reliable());
    crate::exfat::boot::boot_geometry_is_wf(plain.take(512));
    assert(plain.len() >= 4096);
    assert(slice_of(plain.take(4096), 3, 8) =~= slice_of(plain.take(512), 3, 8));
    assert(kind_of(plain.take(4096)) is Exfat);
}

/// What is protected of an outer volume are the bytes that the hidden volume
/// lies on, counted from the outer volume's start; and a hidden volume that
/// does not lie in the outer one protects nothing.
pub proof fn the_hidden_bytes_are_protected(outer: VolumeGeometry, hidden: VolumeGeometry, i: int)
    ensures
        protected_region(outer, hidden) is Ok <==> outer.encrypted_area_start
            <= hidden.encrypted_area_start && hidden.encrypted_area_start
            + hidden.encrypted_area_size <= outer.encrypted_area_start + outer.encrypted_area_size,
        protected_region(outer, hidden) matches Ok(region) ==> (region.0 <= i < region.1
            <==> hidden.encrypted_area_start <= outer.encrypted_area_start + i
            < hidden.encrypted_area_start + hidden.encrypted_area_size),
        protected_region(outer, hidden) matches Ok(region) ==> 0 <= region.0 && region.1
            <= outer.encrypted_area_size,
{
}

/// The keys of a volume come from its header: of a single cipher the data key
/// from the first 32 bytes of the key area, and the tweak key from the next 32;
/// of a cascade the data keys first, then the tweak keys.
pub proof fn volume_keys_come_from_the_header(found: FoundModel, i: int)
    requires
        found.header.master_keys.len() == 256,
        0 <= i < found.scheme.layers.len() <= 4,
    ensures
        ({
            let n = found.scheme.layers.len() as int;
            let keys = found.header.master_keys;
            let l = volume_layers(found);
            &&& l.len() == n
            &&& l[i].cipher == found.scheme.layers[i]
            &&& l[i].primary == keys.subrange(32 * i, 32 * i + 32)
            &&& l[i].secondary == keys.subrange(32 * (n + i), 32 * (n + i) + 32)
        }),
{
    let n = found.scheme.layers.len() as int;
    let keys = found.header.master_keys;
    let used = keys.take(64 * n);
    assert(used.subrange(32 * i, 32 * i + 32) =~= keys.subrange(32 * i, 32 * i + 32));
    assert(used.subrange(32 * (n + i), 32 * (n + i) + 32) =~= keys.subrange(
        32 * (n + i),
        32 * (n + i) + 32,
    ));
}

/// The outer volume is looked for at the places of outer headers and the hidden
/// one at those of hidden headers, each at the header before its backup.
pub proof fn each_volume_is_looked_for_at_its_places(p: HeaderPosition)
    ensures
        outer_positions().contains(p) <==> p is Primary || p is BackupPrimary,
        hidden_positions().contains(p) <==> p is Hidden || p is BackupHidden,
        outer_positions()[0] is Primary && outer_positions().len() == 2,
        hidden_positions()[0] is Hidden && hidden_positions().len() == 2,
{
    let o = outer_positions();
    let h = hidden_positions();
    assert(o[0] is Primary && o[1] is BackupPrimary && h[0] is Hidden && h[1] is BackupHidden);
    if p is Primary {
        assert(o.contains(o[0]));
    } else if p is BackupPrimary {
        assert(o.contains(o[1]));
    } else if p is Hidden {
        assert(h.contains(h[0]));
    } else {
        assert(h.contains(h[1]));
    }
}

} // verus!
