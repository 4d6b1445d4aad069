use vaultpony::crypto::xts::SchemeXts;
use vaultpony::device::{BlockDevice, MemDevice};
use vaultpony::error::{IoError, IoErrorKind, VcError};
use vaultpony::crypto::kdf::derive_header_key;
use vaultpony::format::create::{
    create_hidden, create_volume, lay_hidden, lay_volume, CreateParams,
};
use vaultpony::format::decrypted::DecryptedDevice;
use vaultpony::format::repair::{
    export_headers, rekey, restore_from_file, restore_primary_from_embedded,
};
use vaultpony::format::search::{
    find_header, find_header_at, position_offset, try_schemes, SchemeOutcome, Silent,
    UnlockProgress, UnlockSecret,
};
use vaultpony::header::{HeaderPosition, VolumeGeometry};
use vaultpony::registry::{EncryptionScheme, Prf};
use vaultpony::vault::container::{
    may_share_a_container,
    change_password, encryption_schemes, export_header_backup, filesystem_named, filesystems, find_prf, find_scheme,
    hashes, parse_fs, restore_header_from_embedded, restore_header_from_file,
};
use vaultpony::vault::facade::{coarsen, OpenVault, UnlockProgressListener, VaultError, VaultSession};
use vaultpony::vault::probe::{probe, HeaderSource};
use vaultpony::vault::session::{
    create_container, create_container_with_hidden, serial_of, ContainerFs, Mounted, Prepared,
    Session,
};
use vaultpony::vfs::detect::FsKind;
use vaultpony::vfs::exfat::ExfatVfs;
use vaultpony::vfs::tree::Vfs;

fn scheme(name: &str) -> EncryptionScheme {
    find_scheme(name).unwrap()
}

fn prf(name: &str) -> Prf {
    find_prf(name).unwrap()
}

fn aes_xts() -> SchemeXts {
    SchemeXts::new(&scheme("AES"), &[7u8; 64]).unwrap()
}

/// PIM 1 keeps key derivation short.
fn params<'a>(passphrase: &'a [u8], size: u64) -> CreateParams<'a> {
    CreateParams {
        scheme: scheme("AES"),
        prf: prf("SHA-512"),
        pim: 1,
        passphrase,
        keyfiles: &[],
        size,
        sector_size: 512,
    }
}

fn fresh(passphrase: &[u8], size: u64) -> MemDevice {
    let mut dev = MemDevice::new(vec![0u8; size as usize]);
    let area = create_volume(&mut dev, &params(passphrase, size)).unwrap();
    assert_eq!(area, (131_072, size - 262_144));
    dev
}

fn secret(passphrase: &[u8]) -> UnlockSecret<'_> {
    UnlockSecret { passphrase, pim: 1 }
}

struct Steps(Vec<(usize, usize, String)>);

impl UnlockProgress for Steps {
    fn report(&mut self, step: usize, total: usize, prf: &str) {
        self.0.push((step, total, prf.to_string()));
    }
}

/// Every write pattern must leave the decrypted view equal to a shadow.
#[test]
fn unaligned_writes_round_trip_against_model() {
    let data_start = 1024u64;
    let data_size = 64 * 1024u64;
    let geometry = VolumeGeometry {
        volume_size: data_size,
        encrypted_area_start: data_start,
        encrypted_area_size: data_size,
        sector_size: 512,
        hidden_volume_size: 0,
    };
    // An image whose data area is valid ciphertext of all zeros.
    let mut image = vec![0u8; (data_start + data_size) as usize];
    let mut zero_area = vec![0u8; data_size as usize];
    aes_xts().encrypt_units(&mut zero_area, data_start / 512);
    image[data_start as usize..].copy_from_slice(&zero_area);

    let mut dev = DecryptedDevice::new(MemDevice::new(image), aes_xts(), &geometry);
    let mut shadow = vec![0u8; data_size as usize];
    let cases: &[(u64, usize, u8)] = &[
        (0, 512, 0xA1),
        (512, 1536, 0xB2),
        (100, 300, 0xC3),
        (700, 200, 0xD4),
        (1000, 5000, 0xE5),
        (250, 800, 0xF6),
        (63 * 1024 + 7, 500, 0x17),
    ];
    for &(off, len, fill) in cases {
        let data = vec![fill; len];
        dev.write_at(off, &data).unwrap();
        shadow[off as usize..off as usize + len].copy_from_slice(&data);

        let mut view = vec![0u8; data_size as usize];
        dev.read_at(0, &mut view).unwrap();
        assert_eq!(view, shadow, "mismatch after write at {off}+{len}");
    }
}

#[test]
fn write_past_end_refused() {
    let geometry = VolumeGeometry {
        volume_size: 4096,
        encrypted_area_start: 0,
        encrypted_area_size: 4096,
        sector_size: 512,
        hidden_volume_size: 0,
    };
    let mut dev = DecryptedDevice::new(MemDevice::new(vec![0u8; 4096]), aes_xts(), &geometry);
    assert!(dev.write_at(4000, &[0u8; 200]).is_err());
    let mut buf = [0u8; 200];
    match dev.read_at(4000, &mut buf) {
        Err(e) => assert_eq!(e.message(), "I/O error: read past end of data area"),
        Ok(_) => panic!("read"),
    }
    assert_eq!(dev.len().unwrap(), 4096);
    assert_eq!(dev.into_container().into_bytes(), vec![0u8; 4096]);
}

#[test]
fn unlocks_the_sha512_aes_fat_fixture() {
    let size = 16 * 1024 * 1024u64;
    let mut dev = MemDevice::new(vec![0u8; size as usize]);
    let prepared = create_container(dev, &params(b"vaultpony-fixture", size), ContainerFs::Fat);
    // A FAT boot sector's signature is what the probe goes by.
    dev = match prepared.ok().unwrap() {
        Prepared::NeedsFat(mut d) => {
            d.write_at(0, &[0u8; 4096]).unwrap();
            d.write_at(510, &[0x55, 0xAA]).unwrap();
            d.into_container()
        }
        Prepared::Formatted(_) => panic!("formatted"),
    };
    let mut steps = Steps(Vec::new());
    let info = probe(&mut dev, b"vaultpony-fixture", 1, &mut steps).unwrap();

    assert_eq!(info.scheme, "AES");
    assert_eq!(info.prf, "SHA-512");
    assert_eq!(info.header_version, 5);
    assert_eq!(info.geometry.sector_size, 512);
    assert_eq!(info.geometry.volume_size, 16 * 1024 * 1024 - 262_144);
    assert_eq!(info.geometry.encrypted_area_start, 131_072);
    assert_eq!(
        info.geometry.encrypted_area_size,
        16 * 1024 * 1024 - 262_144
    );
    assert_eq!(info.geometry.hidden_volume_size, 0);
    assert_eq!(info.filesystem, FsKind::Fat);
    assert_eq!(info.source, HeaderSource::Primary);
    // The default combination unlocks on the first candidate.
    assert_eq!(steps.0, vec![(0, 20, "SHA-512".to_string())]);
}

#[test]
fn a_cascade_container_reopens() {
    let size = 1 << 20;
    let mut dev = MemDevice::new(vec![0u8; size as usize]);
    let mut p = params(b"correct horse", size);
    p.scheme = scheme("Serpent(Twofish(AES))");
    create_volume(&mut dev, &p).unwrap();
    let found = find_header(&mut dev, &secret(b"correct horse"), &mut Silent::new())
        .ok()
        .unwrap();
    assert_eq!(found.scheme.name, "Serpent(Twofish(AES))");
    assert_eq!(found.prf.name, "SHA-512");
    assert_eq!(found.header.geometry.encrypted_area_start, 131_072);
}

#[test]
fn a_container_under_another_hash_reopens() {
    let size = 1 << 20;
    let mut dev = MemDevice::new(vec![0u8; size as usize]);
    let mut p = params(b"correct horse", size);
    p.scheme = scheme("Serpent(Twofish(AES))");
    p.prf = prf("SHA-256");
    create_volume(&mut dev, &p).unwrap();
    let found = find_header_at(
        &mut dev,
        &secret(b"correct horse"),
        &[HeaderPosition::Primary],
        &mut Silent::new(),
    )
    .ok()
    .unwrap();
    assert_eq!(found.scheme.name, "Serpent(Twofish(AES))");
    assert_eq!(found.prf.name, "SHA-256");
    assert_eq!(found.header.geometry.encrypted_area_start, 131_072);
}

#[test]
fn keyfiles_open_what_they_closed() {
    let size = 1 << 20;
    let keyfile = vec![0x5Au8; 3000];
    let files = vec![keyfile];
    let mut dev = MemDevice::new(vec![0u8; size as usize]);
    let mut p = params(b"pw", size);
    p.keyfiles = &files;
    create_volume(&mut dev, &p).unwrap();
    let with = vaultpony::crypto::keyfile::apply_keyfiles(b"pw", &files);
    assert!(find_header(&mut dev, &secret(&with), &mut Silent::new()).is_ok());
}

#[test]
fn impossible_volumes_are_refused() {
    let mut dev = MemDevice::new(vec![0u8; 4096]);
    for (size, sector, want) in [
        (1 << 20, 1024, "internal error: unsupported sector size"),
        (262_144, 512, "internal error: container too small"),
        (
            (1 << 20) + 1,
            512,
            "internal error: container size is not a multiple of the sector size",
        ),
    ] {
        let mut p = params(b"x", size);
        p.sector_size = sector;
        assert_eq!(create_volume(&mut dev, &p).unwrap_err().message(), want);
    }
    let p = params(b"x", 2 << 20);
    for (hidden, want) in [
        (0, "internal error: hidden size is not a positive multiple of the sector size"),
        (100, "internal error: hidden size is not a positive multiple of the sector size"),
        (1 << 20, "internal error: hidden volume leaves the outer volume too little room"),
    ] {
        assert_eq!(create_hidden(&mut dev, &p, hidden).unwrap_err().message(), want);
    }
}

#[test]
fn destroyed_primary_unlocks_via_backup_and_restores() {
    let size = 1 << 20;
    let mut bytes = fresh(b"vaultpony-fixture", size).into_bytes();
    // Destroy the primary header region.
    for b in &mut bytes[..65_536] {
        *b = 0;
    }
    let mut dev = MemDevice::new(bytes);
    // A full search still succeeds, by the embedded backup.
    let found =
        find_header(&mut dev, &secret(b"vaultpony-fixture"), &mut Silent::new()).ok().unwrap();
    assert_eq!(found.header.position, HeaderPosition::BackupPrimary);
    let keys = found.header.master_keys;

    restore_primary_from_embedded(&mut dev, &secret(b"vaultpony-fixture")).ok().unwrap();
    let found =
        find_header(&mut dev, &secret(b"vaultpony-fixture"), &mut Silent::new()).ok().unwrap();
    assert_eq!(found.header.position, HeaderPosition::Primary);
    assert_eq!(found.header.master_keys, keys);
}

#[test]
fn external_backup_recovers_a_fully_headerless_front() {
    let size = 1 << 20;
    let mut dev = fresh(b"vaultpony-fixture", size);
    let backup = export_headers(&mut dev).unwrap();
    assert_eq!(backup.len(), 131_072);
    let mut bytes = dev.into_bytes();
    assert_eq!(&bytes[..131_072], &backup[..]);
    for b in &mut bytes[..131_072] {
        *b = 0;
    }
    let mut dev = MemDevice::new(bytes);
    restore_from_file(&mut dev, &backup, &secret(b"vaultpony-fixture")).ok().unwrap();
    let found =
        find_header(&mut dev, &secret(b"vaultpony-fixture"), &mut Silent::new()).ok().unwrap();
    assert_eq!(found.header.position, HeaderPosition::Primary);
    assert_eq!(export_headers(&mut dev).unwrap(), backup);
    // A backup of the wrong size is refused before anything is written.
    let before = export_headers(&mut dev).unwrap();
    match restore_from_file(&mut dev, &[0u8; 5], &secret(b"x")) {
        Err(e) => assert_eq!(
            e.message(),
            "internal error: backup must be 131072 bytes, got 5"
        ),
        Ok(_) => panic!("restored"),
    }
    assert_eq!(export_headers(&mut dev).unwrap(), before);
    assert!(matches!(
        export_headers(&mut MemDevice::new(vec![0u8; 1000])),
        Err(VcError::NotFoundOrWrongPassword)
    ));
}

#[test]
fn header_backup_and_restore_through_the_vault() {
    let size = 1 << 20;
    let mut dev = fresh(b"recover-me", size);
    let backup = export_header_backup(&mut dev).unwrap();
    let mut bytes = dev.into_bytes();
    for b in &mut bytes[..65_536] {
        *b = 0xFF;
    }
    let mut dev = MemDevice::new(bytes);
    restore_header_from_embedded(&mut dev, b"recover-me", 1).unwrap();
    let mut bytes = dev.into_bytes();
    let n = bytes.len();
    for b in &mut bytes[n - 131_072..] {
        *b = 0xFF;
    }
    for b in &mut bytes[..131_072] {
        *b = 0xFF;
    }
    let mut dev = MemDevice::new(bytes);
    restore_header_from_file(&mut dev, &backup, b"recover-me", 1).unwrap();
    assert!(find_header(&mut dev, &secret(b"recover-me"), &mut Silent::new()).is_ok());
}

#[test]
fn change_password_rekeys_but_keeps_data() {
    let size = 1 << 20;
    let dev = MemDevice::new(vec![0u8; size as usize]);
    let made = create_container(dev, &params(b"old-pass", size), ContainerFs::Exfat).ok().unwrap();
    let dev = match made {
        Prepared::Formatted(d) => d.into_container(),
        Prepared::NeedsFat(_) => panic!("not formatted"),
    };
    let mut vfs = exfat_of(dev, b"old-pass");
    vfs.create("/memo.txt").unwrap();
    vfs.write_at("/memo.txt", 0, b"survives").unwrap();
    let mut dev = vfs.into_device().into_container();
    let keys = find_header(&mut dev, &secret(b"old-pass"), &mut Silent::new())
        .ok()
        .unwrap()
        .header
        .master_keys;
    let before = dev.into_bytes();
    let mut dev = MemDevice::new(before.clone());
    change_password(&mut dev, b"old-pass", 1, b"new-pass", 1).unwrap();
    let found = find_header(&mut dev, &secret(b"new-pass"), &mut Silent::new()).ok().unwrap();
    assert_eq!(found.header.master_keys, keys);
    assert!(find_header_at(
        &mut dev,
        &secret(b"new-pass"),
        &[HeaderPosition::BackupPrimary],
        &mut Silent::new()
    )
    .is_ok());
    // Under the hash of the volume the old password opens neither region.
    assert!(misses(&mut dev, b"old-pass", HeaderPosition::Primary));
    assert!(misses(&mut dev, b"old-pass", HeaderPosition::BackupPrimary));
    assert!(!misses(&mut dev, b"new-pass", HeaderPosition::Primary));
    // Only the two header regions changed.
    let after = dev.into_bytes();
    let n = after.len();
    assert_eq!(after[512..n - 131_072], before[512..n - 131_072]);
    assert_eq!(after[n - 131_072 + 512..], before[n - 131_072 + 512..]);
    assert_ne!(after[..512], before[..512]);
    // And the file is there.
    let mut vfs = exfat_of(MemDevice::new(after), b"new-pass");
    let mut buf = [0u8; 16];
    assert_eq!(vfs.read_at("/memo.txt", 0, &mut buf).unwrap(), 8);
    assert_eq!(&buf[..8], b"survives");
}

fn exfat_of(dev: MemDevice, pw: &[u8]) -> ExfatVfs<DecryptedDevice<MemDevice>> {
    match Session::unlock_device(dev, pw, 1, &mut Silent::new()).ok().unwrap().into_mounted() {
        Mounted::Exfat(v) => v,
        _ => panic!("not exFAT"),
    }
}

/// Whether a password opens nothing at a position under SHA-512. (A whole
/// search that misses goes through every hash, which takes minutes.)
fn misses(dev: &mut MemDevice, pw: &[u8], position: HeaderPosition) -> bool {
    let at = position_offset(position, dev.len().unwrap()).unwrap();
    let mut salt = [0u8; 64];
    dev.read_at(at, &mut salt).unwrap();
    let mut enc = [0u8; 448];
    dev.read_at(at + 64, &mut enc).unwrap();
    let key = derive_header_key("SHA-512", pw, &salt, 16_000, 192).unwrap();
    matches!(try_schemes(key.as_bytes(), &enc, position), SchemeOutcome::Miss)
}

#[test]
fn a_rekeyed_header_is_what_its_salts_make_it() {
    let size = 1 << 20;
    let mut dev = fresh(b"old", size);
    let found = find_header(&mut dev, &secret(b"old"), &mut Silent::new()).ok().unwrap();
    let plaintext = [0x42u8; 448];
    rekey(&mut dev, &found, &plaintext, &secret(b"new"), &[1u8; 64], &[2u8; 64]).unwrap();
    let bytes = dev.into_bytes();
    let n = bytes.len();
    assert_eq!(bytes[..64], [1u8; 64]);
    assert_eq!(bytes[n - 131_072..n - 131_072 + 64], [2u8; 64]);
    assert_ne!(bytes[64..512], plaintext);
    // The same salts again make the same header.
    let mut dev = MemDevice::new(vec![0u8; n]);
    rekey(&mut dev, &found, &plaintext, &secret(b"new"), &[1u8; 64], &[2u8; 64]).unwrap();
    assert_eq!(dev.into_bytes()[..512], bytes[..512]);
    match rekey(
        &mut MemDevice::new(vec![0u8; 1000]),
        &found,
        &plaintext,
        &secret(b"new"),
        &[1u8; 64],
        &[2u8; 64],
    ) {
        Err(e) => {
            assert_eq!(e.message(), "internal error: container too small for a backup header")
        }
        Ok(_) => panic!("rekeyed"),
    }
}

#[test]
fn a_volume_is_what_its_draw_makes_it() {
    let size = 1 << 20;
    let mut dev = MemDevice::new(vec![0u8; size as usize]);
    let noise = vec![9u8; 131_072];
    let area = lay_volume(
        &mut dev,
        &params(b"pw", size),
        &[5u8; 256],
        &[1u8; 64],
        &[2u8; 64],
        noise.clone(),
        noise,
    )
    .unwrap();
    assert_eq!(area, (131_072, size - 262_144));
    let found = find_header(&mut dev, &secret(b"pw"), &mut Silent::new()).ok().unwrap();
    assert_eq!(found.header.master_keys, [5u8; 256]);
    assert_eq!(found.header.geometry.encrypted_area_size, size - 262_144);
    let bytes = dev.into_bytes();
    assert_eq!(bytes[..64], [1u8; 64]);
    assert!(bytes[512..131_072].iter().all(|&b| b == 9));
    assert!(bytes[131_072..size as usize - 131_072].iter().all(|&b| b == 0));
    let mut p = params(b"pw", size);
    p.prf = Prf { name: "MD5", ..p.prf };
    let noise = vec![9u8; 131_072];
    let mut dev = MemDevice::new(vec![0u8; size as usize]);
    assert_eq!(
        lay_volume(
            &mut dev,
            &p,
            &[5u8; 256],
            &[1u8; 64],
            &[2u8; 64],
            noise.clone(),
            noise
        )
        .unwrap_err()
        .message(),
        "internal error: unknown PRF MD5"
    );
    assert!(dev.into_bytes().iter().all(|&b| b == 0));
}

#[test]
fn a_hidden_header_is_what_its_draw_makes_it() {
    let size = 4 << 20;
    let mut dev = MemDevice::new(vec![0u8; size as usize]);
    let p = params(b"hidden", size);
    lay_hidden(&mut dev, &p, 1 << 20, &[6u8; 256], &[3u8; 64], &[4u8; 64]).unwrap();
    let found = find_header_at(
        &mut dev,
        &secret(b"hidden"),
        &[HeaderPosition::Hidden],
        &mut Silent::new(),
    )
    .ok()
    .unwrap();
    assert_eq!(found.header.master_keys, [6u8; 256]);
    assert_eq!(found.header.geometry.hidden_volume_size, 1 << 20);
}

#[test]
fn outer_password_opens_a_different_volume_and_never_the_hidden_tree() {
    let size = 4 << 20;
    let mut dev = fresh(b"outer", size);
    let (start, len) = create_hidden(&mut dev, &params(b"hidden", size), 1 << 20).unwrap();
    assert_eq!((start, len), (size - 131_072 - (1 << 20), 1 << 20));
    let outer = find_header(&mut dev, &secret(b"outer"), &mut Silent::new()).ok().unwrap();
    let hidden = find_header(&mut dev, &secret(b"hidden"), &mut Silent::new()).ok().unwrap();
    assert!(!outer.header.position.is_hidden());
    assert!(hidden.header.position.is_hidden());
    assert_ne!(
        outer.header.geometry.encrypted_area_start,
        hidden.header.geometry.encrypted_area_start
    );
    assert_eq!(outer.header.geometry.encrypted_area_start, 131_072);
    assert_eq!(outer.header.geometry.hidden_volume_size, 0);
    assert_eq!(hidden.header.geometry.hidden_volume_size, 1 << 20);
}

#[test]
fn a_probe_does_not_tell_a_hidden_volume() {
    let size = 4 << 20;
    let mut dev = fresh(b"outer", size);
    create_hidden(&mut dev, &params(b"hidden", size), 1 << 20).unwrap();
    let info = probe(&mut dev, b"hidden", 1, &mut Silent::new()).unwrap();
    assert_eq!(info.source, HeaderSource::Primary);
}

#[test]
fn an_exfat_container_is_created_unlocked_and_used() {
    let size = 4 << 20;
    let dev = MemDevice::new(vec![0u8; size as usize]);
    let made = create_container(dev, &params(b"pw", size), ContainerFs::Exfat).ok().unwrap();
    let dev = match made {
        Prepared::Formatted(d) => d.into_container(),
        Prepared::NeedsFat(_) => panic!("not formatted"),
    };
    let session = Session::unlock_device(dev, b"pw", 1, &mut Silent::new()).ok().unwrap();
    assert_eq!(session.scheme(), "AES");
    assert_eq!(session.prf(), "SHA-512");
    let vfs = match session.into_mounted() {
        Mounted::Exfat(v) => v,
        _ => panic!("not exFAT"),
    };
    let mut s = VaultSession::new(OpenVault { vfs, scheme: "AES", prf: "SHA-512" });
    let facts = s.facts().unwrap();
    assert_eq!(facts.filesystem, "Exfat");
    assert!(facts.writable);
    assert!(s.list("/".to_string()).unwrap().is_empty());
    s.create("/readme.txt".to_string()).unwrap();
    let text = b"VaultPony fixture tree v1\n";
    assert_eq!(s.write_at("/readme.txt".to_string(), 0, text.to_vec()).unwrap(), 26);
    s.mkdir("/docs".to_string()).unwrap();
    s.rename("/readme.txt".to_string(), "/docs/README.txt".to_string()).unwrap();
    let names: Vec<String> = s.list("/docs".to_string()).unwrap().into_iter().map(|e| e.name).collect();
    assert_eq!(names, vec!["README.txt".to_string()]);
    // Lookups ignore case, and offsets are honoured.
    assert_eq!(s.read_at("/DOCS/readme.txt".to_string(), 10, 1024).unwrap(), b"fixture tree v1\n");
    assert_eq!(s.stat("/docs/README.txt".to_string()).unwrap().size, 26);
    s.truncate("/docs/README.txt".to_string(), 9).unwrap();
    assert_eq!(s.read_at("/docs/README.txt".to_string(), 0, 99).unwrap(), b"VaultPony");
    s.flush().unwrap();
    s.remove("/docs/README.txt".to_string()).unwrap();
    match s.stat("/docs/README.txt".to_string()) {
        Err(VaultError::Filesystem { detail }) => assert_eq!(detail, "not found"),
        _ => panic!("still there"),
    }
    s.lock();
    s.lock(); // idempotent
    assert!(matches!(s.list("/".to_string()), Err(VaultError::Internal)));
    assert!(matches!(s.facts(), Err(VaultError::Internal)));
    assert!(matches!(s.create("/x".to_string()), Err(VaultError::Internal)));
}

#[test]
fn protection_on_blocks_the_write_and_the_hidden_volume_survives() {
    let size = 4 << 20;
    let hidden_size = 1 << 20;
    let dev = MemDevice::new(vec![0u8; size as usize]);
    let made = create_container_with_hidden(
        dev,
        &params(b"outer-pw", size),
        &params(b"hidden-pw", size),
        hidden_size,
        ContainerFs::Exfat,
    )
    .ok()
    .unwrap();
    let bytes = match made {
        Prepared::Formatted(d) => d.into_container().into_bytes(),
        Prepared::NeedsFat(_) => panic!("not formatted"),
    };
    let area = (size - 131_072 - hidden_size) as usize..(size - 131_072) as usize;
    let before = bytes[area.clone()].to_vec();
    let session = Session::unlock_outer_protected_device(
        MemDevice::new(bytes),
        b"outer-pw",
        b"hidden-pw",
        1,
        &mut Silent::new(),
    )
    .ok()
    .unwrap();
    let mut vfs = match session.into_mounted() {
        Mounted::Exfat(v) => v,
        _ => panic!("not exFAT"),
    };
    vfs.create("/decoy.bin").unwrap();
    let chunk = vec![0xEEu8; 256 * 1024];
    let mut blocked = None;
    for i in 0..16u64 {
        if let Err(e) = vfs.write_at("/decoy.bin", i * chunk.len() as u64, &chunk) {
            blocked = Some(e.message());
            break;
        }
    }
    assert!(blocked.unwrap().contains("hidden volume"));
    // Latched: even a tiny write now fails, and says why, while reads go on.
    let refused = |r: Result<(), VcError>| matches!(r, Err(VcError::HiddenVolumeProtected));
    assert!(refused(vfs.write_at("/decoy.bin", 0, b"x").map(|_| ())));
    assert!(refused(vfs.create("/other")));
    assert!(refused(vfs.mkdir("/dir")));
    assert!(refused(vfs.rename("/decoy.bin", "/moved")));
    assert!(refused(vfs.unlink("/decoy.bin")));
    assert!(vfs.list("/").is_ok());
    let mut buf = [0u8; 8];
    assert_eq!(vfs.read_at("/decoy.bin", 0, &mut buf).unwrap(), 8);
    assert_eq!(buf, [0xEE; 8]);
    let mut s = VaultSession::new(OpenVault { vfs, scheme: "AES", prf: "SHA-512" });
    assert!(matches!(
        s.create("/x".to_string()),
        Err(VaultError::HiddenVolumeProtected)
    ));
    let vfs = s.close().unwrap();
    let after = vfs.into_device().into_inner().into_container().into_bytes();
    assert_eq!(after[area], before[..]);
}

#[test]
fn both_volumes_of_a_hidden_container_open() {
    let size = 4 << 20;
    let dev = MemDevice::new(vec![0u8; size as usize]);
    let made = create_container_with_hidden(
        dev,
        &params(b"outer", size),
        &params(b"hidden", size),
        2 << 20,
        ContainerFs::Exfat,
    )
    .ok()
    .unwrap();
    let bytes = match made {
        Prepared::Formatted(d) => d.into_container().into_bytes(),
        Prepared::NeedsFat(_) => panic!("not formatted"),
    };
    for pw in [&b"outer"[..], &b"hidden"[..]] {
        let s = Session::unlock_device(MemDevice::new(bytes.clone()), pw, 1, &mut Silent::new())
            .ok()
            .unwrap();
        match s.into_mounted() {
            Mounted::Exfat(mut v) => assert!(v.list("/").unwrap().is_empty()),
            _ => panic!("not exFAT"),
        }
    }
}

struct Ear(std::cell::RefCell<Vec<(u32, u32, String)>>);

impl UnlockProgressListener for Ear {
    fn on_progress(&self, step: u32, total: u32, prf: String) {
        self.0.borrow_mut().push((step, total, prf));
    }
}

#[test]
fn a_listener_hears_every_step() {
    let size = 1 << 20;
    let mut dev = fresh(b"pw", size);
    let ear = Ear(std::cell::RefCell::new(Vec::new()));
    let mut forward = vaultpony::vault::facade::Forward::new(Some(&ear));
    find_header(&mut dev, &secret(b"pw"), &mut forward).ok().unwrap();
    assert_eq!(ear.0.borrow()[..], [(0, 20, "SHA-512".to_string())]);
}

#[test]
fn names_match_the_registry() {
    assert_eq!(encryption_schemes().len(), 15);
    assert_eq!(encryption_schemes()[0], "AES");
    assert_eq!(hashes(), ["SHA-512", "Whirlpool", "SHA-256", "BLAKE2s-256", "Streebog"]);
    assert_eq!(filesystems(), ["FAT", "exFAT"]);
    assert_eq!(parse_fs("FAT"), Some(ContainerFs::Fat));
    assert_eq!(parse_fs("exFAT"), Some(ContainerFs::Exfat));
    assert_eq!(parse_fs("ext4"), None);
    assert_eq!(parse_fs("exfat"), None);
    assert_eq!(filesystem_named("exfat"), Some(ContainerFs::Exfat));
    assert_eq!(filesystem_named("fat"), Some(ContainerFs::Fat));
    assert_eq!(filesystem_named("Fat"), None);
    assert!(find_scheme("DES").is_none());
    assert!(find_prf("MD5").is_none());
}

#[test]
fn core_errors_become_coarse() {
    let io = VcError::Io(IoError::new(IoErrorKind::UnexpectedEof, "secret path"));
    assert_eq!(coarsen(io).message(), "I/O error: unexpected end of file");
    assert_eq!(
        coarsen(VcError::UnknownFilesystem).message(),
        "filesystem not supported yet: unrecognized"
    );
    assert!(matches!(
        coarsen(VcError::Internal("detail".to_string())),
        VaultError::Internal
    ));
    assert!(matches!(
        coarsen(VcError::NotFoundOrWrongPassword),
        VaultError::NotFoundOrWrongPassword
    ));
}

#[test]
fn a_volume_reopens_with_what_was_written() {
    let size = 1 << 20;
    let dev = MemDevice::new(vec![0u8; size as usize]);
    let made = create_container(dev, &params(b"pw", size), ContainerFs::Exfat).ok().unwrap();
    let dev = match made {
        Prepared::Formatted(d) => d.into_container(),
        Prepared::NeedsFat(_) => panic!("not formatted"),
    };
    let open = |dev| match Session::unlock_device(dev, b"pw", 1, &mut Silent::new())
        .ok()
        .unwrap()
        .into_mounted()
    {
        Mounted::Exfat(v) => v,
        _ => panic!("not exFAT"),
    };
    let mut vfs = open(dev);
    vfs.mkdir("/a").unwrap();
    vfs.create("/a/b").unwrap();
    vfs.write_at("/a/b", 5, b"kept").unwrap();
    let mut vfs = open(vfs.into_device().into_container());
    let mut buf = [9u8; 16];
    assert_eq!(vfs.read_at("/a/b", 0, &mut buf).unwrap(), 9);
    assert_eq!(&buf[..10], b"\0\0\0\0\0kept\x09");
}

#[test]
fn a_container_too_small_for_a_slot_has_nothing_there() {
    // No slot at either position, so nothing is derived.
    let mut dev = MemDevice::new(vec![0u8; 1000]);
    let mut steps = Steps(Vec::new());
    assert!(matches!(
        find_header_at(
            &mut dev,
            &secret(b"pw"),
            &[HeaderPosition::Hidden, HeaderPosition::BackupPrimary],
            &mut steps,
        ),
        Err(VcError::NotFoundOrWrongPassword)
    ));
    assert!(steps.0.is_empty());
    // A container under 512 bytes has no slot at all.
    let mut dev = MemDevice::new(vec![0u8; 100]);
    assert!(matches!(
        find_header(&mut dev, &secret(b"pw"), &mut steps),
        Err(VcError::NotFoundOrWrongPassword)
    ));
    assert!(steps.0.is_empty());
}

#[test]
fn a_volume_id_is_its_drawn_bytes() {
    assert_eq!(serial_of(Ok(()), &[1, 2, 3, 4]).unwrap(), 0x0403_0201);
    assert!(matches!(
        serial_of(Err(VcError::Internal("rng: x".to_string())), &[1, 2, 3, 4]),
        Err(VcError::Internal(_))
    ));
}

/// Create containers under two schemes of the registry, and open them again.
fn reopen(from: usize) {
    let size = 1 << 20;
    for name in encryption_schemes().into_iter().skip(from).take(2) {
        let mut dev = MemDevice::new(vec![0u8; size as usize]);
        let mut p = params(b"correct horse", size);
        p.scheme = scheme(&name);
        create_volume(&mut dev, &p).unwrap();
        let found =
            find_header(&mut dev, &secret(b"correct horse"), &mut Silent::new()).ok().unwrap();
        assert_eq!(found.scheme.name, name);
        assert_eq!(found.prf.name, "SHA-512");
        assert_eq!(found.header.geometry.encrypted_area_start, 131_072);
    }
}

#[test]
fn schemes_1_and_2_reopen() {
    reopen(1);
}

#[test]
fn schemes_3_and_4_reopen() {
    reopen(3);
}

#[test]
fn schemes_5_and_6_reopen() {
    reopen(5);
}

#[test]
fn schemes_7_and_8_reopen() {
    reopen(7);
}

#[test]
fn schemes_9_and_10_reopen() {
    reopen(9);
}

#[test]
fn schemes_11_and_12_reopen() {
    reopen(11);
}

#[test]
fn schemes_13_and_14_reopen() {
    reopen(13);
}

#[test]
fn two_volumes_want_two_passwords() {
    assert!(may_share_a_container(b"outer", b"hidden"));
    assert!(may_share_a_container(b"outer", b"outes"));
    assert!(may_share_a_container(b"", b"x"));
    assert!(!may_share_a_container(b"outer", b"outer"));
    assert!(!may_share_a_container(b"", b""));
}
