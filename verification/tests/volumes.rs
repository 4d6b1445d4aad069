use vaultpony::exfat::dir::{set_checksum, timestamp_ms, ENTRY_FILE, ENTRY_STREAM};
use vaultpony::exfat::upcase::UpcaseTable;
use vaultpony::vault::container::core_version;
use vaultpony::vfs::detect::{sniff, FsKind};

#[test]
fn version_is_populated() {
    assert!(core_version().starts_with("vault-core "));
}

#[test]
fn sniffs_exfat_oem() {
    let mut b = vec![0u8; 1088];
    b[3..11].copy_from_slice(b"EXFAT   ");
    assert_eq!(sniff(&b), FsKind::Exfat);
}

#[test]
fn sniffs_ext4_magic() {
    let mut b = vec![0u8; 1088];
    b[1080] = 0x53;
    b[1081] = 0xEF;
    assert_eq!(sniff(&b), FsKind::Ext4);
}

#[test]
fn unknown_on_zeroes() {
    assert_eq!(sniff(&[0u8; 1088]), FsKind::Unknown);
}

#[test]
fn sniffs_ntfs_and_fat_and_short_buffers() {
    let mut b = vec![0u8; 512];
    b[3..11].copy_from_slice(b"NTFS    ");
    assert_eq!(sniff(&b), FsKind::Ntfs);
    let mut b = vec![0u8; 512];
    b[510] = 0x55;
    b[511] = 0xAA;
    assert_eq!(sniff(&b), FsKind::Fat);
    assert_eq!(FsKind::Fat.name(), "Fat");
    assert_eq!(sniff(&[]), FsKind::Unknown);
}

#[test]
fn checksum_skips_its_own_field() {
    let mut set = [[0u8; 32]; 2];
    set[0][0] = ENTRY_FILE;
    set[1][0] = ENTRY_STREAM;
    let a = set_checksum(&set);
    set[0][2] = 0xAB;
    set[0][3] = 0xCD;
    assert_eq!(a, set_checksum(&set));
    set[1][5] = 1;
    assert_ne!(a, set_checksum(&set));
}

#[test]
fn timestamp_epoch_math() {
    // 2026-08-02 12:00:00, no offset recorded.
    let ts = ((2026 - 1980) << 25) | (8 << 21) | (2 << 16) | (12 << 11);
    let ms = timestamp_ms(ts, 0, 0).unwrap();
    assert_eq!(ms, 1_785_672_000_000);
}

#[test]
fn timestamps_honour_offsets_and_refuse_bad_dates() {
    let ts = ((2026 - 1980) << 25) | (8 << 21) | (2 << 16) | (12 << 11);
    // UTC+1: four quarters of an hour.
    assert_eq!(timestamp_ms(ts, 5, 0x84), Some(1_785_672_000_050 - 3_600_000));
    // UTC-1.
    assert_eq!(timestamp_ms(ts, 0, 0xFC), Some(1_785_672_000_000 + 3_600_000));
    assert_eq!(timestamp_ms(0, 0, 0), None);
}

#[test]
fn identity_maps_everything_to_itself() {
    let t = UpcaseTable::identity();
    assert_eq!(t.map(0x61), 0x61);
    assert_eq!(t.map(0xFFFE), 0xFFFE);
}
