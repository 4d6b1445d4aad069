use std::collections::HashMap;
use vaultpony::device::{BlockDevice, MemDevice};
use vaultpony::exfat::boot::read_boot_region;
use vaultpony::exfat::dir::Entry;
use vaultpony::exfat::fat::{fat_entry, read_chain, END_OF_CHAIN};
use vaultpony::exfat::fs::ExfatFs;
use vaultpony::exfat::io::{DeviceReadAt, ExfatError, ReadAt, WriteAt};
use vaultpony::error::{IoError, VcResult};
use vaultpony::vfs::exfat::{format_exfat, ExfatVfs};
use vaultpony::vault::facade::{OpenVault, VaultSession};
use vaultpony::vfs::order::{listing_order, order_of};
use vaultpony::vfs::tree::{DirEntry, Vfs};

type Dev = DeviceReadAt<MemDevice>;

fn image(bytes: usize) -> Dev {
    // Noise, as an encrypted device shows it.
    let mut d = DeviceReadAt { dev: MemDevice::new(vec![0x5Au8; bytes]) };
    vaultpony::exfat::format::format(&mut d, bytes as u64, 0xCAFE_F00D).unwrap();
    d
}

fn open(d: Dev) -> ExfatFs<Dev> {
    ExfatFs::open(d).ok().unwrap()
}

fn root<D: WriteAt>(fs: &mut ExfatFs<D>) -> Vec<Entry> {
    let (fc, nfc, dl) = fs.root_dir();
    fs.list_dir(fc, nfc, dl).unwrap()
}

fn whole<D: WriteAt>(fs: &mut ExfatFs<D>, path: &str) -> Vec<u8> {
    let e = fs.lookup(path).unwrap().unwrap();
    let mut buf = vec![0u8; e.size as usize];
    assert_eq!(fs.read_file(&e, 0, &mut buf).unwrap(), buf.len());
    buf
}

#[test]
fn a_fresh_volume_opens_empty() {
    let mut d = image(4 << 20);
    let geo = read_boot_region(&mut d).unwrap();
    assert_eq!(geo.bytes_per_sector, 512);
    assert_eq!(geo.sectors_per_cluster, 8);
    assert_eq!(geo.cluster_bytes(), 4096);
    assert_eq!(geo.fat_offset_sectors, 24);
    assert_eq!(geo.fat_length_sectors, 8);
    assert_eq!(geo.cluster_count, 1020);
    // One cluster of bitmap, two of up-case table, then the root.
    assert_eq!(geo.root_first_cluster, 5);
    assert_eq!(geo.cluster_offset(2).unwrap(), 32 * 512);
    assert!(geo.cluster_offset(1).is_err());
    assert!(geo.cluster_offset(1022).is_err());
    assert_eq!(fat_entry(&mut d, &geo, 5).unwrap(), END_OF_CHAIN);
    assert_eq!(read_chain(&mut d, &geo, 5, None).unwrap(), vec![5]);
    assert_eq!(read_chain(&mut d, &geo, 3, None).unwrap(), vec![3, 4]);
    let mut fs = open(d);
    assert!(root(&mut fs).is_empty());
    assert!(fs.lookup("/").unwrap().is_none());
}

#[test]
fn volumes_too_small_are_refused() {
    for n in [0u64, 512 * 24, 512 * 40] {
        let mut d = DeviceReadAt { dev: MemDevice::new(vec![0u8; n as usize]) };
        match vaultpony::exfat::format::format(&mut d, n, 1) {
            Err(ExfatError::Invalid(what)) => assert!(what.starts_with("volume too small")),
            _ => panic!("formatted {n}"),
        }
    }
    match format_exfat(MemDevice::new(vec![0u8; 512]), 1) {
        Err(e) => assert_eq!(
            e.message(),
            "filesystem error: invalid exFAT volume: volume too small for exFAT"
        ),
        Ok(_) => panic!("formatted"),
    }
}

/// A large device that holds only the pages written to.
struct Sparse {
    pages: HashMap<u64, Vec<u8>>,
    len: u64,
}

const PAGE: u64 = 4096;

impl ReadAt for Sparse {
    fn read_at(&mut self, o: u64, b: &mut [u8]) -> Result<(), IoError> {
        for (i, byte) in b.iter_mut().enumerate() {
            let at = o + i as u64;
            *byte = match self.pages.get(&(at / PAGE)) {
                Some(p) => p[(at % PAGE) as usize],
                None => 0x5A,
            };
        }
        Ok(())
    }
    fn len(&mut self) -> Result<u64, IoError> {
        Ok(self.len)
    }
}

impl WriteAt for Sparse {
    fn write_at(&mut self, o: u64, b: &[u8]) -> Result<(), IoError> {
        for (i, byte) in b.iter().enumerate() {
            let at = o + i as u64;
            let page = self.pages.entry(at / PAGE).or_insert_with(|| vec![0x5A; PAGE as usize]);
            page[(at % PAGE) as usize] = *byte;
        }
        Ok(())
    }
    fn flush(&mut self) -> Result<(), IoError> {
        Ok(())
    }
}

/// A volume large enough for clusters of 32 KiB.
#[test]
fn create_write_grow_delete_roundtrip() {
    let big: Vec<u8> = (0..500_000u32).map(|i| (i * 7) as u8).collect();
    let mut disk = Sparse { pages: HashMap::new(), len: 300 << 20 };
    vaultpony::exfat::format::format(&mut disk, 300 << 20, 7).unwrap();
    assert_eq!(read_boot_region(&mut disk).unwrap().cluster_bytes(), 32 * 1024);
    let mut fs = ExfatFs::open(disk).ok().unwrap();
    fs.make_dir("/docs").unwrap();
    fs.create_file("/docs/a.txt").unwrap();
    fs.write_file("/docs/a.txt", 0, b"hello exfat write").unwrap();
    fs.create_file("/big.bin").unwrap();
    fs.write_file("/big.bin", 0, &big).unwrap();
    for i in 0..300 {
        let p = format!("/f{i:04}.dat");
        fs.create_file(&p).unwrap();
        fs.write_file(&p, 0, format!("file {i}").as_bytes()).unwrap();
    }
    // Delete half of them.
    for i in (0..300).step_by(2) {
        fs.remove(&format!("/f{i:04}.dat")).unwrap();
    }

    // Reopen and verify with the reader.
    let mut fs = ExfatFs::open(fs.into_device()).ok().unwrap();
    let names: Vec<String> = root(&mut fs).into_iter().map(|e| e.name).collect();
    assert!(names.contains(&"docs".to_string()));
    assert!(names.contains(&"big.bin".to_string()));
    assert!(names.contains(&"f0001.dat".to_string())); // odd kept
    assert!(!names.contains(&"f0000.dat".to_string())); // even deleted
    assert_eq!(whole(&mut fs, "/docs/a.txt"), b"hello exfat write");
    let b = fs.lookup("/big.bin").unwrap().unwrap();
    assert_eq!(b.size, big.len() as u64);
    assert_eq!(whole(&mut fs, "/big.bin"), big);
    assert_eq!(whole(&mut fs, "/f0299.dat"), b"file 299");
}

#[test]
fn lookup_is_case_insensitive_via_upcase_table() {
    let mut fs = open(image(4 << 20));
    fs.make_dir("/Docs").unwrap();
    fs.create_file("/Docs/Ünicode 😀.TXT").unwrap();
    assert!(fs.lookup("/dOCS/Ünicode 😀.txt").unwrap().is_some());
    assert!(matches!(fs.lookup("/docs/other"), Err(ExfatError::NotFound)));
    assert!(matches!(fs.lookup("/docs/Ünicode 😀.TXT/x"), Err(ExfatError::NotFound)));
    // Letters fold beyond ASCII.
    assert_eq!(fs.lookup("/docs/ünicode 😀.txt").unwrap().unwrap().name, "Ünicode 😀.TXT");
    assert!(matches!(
        fs.create_file("/DOCS/ünicode 😀.TXT"),
        Err(ExfatError::Invalid("already exists"))
    ));
    assert!(matches!(
        fs.create_file("/docs/ÜNICODE 😀.txt"),
        Err(ExfatError::Invalid("already exists"))
    ));
}

#[test]
fn gaps_read_as_zeros_and_files_shrink() {
    let mut fs = open(image(4 << 20));
    fs.create_file("/a").unwrap();
    fs.write_file("/a", 10_000, b"end").unwrap();
    let mut want = vec![0u8; 10_000];
    want.extend_from_slice(b"end");
    assert_eq!(whole(&mut fs, "/a"), want);
    // Overwrite in the middle, across clusters.
    fs.write_file("/a", 4000, &[7u8; 200]).unwrap();
    want[4000..4200].copy_from_slice(&[7u8; 200]);
    assert_eq!(whole(&mut fs, "/a"), want);
    fs.truncate_file("/a", 4100).unwrap();
    assert_eq!(whole(&mut fs, "/a"), want[..4100]);
    fs.truncate_file("/a", 5000).unwrap();
    want.truncate(4100);
    want.resize(5000, 0);
    assert_eq!(whole(&mut fs, "/a"), want);
    fs.truncate_file("/a", 0).unwrap();
    assert_eq!(whole(&mut fs, "/a"), b"");
    let e = fs.lookup("/a").unwrap().unwrap();
    assert_eq!(e.first_cluster, 0);
    // Reading past the end gives nothing.
    let mut buf = [1u8; 4];
    assert_eq!(fs.read_file(&e, 0, &mut buf).unwrap(), 0);
    assert_eq!(buf, [1u8; 4]);
    // Writing nothing asks for no file.
    assert_eq!(fs.write_file("/nowhere", 0, b"").unwrap(), 0);
}

#[test]
fn truncating_a_fragmented_file_to_nothing_frees_its_own_clusters() {
    let mut fs = open(image(4 << 20));
    fs.create_file("/a").unwrap();
    fs.create_file("/b").unwrap();
    // Interleave the two chains.
    for i in 0..4u64 {
        fs.write_file("/a", i * 4096, &[0xAA; 4096]).unwrap();
        fs.write_file("/b", i * 4096, &[0xBB; 4096]).unwrap();
    }
    fs.truncate_file("/a", 0).unwrap();
    fs.create_file("/c").unwrap();
    fs.write_file("/c", 0, &vec![0xCC; 8 * 4096]).unwrap();
    assert_eq!(whole(&mut fs, "/b"), vec![0xBB; 4 * 4096]);
    assert_eq!(whole(&mut fs, "/c"), vec![0xCC; 8 * 4096]);
}

#[test]
fn rename_moves_and_refuses_to_overwrite() {
    let mut fs = open(image(4 << 20));
    fs.make_dir("/d").unwrap();
    fs.create_file("/a").unwrap();
    fs.write_file("/a", 0, b"data").unwrap();
    fs.create_file("/b").unwrap();
    assert!(matches!(
        fs.rename("/a", "/b"),
        Err(ExfatError::Invalid("destination exists"))
    ));
    fs.rename("/a", "/d/moved").unwrap();
    assert!(matches!(fs.lookup("/a"), Err(ExfatError::NotFound)));
    assert_eq!(whole(&mut fs, "/d/moved"), b"data");
    assert!(matches!(
        fs.remove("/d"),
        Err(ExfatError::Invalid("directory not empty"))
    ));
    fs.remove("/d/moved").unwrap();
    fs.remove("/d").unwrap();
    assert!(matches!(fs.remove("/d"), Err(ExfatError::NotFound)));
}

#[test]
fn misuse_is_named() {
    let mut fs = open(image(4 << 20));
    fs.make_dir("/d").unwrap();
    fs.create_file("/f").unwrap();
    for (got, want) in [
        (fs.write_file("/d", 0, b"x").map(|_| ()), "write to a directory"),
        (fs.truncate_file("/d", 1), "truncate a directory"),
        (fs.create_file("/"), "empty file name"),
        (fs.create_file("/f/x"), "path component is not a directory"),
        (fs.create_file(&format!("/{}", "n".repeat(256))), "bad name length"),
    ] {
        match got {
            Err(e) => assert_eq!(e.message(), format!("invalid exFAT volume: {want}")),
            Ok(_) => panic!("{want}"),
        }
    }
    // A name of 255 code units fits.
    let long = format!("/{}", "n".repeat(255));
    fs.create_file(&long).unwrap();
    assert_eq!(fs.lookup(&long).unwrap().unwrap().name.len(), 255);
    let e = fs.lookup("/d").unwrap().unwrap();
    assert!(matches!(
        fs.read_file(&e, 0, &mut [0u8; 1]),
        Err(ExfatError::Invalid("read_file on a directory"))
    ));
}

#[test]
fn a_full_volume_says_so() {
    let mut fs = open(image(256 * 1024));
    fs.create_file("/a").unwrap();
    assert!(matches!(
        fs.write_file("/a", 0, &vec![1u8; 512 * 1024]),
        Err(ExfatError::Invalid("no free clusters"))
    ));
}

#[test]
fn damaged_boot_regions_are_refused() {
    let base = image(4 << 20).dev.into_bytes();
    for (at, want) in [
        (3usize, "missing EXFAT signature"),
        (510, "missing boot signature"),
        (20, "MustBeZero region is not zero"),
        (108, "BytesPerSectorShift out of range"),
        (109, "SectorsPerClusterShift out of range"),
        (80, "FatOffset overlaps boot regions"),
        (99, "root cluster out of range"),
        (200, "VBR checksum mismatch"),
    ] {
        let mut bytes = base.clone();
        bytes[at] = if at == 80 { 1 } else { 0xEE };
        match ExfatFs::open(DeviceReadAt { dev: MemDevice::new(bytes) }) {
            Err(e) => assert_eq!(e.message(), format!("invalid exFAT volume: {want}")),
            Ok(_) => panic!("{want}"),
        }
    }
    // VolumeFlags and PercentInUse are outside the checksum.
    let mut bytes = base.clone();
    bytes[106] = 2;
    bytes[112] = 77;
    assert!(ExfatFs::open(DeviceReadAt { dev: MemDevice::new(bytes) }).is_ok());
}

#[test]
fn damaged_directories_are_refused() {
    let mut fs = open(image(4 << 20));
    fs.create_file("/file.txt").unwrap();
    let mut bytes = fs.into_device().dev.into_bytes();
    // The root directory is cluster 5; its fourth entry is the File entry.
    let at = 32 * 512 + 3 * 4096 + 96;
    assert_eq!(bytes[at], 0x85);
    bytes[at + 32 + 20] ^= 1; // the stream's first cluster
    let mut fs = open(DeviceReadAt { dev: MemDevice::new(bytes) });
    let (fc, nfc, dl) = fs.root_dir();
    assert!(matches!(
        fs.list_dir(fc, nfc, dl),
        Err(ExfatError::Invalid("entry set checksum mismatch"))
    ));
}

/// Records every write while changing an image in memory.
struct RecDev {
    data: Vec<u8>,
    log: Vec<(u64, Vec<u8>)>,
}

impl ReadAt for RecDev {
    fn read_at(&mut self, o: u64, b: &mut [u8]) -> Result<(), IoError> {
        b.copy_from_slice(&self.data[o as usize..o as usize + b.len()]);
        Ok(())
    }
    fn len(&mut self) -> Result<u64, IoError> {
        Ok(self.data.len() as u64)
    }
}

impl WriteAt for RecDev {
    fn write_at(&mut self, o: u64, b: &[u8]) -> Result<(), IoError> {
        self.data[o as usize..o as usize + b.len()].copy_from_slice(b);
        self.log.push((o, b.to_vec()));
        Ok(())
    }
    fn flush(&mut self) -> Result<(), IoError> {
        Ok(())
    }
}

#[test]
fn every_write_prefix_leaves_a_readable_or_cleanly_failing_volume() {
    let base = image(2 << 20).dev.into_bytes();
    let committed = b"committed-early-and-never-touched-again".to_vec();
    let mut fs = ExfatFs::open(RecDev { data: base.clone(), log: Vec::new() }).ok().unwrap();
    fs.create_file("/keep.txt").unwrap();
    fs.write_file("/keep.txt", 0, &committed).unwrap();
    let dev = fs.into_device();
    let boundary = dev.log.len();
    let mut fs = ExfatFs::open(dev).ok().unwrap();
    for i in 0..6 {
        let p = format!("/churn{i}.bin");
        fs.create_file(&p).unwrap();
        fs.write_file(&p, 0, &vec![i as u8; 40_000]).unwrap();
    }
    let ops = fs.into_device().log;
    assert!(ops.len() > 20, "workload too small ({} writes)", ops.len());

    let mut img = base.clone();
    for k in 0..=ops.len() {
        if k > 0 {
            let (off, bytes) = &ops[k - 1];
            img[*off as usize..*off as usize + bytes.len()].copy_from_slice(bytes);
        }
        // Every prefix opens and lists.
        let mut fs = open(DeviceReadAt { dev: MemDevice::new(img.clone()) });
        let entries = root(&mut fs);
        if k >= boundary {
            let e = entries.iter().find(|e| e.name == "keep.txt").unwrap();
            assert_eq!(e.size, committed.len() as u64);
            let mut buf = vec![0u8; e.size as usize];
            fs.read_file(e, 0, &mut buf).unwrap();
            assert_eq!(buf, committed, "committed file corrupted at prefix {k}");
        }
    }
}

#[test]
fn a_directory_grows_by_a_cluster() {
    let mut fs = open(image(4 << 20));
    fs.make_dir("/d").unwrap();
    // Sets of four entries: 32 of them fill a cluster of 4 KiB exactly.
    for i in 0..40 {
        fs.create_file(&format!("/d/name-of-18-chars-{i:02}")).unwrap();
    }
    let mut fs = open(fs.into_device());
    let d = fs.lookup("/d").unwrap().unwrap();
    assert_eq!(d.size, 8192);
    let names = fs.list_dir(d.first_cluster, d.no_fat_chain, d.size).unwrap();
    assert_eq!(names.len(), 40);
    assert_eq!(names[39].name, "name-of-18-chars-39");
}

#[test]
fn a_directory_grows_past_slots_that_end_it() {
    // Sets of three entries: 41 of them leave two slots of the root's cluster,
    // too few for another, and an end mark in the first of them.
    let mut fs = open(image(8 << 20));
    for i in 0..42 {
        fs.create_file(&format!("/f{i:02}")).unwrap();
    }
    assert!(fs.lookup("/f41").unwrap().is_some());
    let names = root(&mut fs);
    assert_eq!(names.len(), 42);
    assert_eq!(names[41].name, "f41");
    fs.write_file("/f41", 0, b"seen").unwrap();
    let mut fs = open(fs.into_device());
    assert_eq!(root(&mut fs).len(), 42);
    assert_eq!(whole(&mut fs, "/f41"), b"seen");
}

#[test]
fn a_subdirectory_grows_past_slots_that_end_it() {
    // 42 sets of three entries leave two slots of the cluster.
    let mut fs = open(image(8 << 20));
    fs.make_dir("/d").unwrap();
    for i in 0..43 {
        let before = fs.lookup("/d").unwrap().unwrap().size;
        assert_eq!(before, 4096);
        fs.create_file(&format!("/d/f{i:02}")).unwrap();
    }
    let mut fs = open(fs.into_device());
    let d = fs.lookup("/d").unwrap().unwrap();
    assert_eq!(d.size, 8192);
    assert_eq!(d.valid_size, 8192);
    let names = fs.list_dir(d.first_cluster, d.no_fat_chain, d.size).unwrap();
    assert_eq!(names.len(), 43);
    assert_eq!(names[42].name, "f42");
    assert!(fs.lookup("/d/f42").unwrap().is_some());
}

#[test]
fn a_directory_is_made_in_a_full_one() {
    let mut fs = open(image(8 << 20));
    for i in 0..41 {
        fs.create_file(&format!("/f{i:02}")).unwrap();
    }
    fs.make_dir("/sub").unwrap();
    for i in 0..42 {
        fs.create_file(&format!("/sub/g{i:02}")).unwrap();
    }
    fs.make_dir("/sub/deep").unwrap();
    fs.create_file("/sub/deep/last").unwrap();
    let mut fs = open(fs.into_device());
    assert_eq!(root(&mut fs).len(), 42);
    let sub = fs.lookup("/sub").unwrap().unwrap();
    assert_eq!((sub.is_dir, sub.size), (true, 8192));
    let names = fs.list_dir(sub.first_cluster, sub.no_fat_chain, sub.size).unwrap();
    assert_eq!(names.len(), 43);
    assert_eq!(names[42].name, "deep");
    let deep = fs.lookup("/sub/deep").unwrap().unwrap();
    assert_eq!((deep.is_dir, deep.size), (true, 4096));
    assert!(fs.lookup("/sub/deep/last").unwrap().is_some());
}

#[test]
fn the_smallest_volume_is_formatted_and_one_byte_less_is_not() {
    let mut d = RecDev { data: vec![0x5A; 32767], log: Vec::new() };
    assert!(vaultpony::exfat::format::format(&mut d, 32767, 1).is_err());
    assert!(d.log.is_empty());
    let mut d = RecDev { data: vec![0x5A; 32768], log: Vec::new() };
    vaultpony::exfat::format::format(&mut d, 32768, 1).unwrap();
    assert!(!d.log.is_empty());
}

#[test]
fn a_megabyte_is_laid_out_by_the_tables_length() {
    let mut d = image(1 << 20);
    let geo = read_boot_region(&mut d).unwrap();
    assert_eq!(geo.fat_offset_sectors, 24);
    assert_eq!(geo.fat_length_sectors, 8);
    assert_eq!(geo.cluster_offset(2).unwrap(), 32 * 512);
    assert_eq!(geo.cluster_count, 252);
    assert_eq!(geo.root_first_cluster, 5);
}

/// Flip an entry set in a raw image, and mend its checksum.
fn patch_set(bytes: &mut [u8], at: usize, f: impl Fn(&mut [u8])) {
    let n = 1 + bytes[at + 1] as usize;
    f(&mut bytes[at..at + 32 * n]);
    let mut set = vec![[0u8; 32]; n];
    for (i, e) in set.iter_mut().enumerate() {
        e.copy_from_slice(&bytes[at + 32 * i..at + 32 * i + 32]);
    }
    let sum = vaultpony::exfat::dir::set_checksum(&set);
    bytes[at + 2..at + 4].copy_from_slice(&sum.to_le_bytes());
}

const ROOT: usize = 32 * 512 + 3 * 4096;

#[test]
fn removing_a_contiguous_file_frees_all_of_it() {
    let mut fs = open(image(4 << 20));
    fs.create_file("/run").unwrap();
    fs.write_file("/run", 0, &vec![7u8; 3 * 4096]).unwrap();
    let first = fs.lookup("/run").unwrap().unwrap().first_cluster;
    let mut bytes = fs.into_device().dev.into_bytes();
    // As another writer leaves it: no links in the table, and a mark that says so.
    patch_set(&mut bytes, ROOT + 96, |set| set[33] = 0x03);
    for c in first..first + 3 {
        let at = 24 * 512 + 4 * c as usize;
        bytes[at..at + 4].copy_from_slice(&[0u8; 4]);
    }
    let mut fs = open(DeviceReadAt { dev: MemDevice::new(bytes.clone()) });
    let e = fs.lookup("/run").unwrap().unwrap();
    assert!(e.no_fat_chain);
    assert_eq!(whole(&mut fs, "/run"), vec![7u8; 3 * 4096]);
    fs.remove("/run").unwrap();
    let after = fs.into_device().dev.into_bytes();
    let map = |b: &[u8]| b[32 * 512..32 * 512 + 128].to_vec();
    let mut want = map(&bytes);
    for c in first..first + 3 {
        let bit = c as usize - 2;
        assert!(want[bit / 8] & (1 << (bit % 8)) != 0);
        want[bit / 8] &= !(1 << (bit % 8));
    }
    assert_eq!(map(&after), want);
}

#[test]
fn a_move_carries_the_valid_length_over() {
    let mut fs = open(image(4 << 20));
    fs.make_dir("/d").unwrap();
    fs.create_file("/part").unwrap();
    fs.write_file("/part", 0, &[9u8; 100]).unwrap();
    let mut bytes = fs.into_device().dev.into_bytes();
    // Only ten bytes of it were ever written; the rest reads as zeros.
    let at = (0..128).map(|i| ROOT + 32 * i).filter(|&i| bytes[i] == 0x85).nth(1).unwrap();
    patch_set(&mut bytes, at, |set| set[40..48].copy_from_slice(&10u64.to_le_bytes()));
    let mut fs = open(DeviceReadAt { dev: MemDevice::new(bytes) });
    let before = fs.lookup("/part").unwrap().unwrap();
    assert_eq!((before.size, before.valid_size), (100, 10));
    let text = whole(&mut fs, "/part");
    assert_eq!(text[..11], [9, 9, 9, 9, 9, 9, 9, 9, 9, 9, 0]);
    fs.rename("/part", "/d/part").unwrap();
    let after = fs.lookup("/d/part").unwrap().unwrap();
    assert_eq!((after.size, after.valid_size), (100, 10));
    assert_eq!(after.first_cluster, before.first_cluster);
    assert_eq!(whole(&mut fs, "/d/part"), text);
}

/// Every prefix of the writes of some operations opens, lists, and holds
/// `keep.txt`.
fn cut_everywhere(work: impl Fn(&mut ExfatFs<RecDev>), names: &[&[&str]]) {
    let base = {
        let mut fs = open(image(1 << 20));
        fs.create_file("/keep.txt").unwrap();
        fs.write_file("/keep.txt", 0, b"kept").unwrap();
        fs.create_file("/old").unwrap();
        fs.write_file("/old", 0, &[3u8; 9000]).unwrap();
        fs.into_device().dev.into_bytes()
    };
    let mut fs = ExfatFs::open(RecDev { data: base.clone(), log: Vec::new() }).ok().unwrap();
    work(&mut fs);
    let ops = fs.into_device().log;
    let mut img = base;
    let mut seen: Vec<Vec<String>> = Vec::new();
    for k in 0..=ops.len() {
        if k > 0 {
            let (off, bytes) = &ops[k - 1];
            img[*off as usize..*off as usize + bytes.len()].copy_from_slice(bytes);
        }
        let mut fs = open(DeviceReadAt { dev: MemDevice::new(img.clone()) });
        let listed: Vec<String> = root(&mut fs).into_iter().map(|e| e.name).collect();
        assert_eq!(whole(&mut fs, "/keep.txt"), b"kept");
        if seen.last() != Some(&listed) {
            seen.push(listed);
        }
    }
    assert_eq!(seen, names);
}

#[test]
fn a_cut_leaves_the_old_listing_or_the_new() {
    cut_everywhere(
        |fs| {
            fs.create_file("/n").unwrap();
            fs.write_file("/n", 0, &[1u8; 5000]).unwrap();
        },
        &[&["keep.txt", "old"], &["keep.txt", "old", "n"]],
    );
    cut_everywhere(
        |fs| fs.make_dir("/dir").unwrap(),
        &[&["keep.txt", "old"], &["keep.txt", "old", "dir"]],
    );
    cut_everywhere(|fs| fs.remove("/old").unwrap(), &[&["keep.txt", "old"], &["keep.txt"]]);
    cut_everywhere(
        |fs| fs.rename("/old", "/new").unwrap(),
        &[&["keep.txt", "old"], &["keep.txt", "old", "new"], &["keep.txt", "new"]],
    );
    cut_everywhere(|fs| fs.truncate_file("/old", 10).unwrap(), &[&["keep.txt", "old"]]);
}

#[test]
fn a_cut_while_a_directory_grows_loses_nothing() {
    let base = {
        let mut fs = open(image(1 << 20));
        for i in 0..41 {
            fs.create_file(&format!("/f{i:02}")).unwrap();
        }
        fs.into_device().dev.into_bytes()
    };
    let mut fs = ExfatFs::open(RecDev { data: base.clone(), log: Vec::new() }).ok().unwrap();
    fs.create_file("/f41").unwrap();
    let ops = fs.into_device().log;
    let mut img = base;
    for k in 0..=ops.len() {
        if k > 0 {
            let (off, bytes) = &ops[k - 1];
            img[*off as usize..*off as usize + bytes.len()].copy_from_slice(bytes);
        }
        let mut fs = open(DeviceReadAt { dev: MemDevice::new(img.clone()) });
        let n = root(&mut fs).len();
        assert_eq!(n, if k == ops.len() { 42 } else { 41 });
    }
}

/// Counts flushes.
struct Flushes<'a>(MemDevice, &'a std::cell::Cell<usize>);

impl BlockDevice for Flushes<'_> {
    fn len(&mut self) -> VcResult<u64> {
        self.0.len()
    }
    fn read_at(&mut self, o: u64, b: &mut [u8]) -> VcResult<()> {
        self.0.read_at(o, b)
    }
    fn write_at(&mut self, o: u64, b: &[u8]) -> VcResult<()> {
        self.0.write_at(o, b)
    }
    fn flush(&mut self) -> VcResult<()> {
        self.1.set(self.1.get() + 1);
        self.0.flush()
    }
    fn wipe_keys(&mut self) {}
}

#[test]
fn a_flush_reaches_the_device() {
    let count = std::cell::Cell::new(0);
    let dev = Flushes(image(1 << 20).dev, &count);
    let mut vfs = ExfatVfs::open(dev).ok().unwrap();
    assert_eq!(count.get(), 0);
    vfs.flush().unwrap();
    assert_eq!(count.get(), 1);
}

/// Run some work on an image, and hand every prefix of its writes, opened, to
/// `look`, with whether it is the last.
fn at_every_cut(
    base: Vec<u8>,
    work: impl Fn(&mut ExfatFs<RecDev>),
    mut look: impl FnMut(&mut ExfatFs<Dev>, bool),
) {
    let mut fs = ExfatFs::open(RecDev { data: base.clone(), log: Vec::new() }).ok().unwrap();
    work(&mut fs);
    let ops = fs.into_device().log;
    let mut img = base;
    for k in 0..=ops.len() {
        if k > 0 {
            let (off, bytes) = &ops[k - 1];
            img[*off as usize..*off as usize + bytes.len()].copy_from_slice(bytes);
        }
        let mut fs = open(DeviceReadAt { dev: MemDevice::new(img.clone()) });
        look(&mut fs, k == ops.len());
    }
}

#[test]
fn a_cut_of_a_truncation_leaves_the_old_contents_or_the_new() {
    let base = {
        let mut fs = open(image(1 << 20));
        fs.create_file("/old").unwrap();
        fs.write_file("/old", 0, &[3u8; 9000]).unwrap();
        fs.create_file("/next").unwrap();
        fs.write_file("/next", 0, &[4u8; 5000]).unwrap();
        fs.into_device().dev.into_bytes()
    };
    let mut lengths = Vec::new();
    at_every_cut(
        base,
        |fs| fs.truncate_file("/old", 10).unwrap(),
        |fs, _| {
            let text = whole(fs, "/old");
            assert!(text.iter().all(|&b| b == 3));
            assert_eq!(whole(fs, "/next"), vec![4u8; 5000]);
            if lengths.last() != Some(&text.len()) {
                lengths.push(text.len());
            }
        },
    );
    assert_eq!(lengths, [9000, 10]);
}

#[test]
fn a_cut_while_a_subdirectory_grows_loses_nothing() {
    let base = {
        let mut fs = open(image(1 << 20));
        fs.make_dir("/d").unwrap();
        for i in 0..42 {
            fs.create_file(&format!("/d/f{i:02}")).unwrap();
        }
        fs.write_file("/d/f07", 0, &[7u8; 5000]).unwrap();
        fs.create_file("/keep").unwrap();
        fs.write_file("/keep", 0, b"kept").unwrap();
        fs.into_device().dev.into_bytes()
    };
    at_every_cut(
        base,
        |fs| fs.create_file("/d/f42").unwrap(),
        |fs, last| {
            let d = fs.lookup("/d").unwrap().unwrap();
            let n = fs.list_dir(d.first_cluster, d.no_fat_chain, d.size).unwrap().len();
            assert_eq!(n, if last { 43 } else { 42 });
            assert_eq!(whole(fs, "/d/f07"), vec![7u8; 5000]);
            assert_eq!(whole(fs, "/keep"), b"kept");
        },
    );
}

#[test]
fn what_was_never_written_stays_zero() {
    let mut fs = open(image(4 << 20));
    fs.create_file("/part").unwrap();
    fs.write_file("/part", 0, &[9u8; 100]).unwrap();
    let mut bytes = fs.into_device().dev.into_bytes();
    // Ten bytes are valid; the ninety behind them hold what was there before.
    patch_set(&mut bytes, ROOT + 96, |set| set[40..48].copy_from_slice(&10u64.to_le_bytes()));
    let mut fs = open(DeviceReadAt { dev: MemDevice::new(bytes) });
    fs.write_file("/part", 50, &[5u8; 5]).unwrap();
    let e = fs.lookup("/part").unwrap().unwrap();
    assert_eq!((e.size, e.valid_size), (100, 55));
    let mut want = vec![0u8; 100];
    want[..10].fill(9);
    want[50..55].fill(5);
    assert_eq!(whole(&mut fs, "/part"), want);
    fs.truncate_file("/part", 60).unwrap();
    let e = fs.lookup("/part").unwrap().unwrap();
    assert_eq!((e.size, e.valid_size), (60, 55));
    assert_eq!(whole(&mut fs, "/part"), want[..60]);
    fs.truncate_file("/part", 30).unwrap();
    let e = fs.lookup("/part").unwrap().unwrap();
    assert_eq!((e.size, e.valid_size), (30, 30));
    assert_eq!(whole(&mut fs, "/part"), want[..30]);
}

/// An image with a file of three clusters that lies in one run without links.
fn with_a_run() -> (Vec<u8>, u32) {
    let mut fs = open(image(4 << 20));
    fs.create_file("/run").unwrap();
    fs.write_file("/run", 0, &vec![7u8; 3 * 4096]).unwrap();
    let first = fs.lookup("/run").unwrap().unwrap().first_cluster;
    let mut bytes = fs.into_device().dev.into_bytes();
    patch_set(&mut bytes, ROOT + 96, |set| set[33] = 0x03);
    for c in first..first + 3 {
        let at = 24 * 512 + 4 * c as usize;
        bytes[at..at + 4].copy_from_slice(&[0u8; 4]);
    }
    (bytes, first)
}

#[test]
fn a_contiguous_file_is_written_and_grown() {
    let (bytes, first) = with_a_run();
    let mut fs = open(DeviceReadAt { dev: MemDevice::new(bytes) });
    fs.write_file("/run", 5000, &[1u8; 10]).unwrap();
    let mut want = vec![7u8; 3 * 4096];
    want[5000..5010].fill(1);
    assert_eq!(whole(&mut fs, "/run"), want);
    fs.write_file("/run", 3 * 4096, &[2u8; 100]).unwrap();
    want.extend_from_slice(&[2u8; 100]);
    assert_eq!(whole(&mut fs, "/run"), want);
    let e = fs.lookup("/run").unwrap().unwrap();
    assert!(!e.no_fat_chain);
    assert_eq!((e.first_cluster, e.size), (first, 3 * 4096 + 100));
}

#[test]
fn a_contiguous_file_shrinks_in_its_run() {
    let (bytes, first) = with_a_run();
    let map = |b: &[u8]| b[32 * 512..32 * 512 + 128].to_vec();
    let mut want = map(&bytes);
    for c in first + 2..first + 3 {
        let bit = c as usize - 2;
        want[bit / 8] &= !(1 << (bit % 8));
    }
    let mut fs = open(DeviceReadAt { dev: MemDevice::new(bytes) });
    fs.truncate_file("/run", 4097).unwrap();
    let e = fs.lookup("/run").unwrap().unwrap();
    assert!(e.no_fat_chain);
    assert_eq!((e.first_cluster, e.size), (first, 4097));
    assert_eq!(whole(&mut fs, "/run"), vec![7u8; 4097]);
    assert_eq!(map(&fs.into_device().dev.into_bytes()), want);
}

#[test]
fn a_session_reads_as_much_as_it_is_asked_for() {
    let n = 9_000_000usize;
    let vfs = ExfatVfs::open(image(12 << 20).dev).ok().unwrap();
    let mut s = VaultSession::new(OpenVault { vfs, scheme: "AES", prf: "SHA-512" });
    s.create("/big".to_string()).unwrap();
    let data: Vec<u8> = (0..n).map(|i| (i % 251) as u8).collect();
    assert_eq!(s.write_at("/big".to_string(), 0, data.clone()).unwrap(), n as u32);
    let got = s.read_at("/big".to_string(), 0, n as u32).unwrap();
    assert_eq!(got.len(), n);
    assert!(got == data);
    // Beyond the end it is what there is.
    assert_eq!(s.read_at("/big".to_string(), 8_999_990, 100).unwrap(), data[8_999_990..]);
}

#[test]
fn a_listing_shows_directories_first_and_ignores_case() {
    let entry = |name: &str, is_dir: bool| DirEntry {
        name: name.to_string(),
        is_dir,
        size: 0,
        mtime_ms: None,
    };
    let entries = vec![
        entry("b.txt", false),
        entry("A.txt", false),
        entry("zoo", true),
        entry("a.TXT", false),
        entry("\u{c4}rger", true),
        entry("Ab", true),
        entry("a", true),
    ];
    assert_eq!(listing_order(&entries), [6, 5, 2, 4, 1, 3, 0]);
    assert!(listing_order(&Vec::new()).is_empty());
    let names = vec!["b".to_string(), "a".to_string(), "a".to_string()];
    assert_eq!(order_of(&vec![false, false, false], &names), [1, 2, 0]);
    assert_eq!(order_of(&vec![true, false, true], &names), [2, 0, 1]);
}
