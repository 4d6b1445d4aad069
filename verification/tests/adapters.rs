use vaultpony::bytes::{put_be64, put_le16, read_be64, read_le16};
use vaultpony::device::MemDevice;
use vaultpony::text::{
    child_path, decimal, decode_utf16, encode_utf16, hex, is_entry_name, path_components, split_parent,
};
use vaultpony::time::days_from_civil;
use vaultpony::vfs::device_io::{DeviceIo, SeekTo};
use vaultpony::vfs::fat::{
    fat_path, fill_step, find_entry, gap_before, listed, split_name, to_unix_ms,
};
use vaultpony::vfs::ntfs::{is_root, nt_to_unix_ms, shown};
use vaultpony::vfs::tree::DirEntry;

#[test]
fn streams_keep_their_position() {
    let mut io = DeviceIo::new(MemDevice::new((0..100u8).collect())).ok().unwrap();
    let mut buf = [0u8; 10];
    assert_eq!(io.read(&mut buf).unwrap(), 10);
    assert_eq!(buf[9], 9);
    assert_eq!(io.seek(SeekTo::End(-5)).unwrap(), 95);
    assert_eq!(io.read(&mut buf).unwrap(), 5);
    assert_eq!(buf, [95, 96, 97, 98, 99, 5, 6, 7, 8, 9]);
    assert_eq!(io.read(&mut buf).unwrap(), 0);
    assert_eq!(io.seek(SeekTo::Start(10)).unwrap(), 10);
    assert_eq!(io.write(&[1, 2]).unwrap(), 2);
    assert_eq!(io.seek(SeekTo::Current(-1)).unwrap(), 11);
    assert_eq!(io.read(&mut buf[..1]).unwrap(), 1);
    assert_eq!(buf[0], 2);
    assert_eq!(io.seek(SeekTo::Current(-100)).unwrap_err().message, "seek out of range");
    io.flush().unwrap();
}

#[test]
fn fat_rules() {
    assert_eq!(fat_path("//a/b"), "a/b");
    assert_eq!(fat_path("/"), "");
    assert_eq!(split_name("a/b/c"), ("a/b".to_string(), "c".to_string()));
    assert_eq!(split_name("c"), ("".to_string(), "c".to_string()));
    assert!(!listed(".") && !listed("..") && listed("..."));
    assert_eq!(to_unix_ms(2026, 8, 2, 12, 0, 0, 0), 1_785_672_000_000);
    assert_eq!(to_unix_ms(1980, 1, 1, 0, 0, 2, 500), 315_532_802_500);
    // A date that was never set: the end of November 1979.
    assert_eq!(to_unix_ms(1980, 0, 0, 0, 0, 0, 0), 312_768_000_000);
    assert_eq!(to_unix_ms(1981, 13, 1, 0, 0, 0, 0), to_unix_ms(1982, 1, 1, 0, 0, 0, 0));
    assert_eq!((gap_before(10, 15), gap_before(15, 10)), (5, 0));
    assert_eq!((fill_step(10), fill_step(5000)), (10, 4096));
    let entries: Vec<DirEntry> = ["One", "Two"]
        .iter()
        .map(|n| DirEntry { name: n.to_string(), is_dir: false, size: 0, mtime_ms: None })
        .collect();
    assert_eq!(find_entry(&entries, "tWO"), Some(1));
    assert_eq!(find_entry(&entries, "three"), None);
}

#[test]
fn ntfs_rules() {
    assert_eq!(nt_to_unix_ms(116_444_736_000_000_000), 0);
    assert_eq!(nt_to_unix_ms(0), -11_644_473_600_000);
    assert!(!shown("$MFT", false) && !shown(".", false) && !shown("A~1", true));
    assert!(shown("file", false));
    assert!(is_root("//") && is_root("") && !is_root("/a"));
}

#[test]
fn text_and_numbers() {
    assert_eq!(hex(0x10b), "0x010b");
    assert_eq!(decimal(131_072), "131072");
    assert_eq!(path_components("/a//b/"), vec!["a".to_string(), "b".to_string()]);
    assert_eq!(split_parent("/a/b/"), ("/a".to_string(), "b".to_string()));
    assert_eq!(split_parent("b"), ("".to_string(), "b".to_string()));
    assert_eq!(child_path("/a/b//", "c"), "/a/b/c");
    assert_eq!(child_path("/", "c"), "/c");
    for name in ["", ".", "..", "a/b", "a\\b", "/", "a\0"] {
        assert!(!is_entry_name(name), "{name:?}");
    }
    for name in ["a", "...", ".a", "ünicode"] {
        assert!(is_entry_name(name), "{name:?}");
    }
    let s = "aß😀";
    let units = encode_utf16(s);
    assert_eq!(units, s.encode_utf16().collect::<Vec<u16>>());
    assert_eq!(decode_utf16(&units), s);
    assert_eq!(decode_utf16(&[0xD800, 0x41]), String::from_utf16_lossy(&[0xD800, 0x41]));
    assert_eq!(decode_utf16(&[0xDC00]), "\u{FFFD}");
    let mut b = [0u8; 10];
    put_be64(&mut b, 1, 0x0102_0304_0506_0708);
    assert_eq!(b, [0, 1, 2, 3, 4, 5, 6, 7, 8, 0]);
    assert_eq!(read_be64(&b, 1), 0x0102_0304_0506_0708);
    put_le16(&mut b, 0, 0xABCD);
    assert_eq!(read_le16(&b, 0), 0xABCD);
    assert_eq!(days_from_civil(1970, 1, 1), 0);
    assert_eq!(days_from_civil(2000, 3, 1), 11_017);
}
