use vaultpony::device::BlockDevice;
use vaultpony::error::{IoError, IoErrorKind, VcError, VcResult};
use vaultpony::format::candidates::ordered_candidates;
use vaultpony::format::protect::ProtectedDevice;
use vaultpony::format::search::position_offset;
use vaultpony::header::HeaderPosition;

struct Mem(Vec<u8>);

impl BlockDevice for Mem {
    fn wipe_keys(&mut self) {}

    fn len(&mut self) -> VcResult<u64> {
        Ok(self.0.len() as u64)
    }
    fn read_at(&mut self, o: u64, b: &mut [u8]) -> VcResult<()> {
        let o = o as usize;
        if o + b.len() > self.0.len() {
            return Err(VcError::Io(IoError::new(IoErrorKind::UnexpectedEof, "eof")));
        }
        b.copy_from_slice(&self.0[o..o + b.len()]);
        Ok(())
    }
    fn write_at(&mut self, o: u64, b: &[u8]) -> VcResult<()> {
        let o = o as usize;
        self.0[o..o + b.len()].copy_from_slice(b);
        Ok(())
    }
    fn flush(&mut self) -> VcResult<()> {
        Ok(())
    }
}

#[test]
fn sha512_aes_is_first() {
    let c = ordered_candidates(&[HeaderPosition::Primary]);
    assert_eq!(c[0].prf.name, "SHA-512");
    assert_eq!(c[0].scheme.name, "AES");
    assert_eq!(c.len(), 15 * 5);
}

#[test]
fn candidates_go_position_by_position() {
    let c = ordered_candidates(&[HeaderPosition::Primary, HeaderPosition::Hidden]);
    assert_eq!(c.len(), 150);
    assert_eq!(c[74].position, HeaderPosition::Primary);
    assert_eq!(c[74].prf.name, "Streebog");
    assert_eq!(c[75].position, HeaderPosition::Hidden);
    assert_eq!(c[15].prf.name, "Whirlpool");
    assert_eq!(c[15].scheme.name, "AES");
}

#[test]
fn position_offsets() {
    let len = 16 * 1024 * 1024u64;
    assert_eq!(position_offset(HeaderPosition::Primary, len), Some(0));
    assert_eq!(
        position_offset(HeaderPosition::BackupPrimary, len),
        Some(len - 131072)
    );
    assert_eq!(
        position_offset(HeaderPosition::BackupHidden, len),
        Some(len - 65536)
    );
    assert_eq!(position_offset(HeaderPosition::Hidden, 1024), None);
}

fn dev() -> ProtectedDevice<Mem> {
    // 4 KiB device, protected region [2048, 3072).
    ProtectedDevice::new(Mem(vec![0u8; 4096]), 2048, 1024)
}

#[test]
fn writes_outside_the_region_pass() {
    let mut d = dev();
    assert!(d.write_at(0, &[1u8; 512]).is_ok());
    assert!(d.write_at(1536, &[1u8; 512]).is_ok()); // ends exactly at 2048
    assert!(d.write_at(3072, &[1u8; 512]).is_ok()); // starts exactly at region end
    assert!(!d.tripped());
}

#[test]
fn write_into_the_region_is_refused_and_latches_read_only() {
    let mut d = dev();
    // A write straddling the boundary is blocked.
    assert!(matches!(
        d.write_at(2000, &[1u8; 512]),
        Err(VcError::HiddenVolumeProtected)
    ));
    assert!(d.tripped());
    // After the latch, even a perfectly safe write fails.
    assert!(matches!(
        d.write_at(0, &[1u8; 16]),
        Err(VcError::HiddenVolumeProtected)
    ));
    // Reads still work in read-only mode.
    let mut buf = [0u8; 16];
    assert!(d.read_at(0, &mut buf).is_ok());
}

#[test]
fn fully_inside_and_fully_covering_both_trip() {
    let mut d = dev();
    assert!(d.write_at(2100, &[1u8; 100]).is_err()); // fully inside
    let mut d2 = dev();
    assert!(d2.write_at(0, &[1u8; 4096]).is_err()); // covers everything
}

#[test]
fn an_empty_write_never_trips() {
    let mut d = dev();
    assert!(d.write_at(2500, &[]).is_ok());
    assert!(!d.tripped());
    assert_eq!(d.len().unwrap(), 4096);
    assert!(!d.is_empty().unwrap());
    d.flush().unwrap();
    assert_eq!(d.into_inner().0, vec![0u8; 4096]);
}
