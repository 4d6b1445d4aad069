use vaultpony::error::VcError;
use vaultpony::format::parse::parse_decrypted_header;
use vaultpony::crypto::xts::SchemeXts;
use vaultpony::format::search::{try_schemes, SchemeOutcome};
use vaultpony::header::HeaderPosition;
use vaultpony::registry::schemes;

/// Build a syntactically valid decrypted header.
fn valid_header_bytes() -> [u8; 448] {
    let mut h = [0u8; 448];
    h[0..4].copy_from_slice(b"VERA");
    h[4..6].copy_from_slice(&5u16.to_be_bytes());
    h[6..8].copy_from_slice(&0x010bu16.to_be_bytes());
    h[36..44].copy_from_slice(&(16u64 * 1024 * 1024).to_be_bytes());
    h[44..52].copy_from_slice(&131072u64.to_be_bytes());
    h[52..60].copy_from_slice(&(16u64 * 1024 * 1024 - 262144).to_be_bytes());
    h[64..68].copy_from_slice(&512u32.to_be_bytes());
    for (i, b) in h[192..448].iter_mut().enumerate() {
        *b = i as u8;
    }
    seal(&mut h);
    h
}

fn seal(h: &mut [u8; 448]) {
    let mk_crc = crc32fast::hash(&h[192..448]);
    h[8..12].copy_from_slice(&mk_crc.to_be_bytes());
    let f_crc = crc32fast::hash(&h[..188]);
    h[188..192].copy_from_slice(&f_crc.to_be_bytes());
}

#[test]
fn parses_valid_header() {
    let h = valid_header_bytes();
    let parsed = parse_decrypted_header(&h, HeaderPosition::Primary).ok().unwrap();
    assert_eq!(parsed.header_version, 5);
    assert_eq!(parsed.geometry.sector_size, 512);
    assert_eq!(parsed.geometry.encrypted_area_start, 131072);
    assert_eq!(parsed.master_keys[1], 1);
}

#[test]
fn bad_magic_is_wrong_password() {
    let mut h = valid_header_bytes();
    h[0] = b'X';
    assert!(matches!(
        parse_decrypted_header(&h, HeaderPosition::Primary),
        Err(VcError::NotFoundOrWrongPassword)
    ));
}

#[test]
fn bad_crc_is_damage_not_wrong_password() {
    let mut h = valid_header_bytes();
    h[100] ^= 0xFF; // corrupt a field the CRC covers
    assert!(matches!(
        parse_decrypted_header(&h, HeaderPosition::Primary),
        Err(VcError::HeaderDamaged)
    ));
    let mut h = valid_header_bytes();
    h[300] ^= 1; // corrupt a master key
    assert!(matches!(
        parse_decrypted_header(&h, HeaderPosition::Primary),
        Err(VcError::HeaderDamaged)
    ));
}

#[test]
fn system_flag_refused() {
    let mut h = valid_header_bytes();
    h[60..64].copy_from_slice(&1u32.to_be_bytes());
    let f_crc = crc32fast::hash(&h[..188]);
    h[188..192].copy_from_slice(&f_crc.to_be_bytes());
    assert!(matches!(
        parse_decrypted_header(&h, HeaderPosition::Primary),
        Err(VcError::SystemVolume)
    ));
}

#[test]
fn future_version_named_clearly() {
    let mut h = valid_header_bytes();
    h[6..8].copy_from_slice(&0x0200u16.to_be_bytes());
    let f_crc = crc32fast::hash(&h[..188]);
    h[188..192].copy_from_slice(&f_crc.to_be_bytes());
    assert!(matches!(
        parse_decrypted_header(&h, HeaderPosition::Primary),
        Err(VcError::VersionTooNew {
            required: 0x0200,
            ..
        })
    ));
}

#[test]
fn old_header_versions_and_odd_sector_sizes_are_refused() {
    let mut h = valid_header_bytes();
    h[4..6].copy_from_slice(&4u16.to_be_bytes());
    seal(&mut h);
    match parse_decrypted_header(&h, HeaderPosition::Primary) {
        Err(e) => assert_eq!(
            e.message(),
            "container requires a newer VeraCrypt format (min version 0x010b) than supported (0x010b)"
        ),
        Ok(_) => panic!("accepted"),
    }
    let mut h = valid_header_bytes();
    h[64..68].copy_from_slice(&1024u32.to_be_bytes());
    seal(&mut h);
    assert!(matches!(
        parse_decrypted_header(&h, HeaderPosition::Primary),
        Err(VcError::HeaderDamaged)
    ));
}

/// Deterministic xorshift64*.
struct Rng(u64);

impl Rng {
    fn next(&mut self) -> u64 {
        let mut x = self.0;
        x ^= x >> 12;
        x ^= x << 25;
        x ^= x >> 27;
        self.0 = x;
        x.wrapping_mul(0x2545F4914F6CDD1D)
    }

    fn fill(&mut self, buf: &mut [u8]) {
        for chunk in buf.chunks_mut(8) {
            let v = self.next().to_le_bytes();
            chunk.copy_from_slice(&v[..chunk.len()]);
        }
    }
}

/// A structurally valid header the mutation pass can start from.
fn valid_header() -> [u8; 448] {
    let mut h = [0u8; 448];
    h[0..4].copy_from_slice(b"VERA");
    h[4..6].copy_from_slice(&5u16.to_be_bytes());
    h[6..8].copy_from_slice(&0x010bu16.to_be_bytes());
    h[36..44].copy_from_slice(&(16u64 * 1024 * 1024).to_be_bytes());
    h[44..52].copy_from_slice(&131072u64.to_be_bytes());
    h[52..60].copy_from_slice(&(16u64 * 1024 * 1024 - 262144).to_be_bytes());
    h[64..68].copy_from_slice(&512u32.to_be_bytes());
    seal(&mut h);
    h
}

#[test]
fn random_buffers_never_panic() {
    let mut rng = Rng(0x5EED_CAFE_F00D_D00D);
    let mut buf = [0u8; 448];
    for _ in 0..20_000 {
        rng.fill(&mut buf);
        let _ = parse_decrypted_header(&buf, HeaderPosition::Primary);
    }
}

#[test]
fn magic_prefixed_random_buffers_never_panic() {
    let mut rng = Rng(0xBADC_0FFE_E000_0001);
    let mut buf = [0u8; 448];
    for _ in 0..20_000 {
        rng.fill(&mut buf);
        buf[0..4].copy_from_slice(b"VERA");
        let _ = parse_decrypted_header(&buf, HeaderPosition::Primary);
    }
}

#[test]
fn single_byte_mutations_of_valid_header_never_panic() {
    let base = valid_header();
    for pos in 0..448 {
        for bit in 0..8u8 {
            let mut h = base;
            h[pos] ^= 1 << bit;
            let _ = parse_decrypted_header(&h, HeaderPosition::Primary);
        }
    }
}

#[test]
fn valid_header_with_recomputed_crcs_parses_after_field_fuzz() {
    // Mutate fields but keep checksums consistent: the parser must either
    // accept or reject with a specific error.
    let mut rng = Rng(0x1234_5678_9ABC_DEF0);
    for _ in 0..5_000 {
        let mut h = valid_header();
        rng.fill(&mut h[4..188]);
        h[0..4].copy_from_slice(b"VERA");
        let f_crc = crc32fast::hash(&h[..188]);
        h[188..192].copy_from_slice(&f_crc.to_be_bytes());
        match parse_decrypted_header(&h, HeaderPosition::Primary) {
            Ok(_) => {}
            Err(VcError::HeaderDamaged) => {
                let ss = u32::from_be_bytes([h[64], h[65], h[66], h[67]]);
                let mk = u32::from_be_bytes([h[8], h[9], h[10], h[11]]);
                assert!(
                    (ss != 512 && ss != 4096) || mk != crc32fast::hash(&h[192..448]),
                    "HeaderDamaged with valid CRCs and sector size {ss}"
                );
            }
            Err(_) => {}
        }
    }
}

#[test]
fn errors_are_worded_for_users() {
    assert_eq!(
        VcError::NotFoundOrWrongPassword.message(),
        "no volume header found — wrong password/PIM, or not a VeraCrypt container"
    );
    assert_eq!(
        VcError::UnsupportedFilesystem("ext4".to_string()).message(),
        "container holds a ext4 filesystem; not supported yet"
    );
    assert!(HeaderPosition::BackupHidden.is_hidden());
    assert!(!HeaderPosition::BackupPrimary.is_hidden());
}

#[test]
fn every_scheme_is_recognised_under_its_key() {
    let key: Vec<u8> = (0..192u32).map(|i| (i * 11 + 5) as u8).collect();
    for s in schemes() {
        let mut enc = valid_header_bytes();
        let xts = SchemeXts::new(&s, &key[..s.key_bytes()]).unwrap();
        xts.encrypt_header(&mut enc);
        match try_schemes(&key, &enc, HeaderPosition::Hidden) {
            SchemeOutcome::Found(h, found) => {
                assert_eq!(found.name, s.name);
                assert_eq!(h.position, HeaderPosition::Hidden);
                assert_eq!(h.geometry.volume_size, 16 * 1024 * 1024);
            }
            _ => panic!("{}", s.name),
        }
    }
}

#[test]
fn a_wrong_key_and_a_damaged_header_differ() {
    let key = [7u8; 192];
    let all = schemes();
    let aes = SchemeXts::new(&all[0], &key[..64]).unwrap();
    let mut enc = valid_header_bytes();
    aes.encrypt_header(&mut enc);
    assert!(matches!(
        try_schemes(&[8u8; 192], &enc, HeaderPosition::Primary),
        SchemeOutcome::Miss
    ));
    let mut damaged = valid_header_bytes();
    damaged[100] ^= 1;
    aes.encrypt_header(&mut damaged);
    assert!(matches!(
        try_schemes(&key, &damaged, HeaderPosition::Primary),
        SchemeOutcome::Finding(VcError::HeaderDamaged)
    ));
    // Random bytes are as much of a miss as a wrong key.
    let mut noise = [0u8; 448];
    Rng(99).fill(&mut noise);
    assert!(matches!(
        try_schemes(&key, &noise, HeaderPosition::Primary),
        SchemeOutcome::Miss
    ));
}
