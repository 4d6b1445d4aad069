use vaultpony::crypto::crc::crc32_update;
use vaultpony::crypto::kdf::derive_header_key;
use vaultpony::crypto::keyfile::{apply_keyfiles, POOL_SIZE};
use vaultpony::crypto::secret::{fill_outcome, random_fill};
use vaultpony::crypto::xts::SchemeXts;
use vaultpony::error::VcError;
use vaultpony::registry::{schemes, EncryptionScheme};

fn scheme(name: &str) -> EncryptionScheme {
    schemes().into_iter().find(|s| s.name == name).unwrap()
}

#[test]
fn sha512_kdf_is_deterministic_and_length_scoped() {
    let salt = [7u8; 64];
    let a = derive_header_key("SHA-512", b"pw", &salt, 1000, 64).unwrap();
    let b = derive_header_key("SHA-512", b"pw", &salt, 1000, 64).unwrap();
    let c = derive_header_key("SHA-512", b"pw", &salt, 1000, 128).unwrap();
    assert_eq!(a.as_bytes(), b.as_bytes());
    assert_eq!(a.as_bytes().len(), 64);
    // A longer derivation shares its prefix with a shorter one.
    assert_eq!(&c.as_bytes()[..64], a.as_bytes());
    assert_ne!(a.as_bytes(), &[0u8; 64][..]);
}

#[test]
fn unknown_prf_is_an_error() {
    let salt = [0u8; 64];
    assert!(derive_header_key("RIPEMD-160", b"pw", &salt, 1, 64).is_err());
    match derive_header_key("RIPEMD-160", b"pw", &salt, 1, 64) {
        Err(e) => assert_eq!(e.message(), "internal error: unknown PRF RIPEMD-160"),
        Ok(_) => panic!("derived"),
    }
}

#[test]
fn every_hash_derives_its_own_key() {
    let salt = [3u8; 64];
    let mut keys: Vec<Vec<u8>> = Vec::new();
    for prf in ["SHA-512", "SHA-256", "Whirlpool", "BLAKE2s-256", "Streebog"] {
        let k = derive_header_key(prf, b"pw", &salt, 2, 64).unwrap();
        assert!(!keys.contains(&k.as_bytes().to_vec()), "{prf}");
        let other = derive_header_key(prf, b"pw", &salt, 3, 64).unwrap();
        assert_ne!(k.as_bytes(), other.as_bytes());
        keys.push(k.as_bytes().to_vec());
    }
}

#[test]
fn sha512_key_has_the_published_value() {
    // One iteration is HMAC-SHA-512 of the salt and the block number; the
    // first bytes for this input are fixed.
    let salt = [0u8; 64];
    let a = derive_header_key("SHA-512", b"password", &salt, 1, 64).unwrap();
    let mut mac = <hmac::Hmac<sha2::Sha512> as hmac::Mac>::new_from_slice(b"password").unwrap();
    hmac::Mac::update(&mut mac, &salt);
    hmac::Mac::update(&mut mac, &1u32.to_be_bytes());
    let want = hmac::Mac::finalize(mac).into_bytes();
    assert_eq!(a.as_bytes(), want.as_slice());
}

#[test]
fn a_wiped_key_is_zeros() {
    let mut k = derive_header_key("SHA-256", b"pw", &[1u8; 64], 1, 32).unwrap();
    k.wipe();
    assert_eq!(k.as_bytes(), &[0u8; 32][..]);
}

#[test]
fn no_keyfiles_is_identity() {
    let out = apply_keyfiles(b"hunter2", &[]);
    assert_eq!(&out[..], b"hunter2");
}

#[test]
fn keyfile_changes_and_extends_the_secret() {
    let out = apply_keyfiles(b"pw", &[vec![0xABu8; 100]]);
    assert_eq!(out.len(), POOL_SIZE); // extended to 64
    assert_ne!(&out[..2], b"pw"); // pool added to the first bytes
}

#[test]
fn empty_keyfile_still_extends_but_adds_zero_pool() {
    let out = apply_keyfiles(b"pw", &[vec![]]);
    assert_eq!(out.len(), POOL_SIZE);
    assert_eq!(&out[..2], b"pw");
    assert!(out[2..].iter().all(|&b| b == 0));
}

#[test]
fn one_keyfile_byte_adds_its_register() {
    // The register after one byte, high byte first, goes to the first places.
    let crc = crc32_update(0xFFFF_FFFF, 0x31);
    let out = apply_keyfiles(b"", &[vec![0x31]]);
    assert_eq!(&out[..4], &crc.to_be_bytes());
    assert!(out[4..].iter().all(|&b| b == 0));
    // The raw register, inverted, is the usual checksum.
    assert_eq!(!crc, crc32fast::hash(b"1"));
    // Long passphrases keep what lies past the pool.
    let long = [9u8; 80];
    let out = apply_keyfiles(&long, &[vec![1, 2, 3]]);
    assert_eq!(out.len(), 80);
    assert_eq!(&out[64..], &long[64..]);
}

#[test]
fn every_scheme_round_trips() {
    for s in schemes() {
        let key: Vec<u8> = (0..s.key_bytes() as u32)
            .map(|i| (i * 7 + 3) as u8)
            .collect();
        let xts = SchemeXts::new(&s, &key).unwrap();
        let plain = [0xA5u8; 1024];
        let mut buf = plain;
        xts.encrypt_units(&mut buf, 256);
        assert_ne!(buf[..], plain[..], "{} did not change data", s.name);
        xts.decrypt_units(&mut buf, 256);
        assert_eq!(buf[..], plain[..], "{} did not round-trip", s.name);
    }
}

#[test]
fn cascade_differs_from_its_layers() {
    // AES(Twofish) must not equal AES alone or Twofish alone.
    let single = scheme("AES");
    let cascade = scheme("AES(Twofish)");
    let key: Vec<u8> = (0..cascade.key_bytes()).map(|i| i as u8).collect();
    let xts_single = SchemeXts::new(&single, &key[..64]).unwrap();
    let xts_cascade = SchemeXts::new(&cascade, &key).unwrap();
    let mut a = [9u8; 512];
    let mut b = [9u8; 512];
    xts_single.encrypt_units(&mut a, 0);
    xts_cascade.encrypt_units(&mut b, 0);
    assert_ne!(a[..], b[..]);
}

#[test]
fn a_cascade_is_its_layers_one_after_the_other() {
    // Keys: Twofish primary, AES primary, Twofish secondary, AES secondary.
    let key: Vec<u8> = (0..128).map(|i| (i * 5) as u8).collect();
    let cascade = SchemeXts::new(&scheme("AES(Twofish)"), &key).unwrap();
    let twofish_key = [&key[0..32], &key[64..96]].concat();
    let aes_key = [&key[32..64], &key[96..128]].concat();
    let twofish = SchemeXts::new(&scheme("Twofish"), &twofish_key).unwrap();
    let aes = SchemeXts::new(&scheme("AES"), &aes_key).unwrap();
    let mut a = [1u8; 1024];
    let mut b = [1u8; 1024];
    cascade.encrypt_units(&mut a, 7);
    twofish.encrypt_units(&mut b, 7);
    aes.encrypt_units(&mut b, 7);
    assert_eq!(a[..], b[..]);
}

#[test]
fn unit_number_matters() {
    let xts = SchemeXts::new(&scheme("AES"), &[42u8; 64]).unwrap();
    let mut a = [1u8; 512];
    let mut b = [1u8; 512];
    xts.encrypt_units(&mut a, 0);
    xts.encrypt_units(&mut b, 1);
    assert_ne!(a[..], b[..]);
    // Units are independent: the second of two equals the first under the
    // next number.
    let mut both = [1u8; 1024];
    xts.encrypt_units(&mut both, 0);
    assert_eq!(both[..512], a[..]);
    assert_eq!(both[512..], b[..]);
}

#[test]
fn wrong_key_len_rejected() {
    assert!(SchemeXts::new(&scheme("AES"), &[0u8; 63]).is_err());
    assert!(SchemeXts::new(&scheme("AES(Twofish(Serpent))"), &[0u8; 64]).is_err());
    match SchemeXts::new(&scheme("AES"), &[0u8; 63]) {
        Err(VcError::Internal(s)) => assert_eq!(s, "scheme AES needs 64 key bytes, got 63"),
        _ => panic!("accepted"),
    }
}

#[test]
fn headers_round_trip_under_every_scheme() {
    for s in schemes() {
        let key: Vec<u8> = (0..s.key_bytes()).map(|i| (i * 3 + 1) as u8).collect();
        let xts = SchemeXts::new(&s, &key).unwrap();
        assert!(SchemeXts::supported(&s));
        let mut h = [0x11u8; 448];
        xts.encrypt_header(&mut h);
        assert_ne!(h[..], [0x11u8; 448][..]);
        xts.decrypt_header(&mut h);
        assert_eq!(h[..], [0x11u8; 448][..]);
    }
}

#[test]
fn random_bytes_differ_from_call_to_call() {
    let mut a = [0u8; 32];
    let mut b = [0u8; 32];
    random_fill(&mut a).unwrap();
    random_fill(&mut b).unwrap();
    assert_ne!(a, b);
    assert_ne!(a, [0u8; 32]);
}

#[test]
fn the_order_of_keyfiles_does_not_matter() {
    let (a, b, c) = (vec![1u8; 10], vec![2u8; 2000], b"three".to_vec());
    let one = apply_keyfiles(b"pw", &[a.clone(), b.clone(), c.clone()]);
    let two = apply_keyfiles(b"pw", &[c, a, b]);
    assert_eq!(one, two);
}

#[test]
fn a_failing_generator_is_named() {
    assert!(fill_outcome(Ok(())).is_ok());
    match fill_outcome(Err("no entropy".to_string())) {
        Err(e) => assert_eq!(e.message(), "internal error: rng: no entropy"),
        Ok(_) => panic!("filled"),
    }
    assert!(random_fill(&mut []).is_ok());
}
