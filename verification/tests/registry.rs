use vaultpony::header::MASTER_KEY_AREA_LEN;
use vaultpony::registry::{iterations_for_pim, prfs, schemes, Cipher};

#[test]
fn every_scheme_fits_master_key_area() {
    for s in schemes() {
        assert!(
            s.key_bytes() <= MASTER_KEY_AREA_LEN,
            "{} needs {} key bytes",
            s.name,
            s.key_bytes()
        );
    }
}

#[test]
fn expected_matrix_size() {
    assert_eq!(schemes().len(), 15);
    assert_eq!(prfs().len(), 5);
}

#[test]
fn pim_schedule() {
    let all = prfs();
    let sha512 = all.iter().find(|p| p.name == "SHA-512").unwrap();
    assert_eq!(iterations_for_pim(sha512, 0), sha512.default_iterations);
    assert_eq!(iterations_for_pim(sha512, 485), 500_000);
}

#[test]
fn cascades_list_their_layers_innermost_first() {
    let all = schemes();
    let s = all.iter().find(|s| s.name == "AES(Twofish(Serpent))").unwrap();
    assert_eq!(s.layers, &[Cipher::Serpent, Cipher::Twofish, Cipher::Aes]);
    assert_eq!(s.key_bytes(), 192);
    assert_eq!(Cipher::Kuznyechik.name(), "Kuznyechik");
}
