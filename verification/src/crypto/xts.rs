//! XTS over single ciphers and cascades.
//!
//! Key material, both the derived header key and the master-key area, holds
//! all primary keys in layer order and then all secondary (tweak) keys in the
//! same order, 32 bytes each. Encryption applies the layers first to last,
//! decryption last to first; each layer is an XTS pass of its own over the
//! whole buffer with the same unit numbers.

use aes::cipher::KeyInit;
use vstd::prelude::*;
use xts_mode::{get_tweak_default, Xts128};

use super::secret::wipe;
use crate::bytes::{copy_range, zeros};
use crate::error::{VcError, VcFault, VcResult};
use crate::registry::{Cipher, EncryptionScheme};
use crate::text::{concat, decimal, decimal_text};

verus! {

/// Data-unit size on the data area, whatever the sector size.
pub const XTS_DATA_UNIT_LEN: usize = 512;

/// Length of one of the two keys of a layer.
pub const KEY_LEN: usize = 32;

/// AES-256 in XTS mode: one data unit under (primary, secondary), encrypted.
pub uninterp spec fn aes_encrypted(primary: Seq<u8>, secondary: Seq<u8>, unit: Seq<u8>, number: int) -> Seq<u8>;

/// AES-256 in XTS mode: one data unit, decrypted.
pub uninterp spec fn aes_decrypted(primary: Seq<u8>, secondary: Seq<u8>, unit: Seq<u8>, number: int) -> Seq<u8>;

/// Serpent in XTS mode: one data unit, encrypted.
pub uninterp spec fn serpent_encrypted(primary: Seq<u8>, secondary: Seq<u8>, unit: Seq<u8>, number: int) -> Seq<u8>;

/// Serpent in XTS mode: one data unit, decrypted.
pub uninterp spec fn serpent_decrypted(primary: Seq<u8>, secondary: Seq<u8>, unit: Seq<u8>, number: int) -> Seq<u8>;

/// Twofish in XTS mode: one data unit, encrypted.
pub uninterp spec fn twofish_encrypted(primary: Seq<u8>, secondary: Seq<u8>, unit: Seq<u8>, number: int) -> Seq<u8>;

/// Twofish in XTS mode: one data unit, decrypted.
pub uninterp spec fn twofish_decrypted(primary: Seq<u8>, secondary: Seq<u8>, unit: Seq<u8>, number: int) -> Seq<u8>;

/// Camellia-256 in XTS mode: one data unit, encrypted.
pub uninterp spec fn camellia_encrypted(primary: Seq<u8>, secondary: Seq<u8>, unit: Seq<u8>, number: int) -> Seq<u8>;

/// Camellia-256 in XTS mode: one data unit, decrypted.
pub uninterp spec fn camellia_decrypted(primary: Seq<u8>, secondary: Seq<u8>, unit: Seq<u8>, number: int) -> Seq<u8>;

/// Kuznyechik in XTS mode: one data unit, encrypted.
pub uninterp spec fn kuznyechik_encrypted(primary: Seq<u8>, secondary: Seq<u8>, unit: Seq<u8>, number: int) -> Seq<u8>;

/// Kuznyechik in XTS mode: one data unit, decrypted.
pub uninterp spec fn kuznyechik_decrypted(primary: Seq<u8>, secondary: Seq<u8>, unit: Seq<u8>, number: int) -> Seq<u8>;

/// The keys of one layer.
#[verifier::ext_equal]
pub struct LayerKeys {
    pub cipher: Cipher,
    pub primary: Seq<u8>,
    pub secondary: Seq<u8>,
}

/// One data unit under one layer, encrypted.
pub open spec fn layer_encrypted(l: LayerKeys, unit: Seq<u8>, number: int) -> Seq<u8> {
    match l.cipher {
        Cipher::Aes => aes_encrypted(l.primary, l.secondary, unit, number),
        Cipher::Serpent => serpent_encrypted(l.primary, l.secondary, unit, number),
        Cipher::Twofish => twofish_encrypted(l.primary, l.secondary, unit, number),
        Cipher::Camellia => camellia_encrypted(l.primary, l.secondary, unit, number),
        Cipher::Kuznyechik => kuznyechik_encrypted(l.primary, l.secondary, unit, number),
    }
}

/// One data unit under one layer, decrypted.
pub open spec fn layer_decrypted(l: LayerKeys, unit: Seq<u8>, number: int) -> Seq<u8> {
    match l.cipher {
        Cipher::Aes => aes_decrypted(l.primary, l.secondary, unit, number),
        Cipher::Serpent => serpent_decrypted(l.primary, l.secondary, unit, number),
        Cipher::Twofish => twofish_decrypted(l.primary, l.secondary, unit, number),
        Cipher::Camellia => camellia_decrypted(l.primary, l.secondary, unit, number),
        Cipher::Kuznyechik => kuznyechik_decrypted(l.primary, l.secondary, unit, number),
    }
}

/// One data unit encrypted by all layers, first to last.
pub open spec fn unit_encrypted(layers: Seq<LayerKeys>, unit: Seq<u8>, number: int) -> Seq<u8>
    decreases layers.len(),
{
    if layers.len() == 0 {
        unit
    } else {
        layer_encrypted(layers.last(), unit_encrypted(layers.drop_last(), unit, number), number)
    }
}

/// One data unit decrypted by all layers, last to first.
pub open spec fn unit_decrypted(layers: Seq<LayerKeys>, unit: Seq<u8>, number: int) -> Seq<u8>
    decreases layers.len(),
{
    if layers.len() == 0 {
        unit
    } else {
        unit_decrypted(layers.drop_last(), layer_decrypted(layers.last(), unit, number), number)
    }
}

/// The `k`-th data unit of a buffer of units of `n` bytes.
pub open spec fn unit_at(buf: Seq<u8>, n: int, k: int) -> Seq<u8> {
    buf.subrange(k * n, k * n + n)
}

/// How many whole units of `n` bytes a buffer holds.
pub open spec fn unit_count(buf: Seq<u8>, n: int) -> int {
    buf.len() as int / n
}

/// What a pass of one cipher over a buffer takes: two 32-byte keys, and whole
/// units of at least one cipher block.
pub open spec fn area_ok(primary: Seq<u8>, secondary: Seq<u8>, buf: Seq<u8>, n: int) -> bool {
    &&& primary.len() == 32
    &&& secondary.len() == 32
    &&& n >= 16
    &&& buf.len() as int % n == 0
}

/// `Xts128::encrypt_area` over AES-256: every unit is replaced by its
/// encryption under its number, and decrypting that gives the unit back.
#[verifier::external_body]
fn aes_encrypt(primary: &[u8], secondary: &[u8], buf: &mut [u8], n: usize, first: u64)
    requires
        area_ok(primary@, secondary@, old(buf)@, n as int),
    ensures
        final(buf)@.len() == old(buf)@.len(),
        forall|k: int|
            #![trigger unit_at(final(buf)@, n as int, k)]
            0 <= k < unit_count(old(buf)@, n as int) ==> unit_at(final(buf)@, n as int, k)
                == aes_encrypted(primary@, secondary@, unit_at(old(buf)@, n as int, k), first + k)
                && aes_decrypted(primary@, secondary@, unit_at(final(buf)@, n as int, k), first + k)
                == unit_at(old(buf)@, n as int, k),
{
    let p = aes::Aes256::new_from_slice(primary).expect("32-byte key");
    let s = aes::Aes256::new_from_slice(secondary).expect("32-byte key");
    Xts128::new(p, s).encrypt_area(buf, n, first as u128, get_tweak_default)
}

/// `Xts128::decrypt_area` over AES-256: every unit is replaced by its
/// decryption under its number, and encrypting that gives the unit back.
#[verifier::external_body]
fn aes_decrypt(primary: &[u8], secondary: &[u8], buf: &mut [u8], n: usize, first: u64)
    requires
        area_ok(primary@, secondary@, old(buf)@, n as int),
    ensures
        final(buf)@.len() == old(buf)@.len(),
        forall|k: int|
            #![trigger unit_at(final(buf)@, n as int, k)]
            0 <= k < unit_count(old(buf)@, n as int) ==> unit_at(final(buf)@, n as int, k)
                == aes_decrypted(primary@, secondary@, unit_at(old(buf)@, n as int, k), first + k)
                && aes_encrypted(primary@, secondary@, unit_at(final(buf)@, n as int, k), first + k)
                == unit_at(old(buf)@, n as int, k),
{
    let p = aes::Aes256::new_from_slice(primary).expect("32-byte key");
    let s = aes::Aes256::new_from_slice(secondary).expect("32-byte key");
    Xts128::new(p, s).decrypt_area(buf, n, first as u128, get_tweak_default)
}

/// `Xts128::encrypt_area` over Serpent, unit by unit as above.
#[verifier::external_body]
fn serpent_encrypt(primary: &[u8], secondary: &[u8], buf: &mut [u8], n: usize, first: u64)
    requires
        area_ok(primary@, secondary@, old(buf)@, n as int),
    ensures
        final(buf)@.len() == old(buf)@.len(),
        forall|k: int|
            #![trigger unit_at(final(buf)@, n as int, k)]
            0 <= k < unit_count(old(buf)@, n as int) ==> unit_at(final(buf)@, n as int, k)
                == serpent_encrypted(primary@, secondary@, unit_at(old(buf)@, n as int, k), first + k)
                && serpent_decrypted(primary@, secondary@, unit_at(final(buf)@, n as int, k), first + k)
                == unit_at(old(buf)@, n as int, k),
{
    let p = serpent::Serpent::new_from_slice(primary).expect("32-byte key");
    let s = serpent::Serpent::new_from_slice(secondary).expect("32-byte key");
    Xts128::new(p, s).encrypt_area(buf, n, first as u128, get_tweak_default)
}

/// `Xts128::decrypt_area` over Serpent, unit by unit as above.
#[verifier::external_body]
fn serpent_decrypt(primary: &[u8], secondary: &[u8], buf: &mut [u8], n: usize, first: u64)
    requires
        area_ok(primary@, secondary@, old(buf)@, n as int),
    ensures
        final(buf)@.len() == old(buf)@.len(),
        forall|k: int|
            #![trigger unit_at(final(buf)@, n as int, k)]
            0 <= k < unit_count(old(buf)@, n as int) ==> unit_at(final(buf)@, n as int, k)
                == serpent_decrypted(primary@, secondary@, unit_at(old(buf)@, n as int, k), first + k)
                && serpent_encrypted(primary@, secondary@, unit_at(final(buf)@, n as int, k), first + k)
                == unit_at(old(buf)@, n as int, k),
{
    let p = serpent::Serpent::new_from_slice(primary).expect("32-byte key");
    let s = serpent::Serpent::new_from_slice(secondary).expect("32-byte key");
    Xts128::new(p, s).decrypt_area(buf, n, first as u128, get_tweak_default)
}

/// `Xts128::encrypt_area` over Twofish, unit by unit as above.
#[verifier::external_body]
fn twofish_encrypt(primary: &[u8], secondary: &[u8], buf: &mut [u8], n: usize, first: u64)
    requires
        area_ok(primary@, secondary@, old(buf)@, n as int),
    ensures
        final(buf)@.len() == old(buf)@.len(),
        forall|k: int|
            #![trigger unit_at(final(buf)@, n as int, k)]
            0 <= k < unit_count(old(buf)@, n as int) ==> unit_at(final(buf)@, n as int, k)
                == twofish_encrypted(primary@, secondary@, unit_at(old(buf)@, n as int, k), first + k)
                && twofish_decrypted(primary@, secondary@, unit_at(final(buf)@, n as int, k), first + k)
                == unit_at(old(buf)@, n as int, k),
{
    let p = twofish::Twofish::new_from_slice(primary).expect("32-byte key");
    let s = twofish::Twofish::new_from_slice(secondary).expect("32-byte key");
    Xts128::new(p, s).encrypt_area(buf, n, first as u128, get_tweak_default)
}

/// `Xts128::decrypt_area` over Twofish, unit by unit as above.
#[verifier::external_body]
fn twofish_decrypt(primary: &[u8], secondary: &[u8], buf: &mut [u8], n: usize, first: u64)
    requires
        area_ok(primary@, secondary@, old(buf)@, n as int),
    ensures
        final(buf)@.len() == old(buf)@.len(),
        forall|k: int|
            #![trigger unit_at(final(buf)@, n as int, k)]
            0 <= k < unit_count(old(buf)@, n as int) ==> unit_at(final(buf)@, n as int, k)
                == twofish_decrypted(primary@, secondary@, unit_at(old(buf)@, n as int, k), first + k)
                && twofish_encrypted(primary@, secondary@, unit_at(final(buf)@, n as int, k), first + k)
                == unit_at(old(buf)@, n as int, k),
{
    let p = twofish::Twofish::new_from_slice(primary).expect("32-byte key");
    let s = twofish::Twofish::new_from_slice(secondary).expect("32-byte key");
    Xts128::new(p, s).decrypt_area(buf, n, first as u128, get_tweak_default)
}

/// `Xts128::encrypt_area` over Camellia-256, unit by unit as above.
#[verifier::external_body]
fn camellia_encrypt(primary: &[u8], secondary: &[u8], buf: &mut [u8], n: usize, first: u64)
    requires
        area_ok(primary@, secondary@, old(buf)@, n as int),
    ensures
        final(buf)@.len() == old(buf)@.len(),
        forall|k: int|
            #![trigger unit_at(final(buf)@, n as int, k)]
            0 <= k < unit_count(old(buf)@, n as int) ==> unit_at(final(buf)@, n as int, k)
                == camellia_encrypted(primary@, secondary@, unit_at(old(buf)@, n as int, k), first + k)
                && camellia_decrypted(primary@, secondary@, unit_at(final(buf)@, n as int, k), first + k)
                == unit_at(old(buf)@, n as int, k),
{
    let p = camellia::Camellia256::new_from_slice(primary).expect("32-byte key");
    let s = camellia::Camellia256::new_from_slice(secondary).expect("32-byte key");
    Xts128::new(p, s).encrypt_area(buf, n, first as u128, get_tweak_default)
}

/// `Xts128::decrypt_area` over Camellia-256, unit by unit as above.
#[verifier::external_body]
fn camellia_decrypt(primary: &[u8], secondary: &[u8], buf: &mut [u8], n: usize, first: u64)
    requires
        area_ok(primary@, secondary@, old(buf)@, n as int),
    ensures
        final(buf)@.len() == old(buf)@.len(),
        forall|k: int|
            #![trigger unit_at(final(buf)@, n as int, k)]
            0 <= k < unit_count(old(buf)@, n as int) ==> unit_at(final(buf)@, n as int, k)
                == camellia_decrypted(primary@, secondary@, unit_at(old(buf)@, n as int, k), first + k)
                && camellia_encrypted(primary@, secondary@, unit_at(final(buf)@, n as int, k), first + k)
                == unit_at(old(buf)@, n as int, k),
{
    let p = camellia::Camellia256::new_from_slice(primary).expect("32-byte key");
    let s = camellia::Camellia256::new_from_slice(secondary).expect("32-byte key");
    Xts128::new(p, s).decrypt_area(buf, n, first as u128, get_tweak_default)
}

/// `Xts128::encrypt_area` over Kuznyechik, unit by unit as above.
#[verifier::external_body]
fn kuznyechik_encrypt(primary: &[u8], secondary: &[u8], buf: &mut [u8], n: usize, first: u64)
    requires
        area_ok(primary@, secondary@, old(buf)@, n as int),
    ensures
        final(buf)@.len() == old(buf)@.len(),
        forall|k: int|
            #![trigger unit_at(final(buf)@, n as int, k)]
            0 <= k < unit_count(old(buf)@, n as int) ==> unit_at(final(buf)@, n as int, k)
                == kuznyechik_encrypted(primary@, secondary@, unit_at(old(buf)@, n as int, k), first + k)
                && kuznyechik_decrypted(primary@, secondary@, unit_at(final(buf)@, n as int, k), first + k)
                == unit_at(old(buf)@, n as int, k),
{
    let p = kuznyechik::Kuznyechik::new_from_slice(primary).expect("32-byte key");
    let s = kuznyechik::Kuznyechik::new_from_slice(secondary).expect("32-byte key");
    Xts128::new(p, s).encrypt_area(buf, n, first as u128, get_tweak_default)
}

/// `Xts128::decrypt_area` over Kuznyechik, unit by unit as above.
#[verifier::external_body]
fn kuznyechik_decrypt(primary: &[u8], secondary: &[u8], buf: &mut [u8], n: usize, first: u64)
    requires
        area_ok(primary@, secondary@, old(buf)@, n as int),
    ensures
        final(buf)@.len() == old(buf)@.len(),
        forall|k: int|
            #![trigger unit_at(final(buf)@, n as int, k)]
            0 <= k < unit_count(old(buf)@, n as int) ==> unit_at(final(buf)@, n as int, k)
                == kuznyechik_decrypted(primary@, secondary@, unit_at(old(buf)@, n as int, k), first + k)
                && kuznyechik_encrypted(primary@, secondary@, unit_at(final(buf)@, n as int, k), first + k)
                == unit_at(old(buf)@, n as int, k),
{
    let p = kuznyechik::Kuznyechik::new_from_slice(primary).expect("32-byte key");
    let s = kuznyechik::Kuznyechik::new_from_slice(secondary).expect("32-byte key");
    Xts128::new(p, s).decrypt_area(buf, n, first as u128, get_tweak_default)
}

/// One XTS layer: a cipher with its (primary, secondary) key pair.
struct LayerXts {
    cipher: Cipher,
    primary: Vec<u8>,
    secondary: Vec<u8>,
}

impl View for LayerXts {
    type V = LayerKeys;

    closed spec fn view(&self) -> LayerKeys {
        LayerKeys {
            cipher: self.cipher,
            primary: self.primary@,
            secondary: self.secondary@,
        }
    }
}

impl LayerXts {
    /// Both keys are there.
    #[verifier::type_invariant]
    closed spec fn keyed(&self) -> bool {
        self.primary@.len() == 32 && self.secondary@.len() == 32
    }

    fn decrypt_area(&self, buf: &mut [u8], n: usize, first: u64)
        requires
            n >= 16,
            old(buf)@.len() as int % n as int == 0,
        ensures
            final(buf)@.len() == old(buf)@.len(),
            forall|k: int|
                #![trigger unit_at(final(buf)@, n as int, k)]
                0 <= k < unit_count(old(buf)@, n as int) ==> unit_at(final(buf)@, n as int, k)
                    == layer_decrypted(self@, unit_at(old(buf)@, n as int, k), first + k)
                    && layer_encrypted(self@, unit_at(final(buf)@, n as int, k), first + k)
                    == unit_at(old(buf)@, n as int, k),
    {
        proof {
            use_type_invariant(self);
        }
        let p: &[u8] = self.primary.as_slice();
        let s: &[u8] = self.secondary.as_slice();
        match self.cipher {
            Cipher::Aes => aes_decrypt(p, s, buf, n, first),
            Cipher::Serpent => serpent_decrypt(p, s, buf, n, first),
            Cipher::Twofish => twofish_decrypt(p, s, buf, n, first),
            Cipher::Camellia => camellia_decrypt(p, s, buf, n, first),
            Cipher::Kuznyechik => kuznyechik_decrypt(p, s, buf, n, first),
        }
    }

    fn encrypt_area(&self, buf: &mut [u8], n: usize, first: u64)
        requires
            n >= 16,
            old(buf)@.len() as int % n as int == 0,
        ensures
            final(buf)@.len() == old(buf)@.len(),
            forall|k: int|
                #![trigger unit_at(final(buf)@, n as int, k)]
                0 <= k < unit_count(old(buf)@, n as int) ==> unit_at(final(buf)@, n as int, k)
                    == layer_encrypted(self@, unit_at(old(buf)@, n as int, k), first + k)
                    && layer_decrypted(self@, unit_at(final(buf)@, n as int, k), first + k)
                    == unit_at(old(buf)@, n as int, k),
    {
        proof {
            use_type_invariant(self);
        }
        let p: &[u8] = self.primary.as_slice();
        let s: &[u8] = self.secondary.as_slice();
        match self.cipher {
            Cipher::Aes => aes_encrypt(p, s, buf, n, first),
            Cipher::Serpent => serpent_encrypt(p, s, buf, n, first),
            Cipher::Twofish => twofish_encrypt(p, s, buf, n, first),
            Cipher::Camellia => camellia_encrypt(p, s, buf, n, first),
            Cipher::Kuznyechik => kuznyechik_encrypt(p, s, buf, n, first),
        }
    }
}

/// The layer with its keys overwritten.
fn wiped(layer: LayerXts) -> (r: LayerXts)
    ensures
        r@ == (LayerKeys {
            cipher: layer@.cipher,
            primary: zeros(32),
            secondary: zeros(32),
        }),
{
    proof {
        use_type_invariant(&layer);
    }
    let LayerXts { cipher, mut primary, mut secondary } = layer;
    wipe(primary.as_mut_slice());
    wipe(secondary.as_mut_slice());
    LayerXts { cipher, primary, secondary }
}

/// The layers that key material gives a list of ciphers: layer `i`'s primary
/// key at `32 * i`, its secondary key at `32 * (n + i)` for `n` layers.
pub open spec fn layers_of(ciphers: Seq<Cipher>, key: Seq<u8>) -> Seq<LayerKeys> {
    Seq::new(
        ciphers.len(),
        |i: int|
            LayerKeys {
                cipher: ciphers[i],
                primary: key.subrange(32 * i, 32 * i + 32),
                secondary: key.subrange(32 * (ciphers.len() + i), 32 * (ciphers.len() + i) + 32),
            },
    )
}

/// What is said of key material of the wrong length.
pub open spec fn wrong_key_len(name: Seq<char>, needed: nat, got: nat) -> VcFault {
    VcFault::Internal(
        "scheme "@ + name + " needs "@ + decimal_text(needed) + " key bytes, got "@ + decimal_text(
            got,
        ),
    )
}

/// An assembled XTS engine for one encryption scheme: one layer per cipher,
/// applied in cascade order.
pub struct SchemeXts {
    layers: Vec<LayerXts>,
}

impl View for SchemeXts {
    type V = Seq<LayerKeys>;

    closed spec fn view(&self) -> Seq<LayerKeys> {
        self.layers@.map_values(|l: LayerXts| l@)
    }
}

impl SchemeXts {
    /// Whether an engine exists for this scheme: one does for every scheme.
    pub fn supported(_scheme: &EncryptionScheme) -> (r: bool)
        ensures
            r,
    {
        true
    }

    /// Build from key material laid out as the module says.
    pub fn new(scheme: &EncryptionScheme, key_material: &[u8]) -> (r: VcResult<Self>)
        requires
            64 * scheme.layers@.len() <= usize::MAX,
        ensures
            key_material@.len() == 64 * scheme.layers@.len() <==> r is Ok,
            r matches Ok(x) ==> x@ == layers_of(scheme.layers@, key_material@),
            r matches Err(e) ==> e@ == wrong_key_len(
                scheme.name@,
                64 * scheme.layers@.len(),
                key_material@.len(),
            ),
    {
        let n: usize = scheme.layers.len();
        let got: usize = key_material.len();
        if got != scheme.key_bytes() {
            let a: String = concat("scheme ", scheme.name);
            let b: String = concat(a.as_str(), " needs ");
            let c: String = concat(b.as_str(), decimal(scheme.key_bytes() as u64).as_str());
            let d: String = concat(c.as_str(), " key bytes, got ");
            return Err(VcError::Internal(concat(d.as_str(), decimal(got as u64).as_str())));
        }
        let mut layers: Vec<LayerXts> = Vec::new();
        let mut i: usize = 0;
        while i < n
            invariant
                i <= n,
                64 * n <= usize::MAX,
                n == scheme.layers@.len(),
                key_material@.len() == 64 * n,
                layers@.len() == i,
                forall|j: int|
                    0 <= j < i ==> (#[trigger] layers@[j])@ == layers_of(
                        scheme.layers@,
                        key_material@,
                    )[j],
            decreases n - i,
        {
            let primary: Vec<u8> = copy_range(key_material, i * KEY_LEN, (i + 1) * KEY_LEN);
            let secondary: Vec<u8> = copy_range(
                key_material,
                (n + i) * KEY_LEN,
                (n + i + 1) * KEY_LEN,
            );
            layers.push(LayerXts { cipher: scheme.layers[i], primary, secondary });
            i = i + 1;
        }
        let x = SchemeXts { layers };
        assert(x@ =~= layers_of(scheme.layers@, key_material@));
        Ok(x)
    }

    fn decrypt_all(&self, buf: &mut [u8], n: usize, first: u64)
        requires
            n >= 16,
            old(buf)@.len() as int % n as int == 0,
        ensures
            final(buf)@.len() == old(buf)@.len(),
            forall|k: int|
                #![trigger unit_at(final(buf)@, n as int, k)]
                0 <= k < unit_count(old(buf)@, n as int) ==> unit_at(final(buf)@, n as int, k)
                    == unit_decrypted(self@, unit_at(old(buf)@, n as int, k), first + k)
                    && unit_encrypted(self@, unit_at(final(buf)@, n as int, k), first + k)
                    == unit_at(old(buf)@, n as int, k),
    {
        let ghost all = self@;
        let ghost start = buf@;
        let mut i: usize = self.layers.len();
        assert(all.take(i as int) =~= all);
        assert(all.skip(i as int) =~= seq![]);
        while i > 0
            invariant
                i <= self.layers@.len(),
                    all == self@,
                n >= 16,
                buf@.len() == start.len(),
                start.len() as int % n as int == 0,
                forall|k: int|
                    #![trigger unit_at(buf@, n as int, k)]
                    0 <= k < unit_count(start, n as int) ==> unit_decrypted(
                        all,
                        unit_at(start, n as int, k),
                        first + k,
                    ) == unit_decrypted(all.take(i as int), unit_at(buf@, n as int, k), first + k)
                        && encrypted_from(all, i as int, unit_at(buf@, n as int, k), first + k)
                        == unit_at(start, n as int, k),
            decreases i,
        {
            let ghost was = buf@;
            let ghost shorter = all.take(i - 1);
            i = i - 1;
            assert(all.take(i + 1).drop_last() =~= shorter);
            assert(all.take(i + 1).last() == self.layers@[i as int]@);
            self.layers[i].decrypt_area(buf, n, first);
            assert forall|k: int|
                #![trigger unit_at(buf@, n as int, k)]
                0 <= k < unit_count(start, n as int) implies unit_decrypted(
                all,
                unit_at(start, n as int, k),
                first + k,
            ) == unit_decrypted(all.take(i as int), unit_at(buf@, n as int, k), first + k)
                && encrypted_from(all, i as int, unit_at(buf@, n as int, k), first + k) == unit_at(
                start,
                n as int,
                k,
            ) by {
                let u = unit_at(was, n as int, k);
                assert(unit_at(buf@, n as int, k) == layer_decrypted(
                    self.layers@[i as int]@,
                    u,
                    first + k,
                ));
            }
        }
        assert forall|k: int|
            #![trigger unit_at(buf@, n as int, k)]
            0 <= k < unit_count(start, n as int) implies unit_at(buf@, n as int, k)
            == unit_decrypted(all, unit_at(start, n as int, k), first + k) && unit_encrypted(
            all,
            unit_at(buf@, n as int, k),
            first + k,
        ) == unit_at(start, n as int, k) by {
            lemma_encrypted_from(all, 0, unit_at(buf@, n as int, k), first + k);
            assert(all.take(0) =~= seq![]);
        }
    }

    fn encrypt_all(&self, buf: &mut [u8], n: usize, first: u64)
        requires
            n >= 16,
            old(buf)@.len() as int % n as int == 0,
        ensures
            final(buf)@.len() == old(buf)@.len(),
            forall|k: int|
                #![trigger unit_at(final(buf)@, n as int, k)]
                0 <= k < unit_count(old(buf)@, n as int) ==> unit_at(final(buf)@, n as int, k)
                    == unit_encrypted(self@, unit_at(old(buf)@, n as int, k), first + k)
                    && unit_decrypted(self@, unit_at(final(buf)@, n as int, k), first + k)
                    == unit_at(old(buf)@, n as int, k),
    {
        let ghost all = self@;
        let ghost start = buf@;
        let mut i: usize = 0;
        assert(all.take(0) =~= seq![]);
        while i < self.layers.len()
            invariant
                i <= self.layers@.len(),
                    all == self@,
                n >= 16,
                buf@.len() == start.len(),
                start.len() as int % n as int == 0,
                forall|k: int|
                    #![trigger unit_at(buf@, n as int, k)]
                    0 <= k < unit_count(start, n as int) ==> unit_at(buf@, n as int, k)
                        == unit_encrypted(all.take(i as int), unit_at(start, n as int, k), first + k)
                        && unit_decrypted(all.take(i as int), unit_at(buf@, n as int, k), first + k)
                        == unit_at(start, n as int, k),
            decreases self.layers@.len() - i,
        {
            let ghost was = buf@;
            assert(all.take(i + 1).drop_last() =~= all.take(i as int));
            assert(all.take(i + 1).last() == self.layers@[i as int]@);
            self.layers[i].encrypt_area(buf, n, first);
            assert forall|k: int|
                #![trigger unit_at(buf@, n as int, k)]
                0 <= k < unit_count(start, n as int) implies unit_at(buf@, n as int, k)
                == unit_encrypted(all.take(i + 1), unit_at(start, n as int, k), first + k)
                && unit_decrypted(all.take(i + 1), unit_at(buf@, n as int, k), first + k)
                == unit_at(start, n as int, k) by {
                let u = unit_at(was, n as int, k);
                assert(unit_at(buf@, n as int, k) == layer_encrypted(
                    self.layers@[i as int]@,
                    u,
                    first + k,
                ));
            }
            i = i + 1;
        }
        assert(all.take(i as int) =~= all);
    }

    /// Decrypt the encrypted header region in place: one unit, number 0.
    pub fn decrypt_header(&self, buf: &mut [u8; 448])
        ensures
            final(buf)@ == unit_decrypted(self@, old(buf)@, 0),
            unit_encrypted(self@, final(buf)@, 0) == old(buf)@,
    {
        let ghost start = buf@;
        self.decrypt_all(buf, 448, 0);
        assert(unit_at(buf@, 448, 0) =~= buf@);
        assert(unit_at(start, 448, 0) =~= start);
    }

    /// Encrypt the header region in place: one unit, number 0. The inverse of
    /// `decrypt_header`.
    pub fn encrypt_header(&self, buf: &mut [u8; 448])
        ensures
            final(buf)@ == unit_encrypted(self@, old(buf)@, 0),
            unit_decrypted(self@, final(buf)@, 0) == old(buf)@,
    {
        let ghost start = buf@;
        self.encrypt_all(buf, 448, 0);
        assert(unit_at(buf@, 448, 0) =~= buf@);
        assert(unit_at(start, 448, 0) =~= start);
    }

    /// Decrypt `buf` in place; `first_data_unit` is the number of its first
    /// 512-byte unit. The inverse of `encrypt_units`.
    pub fn decrypt_units(&self, buf: &mut [u8], first_data_unit: u64)
        requires
            old(buf)@.len() % 512 == 0,
        ensures
            final(buf)@.len() == old(buf)@.len(),
            forall|k: int|
                #![trigger unit_at(final(buf)@, 512, k)]
                0 <= k < unit_count(old(buf)@, 512) ==> unit_at(final(buf)@, 512, k)
                    == unit_decrypted(self@, unit_at(old(buf)@, 512, k), first_data_unit + k)
                    && unit_encrypted(self@, unit_at(final(buf)@, 512, k), first_data_unit + k)
                    == unit_at(old(buf)@, 512, k),
    {
        self.decrypt_all(buf, XTS_DATA_UNIT_LEN, first_data_unit)
    }

    /// Encrypt `buf` in place.
    pub fn encrypt_units(&self, buf: &mut [u8], first_data_unit: u64)
        requires
            old(buf)@.len() % 512 == 0,
        ensures
            final(buf)@.len() == old(buf)@.len(),
            forall|k: int|
                #![trigger unit_at(final(buf)@, 512, k)]
                0 <= k < unit_count(old(buf)@, 512) ==> unit_at(final(buf)@, 512, k)
                    == unit_encrypted(self@, unit_at(old(buf)@, 512, k), first_data_unit + k)
                    && unit_decrypted(self@, unit_at(final(buf)@, 512, k), first_data_unit + k)
                    == unit_at(old(buf)@, 512, k),
    {
        self.encrypt_all(buf, XTS_DATA_UNIT_LEN, first_data_unit)
    }

    /// Overwrite every key; to be called once the engine has served.
    pub fn wipe(&mut self)
        ensures
            final(self)@.len() == old(self)@.len(),
            forall|i: int|
                0 <= i < final(self)@.len() ==> (#[trigger] final(self)@[i]).primary == zeros(32)
                    && final(self)@[i].secondary == zeros(32),
    {
        let mut done: Vec<LayerXts> = Vec::new();
        while self.layers.len() > 0
            invariant
                self.layers@.len() + done@.len() == old(self).layers@.len(),
                forall|j: int|
                    0 <= j < done@.len() ==> (#[trigger] done@[j])@.primary == zeros(32)
                        && done@[j]@.secondary == zeros(32),
            decreases self.layers@.len(),
        {
            if let Some(layer) = self.layers.pop() {
                done.push(wiped(layer));
            }
        }
        self.layers = done;
    }
}

/// One data unit encrypted by the layers from `i` on, first to last.
spec fn encrypted_from(layers: Seq<LayerKeys>, i: int, unit: Seq<u8>, number: int) -> Seq<u8>
    decreases layers.len() - i,
{
    if 0 <= i < layers.len() {
        encrypted_from(layers, i + 1, layer_encrypted(layers[i], unit, number), number)
    } else {
        unit
    }
}

proof fn lemma_encrypted_from(layers: Seq<LayerKeys>, i: int, unit: Seq<u8>, number: int)
    requires
        0 <= i <= layers.len(),
    ensures
        encrypted_from(layers, i, unit_encrypted(layers.take(i), unit, number), number)
            == unit_encrypted(layers, unit, number),
        i == 0 ==> unit_encrypted(layers.take(i), unit, number) == unit,
    decreases layers.len() - i,
{
    if i == 0 {
        assert(layers.take(0) =~= seq![]);
    }
    if i < layers.len() {
        assert(layers.take(i + 1).drop_last() =~= layers.take(i));
        lemma_encrypted_from(layers, i + 1, unit, number);
    } else {
        assert(layers.take(i) =~= layers);
    }
}

/// A single cipher takes the first 32 bytes of its key material as the key for
/// the data and the last 32 as the key for the tweaks.
pub proof fn a_cipher_splits_its_key_in_two(key: Seq<u8>, unit: Seq<u8>, number: int)
    requires
        key.len() == 64,
    ensures
        unit_encrypted(layers_of(seq![Cipher::Aes], key), unit, number) == aes_encrypted(
            key.subrange(0, 32),
            key.subrange(32, 64),
            unit,
            number,
        ),
        unit_decrypted(layers_of(seq![Cipher::Aes], key), unit, number) == aes_decrypted(
            key.subrange(0, 32),
            key.subrange(32, 64),
            unit,
            number,
        ),
        unit_encrypted(layers_of(seq![Cipher::Serpent], key), unit, number) == serpent_encrypted(
            key.subrange(0, 32),
            key.subrange(32, 64),
            unit,
            number,
        ),
        unit_decrypted(layers_of(seq![Cipher::Serpent], key), unit, number) == serpent_decrypted(
            key.subrange(0, 32),
            key.subrange(32, 64),
            unit,
            number,
        ),
        unit_encrypted(layers_of(seq![Cipher::Twofish], key), unit, number) == twofish_encrypted(
            key.subrange(0, 32),
            key.subrange(32, 64),
            unit,
            number,
        ),
        unit_decrypted(layers_of(seq![Cipher::Twofish], key), unit, number) == twofish_decrypted(
            key.subrange(0, 32),
            key.subrange(32, 64),
            unit,
            number,
        ),
        unit_encrypted(layers_of(seq![Cipher::Camellia], key), unit, number) == camellia_encrypted(
            key.subrange(0, 32),
            key.subrange(32, 64),
            unit,
            number,
        ),
        unit_decrypted(layers_of(seq![Cipher::Camellia], key), unit, number) == camellia_decrypted(
            key.subrange(0, 32),
            key.subrange(32, 64),
            unit,
            number,
        ),
        unit_encrypted(layers_of(seq![Cipher::Kuznyechik], key), unit, number) == kuznyechik_encrypted(
            key.subrange(0, 32),
            key.subrange(32, 64),
            unit,
            number,
        ),
        unit_decrypted(layers_of(seq![Cipher::Kuznyechik], key), unit, number) == kuznyechik_decrypted(
            key.subrange(0, 32),
            key.subrange(32, 64),
            unit,
            number,
        ),
{
    reveal_with_fuel(unit_encrypted, 2);
    reveal_with_fuel(unit_decrypted, 2);
    assert forall|c: Cipher| (#[trigger] layers_of(seq![c], key)).drop_last() =~= seq![] by {}
}

/// A cascade of `n` ciphers is the cascade of all but its last with that one on
/// top. The last takes bytes `32 * (n - 1)` to `32 * n` of the key material as
/// its data key, and the last 32 as its tweak key; the others have the rest.
pub proof fn a_cascade_adds_its_last_cipher(
    ciphers: Seq<Cipher>,
    key: Seq<u8>,
    unit: Seq<u8>,
    number: int,
)
    requires
        ciphers.len() > 0,
        key.len() == 64 * ciphers.len(),
    ensures
        ({
            let n = ciphers.len() as int;
            let data_key = key.subrange(32 * n - 32, 32 * n);
            let tweak_key = key.subrange(64 * n - 32, 64 * n);
            let rest = key.subrange(0, 32 * n - 32) + key.subrange(32 * n, 64 * n - 32);
            let inner = layers_of(ciphers.drop_last(), rest);
            let below = unit_encrypted(inner, unit, number);
            &&& unit_encrypted(layers_of(ciphers, key), unit, number) == (match ciphers.last() {
                Cipher::Aes => aes_encrypted(data_key, tweak_key, below, number),
                Cipher::Serpent => serpent_encrypted(data_key, tweak_key, below, number),
                Cipher::Twofish => twofish_encrypted(data_key, tweak_key, below, number),
                Cipher::Camellia => camellia_encrypted(data_key, tweak_key, below, number),
                Cipher::Kuznyechik => kuznyechik_encrypted(data_key, tweak_key, below, number),
            })
            &&& unit_decrypted(layers_of(ciphers, key), unit, number) == unit_decrypted(
                inner,
                match ciphers.last() {
                    Cipher::Aes => aes_decrypted(data_key, tweak_key, unit, number),
                    Cipher::Serpent => serpent_decrypted(data_key, tweak_key, unit, number),
                    Cipher::Twofish => twofish_decrypted(data_key, tweak_key, unit, number),
                    Cipher::Camellia => camellia_decrypted(data_key, tweak_key, unit, number),
                    Cipher::Kuznyechik => kuznyechik_decrypted(data_key, tweak_key, unit, number),
                },
                number,
            )
        }),
{
    let n = ciphers.len() as int;
    let all = layers_of(ciphers, key);
    let rest = key.subrange(0, 32 * n - 32) + key.subrange(32 * n, 64 * n - 32);
    let inner = layers_of(ciphers.drop_last(), rest);
    assert forall|i: int| 0 <= i < n - 1 implies all.drop_last()[i] == inner[i] by {
        assert(key.subrange(32 * i, 32 * i + 32) =~= rest.subrange(32 * i, 32 * i + 32));
        assert(key.subrange(32 * (n + i), 32 * (n + i) + 32) =~= rest.subrange(
            32 * (n - 1 + i),
            32 * (n - 1 + i) + 32,
        ));
    }
    assert(all.drop_last() =~= inner);
    assert(32 * (n - 1) + 32 == 32 * n);
    assert(32 * (n + (n - 1)) == 64 * n - 32);
}

/// No cipher leaves a data unit as it is.
pub proof fn no_cipher_leaves_the_unit(key: Seq<u8>, unit: Seq<u8>, number: int)
    ensures
        unit_encrypted(layers_of(seq![], key), unit, number) == unit,
        unit_decrypted(layers_of(seq![], key), unit, number) == unit,
{
    assert(layers_of(seq![], key) =~= seq![]);
}

/// Data units lie side by side.
pub proof fn units_lie_side_by_side(buf: Seq<u8>, n: int, k: int, i: int)
    requires
        0 < n,
        0 <= k < unit_count(buf, n),
        0 <= i < n,
    ensures
        unit_at(buf, n, k).len() == n,
        unit_at(buf, n, k)[i] == buf[n * k + i],
        n * unit_count(buf, n) <= buf.len() < n * (unit_count(buf, n) + 1),
{
    let m = unit_count(buf, n);
    let len = buf.len() as int;
    assert(n * m <= len < n * (m + 1) && k * n + n <= n * m && 0 <= k * n && k * n == n * k)
        by (nonlinear_arith)
        requires
            0 < n,
            0 <= len,
            m == len / n,
            0 <= k < m,
    ;
}

} // verus!
