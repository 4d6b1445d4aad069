//! Header-key derivation: PBKDF2-HMAC over one of the supported hashes.

use vstd::prelude::*;

use super::secret::wipe;
use crate::bytes::zeroed;
use crate::error::{fails_with, VcError, VcFault, VcResult};
use crate::registry::prf_table;
use crate::text::{concat, same_text};

verus! {

/// The longest key any scheme needs: three layers of 64 bytes.
pub const MAX_KEY_LEN: usize = 192;

/// Byte `i` of PBKDF2-HMAC-SHA-512 over (passphrase, salt, iterations).
pub uninterp spec fn pbkdf2_sha512(passphrase: Seq<u8>, salt: Seq<u8>, iterations: u32, i: int) -> u8;

/// Byte `i` of PBKDF2-HMAC-SHA-256 over (passphrase, salt, iterations).
pub uninterp spec fn pbkdf2_sha256(passphrase: Seq<u8>, salt: Seq<u8>, iterations: u32, i: int) -> u8;

/// Byte `i` of PBKDF2-HMAC-Whirlpool over (passphrase, salt, iterations).
pub uninterp spec fn pbkdf2_whirlpool(passphrase: Seq<u8>, salt: Seq<u8>, iterations: u32, i: int) -> u8;

/// Byte `i` of PBKDF2-HMAC-BLAKE2s-256 over (passphrase, salt, iterations).
pub uninterp spec fn pbkdf2_blake2s(passphrase: Seq<u8>, salt: Seq<u8>, iterations: u32, i: int) -> u8;

/// Byte `i` of PBKDF2-HMAC-Streebog-512 over (passphrase, salt, iterations).
pub uninterp spec fn pbkdf2_streebog(passphrase: Seq<u8>, salt: Seq<u8>, iterations: u32, i: int) -> u8;

/// `pbkdf2::pbkdf2_hmac` over SHA-512. A byte of the output depends on the
/// passphrase, the salt, the iteration count and its place alone, not on how
/// long the output is: PBKDF2 computes its blocks one by one, and counts them
/// in 32 bits.
#[verifier::external_body]
fn derive_sha512(passphrase: &[u8], salt: &[u8], iterations: u32, out: &mut [u8])
    requires
        old(out)@.len() <= 0xffff_ffff,
    ensures
        final(out)@ == Seq::new(
            old(out)@.len(),
            |i: int| pbkdf2_sha512(passphrase@, salt@, iterations, i),
        ),
{
    pbkdf2::pbkdf2_hmac::<sha2::Sha512>(passphrase, salt, iterations, out)
}

/// `pbkdf2::pbkdf2_hmac` over SHA-256, byte for byte as above.
#[verifier::external_body]
fn derive_sha256(passphrase: &[u8], salt: &[u8], iterations: u32, out: &mut [u8])
    requires
        old(out)@.len() <= 0xffff_ffff,
    ensures
        final(out)@ == Seq::new(
            old(out)@.len(),
            |i: int| pbkdf2_sha256(passphrase@, salt@, iterations, i),
        ),
{
    pbkdf2::pbkdf2_hmac::<sha2::Sha256>(passphrase, salt, iterations, out)
}

/// `pbkdf2::pbkdf2_hmac` over Whirlpool, byte for byte as above.
#[verifier::external_body]
fn derive_whirlpool(passphrase: &[u8], salt: &[u8], iterations: u32, out: &mut [u8])
    requires
        old(out)@.len() <= 0xffff_ffff,
    ensures
        final(out)@ == Seq::new(
            old(out)@.len(),
            |i: int| pbkdf2_whirlpool(passphrase@, salt@, iterations, i),
        ),
{
    pbkdf2::pbkdf2_hmac::<whirlpool::Whirlpool>(passphrase, salt, iterations, out)
}

/// `pbkdf2::pbkdf2` over `hmac::SimpleHmac` of BLAKE2s-256, which HMAC needs
/// in its simple form; byte for byte as above. It reports an error only where
/// the keyed hash refuses the key's length, and HMAC takes a key of any.
#[verifier::external_body]
fn derive_blake2s(passphrase: &[u8], salt: &[u8], iterations: u32, out: &mut [u8])
    requires
        old(out)@.len() <= 0xffff_ffff,
    ensures
        final(out)@ == Seq::new(
            old(out)@.len(),
            |i: int| pbkdf2_blake2s(passphrase@, salt@, iterations, i),
        ),
{
    pbkdf2::pbkdf2::<hmac::SimpleHmac<blake2::Blake2s256>>(passphrase, salt, iterations, out)
        .expect("HMAC takes a key of any length")
}

/// `pbkdf2::pbkdf2_hmac` over Streebog-512, byte for byte as above.
#[verifier::external_body]
fn derive_streebog(passphrase: &[u8], salt: &[u8], iterations: u32, out: &mut [u8])
    requires
        old(out)@.len() <= 0xffff_ffff,
    ensures
        final(out)@ == Seq::new(
            old(out)@.len(),
            |i: int| pbkdf2_streebog(passphrase@, salt@, iterations, i),
        ),
{
    pbkdf2::pbkdf2_hmac::<streebog::Streebog512>(passphrase, salt, iterations, out)
}

/// Whether a hash of this name is implemented.
pub open spec fn prf_known(name: Seq<char>) -> bool {
    ||| name == "SHA-512"@
    ||| name == "SHA-256"@
    ||| name == "Whirlpool"@
    ||| name == "BLAKE2s-256"@
    ||| name == "Streebog"@
}

/// Byte `i` of the header key under the hash of this name.
pub open spec fn key_byte(
    name: Seq<char>,
    passphrase: Seq<u8>,
    salt: Seq<u8>,
    iterations: u32,
    i: int,
) -> u8 {
    if name == "SHA-512"@ {
        pbkdf2_sha512(passphrase, salt, iterations, i)
    } else if name == "SHA-256"@ {
        pbkdf2_sha256(passphrase, salt, iterations, i)
    } else if name == "Whirlpool"@ {
        pbkdf2_whirlpool(passphrase, salt, iterations, i)
    } else if name == "BLAKE2s-256"@ {
        pbkdf2_blake2s(passphrase, salt, iterations, i)
    } else {
        pbkdf2_streebog(passphrase, salt, iterations, i)
    }
}

/// The first `len` bytes of the header key under the hash of this name.
pub open spec fn key_of(
    name: Seq<char>,
    passphrase: Seq<u8>,
    salt: Seq<u8>,
    iterations: u32,
    len: nat,
) -> Seq<u8> {
    Seq::new(len, |i: int| key_byte(name, passphrase, salt, iterations, i))
}

/// A shorter derivation is a prefix of a longer one.
pub proof fn shorter_key_is_a_prefix(
    name: Seq<char>,
    passphrase: Seq<u8>,
    salt: Seq<u8>,
    iterations: u32,
    short: nat,
    long: nat,
)
    requires
        short <= long,
    ensures
        key_of(name, passphrase, salt, iterations, short) == key_of(
            name,
            passphrase,
            salt,
            iterations,
            long,
        ).take(short as int),
{
    assert(key_of(name, passphrase, salt, iterations, short) =~= key_of(
        name,
        passphrase,
        salt,
        iterations,
        long,
    ).take(short as int));
}

/// Every hash of the registry is implemented.
pub proof fn registered_prfs_are_known(k: int)
    requires
        0 <= k < prf_table().len(),
    ensures
        prf_known(prf_table()[k].name),
{
    assert(prf_table()[0].name == "SHA-512"@);
    assert(prf_table()[1].name == "Whirlpool"@);
    assert(prf_table()[2].name == "SHA-256"@);
    assert(prf_table()[3].name == "BLAKE2s-256"@);
    assert(prf_table()[4].name == "Streebog"@);
}

/// Derived header-key material.
pub struct HeaderKey {
    bytes: Vec<u8>,
}

impl View for HeaderKey {
    type V = Seq<u8>;

    closed spec fn view(&self) -> Seq<u8> {
        self.bytes@
    }
}

impl HeaderKey {
    pub fn as_bytes(&self) -> (r: &[u8])
        ensures
            r@ == self@,
    {
        self.bytes.as_slice()
    }

    /// Overwrite the key; to be called once it has served.
    pub fn wipe(&mut self)
        ensures
            final(self)@ == crate::bytes::zeros(old(self)@.len()),
    {
        wipe(self.bytes.as_mut_slice());
    }
}

/// The derivation's outcome: the key, or an error that names the hash.
pub open spec fn derivation(
    prf_name: Seq<char>,
    passphrase: Seq<u8>,
    salt: Seq<u8>,
    iterations: u32,
    key_len: nat,
) -> Result<Seq<u8>, VcFault> {
    if prf_known(prf_name) {
        Ok(key_of(prf_name, passphrase, salt, iterations, key_len))
    } else {
        Err(VcFault::Internal("unknown PRF "@ + prf_name))
    }
}

/// PBKDF2 with the given hash over (passphrase, salt, iterations), producing
/// `key_len` bytes.
pub fn derive_header_key(
    prf_name: &str,
    passphrase: &[u8],
    salt: &[u8; 64],
    iterations: u32,
    key_len: usize,
) -> (r: VcResult<HeaderKey>)
    requires
        key_len <= MAX_KEY_LEN,
    ensures
        match derivation(prf_name@, passphrase@, salt@, iterations, key_len as nat) {
            Ok(key) => r matches Ok(k) && k@ == key,
            Err(f) => fails_with(r, f),
        },
{
    let mut bytes: Vec<u8> = zeroed(key_len);
    let salt: &[u8] = salt.as_slice();
    let out: &mut [u8] = bytes.as_mut_slice();
    if same_text(prf_name, "SHA-512") {
        derive_sha512(passphrase, salt, iterations, out);
    } else if same_text(prf_name, "SHA-256") {
        derive_sha256(passphrase, salt, iterations, out);
    } else if same_text(prf_name, "Whirlpool") {
        derive_whirlpool(passphrase, salt, iterations, out);
    } else if same_text(prf_name, "BLAKE2s-256") {
        derive_blake2s(passphrase, salt, iterations, out);
    } else if same_text(prf_name, "Streebog") {
        derive_streebog(passphrase, salt, iterations, out);
    } else {
        return Err(VcError::Internal(concat("unknown PRF ", prf_name)));
    }
    assert(bytes@ =~= key_of(prf_name@, passphrase@, salt@, iterations, key_len as nat));
    Ok(HeaderKey { bytes })
}

/// Every byte of a key is that of PBKDF2 over the hash that the name says.
pub proof fn each_name_derives_by_its_hash(
    passphrase: Seq<u8>,
    salt: Seq<u8>,
    iterations: u32,
    len: nat,
    i: int,
)
    requires
        0 <= i < len,
    ensures
        derivation("SHA-512"@, passphrase, salt, iterations, len) matches Ok(k) && k.len() == len
            && k[i] == pbkdf2_sha512(passphrase, salt, iterations, i),
        derivation("SHA-256"@, passphrase, salt, iterations, len) matches Ok(k) && k.len() == len
            && k[i] == pbkdf2_sha256(passphrase, salt, iterations, i),
        derivation("Whirlpool"@, passphrase, salt, iterations, len) matches Ok(k) && k.len() == len
            && k[i] == pbkdf2_whirlpool(passphrase, salt, iterations, i),
        derivation("BLAKE2s-256"@, passphrase, salt, iterations, len) matches Ok(k) && k.len()
            == len && k[i] == pbkdf2_blake2s(passphrase, salt, iterations, i),
        derivation("Streebog"@, passphrase, salt, iterations, len) matches Ok(k) && k.len() == len
            && k[i] == pbkdf2_streebog(passphrase, salt, iterations, i),
{
    reveal_strlit("SHA-512");
    reveal_strlit("SHA-256");
    reveal_strlit("Whirlpool");
    reveal_strlit("BLAKE2s-256");
    reveal_strlit("Streebog");
    assert("SHA-512"@[4] == '5' && "SHA-256"@[4] == '2');
    assert("Whirlpool"@.len() == 9 && "BLAKE2s-256"@.len() == 11 && "Streebog"@.len() == 8);
    assert("SHA-512"@.len() == 7 && "SHA-256"@.len() == 7);
}

} // verus!
