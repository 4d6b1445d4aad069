//! Wiping key material, and fresh random bytes.

use vstd::prelude::*;
use zeroize::Zeroize;

use crate::bytes::zeros;
use crate::error::{fails_with, VcError, VcFault, VcResult};
use crate::text::concat;

verus! {

/// `<[u8] as Zeroize>::zeroize` overwrites every byte with zero.
#[verifier::external_body]
pub(crate) fn wipe(buf: &mut [u8])
    ensures
        final(buf)@ == zeros(old(buf)@.len()),
{
    buf.zeroize()
}

/// `getrandom::getrandom` fills the buffer from the system's generator. An
/// empty buffer asks nothing of the generator, and succeeds. What the bytes
/// are is left unsaid, and so is when the generator fails: the first is
/// random, the second the system's affair.
#[verifier::external_body]
fn system_random(buf: &mut [u8]) -> (r: Result<(), String>)
    ensures
        final(buf)@.len() == old(buf)@.len(),
        old(buf)@.len() == 0 ==> r is Ok,
{
    getrandom::getrandom(buf).map_err(|e| e.to_string())
}

/// The fault where the system's generator fails, and says why.
pub open spec fn rng_fault(why: Seq<char>) -> VcFault {
    VcFault::Internal("rng: "@ + why)
}

/// Whether a fault is the generator's.
pub open spec fn is_rng_fault(f: VcFault) -> bool {
    exists|why: Seq<char>| f == #[trigger] rng_fault(why)
}

/// What a fill is answered, for each outcome of the generator.
pub fn fill_outcome(drawn: Result<(), String>) -> (r: VcResult<()>)
    ensures
        match drawn {
            Ok(_) => r is Ok,
            Err(why) => fails_with(r, rng_fault(why@)),
        },
{
    match drawn {
        Ok(_) => Ok(()),
        Err(why) => Err(VcError::Internal(concat("rng: ", why.as_str()))),
    }
}

/// Fill `buf` with fresh random bytes.
pub fn random_fill(buf: &mut [u8]) -> (r: VcResult<()>)
    ensures
        final(buf)@.len() == old(buf)@.len(),
        old(buf)@.len() == 0 ==> r is Ok,
        r matches Err(e) ==> is_rng_fault(e@),
{
    fill_outcome(system_random(buf))
}

} // verus!
