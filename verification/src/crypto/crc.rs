//! CRC-32 as headers and keyfiles use it.

use vstd::prelude::*;

verus! {

/// One step of the reflected CRC-32 division (polynomial `0xEDB88320`).
pub open spec fn crc_step(c: u32) -> u32 {
    if c & 1 != 0 {
        (c >> 1) ^ 0xEDB8_8320
    } else {
        c >> 1
    }
}

/// `n` steps of the division.
pub open spec fn crc_steps(c: u32, n: nat) -> u32
    decreases n,
{
    if n == 0 {
        c
    } else {
        crc_step(crc_steps(c, (n - 1) as nat))
    }
}

/// The register after one more byte.
pub open spec fn crc_byte(crc: u32, byte: u8) -> u32 {
    crc_steps((crc ^ byte as u32) & 0xff, 8) ^ (crc >> 8)
}

/// The register after all of `data`.
pub open spec fn crc_register(crc: u32, data: Seq<u8>) -> u32
    decreases data.len(),
{
    if data.len() == 0 {
        crc
    } else {
        crc_byte(crc_register(crc, data.drop_last()), data.last())
    }
}

/// The CRC-32 of `data`: the register from all ones on, inverted.
pub open spec fn crc32_of(data: Seq<u8>) -> u32 {
    !crc_register(0xFFFF_FFFF, data)
}

/// One reflected CRC-32 table entry.
fn crc32_tab(index: u32) -> (r: u32)
    ensures
        r == crc_steps(index & 0xff, 8),
{
    let mut c: u32 = index & 0xff;
    let mut i: usize = 0;
    while i < 8
        invariant
            i <= 8,
            c == crc_steps(index & 0xff, i as nat),
        decreases 8 - i,
    {
        c =
        if c & 1 != 0 {
            (c >> 1) ^ 0xEDB8_8320
        } else {
            c >> 1
        };
        i = i + 1;
    }
    c
}

/// The raw running register after `byte`; no final inversion.
pub fn crc32_update(crc: u32, byte: u8) -> (r: u32)
    ensures
        r == crc_byte(crc, byte),
{
    let x: u32 = crc ^ byte as u32;
    assert((x & 0xff) & 0xff == x & 0xff) by (bit_vector);
    crc32_tab(x & 0xff) ^ (crc >> 8)
}

/// `crc32fast::hash`: the CRC-32 (IEEE) of `data`, that is the reflected
/// division by `0xEDB88320` from an all-ones register, inverted at the end.
#[verifier::external_body]
pub(crate) fn crc32(data: &[u8]) -> (r: u32)
    ensures
        r == crc32_of(data@),
{
    crc32fast::hash(data)
}

/// A step of the division can be undone: the top bit of what it leaves says
/// whether the polynomial was taken off, and so which bit was shifted out.
pub proof fn a_division_step_can_be_undone(c: u32)
    ensures
        ({
            let r = crc_step(c);
            c == if r >= 0x8000_0000 {
                ((r ^ 0xEDB8_8320) << 1) | 1
            } else {
                r << 1
            }
        }),
{
    assert(c & 1 != 0 ==> ((c >> 1) ^ 0xEDB8_8320) >= 0x8000_0000 && c == (((((c >> 1)
        ^ 0xEDB8_8320) ^ 0xEDB8_8320) << 1) | 1)) by (bit_vector);
    assert(c & 1 == 0 ==> (c >> 1) < 0x8000_0000 && c == (c >> 1) << 1) by (bit_vector);
}

proof fn lemma_step_adds(a: u32, b: u32)
    ensures
        crc_step(a ^ b) == crc_step(a) ^ crc_step(b),
{
    let p: u32 = 0xEDB8_8320;
    assert((a ^ b) & 1 != 0 <==> (a & 1 != 0) != (b & 1 != 0)) by (bit_vector);
    assert((a ^ b) >> 1 == (a >> 1) ^ (b >> 1)) by (bit_vector);
    let x = a >> 1;
    let y = b >> 1;
    assert((x ^ y) ^ p == (x ^ p) ^ y && (x ^ y) ^ p == x ^ (y ^ p) && x ^ y == (x ^ p) ^ (y ^ p))
        by (bit_vector);
}

proof fn lemma_steps_add(a: u32, b: u32, n: nat)
    ensures
        crc_steps(a ^ b, n) == crc_steps(a, n) ^ crc_steps(b, n),
    decreases n,
{
    if n > 0 {
        lemma_steps_add(a, b, (n - 1) as nat);
        lemma_step_adds(crc_steps(a, (n - 1) as nat), crc_steps(b, (n - 1) as nat));
    }
}

/// A byte goes into the register by eight steps of the division, lowest bit
/// first; and registers and bytes may be added before or after.
pub proof fn a_byte_is_eight_steps(c: u32, d: u32, x: u8, y: u8)
    ensures
        crc_byte(c, x) == crc_step(
            crc_step(
                crc_step(crc_step(crc_step(crc_step(crc_step(crc_step(c ^ x as u32)))))),
            ),
        ),
        crc_byte(c ^ d, x ^ y) == crc_byte(c, x) ^ crc_byte(d, y),
{
    lemma_byte_steps(c, x);
    lemma_byte_steps(d, y);
    lemma_byte_steps(c ^ d, x ^ y);
    reveal_with_fuel(crc_steps, 9);
    let p = x as u32;
    let q = y as u32;
    assert((c ^ d) ^ (p ^ q) == (c ^ p) ^ (d ^ q)) by (bit_vector);
    assert((x ^ y) as u32 == (x as u32) ^ (y as u32)) by (bit_vector);
    lemma_steps_add(c ^ p, d ^ q, 8);
}

proof fn lemma_byte_steps(c: u32, x: u8)
    ensures
        crc_byte(c, x) == crc_steps(c ^ x as u32, 8),
{
    let z = c ^ x as u32;
    let low = z & 0xff;
    let high = z & 0xffff_ff00u32;
    assert(z == (z & 0xff) ^ (z & 0xffff_ff00u32)) by (bit_vector);
    assert(((c ^ (x as u32)) & 0xffff_ff00u32) >> 8 == c >> 8) by (bit_vector);
    lemma_steps_add(low, high, 8);
    lemma_high_steps(z, 8);
}

proof fn lemma_high_steps(z: u32, n: nat)
    requires
        n <= 8,
    ensures
        crc_steps(z & 0xffff_ff00u32, n) == (z & 0xffff_ff00u32) >> (n as u32),
    decreases n,
{
    let h = z & 0xffff_ff00u32;
    if n == 0 {
        assert(h >> 0u32 == h) by (bit_vector);
    } else {
        lemma_high_steps(z, (n - 1) as nat);
        let k = (n - 1) as u32;
        assert(k < 8 ==> ((z & 0xffff_ff00u32) >> k) & 1 == 0) by (bit_vector);
        assert(k < 8 ==> ((z & 0xffff_ff00u32) >> k) >> 1 == (z & 0xffff_ff00u32) >> ((k + 1)
            as u32)) by (bit_vector);
    }
}

} // verus!
