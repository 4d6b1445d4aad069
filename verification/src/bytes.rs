//! Byte strings: fixed-width integers in both byte orders, splicing one run of
//! bytes over another, and the copies the rest of the library is built on.

use vstd::prelude::*;

verus! {

/// `s` with `data` laid over it from `offset` on. Data that reaches past the
/// end extends the string, and a gap in between is filled with zeros; no data
/// changes nothing.
pub open spec fn splice(s: Seq<u8>, offset: int, data: Seq<u8>) -> Seq<u8> {
    if data.len() == 0 {
        s
    } else {
        Seq::new(
            if offset + data.len() > s.len() {
                (offset + data.len()) as nat
            } else {
                s.len()
            },
            |i: int|
                if offset <= i < offset + data.len() {
                    data[i - offset]
                } else if i < s.len() {
                    s[i]
                } else {
                    0u8
                },
        )
    }
}

/// The `len` bytes of `s` from `offset` on.
pub open spec fn slice_of(s: Seq<u8>, offset: int, len: int) -> Seq<u8> {
    s.subrange(offset, offset + len)
}

/// `n` zero bytes.
pub open spec fn zeros(n: nat) -> Seq<u8> {
    Seq::new(n, |i: int| 0u8)
}

#[verifier::opaque]
pub open spec fn le16(s: Seq<u8>, off: int) -> u16 {
    (s[off] + 0x100 * s[off + 1]) as u16
}

#[verifier::opaque]
pub open spec fn le32(s: Seq<u8>, off: int) -> u32 {
    (s[off] + 0x100 * s[off + 1] + 0x1_0000 * s[off + 2] + 0x100_0000 * s[off + 3]) as u32
}

#[verifier::opaque]
pub open spec fn le64(s: Seq<u8>, off: int) -> u64 {
    (le32(s, off) + 0x1_0000_0000 * le32(s, off + 4)) as u64
}

#[verifier::opaque]
pub open spec fn be16(s: Seq<u8>, off: int) -> u16 {
    (s[off + 1] + 0x100 * s[off]) as u16
}

#[verifier::opaque]
pub open spec fn be32(s: Seq<u8>, off: int) -> u32 {
    (s[off + 3] + 0x100 * s[off + 2] + 0x1_0000 * s[off + 1] + 0x100_0000 * s[off]) as u32
}

#[verifier::opaque]
pub open spec fn be64(s: Seq<u8>, off: int) -> u64 {
    (be32(s, off + 4) + 0x1_0000_0000 * be32(s, off)) as u64
}

#[verifier::opaque]
pub open spec fn le16_bytes(v: u16) -> Seq<u8> {
    seq![(v % 0x100) as u8, (v / 0x100) as u8]
}

#[verifier::opaque]
pub open spec fn le32_bytes(v: u32) -> Seq<u8> {
    seq![
        (v % 0x100) as u8,
        (v / 0x100 % 0x100) as u8,
        (v / 0x1_0000 % 0x100) as u8,
        (v / 0x100_0000) as u8,
    ]
}

#[verifier::opaque]
pub open spec fn le64_bytes(v: u64) -> Seq<u8> {
    le32_bytes((v % 0x1_0000_0000) as u32) + le32_bytes((v / 0x1_0000_0000) as u32)
}

#[verifier::opaque]
pub open spec fn be16_bytes(v: u16) -> Seq<u8> {
    seq![(v / 0x100) as u8, (v % 0x100) as u8]
}

#[verifier::opaque]
pub open spec fn be32_bytes(v: u32) -> Seq<u8> {
    seq![
        (v / 0x100_0000) as u8,
        (v / 0x1_0000 % 0x100) as u8,
        (v / 0x100 % 0x100) as u8,
        (v % 0x100) as u8,
    ]
}

#[verifier::opaque]
pub open spec fn be64_bytes(v: u64) -> Seq<u8> {
    be32_bytes((v / 0x1_0000_0000) as u32) + be32_bytes((v % 0x1_0000_0000) as u32)
}

pub broadcast proof fn len_le16(v: u16)
    ensures
        (#[trigger] le16_bytes(v)).len() == 2,
{
    reveal(le16_bytes);
}

pub broadcast proof fn len_le32(v: u32)
    ensures
        (#[trigger] le32_bytes(v)).len() == 4,
{
    reveal(le32_bytes);
}

pub broadcast proof fn len_le64(v: u64)
    ensures
        (#[trigger] le64_bytes(v)).len() == 8,
{
    reveal(le64_bytes);
    reveal(le32_bytes);
}

pub broadcast proof fn len_be16(v: u16)
    ensures
        (#[trigger] be16_bytes(v)).len() == 2,
{
    reveal(be16_bytes);
}

pub broadcast proof fn len_be32(v: u32)
    ensures
        (#[trigger] be32_bytes(v)).len() == 4,
{
    reveal(be32_bytes);
}

pub broadcast proof fn len_be64(v: u64)
    ensures
        (#[trigger] be64_bytes(v)).len() == 8,
{
    reveal(be64_bytes);
    reveal(be32_bytes);
}

/// How many bytes a number takes.
pub broadcast group group_widths {
    len_le16,
    len_le32,
    len_le64,
    len_be16,
    len_be32,
    len_be64,
}

/// Reading back a 16-bit value that was written gives the value.
pub proof fn round_trip_16(s: Seq<u8>, off: int, v: u16)
    requires
        0 <= off,
        off + 2 <= s.len(),
    ensures
        le16(splice(s, off, le16_bytes(v)), off) == v,
        be16(splice(s, off, be16_bytes(v)), off) == v,
{
    reveal(le16);
    reveal(be16);
    reveal(le16_bytes);
    reveal(be16_bytes);
}

/// Reading back a 32-bit value that was written gives the value.
#[verifier::spinoff_prover]
pub proof fn round_trip_32(s: Seq<u8>, off: int, v: u32)
    requires
        0 <= off,
        off + 4 <= s.len(),
    ensures
        le32(splice(s, off, le32_bytes(v)), off) == v,
        be32(splice(s, off, be32_bytes(v)), off) == v,
{
    reveal(le32);
    reveal(be32);
    reveal(le32_bytes);
    reveal(be32_bytes);
    let le = splice(s, off, le32_bytes(v));
    let be = splice(s, off, be32_bytes(v));
    assert(le[off] == (v % 0x100) as u8);
    assert(le[off + 1] == (v / 0x100 % 0x100) as u8);
    assert(le[off + 2] == (v / 0x1_0000 % 0x100) as u8);
    assert(le[off + 3] == (v / 0x100_0000) as u8);
    assert(be[off + 3] == (v % 0x100) as u8);
    assert(be[off + 2] == (v / 0x100 % 0x100) as u8);
    assert(be[off + 1] == (v / 0x1_0000 % 0x100) as u8);
    assert(be[off] == (v / 0x100_0000) as u8);
}

/// Reading back a 64-bit value that was written gives the value.
#[verifier::spinoff_prover]
pub proof fn round_trip_64(s: Seq<u8>, off: int, v: u64)
    requires
        0 <= off,
        off + 8 <= s.len(),
    ensures
        le64(splice(s, off, le64_bytes(v)), off) == v,
        be64(splice(s, off, be64_bytes(v)), off) == v,
{
    reveal(le64);
    reveal(be64);
    reveal(le64_bytes);
    reveal(be64_bytes);
    reveal(le32_bytes);
    reveal(be32_bytes);
    let lo = (v % 0x1_0000_0000) as u32;
    let hi = (v / 0x1_0000_0000) as u32;
    assert(splice(s, off, le64_bytes(v)) =~= splice(
        splice(s, off, le32_bytes(lo)),
        off + 4,
        le32_bytes(hi),
    ));
    assert(splice(s, off, le64_bytes(v)) =~= splice(
        splice(s, off + 4, le32_bytes(hi)),
        off,
        le32_bytes(lo),
    ));
    round_trip_32(splice(s, off, le32_bytes(lo)), off + 4, hi);
    round_trip_32(splice(s, off + 4, le32_bytes(hi)), off, lo);
    assert(splice(s, off, be64_bytes(v)) =~= splice(
        splice(s, off, be32_bytes(hi)),
        off + 4,
        be32_bytes(lo),
    ));
    assert(splice(s, off, be64_bytes(v)) =~= splice(
        splice(s, off + 4, be32_bytes(lo)),
        off,
        be32_bytes(hi),
    ));
    round_trip_32(splice(s, off, be32_bytes(hi)), off + 4, lo);
    round_trip_32(splice(s, off + 4, be32_bytes(lo)), off, hi);
}

pub fn read_le16(b: &[u8], off: usize) -> (r: u16)
    requires
        off + 2 <= b@.len(),
    ensures
        r == le16(b@, off as int),
{
    proof {
        reveal(le16);
    }
    b[off] as u16 + 0x100 * (b[off + 1] as u16)
}

pub fn read_le32(b: &[u8], off: usize) -> (r: u32)
    requires
        off + 4 <= b@.len(),
    ensures
        r == le32(b@, off as int),
{
    proof {
        reveal(le32);
    }
    b[off] as u32 + 0x100 * (b[off + 1] as u32) + 0x1_0000 * (b[off + 2] as u32) + 0x100_0000 * (
    b[off + 3] as u32)
}

pub fn read_le64(b: &[u8], off: usize) -> (r: u64)
    requires
        off + 8 <= b@.len(),
    ensures
        r == le64(b@, off as int),
{
    proof {
        reveal(le64);
    }
    assert(b.len() == b@.len());
    read_le32(b, off) as u64 + 0x1_0000_0000 * (read_le32(b, off + 4) as u64)
}

pub fn read_be16(b: &[u8], off: usize) -> (r: u16)
    requires
        off + 2 <= b@.len(),
    ensures
        r == be16(b@, off as int),
{
    proof {
        reveal(be16);
    }
    assert(b.len() == b@.len());
    b[off + 1] as u16 + 0x100 * (b[off] as u16)
}

pub fn read_be32(b: &[u8], off: usize) -> (r: u32)
    requires
        off + 4 <= b@.len(),
    ensures
        r == be32(b@, off as int),
{
    proof {
        reveal(be32);
    }
    assert(b.len() == b@.len());
    b[off + 3] as u32 + 0x100 * (b[off + 2] as u32) + 0x1_0000 * (b[off + 1] as u32) + 0x100_0000
        * (b[off] as u32)
}

pub fn read_be64(b: &[u8], off: usize) -> (r: u64)
    requires
        off + 8 <= b@.len(),
    ensures
        r == be64(b@, off as int),
{
    proof {
        reveal(be64);
    }
    assert(b.len() == b@.len());
    read_be32(b, off + 4) as u64 + 0x1_0000_0000 * (read_be32(b, off) as u64)
}

/// Lay `src` over `dst` from `off` on.
pub fn put(dst: &mut [u8], off: usize, src: &[u8])
    requires
        off + src@.len() <= old(dst)@.len(),
    ensures
        final(dst)@ == splice(old(dst)@, off as int, src@),
        final(dst)@.len() == old(dst)@.len(),
{
    let n: usize = src.len();
    let ghost before = dst@;
    let mut i: usize = 0;
    while i < n
        invariant
            i <= n,
            n == src@.len(),
            off + n <= before.len(),
            dst@ =~= splice(before, off as int, src@.subrange(0, i as int)),
        decreases n - i,
    {
        assert(dst.len() == dst@.len());
        dst[off + i] = src[i];
        i = i + 1;
    }
    assert(src@.subrange(0, n as int) == src@);
}

pub fn put_le16(dst: &mut [u8], off: usize, v: u16)
    requires
        off + 2 <= old(dst)@.len(),
    ensures
        final(dst)@ == splice(old(dst)@, off as int, le16_bytes(v)),
        final(dst)@.len() == old(dst)@.len(),
{
    proof {
        reveal(le16_bytes);
    }
    dst[off] = (v % 0x100) as u8;
    dst[off + 1] = (v / 0x100) as u8;
    assert(dst@ =~= splice(old(dst)@, off as int, le16_bytes(v)));
}

pub fn put_le32(dst: &mut [u8], off: usize, v: u32)
    requires
        off + 4 <= old(dst)@.len(),
    ensures
        final(dst)@ == splice(old(dst)@, off as int, le32_bytes(v)),
        final(dst)@.len() == old(dst)@.len(),
{
    proof {
        reveal(le32_bytes);
    }
    dst[off] = (v % 0x100) as u8;
    dst[off + 1] = (v / 0x100 % 0x100) as u8;
    dst[off + 2] = (v / 0x1_0000 % 0x100) as u8;
    dst[off + 3] = (v / 0x100_0000) as u8;
    assert(dst@ =~= splice(old(dst)@, off as int, le32_bytes(v)));
}

pub fn put_le64(dst: &mut [u8], off: usize, v: u64)
    requires
        off + 8 <= old(dst)@.len(),
    ensures
        final(dst)@ == splice(old(dst)@, off as int, le64_bytes(v)),
        final(dst)@.len() == old(dst)@.len(),
{
    proof {
        reveal(le64_bytes);
        reveal(le32_bytes);
    }
    put_le32(dst, off, (v % 0x1_0000_0000) as u32);
    assert(dst.len() == dst@.len());
    put_le32(dst, off + 4, (v / 0x1_0000_0000) as u32);
    assert(dst@ =~= splice(old(dst)@, off as int, le64_bytes(v)));
}

pub fn put_be16(dst: &mut [u8], off: usize, v: u16)
    requires
        off + 2 <= old(dst)@.len(),
    ensures
        final(dst)@ == splice(old(dst)@, off as int, be16_bytes(v)),
        final(dst)@.len() == old(dst)@.len(),
{
    proof {
        reveal(be16_bytes);
    }
    dst[off] = (v / 0x100) as u8;
    dst[off + 1] = (v % 0x100) as u8;
    assert(dst@ =~= splice(old(dst)@, off as int, be16_bytes(v)));
}

pub fn put_be32(dst: &mut [u8], off: usize, v: u32)
    requires
        off + 4 <= old(dst)@.len(),
    ensures
        final(dst)@ == splice(old(dst)@, off as int, be32_bytes(v)),
        final(dst)@.len() == old(dst)@.len(),
{
    proof {
        reveal(be32_bytes);
    }
    dst[off] = (v / 0x100_0000) as u8;
    dst[off + 1] = (v / 0x1_0000 % 0x100) as u8;
    dst[off + 2] = (v / 0x100 % 0x100) as u8;
    dst[off + 3] = (v % 0x100) as u8;
    assert(dst@ =~= splice(old(dst)@, off as int, be32_bytes(v)));
}

pub fn put_be64(dst: &mut [u8], off: usize, v: u64)
    requires
        off + 8 <= old(dst)@.len(),
    ensures
        final(dst)@ == splice(old(dst)@, off as int, be64_bytes(v)),
        final(dst)@.len() == old(dst)@.len(),
{
    proof {
        reveal(be64_bytes);
        reveal(be32_bytes);
    }
    put_be32(dst, off, (v / 0x1_0000_0000) as u32);
    assert(dst.len() == dst@.len());
    put_be32(dst, off + 4, (v % 0x1_0000_0000) as u32);
    assert(dst@ =~= splice(old(dst)@, off as int, be64_bytes(v)));
}

/// An owned copy of `src[from..to]`.
pub fn copy_range(src: &[u8], from: usize, to: usize) -> (r: Vec<u8>)
    requires
        from <= to <= src@.len(),
    ensures
        r@ == src@.subrange(from as int, to as int),
{
    let mut out: Vec<u8> = Vec::new();
    let mut i: usize = from;
    while i < to
        invariant
            from <= i <= to <= src@.len(),
            out@ =~= src@.subrange(from as int, i as int),
        decreases to - i,
    {
        out.push(src[i]);
        i = i + 1;
    }
    out
}

/// `n` zero bytes.
pub fn zeroed(n: usize) -> (r: Vec<u8>)
    ensures
        r@ == zeros(n as nat),
{
    let v: Vec<u8> = vec![0u8; n];
    assert(v@ =~= zeros(n as nat));
    v
}

/// Append `src` to `dst`.
pub fn append(dst: &mut Vec<u8>, src: &[u8])
    ensures
        final(dst)@ == old(dst)@ + src@,
{
    dst.extend_from_slice(src);
    assert(dst@ =~= old(dst)@ + src@);
}

/// Append `n` zero bytes to `dst`.
pub fn append_zeros(dst: &mut Vec<u8>, n: usize)
    ensures
        final(dst)@ == old(dst)@ + zeros(n as nat),
{
    let z: Vec<u8> = zeroed(n);
    append(dst, z.as_slice());
}

pub fn append_be16(dst: &mut Vec<u8>, v: u16)
    ensures
        final(dst)@ == old(dst)@ + be16_bytes(v),
{
    proof {
        reveal(be16_bytes);
    }
    let mut b: [u8; 2] = [0u8; 2];
    put_be16(&mut b, 0, v);
    assert(b@ =~= be16_bytes(v));
    append(dst, b.as_slice());
}

pub fn append_be32(dst: &mut Vec<u8>, v: u32)
    ensures
        final(dst)@ == old(dst)@ + be32_bytes(v),
{
    proof {
        reveal(be32_bytes);
    }
    let mut b: [u8; 4] = [0u8; 4];
    put_be32(&mut b, 0, v);
    assert(b@ =~= be32_bytes(v));
    append(dst, b.as_slice());
}

pub fn append_be64(dst: &mut Vec<u8>, v: u64)
    ensures
        final(dst)@ == old(dst)@ + be64_bytes(v),
{
    proof {
        reveal(be64_bytes);
        reveal(be32_bytes);
    }
    let mut b: [u8; 8] = [0u8; 8];
    put_be64(&mut b, 0, v);
    assert(b@ =~= be64_bytes(v));
    append(dst, b.as_slice());
}

/// A value's bytes read as that value wherever they lie.
pub proof fn read_16(s: Seq<u8>, off: int, v: u16)
    requires
        0 <= off,
        off + 2 <= s.len(),
    ensures
        slice_of(s, off, 2) == be16_bytes(v) ==> be16(s, off) == v,
        slice_of(s, off, 2) == le16_bytes(v) ==> le16(s, off) == v,
{
    reveal(le16_bytes);
    reveal(be16_bytes);
    round_trip_16(s, off, v);
    assert(splice(s, off, slice_of(s, off, 2)) =~= s);
}

/// A value's bytes read as that value wherever they lie.
pub proof fn read_32(s: Seq<u8>, off: int, v: u32)
    requires
        0 <= off,
        off + 4 <= s.len(),
    ensures
        slice_of(s, off, 4) == be32_bytes(v) ==> be32(s, off) == v,
        slice_of(s, off, 4) == le32_bytes(v) ==> le32(s, off) == v,
{
    reveal(le32_bytes);
    reveal(be32_bytes);
    round_trip_32(s, off, v);
    assert(splice(s, off, slice_of(s, off, 4)) =~= s);
}

/// A value's bytes read as that value wherever they lie.
pub proof fn read_64(s: Seq<u8>, off: int, v: u64)
    requires
        0 <= off,
        off + 8 <= s.len(),
    ensures
        slice_of(s, off, 8) == be64_bytes(v) ==> be64(s, off) == v,
        slice_of(s, off, 8) == le64_bytes(v) ==> le64(s, off) == v,
{
    reveal(le64_bytes);
    reveal(be64_bytes);
    reveal(le32_bytes);
    reveal(be32_bytes);
    round_trip_64(s, off, v);
    assert(splice(s, off, slice_of(s, off, 8)) =~= s);
}

/// A word reads the same in a slice taken at it.
pub proof fn le32_of_slice(s: Seq<u8>, off: int)
    requires
        0 <= off,
        off + 4 <= s.len(),
    ensures
        le32(s.subrange(off, off + 4), 0) == le32(s, off),
{
    reveal(le32);
}

pub fn append_le16(dst: &mut Vec<u8>, v: u16)
    ensures
        final(dst)@ == old(dst)@ + le16_bytes(v),
{
    proof {
        reveal(le16_bytes);
    }
    let mut b: [u8; 2] = [0u8; 2];
    put_le16(&mut b, 0, v);
    assert(b@ =~= le16_bytes(v));
    append(dst, b.as_slice());
}

pub fn append_le32(dst: &mut Vec<u8>, v: u32)
    ensures
        final(dst)@ == old(dst)@ + le32_bytes(v),
{
    proof {
        reveal(le32_bytes);
    }
    let mut b: [u8; 4] = [0u8; 4];
    put_le32(&mut b, 0, v);
    assert(b@ =~= le32_bytes(v));
    append(dst, b.as_slice());
}

pub fn append_le64(dst: &mut Vec<u8>, v: u64)
    ensures
        final(dst)@ == old(dst)@ + le64_bytes(v),
{
    proof {
        reveal(le64_bytes);
        reveal(le32_bytes);
    }
    let mut b: [u8; 8] = [0u8; 8];
    put_le64(&mut b, 0, v);
    assert(b@ =~= le64_bytes(v));
    append(dst, b.as_slice());
}

/// What bytes are worth: little-endian the first least, big-endian the first
/// most, each byte 256 times the one before it.
pub proof fn bytes_have_their_worth(s: Seq<u8>, off: int)
    ensures
        le16(s, off) as int == s[off] + 0x100 * s[off + 1],
        le32(s, off) as int == s[off] + 0x100 * (s[off + 1] + 0x100 * (s[off + 2] + 0x100 * s[off
            + 3])),
        le64(s, off) as int == s[off] + 0x100 * (s[off + 1] + 0x100 * (s[off + 2] + 0x100 * (s[off
            + 3] + 0x100 * (s[off + 4] + 0x100 * (s[off + 5] + 0x100 * (s[off + 6] + 0x100 * s[off
            + 7])))))),
        be16(s, off) as int == s[off + 1] + 0x100 * s[off],
        be32(s, off) as int == s[off + 3] + 0x100 * (s[off + 2] + 0x100 * (s[off + 1] + 0x100
            * s[off])),
        be64(s, off) as int == s[off + 7] + 0x100 * (s[off + 6] + 0x100 * (s[off + 5] + 0x100 * (
        s[off + 4] + 0x100 * (s[off + 3] + 0x100 * (s[off + 2] + 0x100 * (s[off + 1] + 0x100
            * s[off])))))),
{
    reveal(le16);
    reveal(le32);
    reveal(le64);
    reveal(be16);
    reveal(be32);
    reveal(be64);
}

} // verus!
