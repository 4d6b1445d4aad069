//! Cluster allocation: the allocation bitmap and the chains of the table.
//! Everything written is chained in the table.
//!
//! The bitmap is one contiguous span from its first cluster on: formatters
//! write it so, and nothing here moves it.

use vstd::prelude::*;

use super::boot::Geometry;
use super::fat::{fat_at, fat_entry, fat_offset, fat_slot, END_OF_CHAIN};
use super::fs::BitmapLoc;
use super::io::{
    bytes_at, carries, due, fetch, put_at, seen, seen_view, store, sure, trust, unmoved, wrote, ExFault, ExfatError, ExfatResult, WriteAt,
};
use crate::bytes::{le32_bytes, put_le32};
use crate::device::Disk;

verus! {

/// The bit of its bitmap byte that stands for a cluster.
pub open spec fn bit_of(cluster: int) -> int {
    let k = (cluster - 2) % 8;
    if k == 0 {
        1
    } else if k == 1 {
        2
    } else if k == 2 {
        4
    } else if k == 3 {
        8
    } else if k == 4 {
        16
    } else if k == 5 {
        32
    } else if k == 6 {
        64
    } else {
        128
    }
}

/// Whether a cluster's bit is set in its bitmap byte.
pub open spec fn bit_is_set(b: u8, cluster: int) -> bool {
    b as int / bit_of(cluster) % 2 == 1
}

/// A bitmap byte with a cluster's bit set or cleared.
pub open spec fn with_bit(b: u8, cluster: int, on: bool) -> u8 {
    if bit_is_set(b, cluster) == on {
        b
    } else if on {
        (b + bit_of(cluster)) as u8
    } else {
        (b - bit_of(cluster)) as u8
    }
}

/// Where the bitmap byte of a cluster lies.
pub open spec fn bitmap_slot(geo: Geometry, bm: BitmapLoc, cluster: int) -> Result<int, ExFault> {
    let index = (cluster - 2) / 8;
    if index >= bm.length_bytes {
        Err(ExFault::Invalid("bitmap index out of range"@))
    } else {
        match geo.cluster_at(bm.first_cluster as int) {
            Err(f) => Err(f),
            Ok(off) => Ok(off + index),
        }
    }
}

/// The bitmap byte of a cluster.
pub open spec fn bitmap_byte(img: Seq<u8>, geo: Geometry, bm: BitmapLoc, cluster: int) -> Result<
    (int, u8),
    ExFault,
> {
    match bitmap_slot(geo, bm, cluster) {
        Err(f) => Err(f),
        Ok(off) => match bytes_at(img, off, 1) {
            Err(f) => Err(f),
            Ok(b) => Ok((off, b[0])),
        },
    }
}

/// Whether a cluster is in use.
pub open spec fn allocated(img: Seq<u8>, geo: Geometry, bm: BitmapLoc, cluster: int) -> Result<
    bool,
    ExFault,
> {
    match bitmap_byte(img, geo, bm, cluster) {
        Err(f) => Err(f),
        Ok((_, b)) => Ok(bit_is_set(b, cluster)),
    }
}

/// Marking a cluster as in use or free.
pub open spec fn marked(disk: Disk, geo: Geometry, bm: BitmapLoc, cluster: int, on: bool) -> (
    Disk,
    Result<(), ExFault>,
) {
    match bitmap_byte(disk.bytes, geo, bm, cluster) {
        Err(f) => (disk, Err(f)),
        Ok((off, b)) => put_at(disk, off, seq![with_bit(b, cluster, on)]),
    }
}

/// Writing the table's entry for a cluster.
pub open spec fn linked(disk: Disk, geo: Geometry, cluster: int, value: u32) -> (
    Disk,
    Result<(), ExFault>,
) {
    if geo.has_cluster(cluster) {
        put_at(disk, fat_slot(geo, cluster), le32_bytes(value))
    } else {
        (disk, Err(ExFault::Invalid("FAT index out of range"@)))
    }
}

/// The `i`-th cluster tried in a search from `hint` on that goes round once.
pub open spec fn tried(geo: Geometry, hint: int, i: int) -> int {
    2 + (hint - 2 + i) % (geo.cluster_count as int)
}

/// The first free cluster at or after `hint`, from the `i`-th try on.
pub open spec fn free_from(img: Seq<u8>, geo: Geometry, bm: BitmapLoc, hint: int, i: int) -> Result<
    u32,
    ExFault,
>
    decreases geo.cluster_count - i,
{
    if i >= geo.cluster_count {
        Err(ExFault::Invalid("no free clusters"@))
    } else {
        match allocated(img, geo, bm, tried(geo, hint, i)) {
            Err(f) => Err(f),
            Ok(true) => free_from(img, geo, bm, hint, i + 1),
            Ok(false) => Ok(tried(geo, hint, i) as u32),
        }
    }
}

/// Taking `n` free clusters, each the first one after the last.
pub open spec fn taken(disk: Disk, geo: Geometry, bm: BitmapLoc, n: int) -> (
    Disk,
    Result<Seq<u32>, ExFault>,
)
    decreases n,
{
    if n <= 0 {
        (disk, Ok(seq![]))
    } else {
        match taken(disk, geo, bm, n - 1) {
            (d, Err(f)) => (d, Err(f)),
            (d, Ok(s)) => {
                let hint = if s.len() == 0 {
                    2
                } else {
                    s.last() + 1
                };
                match free_from(d.bytes, geo, bm, hint, 0) {
                    Err(f) => (d, Err(f)),
                    Ok(c) => match marked(d, geo, bm, c as int, true) {
                        (d2, Err(f)) => (d2, Err(f)),
                        (d2, Ok(_)) => (d2, Ok(s.push(c))),
                    },
                }
            },
        }
    }
}

/// Writing the first `n` links of a chain, the last cluster ending it.
pub open spec fn strung(disk: Disk, geo: Geometry, chain: Seq<u32>, n: int) -> (
    Disk,
    Result<(), ExFault>,
)
    decreases n,
{
    if n <= 0 {
        (disk, Ok(()))
    } else {
        match strung(disk, geo, chain, n - 1) {
            (d, Err(f)) => (d, Err(f)),
            (d, Ok(_)) => linked(
                d,
                geo,
                chain[n - 1] as int,
                if n == chain.len() {
                    END_OF_CHAIN
                } else {
                    chain[n]
                },
            ),
        }
    }
}

/// Allocating a chain of `n` clusters: all are marked, then all are linked.
pub open spec fn allocation(disk: Disk, geo: Geometry, bm: BitmapLoc, n: int) -> (
    Disk,
    Result<Seq<u32>, ExFault>,
) {
    match taken(disk, geo, bm, n) {
        (d, Err(f)) => (d, Err(f)),
        (d, Ok(chain)) => match strung(d, geo, chain, chain.len() as int) {
            (d2, Err(f)) => (d2, Err(f)),
            (d2, Ok(_)) => (d2, Ok(chain)),
        },
    }
}

/// Appending `n` clusters to the chain that ends at `tail`.
pub open spec fn extension(disk: Disk, geo: Geometry, bm: BitmapLoc, tail: u32, n: int) -> (
    Disk,
    Result<Seq<u32>, ExFault>,
) {
    match allocation(disk, geo, bm, n) {
        (d, Err(f)) => (d, Err(f)),
        (d, Ok(added)) => if added.len() == 0 {
            (d, Ok(added))
        } else {
            match linked(d, geo, tail as int, added[0]) {
                (d2, Err(f)) => (d2, Err(f)),
                (d2, Ok(_)) => (d2, Ok(added)),
            }
        },
    }
}

/// The clusters of a chain that is to be freed, from `cur` on, `n` of them
/// before it. A link that leads out of the heap ends it.
pub open spec fn doomed_from(img: Seq<u8>, geo: Geometry, cur: u32, n: int) -> Result<
    Seq<u32>,
    ExFault,
>
    decreases geo.cluster_count - n,
{
    if n >= geo.cluster_count {
        Err(ExFault::Invalid("free: chain loop"@))
    } else {
        match fat_at(img, geo, cur as int) {
            Err(f) => Err(f),
            Ok(next) => if next != END_OF_CHAIN && geo.has_cluster(next as int) {
                match doomed_from(img, geo, next, n + 1) {
                    Err(f) => Err(f),
                    Ok(rest) => Ok(seq![cur] + rest),
                }
            } else {
                Ok(seq![cur])
            },
        }
    }
}

/// Freeing the first `n` of a list of clusters: its bit is cleared, and so is
/// its link, where it has one.
pub open spec fn freed(disk: Disk, geo: Geometry, bm: BitmapLoc, clusters: Seq<u32>, n: int) -> (
    Disk,
    Result<(), ExFault>,
)
    decreases n,
{
    if n <= 0 {
        (disk, Ok(()))
    } else {
        match freed(disk, geo, bm, clusters, n - 1) {
            (d, Err(f)) => (d, Err(f)),
            (d, Ok(_)) => match marked(d, geo, bm, clusters[n - 1] as int, false) {
                (d2, Err(f)) => (d2, Err(f)),
                (d2, Ok(_)) => match linked(d2, geo, clusters[n - 1] as int, 0) {
                    (d3, Err(ExFault::Invalid(_))) => (d3, Ok(())),
                    other => other,
                },
            },
        }
    }
}

/// The `n` clusters from `first` on, as far as cluster numbers go; no more than
/// a volume has.
pub open spec fn run_of(geo: Geometry, first: u32, n: u64) -> Seq<u32> {
    let capped = if n <= geo.cluster_count {
        n as int
    } else {
        geo.cluster_count as int
    };
    let room = 0x1_0000_0000 - first;
    Seq::new(
        (if capped <= room {
            capped
        } else {
            room
        }) as nat,
        |i: int| (first + i) as u32,
    )
}

/// The clusters that freeing from `first` on frees: so many in a row where
/// that is how they lie, else the chain.
pub open spec fn doomed(img: Seq<u8>, geo: Geometry, first: u32, contiguous: Option<u64>) -> Result<
    Seq<u32>,
    ExFault,
> {
    match contiguous {
        Some(n) => Ok(run_of(geo, first, n)),
        None => doomed_from(img, geo, first, 0),
    }
}

/// Freeing the clusters that start at `first`; nothing where there are none.
pub open spec fn chain_freed(
    disk: Disk,
    geo: Geometry,
    bm: BitmapLoc,
    first: u32,
    contiguous: Option<u64>,
) -> (Disk, Result<(), ExFault>) {
    if first < 2 {
        (disk, Ok(()))
    } else {
        match doomed(disk.bytes, geo, first, contiguous) {
            Err(f) => (disk, Err(f)),
            Ok(clusters) => freed(disk, geo, bm, clusters, clusters.len() as int),
        }
    }
}

fn bit_mask(cluster: u32) -> (r: u8)
    requires
        cluster >= 2,
    ensures
        r == bit_of(cluster as int),
{
    match (cluster - 2) % 8 {
        0 => 1,
        1 => 2,
        2 => 4,
        3 => 8,
        4 => 16,
        5 => 32,
        6 => 64,
        _ => 128,
    }
}

proof fn lemma_bits(b: u8, cluster: int)
    ensures
        !bit_is_set(b, cluster) ==> b + bit_of(cluster) <= 255,
        bit_is_set(b, cluster) ==> b - bit_of(cluster) >= 0,
{
    let k = (cluster - 2) % 8;
    if k == 0 {
        assert(bit_is_set(b, cluster) == (b as int / 1 % 2 == 1));
    }
    if k == 1 {
        assert(bit_is_set(b, cluster) == (b as int / 2 % 2 == 1));
    }
    if k == 2 {
        assert(bit_is_set(b, cluster) == (b as int / 4 % 2 == 1));
    }
    if k == 3 {
        assert(bit_is_set(b, cluster) == (b as int / 8 % 2 == 1));
    }
    if k == 4 {
        assert(bit_is_set(b, cluster) == (b as int / 16 % 2 == 1));
    }
    if k == 5 {
        assert(bit_is_set(b, cluster) == (b as int / 32 % 2 == 1));
    }
    if k == 6 {
        assert(bit_is_set(b, cluster) == (b as int / 64 % 2 == 1));
    }
    if k == 7 {
        assert(bit_is_set(b, cluster) == (b as int / 128 % 2 == 1));
    }
}

spec fn one_bit(m: u8) -> bool {
    m == 1 || m == 2 || m == 4 || m == 8 || m == 16 || m == 32 || m == 64 || m == 128
}

proof fn lemma_two_bits(b: u8, m: u8, o: u8)
    requires
        one_bit(m),
        one_bit(o),
    ensures
        b / m % 2 == 0 ==> b + m <= 255 && ((b + m) as u8) / m % 2 == 1,
        b / m % 2 == 1 ==> b >= m && ((b - m) as u8) / m % 2 == 0,
        m != o && b / m % 2 == 0 ==> ((b + m) as u8) / o % 2 == b / o % 2,
        m != o && b / m % 2 == 1 ==> ((b - m) as u8) / o % 2 == b / o % 2,
{
    assert((m == 1 || m == 2 || m == 4 || m == 8 || m == 16 || m == 32 || m == 64 || m == 128) && (o
        == 1 || o == 2 || o == 4 || o == 8 || o == 16 || o == 32 || o == 64 || o == 128) ==> {
        &&& b / m % 2 == 0 ==> b + m <= 255 && ((b + m) as u8) / m % 2 == 1
        &&& b / m % 2 == 1 ==> b >= m && ((b - m) as u8) / m % 2 == 0
        &&& m != o && b / m % 2 == 0 ==> ((b + m) as u8) / o % 2 == b / o % 2
        &&& m != o && b / m % 2 == 1 ==> ((b - m) as u8) / o % 2 == b / o % 2
    }) by (bit_vector);
}

/// A bitmap byte says of a cluster what was last written of it, and of every
/// other cluster what it said before.
pub proof fn bits_are_independent(b: u8, cluster: int, other: int, on: bool)
    ensures
        bit_is_set(with_bit(b, cluster, on), cluster) == on,
        (cluster - 2) % 8 != (other - 2) % 8 ==> bit_is_set(with_bit(b, cluster, on), other)
            == bit_is_set(b, other),
{
    let m = bit_of(cluster) as u8;
    let o = bit_of(other) as u8;
    assert(m == bit_of(cluster) && o == bit_of(other));
    lemma_two_bits(b, m, o);
    assert(bit_is_set(b, cluster) == (b / m % 2 == 1));
    assert(bit_is_set(b, other) == (b / o % 2 == 1));
    let w = with_bit(b, cluster, on);
    assert(bit_is_set(w, cluster) == (w / m % 2 == 1));
    assert(bit_is_set(w, other) == (w / o % 2 == 1));
}

fn bitmap_byte_offset(geo: &Geometry, bm: &BitmapLoc, cluster: u32) -> (r: ExfatResult<u64>)
    requires
        geo.wf(),
        cluster >= 2,
    ensures
        match bitmap_slot(*geo, *bm, cluster as int) {
            Ok(o) => r matches Ok(v) && v == o,
            Err(f) => r matches Err(e) && e@ == f,
        },
{
    let byte_index: u64 = (cluster as u64 - 2) / 8;
    if byte_index >= bm.length_bytes {
        return Err(ExfatError::Invalid("bitmap index out of range"));
    }
    Ok(geo.cluster_offset(bm.first_cluster)? + byte_index)
}

/// Whether a cluster is in use.
pub(crate) fn is_allocated<D: WriteAt>(
    disk: &mut D,
    geo: &Geometry,
    bm: &BitmapLoc,
    cluster: u32,
) -> (r: ExfatResult<bool>)
    requires
        geo.wf(),
        cluster >= 2,
    ensures
        unmoved(*old(disk), *final(disk)),
        due(
            sure(*old(disk)),
            seen(r),
            allocated(old(disk).disk().bytes, *geo, *bm, cluster as int),
        ),
{
    let off: u64 = bitmap_byte_offset(geo, bm, cluster)?;
    let mut b: [u8; 1] = [0u8; 1];
    fetch(disk, off, &mut b)?;
    Ok(b[0] / bit_mask(cluster) % 2 == 1)
}

fn set_bit<D: WriteAt>(
    disk: &mut D,
    geo: &Geometry,
    bm: &BitmapLoc,
    cluster: u32,
    on: bool,
) -> (r: ExfatResult<()>)
    requires
        geo.wf(),
        cluster >= 2,
    ensures
        carries(*old(disk), *final(disk)),
        wrote(
            trust(*old(disk), *final(disk)),
            seen(r),
            final(disk).disk(),
            marked(old(disk).disk(), *geo, *bm, cluster as int, on),
        ),
{
    let off: u64 = bitmap_byte_offset(geo, bm, cluster)?;
    let mut b: [u8; 1] = [0u8; 1];
    fetch(disk, off, &mut b)?;
    let mask: u8 = bit_mask(cluster);
    let ghost was = b[0];
    let set: bool = b[0] / mask % 2 == 1;
    proof {
        lemma_bits(was, cluster as int);
    }
    if set != on {
        b[0] =
        if on {
            b[0] + mask
        } else {
            b[0] - mask
        };
    }
    assert(b@ =~= seq![with_bit(was, cluster as int, on)]);
    store(disk, off, b.as_slice())
}

/// Write the table's entry for `cluster`.
pub(crate) fn set_fat<D: WriteAt>(disk: &mut D, geo: &Geometry, cluster: u32, value: u32) -> (r:
    ExfatResult<()>)
    requires
        geo.wf(),
    ensures
        carries(*old(disk), *final(disk)),
        wrote(
            trust(*old(disk), *final(disk)),
            seen(r),
            final(disk).disk(),
            linked(old(disk).disk(), *geo, cluster as int, value),
        ),
{
    let off: u64 = fat_offset(geo, cluster)?;
    let mut b: [u8; 4] = [0u8; 4];
    put_le32(&mut b, 0, value);
    assert(b@ =~= le32_bytes(value)) by {
        crate::bytes::len_le32(value);
    }
    store(disk, off, b.as_slice())
}

/// The first free cluster at or after `hint`, going round once.
fn find_free<D: WriteAt>(disk: &mut D, geo: &Geometry, bm: &BitmapLoc, hint: u64) -> (r: ExfatResult<
    u32,
>)
    requires
        geo.wf(),
        2 <= hint <= 0x1_0000_0000,
    ensures
        unmoved(*old(disk), *final(disk)),
        due(
            sure(*old(disk)),
            seen(r),
            free_from(old(disk).disk().bytes, *geo, *bm, hint as int, 0),
        ),
        r matches Ok(c) ==> c >= 2,
{
    let ghost img = disk.disk().bytes;
    let total: u64 = geo.cluster_count as u64;
    let mut i: u64 = 0;
    while i < total
        invariant
            geo.wf(),
            2 <= hint <= 0x1_0000_0000,
            i <= total == geo.cluster_count,
            img == disk.disk().bytes,
            unmoved(*old(disk), *disk),
            free_from(img, *geo, *bm, hint as int, 0) == free_from(
                img,
                *geo,
                *bm,
                hint as int,
                i as int,
            ),
        decreases total - i,
    {
        let cluster: u64 = 2 + (hint - 2 + i) % total;
        if !is_allocated(disk, geo, bm, cluster as u32)? {
            return Ok(cluster as u32);
        }
        i = i + 1;
    }
    Err(ExfatError::Invalid("no free clusters"))
}

/// Allocate `count` clusters as a chain, not necessarily contiguous: mark them
/// in the bitmap, then link them. The caller writes the clusters' data and
/// flushes before it publishes an entry that points here.
pub(crate) fn alloc_chain<D: WriteAt>(
    disk: &mut D,
    geo: &Geometry,
    bm: &BitmapLoc,
    count: u64,
) -> (r: ExfatResult<Vec<u32>>)
    requires
        geo.wf(),
    ensures
        carries(*old(disk), *final(disk)),
        wrote(
            trust(*old(disk), *final(disk)),
            seen_view(r),
            final(disk).disk(),
            allocation(old(disk).disk(), *geo, *bm, count as int),
        ),
        r matches Ok(c) ==> c@.len() == count && forall|i: int|
            0 <= i < c@.len() ==> geo.has_cluster(#[trigger] c@[i] as int),
{
    let mut chain: Vec<u32> = Vec::new();
    let ghost start = disk.disk();
    let mut k: u64 = 0;
    assert(chain@ =~= seq![]);
    while k < count
        invariant
            geo.wf(),
            k <= count,
            chain@.len() == k,
            start == old(disk).disk(),
            carries(*old(disk), *disk),
            taken(start, *geo, *bm, k as int) == (disk.disk(), Ok::<Seq<u32>, ExFault>(chain@)),
        decreases count - k,
    {
        let hint: u64 = if chain.len() == 0 {
            2
        } else {
            chain[chain.len() - 1] as u64 + 1
        };
        let hint: u64 = if hint < 2 {
            2
        } else {
            hint
        };
        proof {
            lemma_taken_valid(start, *geo, *bm, k as int);
        }
        let c: u32 = match find_free(disk, geo, bm, hint) {
            Ok(c) => c,
            Err(e) => {
                proof {
                    if taken(start, *geo, *bm, k + 1).1 is Err {
                        lemma_taken_stops(start, *geo, *bm, k + 1, count as int);
                    }
                }
                return Err(e);
            },
        };
        match set_bit(disk, geo, bm, c, true) {
            Ok(_) => {},
            Err(e) => {
                proof {
                    if taken(start, *geo, *bm, k + 1).1 is Err {
                        lemma_taken_stops(start, *geo, *bm, k + 1, count as int);
                    }
                }
                return Err(e);
            },
        }
        chain.push(c);
        k = k + 1;
    }
    proof {
        lemma_taken_valid(start, *geo, *bm, count as int);
    }
    link_chain(disk, geo, &chain)?;
    Ok(chain)
}

/// Link clusters in the table, each to the next and the last to none.
pub(crate) fn link_chain<D: WriteAt>(disk: &mut D, geo: &Geometry, chain: &Vec<u32>) -> (r:
    ExfatResult<()>)
    requires
        geo.wf(),
    ensures
        carries(*old(disk), *final(disk)),
        wrote(
            trust(*old(disk), *final(disk)),
            seen(r),
            final(disk).disk(),
            strung(old(disk).disk(), *geo, chain@, chain@.len() as int),
        ),
{
    let ghost start = disk.disk();
    let n: usize = chain.len();
    let mut i: usize = 0;
    while i < n
        invariant
            geo.wf(),
            i <= n == chain@.len(),
            start == old(disk).disk(),
            carries(*old(disk), *disk),
            strung(start, *geo, chain@, i as int) == (disk.disk(), Ok::<(), ExFault>(())),
        decreases n - i,
    {
        let next: u32 = if i + 1 == n {
            END_OF_CHAIN
        } else {
            chain[i + 1]
        };
        match set_fat(disk, geo, chain[i], next) {
            Ok(_) => {},
            Err(e) => {
                proof {
                    if strung(start, *geo, chain@, i + 1).1 is Err {
                        lemma_strung_stops(start, *geo, chain@, i + 1, n as int);
                    }
                }
                return Err(e);
            },
        }
        i = i + 1;
    }
    Ok(())
}

proof fn lemma_taken_valid(disk: Disk, geo: Geometry, bm: BitmapLoc, n: int)
    requires
        geo.wf(),
    ensures
        taken(disk, geo, bm, n).1 matches Ok(s) ==> (forall|i: int|
            0 <= i < s.len() ==> geo.has_cluster(#[trigger] s[i] as int)) && (n >= 0 ==> s.len()
            == n),
    decreases n,
{
    if n > 0 {
        lemma_taken_valid(disk, geo, bm, n - 1);
        if let (d, Ok(s)) = taken(disk, geo, bm, n - 1) {
            let hint = if s.len() == 0 {
                2
            } else {
                s.last() + 1
            };
            lemma_free_valid(d.bytes, geo, bm, hint, 0);
        }
    }
}

proof fn lemma_free_valid(img: Seq<u8>, geo: Geometry, bm: BitmapLoc, hint: int, i: int)
    requires
        geo.wf(),
        0 <= i,
    ensures
        free_from(img, geo, bm, hint, i) matches Ok(c) ==> geo.has_cluster(c as int),
    decreases geo.cluster_count - i,
{
    if i < geo.cluster_count {
        let x = hint - 2 + i;
        let m = geo.cluster_count as int;
        assert(0 <= x % m < m) by (nonlinear_arith)
            requires
                m > 0,
        ;
        lemma_free_valid(img, geo, bm, hint, i + 1);
    }
}

proof fn lemma_taken_stops(disk: Disk, geo: Geometry, bm: BitmapLoc, i: int, n: int)
    requires
        i <= n,
        taken(disk, geo, bm, i).1 is Err,
    ensures
        taken(disk, geo, bm, n) == taken(disk, geo, bm, i),
    decreases n - i,
{
    if i < n {
        lemma_taken_stops(disk, geo, bm, i, n - 1);
    }
}

proof fn lemma_strung_stops(disk: Disk, geo: Geometry, chain: Seq<u32>, i: int, n: int)
    requires
        i <= n,
        strung(disk, geo, chain, i).1 is Err,
    ensures
        strung(disk, geo, chain, n) == strung(disk, geo, chain, i),
    decreases n - i,
{
    if i < n {
        lemma_strung_stops(disk, geo, chain, i, n - 1);
    }
}

/// Append `count` clusters to the chain whose last cluster is `tail`. Returns
/// the added clusters, already linked to it.
pub(crate) fn extend_chain<D: WriteAt>(
    disk: &mut D,
    geo: &Geometry,
    bm: &BitmapLoc,
    tail: u32,
    count: u64,
) -> (r: ExfatResult<Vec<u32>>)
    requires
        geo.wf(),
    ensures
        carries(*old(disk), *final(disk)),
        wrote(
            trust(*old(disk), *final(disk)),
            seen_view(r),
            final(disk).disk(),
            extension(old(disk).disk(), *geo, *bm, tail, count as int),
        ),
        r matches Ok(c) ==> c@.len() == count && forall|i: int|
            0 <= i < c@.len() ==> geo.has_cluster(#[trigger] c@[i] as int),
{
    let added: Vec<u32> = alloc_chain(disk, geo, bm, count)?;
    if added.len() > 0 {
        set_fat(disk, geo, tail, added[0])?;
    }
    Ok(added)
}

proof fn lemma_freed_stops(
    disk: Disk,
    geo: Geometry,
    bm: BitmapLoc,
    clusters: Seq<u32>,
    i: int,
    n: int,
)
    requires
        i <= n,
        freed(disk, geo, bm, clusters, i).1 is Err,
    ensures
        freed(disk, geo, bm, clusters, n) == freed(disk, geo, bm, clusters, i),
    decreases n - i,
{
    if i < n {
        lemma_freed_stops(disk, geo, bm, clusters, i, n - 1);
    }
}

/// Free a list of clusters: clear their bits, and their links where they have
/// any.
pub(crate) fn free_clusters<D: WriteAt>(
    disk: &mut D,
    geo: &Geometry,
    bm: &BitmapLoc,
    clusters: &[u32],
) -> (r: ExfatResult<()>)
    requires
        geo.wf(),
        forall|i: int| 0 <= i < clusters@.len() ==> #[trigger] clusters@[i] >= 2,
    ensures
        carries(*old(disk), *final(disk)),
        wrote(
            trust(*old(disk), *final(disk)),
            seen(r),
            final(disk).disk(),
            freed(old(disk).disk(), *geo, *bm, clusters@, clusters@.len() as int),
        ),
{
    let n: usize = clusters.len();
    let ghost start = disk.disk();
    let mut i: usize = 0;
    while i < n
        invariant
            geo.wf(),
            i <= n == clusters@.len(),
            forall|i: int| 0 <= i < clusters@.len() ==> #[trigger] clusters@[i] >= 2,
            start == old(disk).disk(),
            carries(*old(disk), *disk),
            freed(start, *geo, *bm, clusters@, i as int) == (disk.disk(), Ok::<(), ExFault>(())),
        decreases n - i,
    {
        match set_bit(disk, geo, bm, clusters[i], false) {
            Ok(_) => {},
            Err(e) => {
                proof {
                    if freed(start, *geo, *bm, clusters@, i + 1).1 is Err {
                        lemma_freed_stops(start, *geo, *bm, clusters@, i + 1, n as int);
                    }
                }
                return Err(e);
            },
        }
        match set_fat(disk, geo, clusters[i], 0) {
            Ok(_) => {},
            Err(ExfatError::Invalid(_)) => {},
            Err(e) => {
                proof {
                    if freed(start, *geo, *bm, clusters@, i + 1).1 is Err {
                        lemma_freed_stops(start, *geo, *bm, clusters@, i + 1, n as int);
                    }
                }
                return Err(e);
            },
        }
        i = i + 1;
    }
    Ok(())
}

/// The clusters of a run.
pub(crate) fn run_clusters(geo: &Geometry, first: u32, n: u64) -> (r: Vec<u32>)
    ensures
        r@ == run_of(*geo, first, n),
{
    let capped: u64 = if n <= geo.cluster_count as u64 {
        n
    } else {
        geo.cluster_count as u64
    };
    let room: u64 = 0x1_0000_0000 - first as u64;
    let count: u64 = if capped <= room {
        capped
    } else {
        room
    };
    let mut out: Vec<u32> = Vec::new();
    let mut i: u64 = 0;
    while i < count
        invariant
            i <= count <= 0x1_0000_0000 - first,
            out@.len() == i,
            forall|j: int| 0 <= j < i ==> out@[j] == (first + j) as u32,
        decreases count - i,
    {
        out.push((first as u64 + i) as u32);
        i = i + 1;
    }
    assert(out@ =~= run_of(*geo, first, n));
    out
}

/// Free the clusters from `first` on, so many in a row where that is how they
/// lie, else the chain: clear their bits and links.
pub(crate) fn free_chain<D: WriteAt>(
    disk: &mut D,
    geo: &Geometry,
    bm: &BitmapLoc,
    first: u32,
    contiguous: Option<u64>,
) -> (r: ExfatResult<()>)
    requires
        geo.wf(),
    ensures
        carries(*old(disk), *final(disk)),
        wrote(
            trust(*old(disk), *final(disk)),
            seen(r),
            final(disk).disk(),
            chain_freed(old(disk).disk(), *geo, *bm, first, contiguous),
        ),
{
    if first < 2 {
        return Ok(());
    }
    if let Some(n) = contiguous {
        let run: Vec<u32> = run_clusters(geo, first, n);
        return free_clusters(disk, geo, bm, run.as_slice());
    }
    let ghost img = disk.disk().bytes;
    let mut out: Vec<u32> = Vec::new();
    let mut cur: u32 = first;
    let mut more: bool = true;
    proof {
        match doomed_from(img, *geo, first, 0) {
            Ok(rest) => {
                assert(out@ + rest =~= rest);
            },
            Err(_) => {},
        }
    }
    while more
        invariant
            geo.wf(),
            first >= 2,
            contiguous is None,
            cur >= 2,
            out@.len() <= geo.cluster_count + 1,
            img == disk.disk().bytes,
            unmoved(*old(disk), *disk),
            forall|i: int| 0 <= i < out@.len() ==> #[trigger] out@[i] >= 2,
            more ==> doomed_from(img, *geo, first, 0) == match doomed_from(
                img,
                *geo,
                cur,
                out@.len() as int,
            ) {
                Ok(rest) => Ok(out@ + rest),
                Err(f) => Err(f),
            },
            more ==> out@.len() <= geo.cluster_count,
            !more ==> doomed_from(img, *geo, first, 0) == Ok::<Seq<u32>, ExFault>(out@),
        decreases (if more { geo.cluster_count - out@.len() + 1 } else { 0 }),
    {
        if out.len() as u64 >= geo.cluster_count as u64 {
            return Err(ExfatError::Invalid("free: chain loop"));
        }
        let next: u32 = fat_entry(disk, geo, cur)?;
        let ghost before = out@;
        out.push(cur);
        assert(out@ =~= before + seq![cur]);
        if next != END_OF_CHAIN && next >= 2 && next < geo.cluster_count + 2 {
            proof {
                match doomed_from(img, *geo, next, before.len() as int + 1) {
                    Ok(rest) => {
                        assert(before + (seq![cur] + rest) =~= out@ + rest);
                    },
                    Err(_) => {},
                }
            }
            cur = next;
        } else {
            more = false;
        }
    }
    free_clusters(disk, geo, bm, out.as_slice())
}

} // verus!
