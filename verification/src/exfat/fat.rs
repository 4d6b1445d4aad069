//! The file allocation table: one little-endian word per cluster, naming the
//! next cluster of its chain.

use vstd::prelude::*;

use super::boot::Geometry;
use super::io::{
    due, fetch, seen, seen_view, sure, unmoved, ExFault, ExfatError, ExfatResult, ReadAt,
};
use crate::bytes::{le32, read_le32};

verus! {

pub const END_OF_CHAIN: u32 = 0xFFFF_FFFF;

pub const BAD_CLUSTER: u32 = 0xFFFF_FFF7;

/// Where the table's entry for a cluster lies.
pub open spec fn fat_slot(geo: Geometry, cluster: int) -> int {
    geo.bytes_per_sector * geo.fat_offset_sectors + 4 * cluster
}

/// The table's entry for a cluster.
pub open spec fn fat_at(img: Seq<u8>, geo: Geometry, cluster: int) -> Result<u32, ExFault> {
    if !geo.has_cluster(cluster) {
        Err(ExFault::Invalid("FAT index out of range"@))
    } else if fat_slot(geo, cluster) + 4 > img.len() {
        Err(ExFault::Io)
    } else {
        Ok(le32(img, fat_slot(geo, cluster)))
    }
}

pub proof fn lemma_fat_slot(geo: Geometry, cluster: int)
    requires
        geo.wf(),
        geo.has_cluster(cluster),
    ensures
        0 <= geo.bytes_per_sector * geo.fat_offset_sectors < 0x1000_0000_0000,
        0 <= fat_slot(geo, cluster) < 0x2000_0000_0000,
{
    assert(0 <= geo.bytes_per_sector * geo.fat_offset_sectors < 0x1000_0000_0000)
        by (nonlinear_arith)
        requires
            0 <= geo.bytes_per_sector <= 4096,
            0 <= geo.fat_offset_sectors <= 0xffff_ffff,
    ;
}

/// Byte offset of a cluster's table entry.
pub fn fat_offset(geo: &Geometry, cluster: u32) -> (r: ExfatResult<u64>)
    requires
        geo.wf(),
    ensures
        geo.has_cluster(cluster as int) ==> (r matches Ok(o) && o == fat_slot(*geo, cluster as int)
            && o < 0x2000_0000_0000),
        !geo.has_cluster(cluster as int) ==> (r matches Err(e) && e@ == ExFault::Invalid(
            "FAT index out of range"@,
        )),
{
    if cluster < 2 || cluster >= geo.cluster_count + 2 {
        return Err(ExfatError::Invalid("FAT index out of range"));
    }
    proof {
        lemma_fat_slot(*geo, cluster as int);
    }
    Ok(geo.bytes_per_sector as u64 * geo.fat_offset_sectors as u64 + cluster as u64 * 4)
}

/// The table's entry for a cluster.
pub fn fat_entry<D: ReadAt>(disk: &mut D, geo: &Geometry, cluster: u32) -> (r: ExfatResult<u32>)
    requires
        geo.wf(),
    ensures
        unmoved(*old(disk), *final(disk)),
        due(sure(*old(disk)), seen(r), fat_at(old(disk).disk().bytes, *geo, cluster as int)),
{
    let off: u64 = fat_offset(geo, cluster)?;
    let ghost img = disk.disk().bytes;
    let mut e: [u8; 4] = [0u8; 4];
    fetch(disk, off, &mut e)?;
    proof {
        assert(e@ == img.subrange(off as int, off + 4));
        crate::bytes::le32_of_slice(img, off as int);
    }
    Ok(read_le32(e.as_slice(), 0))
}

/// The chain from `cur` on, of which `n` clusters came before. A known length
/// (`bounded`) ends it at `cap` clusters whatever the table says then; without
/// one, more than `cap` clusters are a loop.
pub open spec fn chain_from(
    img: Seq<u8>,
    geo: Geometry,
    cur: u32,
    n: int,
    cap: int,
    bounded: bool,
) -> Result<Seq<u32>, ExFault>
    decreases cap - n,
{
    if n >= cap {
        if bounded {
            Ok(seq![])
        } else {
            Err(ExFault::Invalid("cluster chain loop"@))
        }
    } else {
        match fat_at(img, geo, cur as int) {
            Err(f) => Err(f),
            Ok(next) => if next == END_OF_CHAIN {
                Ok(seq![cur])
            } else if next == BAD_CLUSTER {
                Err(ExFault::Invalid("chain hits bad cluster"@))
            } else {
                match chain_from(img, geo, next, n + 1, cap, bounded) {
                    Err(f) => Err(f),
                    Ok(rest) => Ok(seq![cur] + rest),
                }
            },
        }
    }
}

/// The chain from `first` on: at most `max_len` clusters where the caller
/// knows how many there are, else all of them.
pub open spec fn chain_of(
    img: Seq<u8>,
    geo: Geometry,
    first: u32,
    max_len: Option<u64>,
) -> Result<Seq<u32>, ExFault> {
    match max_len {
        Some(n) => chain_from(img, geo, first, 0, n as int, true),
        None => chain_from(img, geo, first, 0, geo.cluster_count as int, false),
    }
}

spec fn joined(head: Seq<u32>, rest: Result<Seq<u32>, ExFault>) -> Result<Seq<u32>, ExFault> {
    match rest {
        Ok(tail) => Ok(head + tail),
        Err(f) => Err(f),
    }
}

/// Read a chain from `first`, bounded by `max_len` when the caller knows the
/// cluster count, else by the volume's, which guards against loops on disk.
pub fn read_chain<D: ReadAt>(
    disk: &mut D,
    geo: &Geometry,
    first: u32,
    max_len: Option<u64>,
) -> (r: ExfatResult<Vec<u32>>)
    requires
        geo.wf(),
    ensures
        unmoved(*old(disk), *final(disk)),
        due(
            sure(*old(disk)),
            seen_view(r),
            chain_of(old(disk).disk().bytes, *geo, first, max_len),
        ),
{
    let ghost img = disk.disk().bytes;
    let (cap, bounded): (u64, bool) = match max_len {
        Some(n) => (n, true),
        None => (geo.cluster_count as u64, false),
    };
    let mut chain: Vec<u32> = Vec::new();
    let mut cur: u32 = first;
    assert(joined(seq![], chain_of(img, *geo, first, max_len)) =~~= chain_of(
        img,
        *geo,
        first,
        max_len,
    )) by {
        match chain_of(img, *geo, first, max_len) {
            Ok(c) => {
                assert(Seq::<u32>::empty() + c =~= c);
            },
            Err(_) => {},
        }
    }
    while (chain.len() as u64) < cap
        invariant
            geo.wf(),
            img == disk.disk().bytes,
            unmoved(*old(disk), *disk),
            chain@.len() <= cap,
            chain_of(img, *geo, first, max_len) == joined(
                chain@,
                chain_from(img, *geo, cur, chain@.len() as int, cap as int, bounded),
            ),
        decreases cap - chain@.len(),
    {
        let ghost before = chain@;
        let next: u32 = fat_entry(disk, geo, cur)?;
        chain.push(cur);
        if next == END_OF_CHAIN {
            assert(chain@ =~= before + seq![cur]);
            return Ok(chain);
        }
        if next == BAD_CLUSTER {
            return Err(ExfatError::Invalid("chain hits bad cluster"));
        }
        proof {
            let rest = chain_from(img, *geo, next, before.len() as int + 1, cap as int, bounded);
            match rest {
                Ok(tail) => {
                    assert(before + (seq![cur] + tail) =~= chain@ + tail);
                },
                Err(_) => {},
            }
        }
        cur = next;
    }
    if bounded {
        assert(chain@ + Seq::<u32>::empty() =~= chain@);
        Ok(chain)
    } else {
        Err(ExfatError::Invalid("cluster chain loop"))
    }
}

/// Every cluster of a chain that could be read is one of the heap's.
pub proof fn chain_clusters_exist(
    img: Seq<u8>,
    geo: Geometry,
    cur: u32,
    n: int,
    cap: int,
    bounded: bool,
)
    ensures
        chain_from(img, geo, cur, n, cap, bounded) matches Ok(c) ==> forall|i: int|
            0 <= i < c.len() ==> geo.has_cluster(#[trigger] c[i] as int),
    decreases cap - n,
{
    if n < cap {
        if let Ok(next) = fat_at(img, geo, cur as int) {
            if next != END_OF_CHAIN && next != BAD_CLUSTER {
                chain_clusters_exist(img, geo, next, n + 1, cap, bounded);
                if let Ok(rest) = chain_from(img, geo, next, n + 1, cap, bounded) {
                    let c = seq![cur] + rest;
                    assert forall|i: int| 0 <= i < c.len() implies geo.has_cluster(
                        #[trigger] c[i] as int,
                    ) by {
                        if i > 0 {
                            assert(c[i] == rest[i - 1]);
                        }
                    }
                }
            }
        }
    }
}

} // verus!
