//! The boot region: main boot sector fields and the checksum sector.

use vstd::prelude::*;

use super::io::{
    due, fetch, seen, sure, unmoved, ExFault, ExfatError, ExfatResult, ReadAt,
};
use crate::bytes::{le32, read_le32, slice_of, zeroed};

verus! {

#[derive(Debug, Clone, Copy, PartialEq, Eq, Structural)]
pub struct Geometry {
    pub bytes_per_sector: u32,
    pub sectors_per_cluster: u32,
    pub fat_offset_sectors: u32,
    pub fat_length_sectors: u32,
    pub cluster_heap_offset_sectors: u32,
    pub cluster_count: u32,
    pub root_first_cluster: u32,
}

impl Geometry {
    /// The bytes of one cluster.
    pub open spec fn cluster_len(&self) -> int {
        self.bytes_per_sector * self.sectors_per_cluster
    }

    /// What a boot region that was read promises of its geometry: sectors of
    /// 512 to 4096 bytes, clusters of at most 32 MiB, and cluster numbers that
    /// fit a word.
    pub open spec fn wf(&self) -> bool {
        &&& self.bytes_per_sector == 512 || self.bytes_per_sector == 1024 || self.bytes_per_sector
            == 2048 || self.bytes_per_sector == 4096
        &&& self.cluster_len() <= 0x200_0000
        &&& self.cluster_len() >= 512
        &&& self.cluster_len() % 512 == 0
        &&& self.cluster_count <= 0xFFFF_FFFD
    }

    /// Whether a cluster number names a cluster of the heap. Clusters are
    /// numbered from 2.
    pub open spec fn has_cluster(&self, cluster: int) -> bool {
        2 <= cluster < self.cluster_count + 2
    }

    /// Where a cluster starts.
    pub open spec fn cluster_start(&self, cluster: int) -> int {
        self.bytes_per_sector * self.cluster_heap_offset_sectors + (cluster - 2)
            * self.cluster_len()
    }

    /// Where a cluster starts, if it is one of the heap's.
    pub open spec fn cluster_at(&self, cluster: int) -> Result<int, ExFault> {
        if self.has_cluster(cluster) {
            Ok(self.cluster_start(cluster))
        } else {
            Err(ExFault::Invalid("cluster number out of range"@))
        }
    }

    pub fn cluster_bytes(&self) -> (r: u64)
        ensures
            r == self.cluster_len(),
    {
        assert(self.bytes_per_sector * self.sectors_per_cluster <= 0xffff_ffff * 0xffff_ffff)
            by (nonlinear_arith)
            requires
                self.bytes_per_sector <= 0xffff_ffff,
                self.sectors_per_cluster <= 0xffff_ffff,
        ;
        self.bytes_per_sector as u64 * self.sectors_per_cluster as u64
    }

    /// Byte offset of a cluster's first byte.
    pub fn cluster_offset(&self, cluster: u32) -> (r: ExfatResult<u64>)
        requires
            self.wf(),
        ensures
            match self.cluster_at(cluster as int) {
                Ok(o) => r matches Ok(v) && v == o && o < 0x400_0000_0000_0000,
                Err(f) => r matches Err(e) && e@ == f,
            },
    {
        if cluster < 2 || cluster >= self.cluster_count + 2 {
            return Err(ExfatError::Invalid("cluster number out of range"));
        }
        let cb: u64 = self.cluster_bytes();
        proof {
            lemma_offset_bound(*self, cluster as int);
        }
        Ok(
            self.bytes_per_sector as u64 * self.cluster_heap_offset_sectors as u64 + (cluster as u64
                - 2) * cb,
        )
    }
}

pub proof fn lemma_offset_bound(geo: Geometry, cluster: int)
    requires
        geo.wf(),
        geo.has_cluster(cluster),
    ensures
        0 <= geo.bytes_per_sector * geo.cluster_heap_offset_sectors < 0x1000_0000_0000,
        0 <= (cluster - 2) * geo.cluster_len() < 0x200_0000_0000_0000,
        0 <= geo.cluster_start(cluster) < 0x400_0000_0000_0000,
{
    let cb = geo.cluster_len();
    assert(0 <= geo.bytes_per_sector * geo.cluster_heap_offset_sectors < 0x1000_0000_0000)
        by (nonlinear_arith)
        requires
            0 <= geo.bytes_per_sector <= 4096,
            0 <= geo.cluster_heap_offset_sectors <= 0xffff_ffff,
    ;
    assert(0 <= (cluster - 2) * cb < 0x200_0000_0000_0000) by (nonlinear_arith)
        requires
            0 <= cluster - 2 < 0x1_0000_0000,
            0 <= cb <= 0x200_0000,
    ;
}

/// Rotate a 32-bit word right by one bit and add a byte.
pub open spec fn roll32(sum: u32, b: u8) -> u32 {
    ((sum / 2 + (sum % 2) * 0x8000_0000 + b) % 0x1_0000_0000) as u32
}

/// Whether the boot checksum skips byte `i`: VolumeFlags and PercentInUse.
pub open spec fn boot_skips(i: int) -> bool {
    i == 106 || i == 107 || i == 112
}

/// The boot checksum of the first `n` bytes of a boot region.
pub open spec fn boot_sum(region: Seq<u8>, n: nat) -> u32
    decreases n,
{
    if n == 0 {
        0
    } else {
        let before = boot_sum(region, (n - 1) as nat);
        if boot_skips(n - 1) {
            before
        } else {
            roll32(before, region[n - 1])
        }
    }
}

/// Whether a sector consists of one word, repeated.
pub open spec fn repeats(sector: Seq<u8>, word: u32) -> bool {
    forall|k: int| 0 <= k < sector.len() / 4 ==> #[trigger] le32(sector, 4 * k) == word
}

pub open spec fn exfat_name() -> Seq<u8> {
    seq![0x45u8, 0x58, 0x46, 0x41, 0x54, 0x20, 0x20, 0x20]
}

pub open spec fn pow2(n: int) -> int
    decreases n,
{
    if n <= 0 {
        1
    } else {
        2 * pow2(n - 1)
    }
}

/// The geometry fields of a boot sector, read off as they stand.
pub open spec fn boot_fields(bs: Seq<u8>) -> Geometry {
    Geometry {
        bytes_per_sector: pow2(bs[108] as int) as u32,
        sectors_per_cluster: pow2(bs[109] as int) as u32,
        fat_offset_sectors: le32(bs, 80),
        fat_length_sectors: le32(bs, 84),
        cluster_heap_offset_sectors: le32(bs, 88),
        cluster_count: le32(bs, 92),
        root_first_cluster: le32(bs, 96),
    }
}

/// What is wrong with a boot sector, if anything: the first of its gates that
/// it fails.
pub open spec fn boot_sector_fault(bs: Seq<u8>) -> Option<Seq<char>> {
    let geo = boot_fields(bs);
    if slice_of(bs, 3, 8) != exfat_name() {
        Some("missing EXFAT signature"@)
    } else if bs[510] != 0x55 || bs[511] != 0xAA {
        Some("missing boot signature"@)
    } else if exists|i: int| 11 <= i < 64 && #[trigger] bs[i] != 0 {
        Some("MustBeZero region is not zero"@)
    } else if bs[108] < 9 || bs[108] > 12 {
        Some("BytesPerSectorShift out of range"@)
    } else if bs[109] > 25 - bs[108] {
        Some("SectorsPerClusterShift out of range"@)
    } else if geo.fat_offset_sectors < 24 {
        Some("FatOffset overlaps boot regions"@)
    } else if !geo.has_cluster(geo.root_first_cluster as int) || geo.cluster_count > 0xFFFF_FFFD {
        Some("root cluster out of range"@)
    } else {
        None
    }
}

/// What the boot region of a volume says: its geometry, or the first gate it
/// fails. The checksum of sectors 0 to 10 must fill sector 11.
pub open spec fn boot_region(img: Seq<u8>) -> Result<Geometry, ExFault> {
    if img.len() < 512 {
        Err(ExFault::Io)
    } else if let Some(what) = boot_sector_fault(img.take(512)) {
        Err(ExFault::Invalid(what))
    } else {
        let geo = boot_fields(img.take(512));
        let bps = geo.bytes_per_sector as int;
        if img.len() < 12 * bps {
            Err(ExFault::Io)
        } else if !repeats(slice_of(img, 11 * bps, bps), boot_sum(img, (11 * bps) as nat)) {
            Err(ExFault::Invalid("VBR checksum mismatch"@))
        } else {
            Ok(geo)
        }
    }
}

proof fn lemma_pow2(n: int)
    requires
        0 <= n <= 25,
    ensures
        1 <= pow2(n) <= 0x200_0000,
        n == 9 ==> pow2(n) == 512,
        n == 10 ==> pow2(n) == 1024,
        n == 11 ==> pow2(n) == 2048,
        n == 12 ==> pow2(n) == 4096,
        n <= 16 ==> pow2(n) <= 0x1_0000,
        n <= 15 ==> pow2(n) <= 0x8000,
        n <= 14 ==> pow2(n) <= 0x4000,
        n <= 13 ==> pow2(n) <= 0x2000,
{
    reveal_with_fuel(pow2, 27);
}

/// A boot sector that passes its gates describes a well-formed geometry.
pub proof fn boot_geometry_is_wf(bs: Seq<u8>)
    requires
        boot_sector_fault(bs) is None,
    ensures
        boot_fields(bs).wf(),
        boot_fields(bs).has_cluster(boot_fields(bs).root_first_cluster as int),
{
    let b = bs[108] as int;
    let s = bs[109] as int;
    lemma_pow2(b);
    lemma_pow2(s);
    let p = pow2(b);
    let q = pow2(s);
    assert(p * q <= 0x200_0000) by (nonlinear_arith)
        requires
            p == 512 && 1 <= q <= 0x1_0000 || p == 1024 && 1 <= q <= 0x8000 || p == 2048 && 1 <= q
                <= 0x4000 || p == 4096 && 1 <= q <= 0x2000,
    ;
    assert(p * q >= 512 && (p * q) % 512 == 0) by (nonlinear_arith)
        requires
            p == 512 || p == 1024 || p == 2048 || p == 4096,
            1 <= q,
    ;
}

fn shifted(n: u8) -> (r: u32)
    requires
        n <= 25,
    ensures
        r == pow2(n as int),
{
    let mut v: u32 = 1;
    let mut i: u8 = 0;
    while i < n
        invariant
            i <= n <= 25,
            v == pow2(i as int),
        decreases n - i,
    {
        proof {
            lemma_pow2(i as int);
            lemma_pow2(i + 1);
        }
        v = v * 2;
        i = i + 1;
    }
    v
}

/// One more byte of a 32-bit rolling checksum.
pub fn roll(sum: u32, b: u8) -> (r: u32)
    ensures
        r == roll32(sum, b),
{
    let x: u64 = (sum / 2) as u64 + (sum % 2) as u64 * 0x8000_0000 + b as u64;
    (x % 0x1_0000_0000) as u32
}

/// Parse and validate the main boot region: signature fields, geometry ranges,
/// and the repeated checksum in sector 11.
pub fn read_boot_region<D: ReadAt>(disk: &mut D) -> (r: ExfatResult<Geometry>)
    ensures
        unmoved(*old(disk), *final(disk)),
        due(sure(*old(disk)), seen(r), boot_region(old(disk).disk().bytes)),
        r matches Ok(geo) ==> geo.wf() && geo.has_cluster(geo.root_first_cluster as int),
{
    let ghost img = disk.disk().bytes;
    let mut buf: [u8; 512] = [0u8; 512];
    fetch(disk, 0, &mut buf)?;
    let bs: &[u8] = buf.as_slice();
    assert(bs@ =~= img.take(512));
    let named: bool = bs[3] == 0x45 && bs[4] == 0x58 && bs[5] == 0x46 && bs[6] == 0x41 && bs[7] == 0x54
        && bs[8] == 0x20 && bs[9] == 0x20 && bs[10] == 0x20;
    assert(named == (slice_of(bs@, 3, 8) == exfat_name())) by {
        let m = slice_of(bs@, 3, 8);
        assert(m[0] == bs@[3] && m[1] == bs@[4] && m[2] == bs@[5] && m[3] == bs@[6] && m[4]
            == bs@[7] && m[5] == bs@[8] && m[6] == bs@[9] && m[7] == bs@[10]);
        if named {
            assert(m =~= exfat_name());
        }
    }
    if !named {
        return Err(ExfatError::Invalid("missing EXFAT signature"));
    }
    if bs[510] != 0x55 || bs[511] != 0xAA {
        return Err(ExfatError::Invalid("missing boot signature"));
    }
    let mut i: usize = 11;
    while i < 64
        invariant
            11 <= i <= 64,
            bs@.len() == 512,
            bs@ == img.take(512),
            img.len() >= 512,
            img == disk.disk().bytes,
            unmoved(*old(disk), *disk),
            slice_of(bs@, 3, 8) == exfat_name(),
            bs@[510] == 0x55 && bs@[511] == 0xAA,
            forall|j: int| 11 <= j < i ==> bs@[j] == 0,
        decreases 64 - i,
    {
        // MustBeZero guards against FAT32 boot sectors that carry the name.
        if bs[i] != 0 {
            return Err(ExfatError::Invalid("MustBeZero region is not zero"));
        }
        i = i + 1;
    }
    let bps_shift: u8 = bs[108];
    let spc_shift: u8 = bs[109];
    if bps_shift < 9 || bps_shift > 12 {
        return Err(ExfatError::Invalid("BytesPerSectorShift out of range"));
    }
    if spc_shift > 25 - bps_shift {
        return Err(ExfatError::Invalid("SectorsPerClusterShift out of range"));
    }
    let geo = Geometry {
        bytes_per_sector: shifted(bps_shift),
        sectors_per_cluster: shifted(spc_shift),
        fat_offset_sectors: read_le32(bs, 80),
        fat_length_sectors: read_le32(bs, 84),
        cluster_heap_offset_sectors: read_le32(bs, 88),
        cluster_count: read_le32(bs, 92),
        root_first_cluster: read_le32(bs, 96),
    };
    if geo.fat_offset_sectors < 24 {
        return Err(ExfatError::Invalid("FatOffset overlaps boot regions"));
    }
    if geo.cluster_count > 0xFFFF_FFFD || geo.root_first_cluster < 2 || geo.root_first_cluster
        >= geo.cluster_count + 2 {
        return Err(ExfatError::Invalid("root cluster out of range"));
    }
    proof {
        boot_geometry_is_wf(bs@);
    }
    verify_vbr_checksum(disk, geo.bytes_per_sector)?;
    Ok(geo)
}

/// The checksum of sectors 0 to 10 must be repeated through sector 11.
fn verify_vbr_checksum<D: ReadAt>(disk: &mut D, bps: u32) -> (r: ExfatResult<()>)
    requires
        bps == 512 || bps == 1024 || bps == 2048 || bps == 4096,
    ensures
        unmoved(*old(disk), *final(disk)),
        due(
            sure(*old(disk)),
            seen(r),
            ({
                let img = old(disk).disk().bytes;
                if img.len() < 12 * bps {
                    Err(ExFault::Io)
                } else if !repeats(
                    slice_of(img, 11 * bps, bps as int),
                    boot_sum(img, (11 * bps) as nat),
                ) {
                    Err(ExFault::Invalid("VBR checksum mismatch"@))
                } else {
                    Ok(())
                }
            }),
        ),
{
    let ghost img = disk.disk().bytes;
    let n: usize = bps as usize * 11;
    let mut region: Vec<u8> = zeroed(n);
    fetch(disk, 0, region.as_mut_slice())?;
    let mut checksum: u32 = 0;
    let mut i: usize = 0;
    while i < n
        invariant
            i <= n,
            n == region@.len(),
            n <= img.len(),
            region@ == img.subrange(0, n as int),
            checksum == boot_sum(img, i as nat),
        decreases n - i,
    {
        if !(i == 106 || i == 107 || i == 112) {
            checksum = roll(checksum, region[i]);
        }
        i = i + 1;
    }
    let mut sector: Vec<u8> = zeroed(bps as usize);
    fetch(disk, bps as u64 * 11, sector.as_mut_slice())?;
    assert(sector@ =~= slice_of(img, 11 * bps, bps as int));
    let words: usize = bps as usize / 4;
    let mut k: usize = 0;
    while k < words
        invariant
            k <= words,
            words == sector@.len() / 4,
            words <= 1024,
            img.len() >= 12 * bps,
            sector@ == slice_of(img, 11 * bps, bps as int),
            sector@.len() == bps,
            img == disk.disk().bytes,
            unmoved(*old(disk), *disk),
            checksum == boot_sum(img, (11 * bps) as nat),
            forall|j: int| 0 <= j < k ==> #[trigger] le32(sector@, 4 * j) == checksum,
        decreases words - k,
    {
        if read_le32(sector.as_slice(), 4 * k) != checksum {
            assert(le32(sector@, 4 * k as int) != checksum);
            return Err(ExfatError::Invalid("VBR checksum mismatch"));
        }
        k = k + 1;
    }
    Ok(())
}

/// A step of the 32-bit checksum rotates the sum right by one bit and adds the
/// byte, without carry out of the top.
pub proof fn a_step_rotates_right(sum: u32, b: u8)
    ensures
        roll32(sum, b) as int == (((sum >> 1) | (sum << 31)) + b) % 0x1_0000_0000,
        roll32(sum, 0) / 0x8000_0000 == sum % 2,
        2 * (roll32(sum, 0) % 0x8000_0000) + roll32(sum, 0) / 0x8000_0000 == sum,
{
    assert(((sum >> 1) | (sum << 31)) == sum / 2 + (sum % 2) * 0x8000_0000) by (bit_vector);
}

/// Each byte of the boot region but the volume's flags and its percentage in
/// use, which change while it is mounted, is one step of its checksum.
pub proof fn each_byte_of_the_boot_region_is_a_step(region: Seq<u8>, n: nat)
    ensures
        boot_sum(region, 0) == 0,
        n == 106 || n == 107 || n == 112 ==> boot_sum(region, n + 1) == boot_sum(region, n),
        n != 106 && n != 107 && n != 112 ==> ({
            let sum = boot_sum(region, n);
            boot_sum(region, n + 1) as int == (((sum >> 1) | (sum << 31)) + region[n as int])
                % 0x1_0000_0000
        }),
{
    a_step_rotates_right(boot_sum(region, n), region[n as int]);
}

} // verus!
