//! The formatter: a fresh, empty exFAT volume.
//!
//! The layout is packed tight, because the data area of a small volume may be
//! only a few MiB: boot regions, the table, then the cluster heap with the
//! allocation bitmap, the up-case table and an empty root directory. Every
//! structure is written in full: over an encrypted device a sector that was
//! never written reads as noise.

use vstd::prelude::*;

use super::boot::{boot_sum, exfat_name, pow2, roll, roll32, Geometry};
use super::folding::{build_table, table_bytes};
use super::dir::{ENTRY_BITMAP, ENTRY_UPCASE};
use super::io::{
    barrier, carries, put_at, seen, store, trust, wrote, ExFault, ExfatError, ExfatResult, WriteAt,
};
use super::upcase::{div_ceil, lesser, parts};
use crate::bytes::{
    append, append_le16, append_le32, append_le64, append_zeros, le16_bytes, le32_bytes, le64_bytes,
    put, splice, zeroed, zeros,
};
use crate::device::Disk;

verus! {

broadcast use crate::bytes::group_widths;

/// Sectors of the two boot regions.
const BOOT_SECTORS: u64 = 24;

const FAT_MEDIA: u32 = 0xFFFF_FFF8;

const FAT_EOF: u32 = 0xFFFF_FFFF;

/// How a new volume is laid out, in sectors of 512 bytes and in clusters.
#[derive(Clone, Copy)]
pub struct Layout {
    pub total_sectors: u64,
    pub spc_shift: u8,
    pub spc: u64,
    pub fat_offset: u64,
    pub fat_length: u64,
    pub heap_offset: u64,
    pub cluster_count: u64,
    /// Clusters of the bitmap, from cluster 2 on.
    pub bm_clusters: u64,
    /// Clusters of the up-case table, behind the bitmap.
    pub upcase_clusters: u64,
}

impl Layout {
    pub open spec fn cluster_len(&self) -> int {
        512 * self.spc
    }

    pub open spec fn upcase_first(&self) -> int {
        2 + self.bm_clusters
    }

    /// The one cluster of the root directory, behind the up-case table.
    pub open spec fn root_first(&self) -> int {
        2 + self.bm_clusters + self.upcase_clusters
    }

    /// Clusters in use on a new volume.
    pub open spec fn used(&self) -> int {
        self.bm_clusters + self.upcase_clusters + 1
    }

    /// Where a cluster starts.
    pub open spec fn start(&self, cluster: int) -> int {
        512 * self.heap_offset + (cluster - 2) * self.cluster_len()
    }

    /// The geometry a volume so laid out has.
    pub open spec fn geometry(&self) -> Geometry {
        Geometry {
            bytes_per_sector: 512,
            sectors_per_cluster: self.spc as u32,
            fat_offset_sectors: self.fat_offset as u32,
            fat_length_sectors: self.fat_length as u32,
            cluster_heap_offset_sectors: self.heap_offset as u32,
            cluster_count: self.cluster_count as u32,
            root_first_cluster: self.root_first() as u32,
        }
    }
}

/// Cluster size by volume size: 4 KiB up to 256 MiB, 32 KiB up to 32 GiB, else
/// 128 KiB.
pub open spec fn spc_shift_of(total_bytes: u64) -> u8 {
    if total_bytes <= 0x1000_0000 {
        3
    } else if total_bytes <= 0x8_0000_0000 {
        6
    } else {
        8
    }
}

/// `a` rounded up to a multiple of `m`.
pub open spec fn rounded(a: int, m: int) -> int {
    parts(a, m) * m
}

/// The layout of a volume of `total_bytes`, or why there can be none. The
/// table is sized for the most clusters the space could hold.
pub open spec fn layout_of(total_bytes: u64) -> Result<Layout, ExFault> {
    let total = total_bytes as int / 512;
    let spc = pow2(spc_shift_of(total_bytes) as int);
    let fat_offset = rounded(24, spc);
    if total <= fat_offset {
        Err(ExFault::Invalid("volume too small for exFAT"@))
    } else {
        let most = (total - fat_offset) / spc;
        let fat_length = rounded(parts((most + 2) * 4, 512), spc);
        let heap_offset = fat_offset + fat_length;
        if total <= heap_offset {
            Err(ExFault::Invalid("volume too small for exFAT"@))
        } else {
            let count = (total - heap_offset) / spc;
            let bm = parts(parts(count, 8), 512 * spc);
            let up = parts(5836, 512 * spc);
            if count > 0xFFFF_FFFD {
                Err(ExFault::Invalid("volume too large for exFAT"@))
            } else if count < bm + up + 1 {
                Err(ExFault::Invalid("volume too small for exFAT metadata"@))
            } else {
                Ok(
                    Layout {
                        total_sectors: total as u64,
                        spc_shift: spc_shift_of(total_bytes),
                        spc: spc as u64,
                        fat_offset: fat_offset as u64,
                        fat_length: fat_length as u64,
                        heap_offset: heap_offset as u64,
                        cluster_count: count as u64,
                        bm_clusters: bm as u64,
                        upcase_clusters: up as u64,
                    },
                )
            }
        }
    }
}

/// The word of the new table at index `i`: the two reserved words, then one
/// chain each for bitmap, up-case table and root directory.
pub open spec fn fat_word(l: Layout, i: int) -> u32 {
    if i == 0 {
        0xFFFF_FFF8
    } else if i == 1 || i == l.upcase_first() - 1 || i == l.root_first() - 1 || i == l.root_first() {
        0xFFFF_FFFF
    } else if i < l.root_first() {
        (i + 1) as u32
    } else {
        0
    }
}

/// The new table.
pub open spec fn fat_image(l: Layout) -> Seq<u8> {
    Seq::new(
        (512 * l.fat_length) as nat,
        |b: int| le32_bytes(fat_word(l, b / 4))[b % 4],
    )
}

/// The byte of a bitmap that has its first `used` bits set.
pub open spec fn bitmap_fill(used: int, i: int) -> u8 {
    if 8 * i + 8 <= used {
        0xFF
    } else if 8 * i >= used {
        0
    } else {
        (pow2(used - 8 * i) - 1) as u8
    }
}

/// The new bitmap: the clusters in use are the first ones.
pub open spec fn bitmap_image(l: Layout) -> Seq<u8> {
    Seq::new(
        (l.bm_clusters * l.cluster_len()) as nat,
        |i: int| bitmap_fill(l.used(), i),
    )
}

/// The clusters of the up-case table.
pub open spec fn upcase_image(l: Layout) -> Seq<u8> {
    splice(zeros((l.upcase_clusters * l.cluster_len()) as nat), 0, table_bytes())
}

/// The checksum of the first `n` bytes of an up-case table.
pub open spec fn table_sum(table: Seq<u8>, n: nat) -> u32
    decreases n,
{
    if n == 0 {
        0
    } else {
        roll32(table_sum(table, (n - 1) as nat), table[n - 1])
    }
}

/// The volume label entry: VAULTPONY.
pub open spec fn label_entry() -> Seq<u8> {
    seq![
        0x83u8, 9, 0x56, 0, 0x41, 0, 0x55, 0, 0x4C, 0, 0x54, 0, 0x50, 0, 0x4F, 0, 0x4E, 0, 0x59, 0,
        0, 0, 0, 0, 0, 0, 0, 0, 0, 0, 0, 0,
    ]
}

/// The allocation bitmap's entry.
pub open spec fn bitmap_record(l: Layout) -> Seq<u8> {
    seq![ENTRY_BITMAP] + zeros(19) + le32_bytes(2) + le64_bytes(
        parts(l.cluster_count as int, 8) as u64,
    )
}

/// The up-case table's entry.
pub open spec fn upcase_record(l: Layout) -> Seq<u8> {
    seq![ENTRY_UPCASE] + zeros(3) + le32_bytes(table_sum(table_bytes(), 5836)) + zeros(12)
        + le32_bytes(l.upcase_first() as u32) + le64_bytes(5836)
}

/// The root directory: label, bitmap and up-case entries, then nothing.
pub open spec fn root_image(l: Layout) -> Seq<u8> {
    label_entry() + bitmap_record(l) + upcase_record(l) + zeros((l.cluster_len() - 96) as nat)
}

/// How full a new volume is, in percent.
pub open spec fn percent_used(l: Layout) -> int {
    lesser(l.used() * 100 / l.cluster_count as int, 100)
}

/// The boot sector.
pub open spec fn boot_sector(l: Layout, serial: u32) -> Seq<u8> {
    seq![0xEBu8, 0x76, 0x90] + exfat_name() + zeros(61) + le64_bytes(l.total_sectors) + le32_bytes(
        l.fat_offset as u32,
    ) + le32_bytes(l.fat_length as u32) + le32_bytes(l.heap_offset as u32) + le32_bytes(
        l.cluster_count as u32,
    ) + le32_bytes(l.root_first() as u32) + le32_bytes(serial) + le16_bytes(0x0100) + zeros(2)
        + seq![9u8, l.spc_shift, 1, 0x80, percent_used(l) as u8] + zeros(397) + seq![0x55u8, 0xAA]
}

/// Sectors 0 to 10 of a boot region: the boot sector, eight extended boot
/// sectors that hold a signature only, and two sectors of zeros.
pub open spec fn boot_body(l: Layout, serial: u32) -> Seq<u8> {
    Seq::new(
        5632,
        |i: int|
            if i < 512 {
                boot_sector(l, serial)[i]
            } else if i < 4608 && i % 512 == 510 {
                0x55
            } else if i < 4608 && i % 512 == 511 {
                0xAA
            } else {
                0
            },
    )
}

/// A boot region: its body, and its checksum repeated through sector 11.
pub open spec fn boot_image(l: Layout, serial: u32) -> Seq<u8> {
    let body = boot_body(l, serial);
    body + Seq::new(512, |i: int| le32_bytes(boot_sum(body, 5632))[i % 4])
}

/// The pieces of a new volume, in the order they are written.
pub open spec fn pieces(l: Layout, serial: u32) -> Seq<(int, Seq<u8>)> {
    seq![
        (512 * l.fat_offset, fat_image(l)),
        (l.start(2), bitmap_image(l)),
        (l.start(l.upcase_first()), upcase_image(l)),
        (l.start(l.root_first()), root_image(l)),
        (0int, boot_image(l, serial)),
        (6144int, boot_image(l, serial)),
    ]
}

/// Writing pieces from the `j`-th on.
pub open spec fn pieces_from(disk: Disk, p: Seq<(int, Seq<u8>)>, j: int) -> (
    Disk,
    Result<(), ExFault>,
)
    decreases p.len() - j,
{
    if j < 0 || j >= p.len() {
        (disk, Ok(()))
    } else {
        match put_at(disk, p[j].0, p[j].1) {
            (d, Err(f)) => (d, Err(f)),
            (d, Ok(_)) => pieces_from(d, p, j + 1),
        }
    }
}

/// Formatting a volume: all its structures are written, then flushed.
pub open spec fn formatted(disk: Disk, total_bytes: u64, serial: u32) -> (
    Disk,
    Result<(), ExFault>,
) {
    match layout_of(total_bytes) {
        Err(f) => (disk, Err(f)),
        Ok(l) => match pieces_from(disk, pieces(l, serial), 0) {
            (d, Err(f)) => (d, Err(f)),
            (d, Ok(_)) => (d.flushed(), Ok(())),
        },
    }
}

/// What a layout keeps: the parts lie one behind the other within the volume,
/// and every number fits its field.
pub open spec fn layout_ok(l: Layout, total_bytes: u64) -> bool {
    &&& l.total_sectors == total_bytes as int / 512
    &&& (l.spc_shift == 3 && l.spc == 8 || l.spc_shift == 6 && l.spc == 64 || l.spc_shift == 8
        && l.spc == 256)
    &&& 24 <= l.fat_offset <= 256
    &&& 1 <= l.fat_length <= 0x400_0000
    &&& l.heap_offset == l.fat_offset + l.fat_length
    &&& l.cluster_count <= 0xFFFF_FFFD
    &&& l.used() <= l.cluster_count
    &&& 1 <= l.bm_clusters <= 0x2_0000
    &&& l.upcase_clusters == parts(5836, l.cluster_len())
    &&& 1 <= l.upcase_clusters <= 2
    &&& l.heap_offset + l.cluster_count * l.spc <= l.total_sectors
    &&& 4 * (l.cluster_count + 2) <= 512 * l.fat_length
    &&& parts(l.cluster_count as int, 8) <= l.bm_clusters * l.cluster_len()
    &&& l.bm_clusters * l.cluster_len() <= 0x4000_0000
}

pub proof fn lemma_parts(a: int, b: int)
    requires
        0 <= a,
        0 < b,
    ensures
        a <= parts(a, b) * b < a + b,
        parts(a, b) >= 0,
        a > 0 ==> parts(a, b) >= 1,
        parts(a, b) <= a,
{
    let q = parts(a, b);
    vstd::arithmetic::div_mod::lemma_fundamental_div_mod(a + b - 1, b);
    let m = (a + b - 1) % b;
    assert(0 <= m < b) by (nonlinear_arith)
        requires
            m == (a + b - 1) % b,
            b > 0,
    ;
    assert(q * b == b * q) by (nonlinear_arith);
    assert(q >= 0) by (nonlinear_arith)
        requires
            b * q + m == a + b - 1,
            m < b,
            a >= 0,
            b > 0,
    ;
    if a > 0 {
        assert(q >= 1) by (nonlinear_arith)
            requires
                b * q + m == a + b - 1,
                m < b,
                a > 0,
                b > 0,
        ;
        assert(q <= a) by (nonlinear_arith)
            requires
                b * q + m == a + b - 1,
                0 <= m,
                a > 0,
                b > 0,
        ;
    } else {
        assert(q <= 0) by (nonlinear_arith)
            requires
                b * q + m == a + b - 1,
                0 <= m,
                a == 0,
                b > 0,
        ;
    }
}

pub proof fn lemma_small_pows()
    ensures
        pow2(0) == 1,
        pow2(1) == 2,
        pow2(2) == 4,
        pow2(3) == 8,
        pow2(4) == 16,
        pow2(5) == 32,
        pow2(6) == 64,
        pow2(7) == 128,
        pow2(8) == 256,
{
    reveal_with_fuel(pow2, 10);
}

/// Every layout keeps what it should.
#[verifier::spinoff_prover]
#[verifier::rlimit(60)]
pub proof fn layouts_are_sound(total_bytes: u64)
    ensures
        layout_of(total_bytes) matches Ok(l) ==> layout_ok(l, total_bytes),
{
    lemma_small_pows();
    let total = total_bytes as int / 512;
    let spc = pow2(spc_shift_of(total_bytes) as int);
    let fat_offset = rounded(24, spc);
    lemma_parts(24, spc);
    if total > fat_offset {
        let most = (total - fat_offset) / spc;
        let words = parts((most + 2) * 4, 512);
        let fat_length = rounded(words, spc);
        let heap_offset = fat_offset + fat_length;
        lemma_parts((most + 2) * 4, 512);
        lemma_parts(words, spc);
        if total > heap_offset {
            let count = (total - heap_offset) / spc;
            let bits = parts(count, 8);
            let bm = parts(bits, 512 * spc);
            lemma_parts(count, 8);
            lemma_parts(bits, 512 * spc);
            lemma_parts(5836, 512 * spc);
            assert(count <= most && count * spc <= total - heap_offset) by (nonlinear_arith)
                requires
                    count == (total - heap_offset) / spc,
                    most == (total - fat_offset) / spc,
                    heap_offset >= fat_offset,
                    spc == 8 || spc == 64 || spc == 256,
            ;
            if count <= 0xFFFF_FFFD && count >= bm + parts(5836, 512 * spc) + 1 {
                assert(1 <= parts(5836, 512 * spc) <= 2) by {
                    if spc == 8 {
                        assert(parts(5836, 4096) == 2);
                    } else if spc == 64 {
                        assert(parts(5836, 32768) == 1);
                    } else {
                        assert(parts(5836, 131072) == 1);
                    }
                }
                assert(most <= count + fat_length / spc + 1) by (nonlinear_arith)
                    requires
                        count == (total - heap_offset) / spc,
                        most == (total - fat_offset) / spc,
                        heap_offset == fat_offset + fat_length,
                        fat_length >= 0,
                        spc == 8 || spc == 64 || spc == 256,
                ;
                lemma_fat_small(most, count, words, fat_length, spc);
                assert(bm <= 0x2_0000 && bm * (512 * spc) <= 0x4000_0000) by {
                    assert(bits <= 0x2000_0000);
                    assert(bm * (512 * spc) < bits + 512 * spc);
                    if spc == 8 {
                        assert(bm * 4096 < bits + 4096);
                    } else if spc == 64 {
                        assert(bm * 32768 < bits + 32768);
                    } else {
                        assert(bm * 131072 < bits + 131072);
                    }
                }
            }
        }
    }
}

proof fn lemma_fat_small(most: int, count: int, words: int, fat_length: int, spc: int)
    requires
        spc == 8 || spc == 64 || spc == 256,
        0 <= count <= 0xFFFF_FFFD,
        0 <= most <= count + fat_length / spc + 1,
        (most + 2) * 4 <= words * 512 < (most + 2) * 4 + 512,
        words <= fat_length < words + spc,
    ensures
        fat_length <= 0x400_0000,
{
    // The table takes one sector in 128 clusters, so it hardly adds to them.
    assert(fat_length / spc * 8 <= fat_length) by (nonlinear_arith)
        requires
            fat_length >= 0,
            spc == 8 || spc == 64 || spc == 256,
    ;
    assert(fat_length < (most + 2) * 4 / 512 + 1 + 256);
    assert(most <= count + fat_length / 8 + 1);
    assert(fat_length <= 0x400_0000);
}

fn plan(total_bytes: u64) -> (r: ExfatResult<Layout>)
    ensures
        match layout_of(total_bytes) {
            Ok(l) => r matches Ok(v) && v == l && layout_ok(l, total_bytes),
            Err(f) => r matches Err(e) && e@ == f,
        },
{
    proof {
        lemma_small_pows();
        layouts_are_sound(total_bytes);
    }
    let total: u64 = total_bytes / 512;
    let (shift, spc): (u8, u64) = if total_bytes <= 0x1000_0000 {
        (3, 8)
    } else if total_bytes <= 0x8_0000_0000 {
        (6, 64)
    } else {
        (8, 256)
    };
    proof {
        lemma_parts(24, spc as int);
        assert(parts(24, spc as int) <= 24);
    }
    let fat_offset: u64 = div_ceil(BOOT_SECTORS, spc) * spc;
    if total <= fat_offset {
        return Err(ExfatError::Invalid("volume too small for exFAT"));
    }
    let most: u64 = (total - fat_offset) / spc;
    let words: u64 = div_ceil((most + 2) * 4, 512);
    proof {
        lemma_parts((most + 2) * 4, 512);
        lemma_parts(words as int, spc as int);
    }
    let fat_length: u64 = div_ceil(words, spc) * spc;
    let heap_offset: u64 = fat_offset + fat_length;
    if total <= heap_offset {
        return Err(ExfatError::Invalid("volume too small for exFAT"));
    }
    let count: u64 = (total - heap_offset) / spc;
    let bm: u64 = div_ceil(div_ceil(count, 8), 512 * spc);
    let up: u64 = div_ceil(5836, 512 * spc);
    proof {
        lemma_parts(count as int, 8);
        lemma_parts(parts(count as int, 8), 512 * spc);
        lemma_parts(5836, 512 * spc);
    }
    if count > 0xFFFF_FFFD {
        return Err(ExfatError::Invalid("volume too large for exFAT"));
    }
    if count < bm + up + 1 {
        return Err(ExfatError::Invalid("volume too small for exFAT metadata"));
    }
    Ok(
        Layout {
            total_sectors: total,
            spc_shift: shift,
            spc,
            fat_offset,
            fat_length,
            heap_offset,
            cluster_count: count,
            bm_clusters: bm,
            upcase_clusters: up,
        },
    )
}

fn build_fat(l: &Layout, Ghost(total_bytes): Ghost<u64>) -> (r: Vec<u8>)
    requires
        layout_ok(*l, total_bytes),
    ensures
        r@ == fat_image(*l),
{
    let words: u64 = 128 * l.fat_length;
    let upcase_first: u64 = 2 + l.bm_clusters;
    let root_first: u64 = 2 + l.bm_clusters + l.upcase_clusters;
    let mut v: Vec<u8> = Vec::new();
    let mut i: u64 = 0;
    while i < words
        invariant
            layout_ok(*l, total_bytes),
            words == 128 * l.fat_length,
            upcase_first == l.upcase_first(),
            root_first == l.root_first(),
            i <= words,
            v@.len() == 4 * i,
            forall|b: int|
                0 <= b < v@.len() ==> v@[b] == le32_bytes(fat_word(*l, b / 4))[b % 4],
        decreases words - i,
    {
        let w: u32 = if i == 0 {
            FAT_MEDIA
        } else if i == 1 || i == upcase_first - 1 || i == root_first - 1 || i == root_first {
            FAT_EOF
        } else if i < root_first {
            (i + 1) as u32
        } else {
            0
        };
        assert(w == fat_word(*l, i as int));
        let ghost was = v@;
        append_le32(&mut v, w);
        assert forall|b: int| 0 <= b < v@.len() implies v@[b] == le32_bytes(
            fat_word(*l, b / 4),
        )[b % 4] by {
            if b < was.len() {
                assert(v@[b] == was[b]);
            }
        }
        i = i + 1;
    }
    assert(v@ =~= fat_image(*l));
    v
}

fn build_bitmap(l: &Layout, Ghost(total_bytes): Ghost<u64>) -> (r: Vec<u8>)
    requires
        layout_ok(*l, total_bytes),
    ensures
        r@ == bitmap_image(*l),
{
    let used: u64 = l.bm_clusters + l.upcase_clusters + 1;
    proof {
        assert(l.bm_clusters * (512 * l.spc) == l.bm_clusters * l.cluster_len());
        lemma_small_pows();
    }
    let n: u64 = l.bm_clusters * (512 * l.spc);
    let mut v: Vec<u8> = Vec::new();
    let mut i: u64 = 0;
    while i < n
        invariant
            n <= 0x4000_0000,
            used <= 0x2_0003,
            i <= n,
            v@.len() == i,
            forall|b: int| 0 <= b < i ==> v@[b] == bitmap_fill(used as int, b),
        decreases n - i,
    {
        let b: u8 = if 8 * i + 8 <= used {
            0xFF
        } else if 8 * i >= used {
            0
        } else {
            proof {
                lemma_small_pows();
            }
            match used - 8 * i {
                1 => 1,
                2 => 3,
                3 => 7,
                4 => 15,
                5 => 31,
                6 => 63,
                _ => 127,
            }
        };
        v.push(b);
        i = i + 1;
    }
    assert(v@ =~= bitmap_image(*l));
    v
}

fn build_upcase(l: &Layout, table: &Vec<u8>, Ghost(total_bytes): Ghost<u64>) -> (r: Vec<u8>)
    requires
        layout_ok(*l, total_bytes),
        table@ == table_bytes(),
    ensures
        r@ == upcase_image(*l),
{
    proof {
        lemma_parts(5836, l.cluster_len());
        assert(l.upcase_clusters * l.cluster_len() <= 0x4_0000) by (nonlinear_arith)
            requires
                l.upcase_clusters <= 2,
                0 < l.cluster_len() <= 0x2_0000,
        ;
        assert(l.upcase_clusters * (512 * l.spc) == l.upcase_clusters * l.cluster_len());
    }
    let mut v: Vec<u8> = zeroed((l.upcase_clusters * (512 * l.spc)) as usize);
    put(v.as_mut_slice(), 0, table.as_slice());
    v
}

fn checksum(table: &Vec<u8>) -> (r: u32)
    ensures
        r == table_sum(table@, table@.len()),
{
    let n: usize = table.len();
    let mut sum: u32 = 0;
    let mut i: usize = 0;
    while i < n
        invariant
            i <= n == table@.len(),
            sum == table_sum(table@, i as nat),
        decreases n - i,
    {
        sum = roll(sum, table[i]);
        i = i + 1;
    }
    sum
}

fn build_root(l: &Layout, sum: u32, Ghost(total_bytes): Ghost<u64>) -> (r: Vec<u8>)
    requires
        layout_ok(*l, total_bytes),
        sum == table_sum(table_bytes(), 5836),
    ensures
        r@ == root_image(*l),
{
    let label: [u8; 32] = [
        0x83, 9, 0x56, 0, 0x41, 0, 0x55, 0, 0x4C, 0, 0x54, 0, 0x50, 0, 0x4F, 0, 0x4E, 0, 0x59, 0, 0,
        0, 0, 0, 0, 0, 0, 0, 0, 0, 0, 0,
    ];
    let mut v: Vec<u8> = Vec::new();
    append(&mut v, label.as_slice());
    assert(v@ =~= label_entry());
    v.push(ENTRY_BITMAP);
    append_zeros(&mut v, 19);
    append_le32(&mut v, 2);
    append_le64(&mut v, div_ceil(l.cluster_count, 8));
    assert(v@ =~= label_entry() + bitmap_record(*l));
    v.push(ENTRY_UPCASE);
    append_zeros(&mut v, 3);
    append_le32(&mut v, sum);
    append_zeros(&mut v, 12);
    append_le32(&mut v, (2 + l.bm_clusters) as u32);
    append_le64(&mut v, 5836);
    assert(v@ =~= label_entry() + bitmap_record(*l) + upcase_record(*l));
    append_zeros(&mut v, 512 * l.spc as usize - 96);
    assert(v@ =~= root_image(*l));
    v
}

fn build_boot_sector(l: &Layout, serial: u32, Ghost(total_bytes): Ghost<u64>) -> (r: Vec<u8>)
    requires
        layout_ok(*l, total_bytes),
    ensures
        r@ == boot_sector(*l, serial),
        r@.len() == 512,
{
    let used: u64 = l.bm_clusters + l.upcase_clusters + 1;
    let full: u64 = used * 100 / l.cluster_count;
    let percent: u8 = if full <= 100 {
        full as u8
    } else {
        100
    };
    assert(percent == percent_used(*l));
    let jump: [u8; 3] = [0xEB, 0x76, 0x90];
    let name: [u8; 8] = [0x45, 0x58, 0x46, 0x41, 0x54, 0x20, 0x20, 0x20];
    let mut v: Vec<u8> = Vec::new();
    append(&mut v, jump.as_slice());
    append(&mut v, name.as_slice());
    assert(v@ =~= seq![0xEBu8, 0x76, 0x90] + exfat_name());
    append_zeros(&mut v, 61);
    append_le64(&mut v, l.total_sectors);
    append_le32(&mut v, l.fat_offset as u32);
    append_le32(&mut v, l.fat_length as u32);
    append_le32(&mut v, l.heap_offset as u32);
    append_le32(&mut v, l.cluster_count as u32);
    append_le32(&mut v, (2 + l.bm_clusters + l.upcase_clusters) as u32);
    append_le32(&mut v, serial);
    append_le16(&mut v, 0x0100);
    append_zeros(&mut v, 2);
    let facts: [u8; 5] = [9, l.spc_shift, 1, 0x80, percent];
    assert(facts@ =~= seq![9u8, l.spc_shift, 1, 0x80, percent]);
    append(&mut v, facts.as_slice());
    append_zeros(&mut v, 397);
    let mark: [u8; 2] = [0x55, 0xAA];
    assert(mark@ =~= seq![0x55u8, 0xAA]);
    append(&mut v, mark.as_slice());
    v
}

/// Build the 12-sector boot region: boot sector, eight extended boot sectors,
/// OEM parameters, reserved, and the repeated checksum.
fn build_boot_region(l: &Layout, serial: u32, Ghost(total_bytes): Ghost<u64>) -> (r: Vec<u8>)
    requires
        layout_ok(*l, total_bytes),
    ensures
        r@ == boot_image(*l, serial),
{
    let sector: Vec<u8> = build_boot_sector(l, serial, Ghost(total_bytes));
    let ghost body = boot_body(*l, serial);
    let mut v: Vec<u8> = Vec::new();
    let mut sum: u32 = 0;
    let mut i: usize = 0;
    while i < 5632
        invariant
            i <= 5632,
            v@.len() == i,
            sector@ == boot_sector(*l, serial),
            sector@.len() == 512,
            body == boot_body(*l, serial),
            forall|b: int| 0 <= b < i ==> v@[b] == body[b],
            sum == boot_sum(body, i as nat),
        decreases 5632 - i,
    {
        let b: u8 = if i < 512 {
            sector[i]
        } else if i < 4608 && i % 512 == 510 {
            0x55
        } else if i < 4608 && i % 512 == 511 {
            0xAA
        } else {
            0
        };
        v.push(b);
        if !(i == 106 || i == 107 || i == 112) {
            sum = roll(sum, b);
        }
        i = i + 1;
    }
    assert(v@ =~= body);
    let ghost tail = Seq::new(512, |i: int| le32_bytes(sum)[i % 4]);
    let mut k: usize = 0;
    assert(v@ =~= body + tail.take(0));
    while k < 128
        invariant
            k <= 128,
            tail == Seq::new(512, |i: int| le32_bytes(sum)[i % 4]),
            v@ =~= body + tail.take(4 * k as int),
        decreases 128 - k,
    {
        append_le32(&mut v, sum);
        k = k + 1;
    }
    assert(tail.take(512) =~= tail);
    v
}

/// Format `disk`, which is `total_bytes` long, as an empty exFAT volume.
/// `volume_serial` is the volume id reported to the system.
pub fn format<D: WriteAt>(disk: &mut D, total_bytes: u64, volume_serial: u32) -> (r: ExfatResult<()>)
    ensures
        carries(*old(disk), *final(disk)),
        wrote(
            trust(*old(disk), *final(disk)),
            seen(r),
            final(disk).disk(),
            formatted(old(disk).disk(), total_bytes, volume_serial),
        ),
{
    let l: Layout = plan(total_bytes)?;
    let ghost p = pieces(l, volume_serial);
    let heap: u64 = 512 * l.heap_offset;
    let cluster: u64 = 512 * l.spc;
    proof {
        reveal_with_fuel(pieces_from, 7);
        let cl = l.cluster_len();
        assert(l.start(2) == heap);
        assert(l.start(l.upcase_first()) == heap + l.bm_clusters * cl);
        assert((l.root_first() - 2) * cl == l.bm_clusters * cl + l.upcase_clusters * cl)
            by (nonlinear_arith)
            requires
                l.root_first() - 2 == l.bm_clusters + l.upcase_clusters,
        ;
        assert(0 <= l.upcase_clusters * cl <= 0x4_0000) by (nonlinear_arith)
            requires
                0 <= l.upcase_clusters <= 2,
                0 < cl <= 0x2_0000,
        ;
    }
    let fat: Vec<u8> = build_fat(&l, Ghost(total_bytes));
    store(disk, 512 * l.fat_offset, fat.as_slice())?;
    let bitmap: Vec<u8> = build_bitmap(&l, Ghost(total_bytes));
    store(disk, heap, bitmap.as_slice())?;
    let table: Vec<u8> = build_table();
    let upcase: Vec<u8> = build_upcase(&l, &table, Ghost(total_bytes));
    let upcase_at: u64 = heap + l.bm_clusters * cluster;
    store(disk, upcase_at, upcase.as_slice())?;
    let root: Vec<u8> = build_root(&l, checksum(&table), Ghost(total_bytes));
    store(disk, upcase_at + l.upcase_clusters * cluster, root.as_slice())?;
    let boot: Vec<u8> = build_boot_region(&l, volume_serial, Ghost(total_bytes));
    store(disk, 0, boot.as_slice())?;
    store(disk, 6144, boot.as_slice())?;
    barrier(disk)
}

} // verus!
