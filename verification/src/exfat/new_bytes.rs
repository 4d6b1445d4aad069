//! What this library itself writes to an exFAT volume: the boot regions of a
//! new one, its table, and the entry sets of new files and directories.

use vstd::prelude::*;

use super::boot::{a_step_rotates_right, boot_sum, exfat_name, pow2};
use super::creating::new_set_is_valid;
use super::format::{
    boot_body, boot_image, boot_sector, fat_word, formatted, label_entry, layout_of,
    layouts_are_sound, percent_used, pieces, pieces_from, table_sum, upcase_record, Layout,
};
use super::folding::table_bytes;
use super::fresh::formatting_lays_out;
use super::write::{hash_of, name_part, new_set};
use crate::bytes::{
    bytes_have_their_worth, le16, le16_bytes, le32, le32_bytes, le64, le64_bytes, read_16, read_32,
    read_64, slice_of,
};
use crate::device::{Disk, DiskOp};
use crate::text::utf16_of;

verus! {

/// What a new boot sector says: the jump, the name, how many sectors the volume
/// has, where the table and the heap lie, how many clusters there are and where
/// the root is, the serial number, revision 1.00, sectors of 512 bytes, one
/// table, drive 0x80 and the percentage in use. All else but the ending is zero.
#[verifier::rlimit(40)]
#[verifier::spinoff_prover]
pub proof fn what_a_new_boot_sector_says(l: Layout, serial: u32, i: int)
    ensures
        ({
            let bs = boot_sector(l, serial);
            &&& bs.len() == 512
            &&& bs[0] == 0xEB && bs[1] == 0x76 && bs[2] == 0x90
            &&& bs.subrange(3, 11) == exfat_name()
            &&& le64(bs, 72) == l.total_sectors
            &&& le32(bs, 80) == l.fat_offset as u32
            &&& le32(bs, 84) == l.fat_length as u32
            &&& le32(bs, 88) == l.heap_offset as u32
            &&& le32(bs, 92) == l.cluster_count as u32
            &&& le32(bs, 96) == l.root_first() as u32
            &&& le32(bs, 100) == serial
            &&& le16(bs, 104) == 0x0100
            &&& bs[108] == 9 && bs[109] == l.spc_shift && bs[110] == 1 && bs[111] == 0x80
            &&& bs[112] == percent_used(l) as u8
            &&& bs[510] == 0x55 && bs[511] == 0xAA
            &&& 11 <= i < 72 || 106 <= i < 108 || 113 <= i < 510 ==> bs[i] == 0
        }),
{
    reveal(le16_bytes);
    reveal(le32_bytes);
    reveal(le64_bytes);
    let bs = boot_sector(l, serial);
    assert(bs.subrange(3, 11) =~= exfat_name());
    assert(slice_of(bs, 72, 8) =~= le64_bytes(l.total_sectors));
    assert(slice_of(bs, 80, 4) =~= le32_bytes(l.fat_offset as u32));
    assert(slice_of(bs, 84, 4) =~= le32_bytes(l.fat_length as u32));
    assert(slice_of(bs, 88, 4) =~= le32_bytes(l.heap_offset as u32));
    assert(slice_of(bs, 92, 4) =~= le32_bytes(l.cluster_count as u32));
    assert(slice_of(bs, 96, 4) =~= le32_bytes(l.root_first() as u32));
    assert(slice_of(bs, 100, 4) =~= le32_bytes(serial));
    assert(slice_of(bs, 104, 2) =~= le16_bytes(0x0100));
    read_64(bs, 72, l.total_sectors);
    read_32(bs, 80, l.fat_offset as u32);
    read_32(bs, 84, l.fat_length as u32);
    read_32(bs, 88, l.heap_offset as u32);
    read_32(bs, 92, l.cluster_count as u32);
    read_32(bs, 96, l.root_first() as u32);
    read_32(bs, 100, serial);
    read_16(bs, 104, 0x0100);
}

/// A boot region is twelve sectors: the boot sector, eight more that end as it
/// does, two of zeros, and one that repeats the checksum of the eleven.
pub proof fn a_new_boot_region_is_twelve_sectors(l: Layout, serial: u32, i: int)
    ensures
        ({
            let all = boot_image(l, serial);
            &&& all.len() == 6144
            &&& 0 <= i < 512 ==> all[i] == boot_sector(l, serial)[i]
            &&& 512 <= i < 4608 ==> all[i] == (if i % 512 == 510 {
                0x55u8
            } else if i % 512 == 511 {
                0xAAu8
            } else {
                0u8
            })
            &&& 4608 <= i < 5632 ==> all[i] == 0
            &&& 5632 <= i < 6144 ==> all[i] == le32_bytes(boot_sum(all.take(5632), 5632))[i % 4]
        }),
{
    let all = boot_image(l, serial);
    assert(all.take(5632) =~= boot_body(l, serial));
}

/// A new volume has two boot regions alike, one behind the other.
pub proof fn a_new_volume_has_its_boot_region_twice(disk: Disk, total_bytes: u64, serial: u32)
    requires
        total_bytes <= disk.bytes.len(),
        layout_of(total_bytes) is Ok,
    ensures
        ({
            let l = layout_of(total_bytes)->Ok_0;
            let img = formatted(disk, total_bytes, serial).0.bytes;
            &&& img.subrange(0, 6144) == boot_image(l, serial)
            &&& img.subrange(6144, 12288) == boot_image(l, serial)
        }),
{
    formatting_lays_out(disk, total_bytes, serial);
}

/// The size of a volume decides its clusters: 4 KiB up to 256 MiB, 32 KiB up to
/// 32 GiB, 128 KiB beyond. The table lies behind the boot regions with a word
/// for each cluster and two more, the heap behind it, and no further cluster
/// would fit.
pub proof fn the_size_decides_the_clusters(total_bytes: u64)
    ensures
        layout_of(total_bytes) matches Ok(l) ==> {
            &&& l.total_sectors == total_bytes as int / 512
            &&& total_bytes <= 268_435_456 ==> l.spc == 8 && l.spc_shift == 3
            &&& 268_435_456 < total_bytes <= 34_359_738_368 ==> l.spc == 64 && l.spc_shift == 6
            &&& total_bytes > 34_359_738_368 ==> l.spc == 256 && l.spc_shift == 8
            &&& l.fat_offset >= 24
            &&& l.heap_offset == l.fat_offset + l.fat_length
            &&& 4 * (l.cluster_count + 2) <= 512 * l.fat_length
            &&& l.heap_offset + l.cluster_count * l.spc <= l.total_sectors
            &&& l.total_sectors < l.heap_offset + (l.cluster_count + 1) * l.spc
        },
{
    layouts_are_sound(total_bytes);
    reveal_with_fuel(pow2, 9);
    if let Ok(l) = layout_of(total_bytes) {
        let room = l.total_sectors - l.heap_offset;
        let spc = l.spc as int;
        let n = l.cluster_count as int;
        assert(room < (n + 1) * spc) by (nonlinear_arith)
            requires
                0 < spc,
                0 <= room,
                n == room / spc,
        ;
    }
}

/// The first two words of a new table are the media's and all ones; the words
/// of what is in use name the cluster behind, or end a chain; and the rest are
/// zero.
pub proof fn what_a_new_table_says(l: Layout, i: int)
    requires
        2 <= i,
    ensures
        fat_word(l, 0) == 0xFFFF_FFF8,
        fat_word(l, 1) == 0xFFFF_FFFF,
        i == 2 + l.bm_clusters - 1 || i == 2 + l.bm_clusters + l.upcase_clusters - 1 || i == 2
            + l.bm_clusters + l.upcase_clusters ==> fat_word(l, i) == 0xFFFF_FFFF,
        i > 2 + l.bm_clusters + l.upcase_clusters ==> fat_word(l, i) == 0,
        fat_word(l, i) == 0xFFFF_FFFF || fat_word(l, i) == 0 || fat_word(l, i) == (i + 1) as u32,
{
}

/// The percentage in use is rounded down, and a hundred at most.
pub proof fn a_percentage_is_rounded_down(l: Layout)
    requires
        0 < l.cluster_count,
        l.used() <= l.cluster_count,
    ensures
        percent_used(l) * l.cluster_count <= 100 * l.used(),
        100 * l.used() < (percent_used(l) + 1) * l.cluster_count,
{
    let n = l.cluster_count as int;
    let u = l.used() * 100;
    assert(u / n <= 100) by (nonlinear_arith)
        requires
            0 < n,
            u <= 100 * n,
    ;
    assert((u / n) * n <= u < (u / n + 1) * n) by (nonlinear_arith)
        requires
            0 < n,
            0 <= u,
    ;
}

/// Each byte of an up-case table is one step of its checksum, which its record
/// holds at byte 4.
pub proof fn each_byte_of_a_table_is_a_step(table: Seq<u8>, n: nat, l: Layout)
    ensures
        le32(upcase_record(l), 4) == table_sum(table_bytes(), table_bytes().len()),
        table_sum(table, 0) == 0,
        ({
            let sum = table_sum(table, n);
            table_sum(table, n + 1) as int == (((sum >> 1) | (sum << 31)) + table[n as int])
                % 0x1_0000_0000
        }),
{
    a_step_rotates_right(table_sum(table, n), table[n as int]);
    let sum = table_sum(table_bytes(), 5836);
    assert(slice_of(upcase_record(l), 4, 4) =~= le32_bytes(sum)) by {
        reveal(le32_bytes);
        reveal(le64_bytes);
    }
    read_32(upcase_record(l), 4, sum);
}

/// What the set of a new entry says: a file entry of type 0x85 with the number
/// of those behind it and the attribute of a directory or an archive, dated
/// three times; a stream entry of type 0xC0 with the flags, the length of the
/// name and its hash; and name entries of type 0xC1 with fifteen units each, the
/// last filled up with zeros.
#[verifier::rlimit(40)]
#[verifier::spinoff_prover]
pub proof fn what_a_new_set_says(
    upcase: Seq<u16>,
    name: Seq<char>,
    is_dir: bool,
    first_cluster: u32,
    data_len: u64,
    valid_len: u64,
    flags: u8,
    j: int,
    k: int,
)
    requires
        1 <= utf16_of(name).len() <= 255,
        0 <= k < 15,
    ensures
        ({
            let units = utf16_of(name);
            let set = new_set(upcase, units, is_dir, first_cluster, data_len, valid_len, flags);
            &&& set[0][0] == 0x85 && set[0][1] == set.len() - 1
            &&& le16(set[0], 4) == (if is_dir {
                0x10u16
            } else {
                0x20u16
            })
            &&& le32(set[0], 8) == 0x5821_0000 && le32(set[0], 12) == 0x5821_0000 && le32(
                set[0],
                16,
            ) == 0x5821_0000
            &&& set[1][0] == 0xC0 && set[1][1] == flags && set[1][3] == units.len()
            &&& le16(set[1], 4) == hash_of(upcase, units)
            &&& le64(set[1], 8) == valid_len
            &&& le32(set[1], 20) == first_cluster
            &&& le64(set[1], 24) == data_len
            &&& 2 <= j < set.len() ==> {
                let at = 15 * (j - 2) + k;
                &&& set[j][0] == 0xC1 && set[j][1] == 0
                &&& le16(set[j], 2 + 2 * k) == (if at < units.len() {
                    units[at]
                } else {
                    0
                })
            }
        }),
{
    let units = utf16_of(name);
    let set = new_set(upcase, units, is_dir, first_cluster, data_len, valid_len, flags);
    new_set_is_valid(upcase, name, is_dir, first_cluster, data_len, valid_len, flags);
    reveal(le16_bytes);
    reveal(le32_bytes);
    reveal(le64_bytes);
    let f = set[0];
    assert(slice_of(f, 4, 2) =~= le16_bytes(
        if is_dir {
            0x10
        } else {
            0x20
        },
    ));
    assert(slice_of(f, 8, 4) =~= le32_bytes(0x5821_0000));
    assert(slice_of(f, 12, 4) =~= le32_bytes(0x5821_0000));
    assert(slice_of(f, 16, 4) =~= le32_bytes(0x5821_0000));
    read_16(
        f,
        4,
        if is_dir {
            0x10
        } else {
            0x20
        },
    );
    read_32(f, 8, 0x5821_0000);
    read_32(f, 12, 0x5821_0000);
    read_32(f, 16, 0x5821_0000);
    let s = set[1];
    assert(slice_of(s, 4, 2) =~= le16_bytes(hash_of(upcase, units)));
    assert(slice_of(s, 8, 8) =~= le64_bytes(valid_len));
    assert(slice_of(s, 20, 4) =~= le32_bytes(first_cluster));
    assert(slice_of(s, 24, 8) =~= le64_bytes(data_len));
    read_16(s, 4, hash_of(upcase, units));
    read_64(s, 8, valid_len);
    read_32(s, 20, first_cluster);
    read_64(s, 24, data_len);
    if 2 <= j < set.len() {
        let piece = name_part(units, j - 2);
        let at = 15 * (j - 2) + k;
        let u = if at < units.len() {
            units[at]
        } else {
            0
        };
        assert(k < piece.len() <==> at < units.len());
        assert((2 + 2 * k - 2) / 2 == k && (3 + 2 * k - 2) / 2 == k);
        assert(slice_of(set[j], 2 + 2 * k, 2) =~= le16_bytes(u));
        read_16(set[j], 2 + 2 * k, u);
    }
}

/// A new volume's label, of type 0x83, is VAULTPONY.
pub proof fn a_new_volume_has_its_label(k: int)
    requires
        0 <= k < 9,
    ensures
        label_entry().len() == 32,
        label_entry()[0] == 0x83,
        label_entry()[1] == 9,
        le16(label_entry(), 2 + 2 * k) == seq!['V', 'A', 'U', 'L', 'T', 'P', 'O', 'N', 'Y'][k] as u16,
{
    let e = label_entry();
    bytes_have_their_worth(e, 2 + 2 * k);
    let c = seq!['V', 'A', 'U', 'L', 'T', 'P', 'O', 'N', 'Y'];
    assert(c[0] as int == 0x56 && c[1] as int == 0x41 && c[2] as int == 0x55 && c[3] as int == 0x4C
        && c[4] as int == 0x54 && c[5] as int == 0x50 && c[6] as int == 0x4F && c[7] as int == 0x4E
        && c[8] as int == 0x59);
    assert(k == 0 || k == 1 || k == 2 || k == 3 || k == 4 || k == 5 || k == 6 || k == 7 || k == 8);
}

/// Formatting writes the boot regions last, so that what was never finished is
/// no volume, and then flushes.
pub proof fn boot_regions_are_written_last(disk: Disk, total_bytes: u64, serial: u32)
    requires
        formatted(disk, total_bytes, serial).1 is Ok,
    ensures
        ({
            let log = formatted(disk, total_bytes, serial).0.log;
            let n = disk.log.len() as int;
            &&& log.len() == n + 7
            &&& log[n] is Write && log[n + 1] is Write && log[n + 2] is Write && log[n + 3] is Write
            &&& log[n + 4] matches DiskOp::Write { offset, .. } && offset == 0
            &&& log[n + 5] matches DiskOp::Write { offset, .. } && offset == 6144
            &&& log[n + 6] is Flush
        }),
{
    let l = layout_of(total_bytes)->Ok_0;
    let p = pieces(l, serial);
    reveal_with_fuel(pieces_from, 7);
    assert(p.len() == 6);
    assert(p[4].0 == 0 && p[5].0 == 6144);
}

} // verus!
