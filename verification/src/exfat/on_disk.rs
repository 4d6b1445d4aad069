//! Where things lie in an exFAT volume, byte by byte, and what that means to
//! whoever else reads it.

use vstd::prelude::*;

use super::boot::{boot_region, boot_sector_fault, boot_sum, exfat_name, pow2, repeats, Geometry};
use super::clusters::{bit_is_set, bit_of, bitmap_slot, with_bit};
use super::dir::{
    a_step_rotates_right, clusters_of, directory, name_pieces, parsed_from, per_cluster, raw_at,
    roll16, set_entry, set_sum, stamp_ms, stopper, walk_from, walked, AtBitmap, AtUpcase,
    EntryModel,
};
use super::fat::{chain_from, chain_of, fat_at, fat_slot};
use super::fs::{
    bitmap_entry, children, file_byte, file_bytes, file_chain, file_read, lookup_result,
    named_from, same_name, upcase_entry, BitmapLoc, Volume,
};
use super::io::ExFault;
use super::tree_laws::owned_clusters;
use super::upcase::{
    expanded, identity_run, lesser, parts, stored_table, upcased, upcased_all, words_of,
};
use super::ways::lookup_goes_through;
use super::write::{hash_of, size_after, unused, usable, FIXED_TS};
use crate::bytes::{bytes_have_their_worth, le16, le32, le64, slice_of};
use crate::text::{components, slashes_part_components, text_of_utf16, utf16_of};
use crate::time::{moment_ms, month_start};

verus! {

/// What a boot region says. It is named `EXFAT` and ends as a boot sector does;
/// byte 108 is the sector size as a power of two, from 512 bytes to 4096, and
/// byte 109 the sectors of a cluster, of at most 32 MiB; its numbers are
/// little-endian words from 80 on. Its first eleven sectors have their checksum
/// in every word of the twelfth. The root lies in a cluster that there is.
pub proof fn what_a_boot_region_says(img: Seq<u8>)
    ensures
        boot_region(img) matches Ok(geo) ==> {
            let bps = geo.bytes_per_sector as int;
            &&& img[3] == 0x45 && img[4] == 0x58 && img[5] == 0x46 && img[6] == 0x41 && img[7]
                == 0x54 && img[8] == 0x20 && img[9] == 0x20 && img[10] == 0x20
            &&& img[510] == 0x55 && img[511] == 0xAA
            &&& forall|i: int| 11 <= i < 64 ==> #[trigger] img[i] == 0
            &&& 9 <= img[108] <= 12
            &&& img[108] + img[109] <= 25
            &&& img[108] == 9 ==> bps == 512
            &&& img[108] == 10 ==> bps == 1024
            &&& img[108] == 11 ==> bps == 2048
            &&& img[108] == 12 ==> bps == 4096
            &&& geo.sectors_per_cluster as int == pow2(img[109] as int)
            &&& geo.fat_offset_sectors == le32(img, 80) && geo.fat_offset_sectors >= 24
            &&& geo.fat_length_sectors == le32(img, 84)
            &&& geo.cluster_heap_offset_sectors == le32(img, 88)
            &&& geo.cluster_count == le32(img, 92)
            &&& geo.root_first_cluster == le32(img, 96)
            &&& 2 <= geo.root_first_cluster < geo.cluster_count + 2
            &&& img.len() >= 12 * bps
            &&& forall|k: int|
                0 <= k < bps / 4 ==> #[trigger] le32(slice_of(img, 11 * bps, bps), 4 * k) == boot_sum(
                    img,
                    (11 * bps) as nat,
                )
        },
{
    if let Ok(geo) = boot_region(img) {
        let bs = img.take(512);
        assert(boot_sector_fault(bs) is None);
        let name = slice_of(bs, 3, 8);
        let e = exfat_name();
        assert(e[0] == 0x45 && e[1] == 0x58 && e[2] == 0x46 && e[3] == 0x41 && e[4] == 0x54 && e[5]
            == 0x20 && e[6] == 0x20 && e[7] == 0x20);
        assert(name[0] == img[3] && name[1] == img[4] && name[2] == img[5] && name[3] == img[6]
            && name[4] == img[7] && name[5] == img[8] && name[6] == img[9] && name[7] == img[10]);
        assert forall|i: int| 11 <= i < 64 implies #[trigger] img[i] == 0 by {
            assert(bs[i] == img[i]);
        }
        assert(bs[108] == img[108] && bs[109] == img[109] && bs[510] == img[510] && bs[511]
            == img[511]);
        reveal_with_fuel(pow2, 14);
        lemma_power_fits(img[109] as int);
        reveal(le32);
        let bps = geo.bytes_per_sector as int;
        assert(repeats(slice_of(img, 11 * bps, bps), boot_sum(img, (11 * bps) as nat)));
    }
}

proof fn lemma_power_fits(n: int)
    requires
        0 <= n <= 16,
    ensures
        1 <= pow2(n) <= 0x1_0000,
{
    reveal_with_fuel(pow2, 17);
}

/// Powers of two double.
pub proof fn powers_double(n: int)
    requires
        0 <= n,
    ensures
        pow2(0) == 1,
        pow2(n + 1) == pow2(n) + pow2(n),
{
}

/// The heap begins at cluster 2, the table at its own offset with a word for
/// cluster 0; clusters follow each other by their length, and words by four
/// bytes. There are as many clusters as the volume says.
pub proof fn clusters_follow_each_other(geo: Geometry, cluster: int)
    ensures
        geo.cluster_len() == geo.bytes_per_sector * geo.sectors_per_cluster,
        geo.cluster_start(2) == geo.bytes_per_sector * geo.cluster_heap_offset_sectors,
        geo.cluster_start(cluster + 1) == geo.cluster_start(cluster) + geo.cluster_len(),
        fat_slot(geo, 0) == geo.bytes_per_sector * geo.fat_offset_sectors,
        fat_slot(geo, cluster + 1) == fat_slot(geo, cluster) + 4,
        geo.has_cluster(cluster) <==> 2 <= cluster <= geo.cluster_count + 1,
        geo.cluster_at(cluster) is Ok <==> geo.has_cluster(cluster),
        geo.cluster_at(cluster) matches Ok(at) ==> at == geo.cluster_start(cluster),
{
    let n = geo.cluster_len();
    assert((cluster + 1 - 2) * n == (cluster - 2) * n + n) by (nonlinear_arith);
}

/// A chain begins with its first cluster, goes from each cluster to the one
/// that its word in the table names, and ends where the word is all ones.
#[verifier::rlimit(30)]
pub proof fn a_chain_goes_from_word_to_word(
    img: Seq<u8>,
    geo: Geometry,
    first: u32,
    max_len: Option<u64>,
    i: int,
)
    ensures
        chain_of(img, geo, first, max_len) matches Ok(chain) ==> {
            &&& chain.len() > 0 ==> chain[0] == first
            &&& 0 <= i < chain.len() - 1 ==> chain[i + 1] == le32(
                img,
                geo.bytes_per_sector * geo.fat_offset_sectors + 4 * chain[i],
            )
            &&& max_len is None && chain.len() > 0 ==> le32(
                img,
                geo.bytes_per_sector * geo.fat_offset_sectors + 4 * chain.last(),
            ) == 0xFFFF_FFFF
            &&& max_len matches Some(n) ==> chain.len() <= n
            &&& 0 <= i < chain.len() ==> 2 <= chain[i] <= geo.cluster_count + 1
        },
{
    match max_len {
        Some(n) => lemma_chain_words(img, geo, first, 0, n as int, true, i),
        None => lemma_chain_words(img, geo, first, 0, geo.cluster_count as int, false, i),
    }
}

proof fn lemma_chain_words(
    img: Seq<u8>,
    geo: Geometry,
    cur: u32,
    n: int,
    cap: int,
    bounded: bool,
    i: int,
)
    requires
        0 <= n,
    ensures
        chain_from(img, geo, cur, n, cap, bounded) matches Ok(chain) ==> {
            &&& chain.len() > 0 ==> chain[0] == cur
            &&& 0 <= i < chain.len() - 1 ==> chain[i + 1] == le32(
                img,
                geo.bytes_per_sector * geo.fat_offset_sectors + 4 * chain[i],
            )
            &&& !bounded ==> chain.len() > 0 && le32(
                img,
                geo.bytes_per_sector * geo.fat_offset_sectors + 4 * chain.last(),
            ) == 0xFFFF_FFFF
            &&& bounded && n <= cap ==> chain.len() <= cap - n
            &&& 0 <= i < chain.len() ==> 2 <= chain[i] <= geo.cluster_count + 1
        },
    decreases cap - n,
{
    if n < cap {
        if let Ok(next) = fat_at(img, geo, cur as int) {
            if next != 0xFFFF_FFFF && next != 0xFFFF_FFF7 {
                lemma_chain_words(img, geo, next, n + 1, cap, bounded, i - 1);
                lemma_chain_words(img, geo, next, n + 1, cap, bounded, 0);
                if let Ok(rest) = chain_from(img, geo, next, n + 1, cap, bounded) {
                    let chain = seq![cur] + rest;
                    if 0 < i < chain.len() {
                        assert(chain[i] == rest[i - 1]);
                    }
                    if 0 < i < chain.len() - 1 {
                        assert(chain[i + 1] == rest[i]);
                    }
                    if rest.len() > 0 {
                        assert(chain[1] == rest[0]);
                        assert(chain.last() == rest.last());
                    }
                }
            }
        }
    }
}

/// Cluster `c` has bit `(c - 2) % 8`, lowest first, of byte `(c - 2) / 8` of
/// the bitmap; setting or clearing it changes no other bit.
pub proof fn each_cluster_has_its_bit(geo: Geometry, bm: BitmapLoc, b: u8, c: u32, on: bool)
    requires
        2 <= c,
    ensures
        ({
            let k = ((c - 2) % 8) as u8;
            &&& bit_is_set(b, c as int) <==> (b >> k) & 1 == 1
            &&& with_bit(b, c as int, on) == (if on {
                b | (1u8 << k)
            } else {
                b & !(1u8 << k)
            })
        }),
        bitmap_slot(geo, bm, c as int) matches Ok(at) ==> at == geo.cluster_start(
            bm.first_cluster as int,
        ) + (c - 2) / 8,
        bitmap_slot(geo, bm, c as int) is Ok <==> (c - 2) / 8 < bm.length_bytes
            && geo.has_cluster(bm.first_cluster as int),
{
    let k = ((c - 2) % 8) as u8;
    lemma_bit(b, k, bit_of(c as int) as u8, on);
}

proof fn lemma_bit(b: u8, k: u8, m: u8, on: bool)
    requires
        k < 8,
        m == (if k == 0 {
            1u8
        } else if k == 1 {
            2u8
        } else if k == 2 {
            4u8
        } else if k == 3 {
            8u8
        } else if k == 4 {
            16u8
        } else if k == 5 {
            32u8
        } else if k == 6 {
            64u8
        } else {
            128u8
        }),
    ensures
        (b as int / m as int) % 2 == 1 <==> (b >> k) & 1 == 1,
        on ==> (b | (1u8 << k)) as int == (if (b as int / m as int) % 2 == 1 {
            b as int
        } else {
            b + m
        }),
        !on ==> (b & !(1u8 << k)) as int == (if (b as int / m as int) % 2 == 1 {
            b - m
        } else {
            b as int
        }),
{
    assert(k < 8 ==> m == 1u8 << k) by (bit_vector)
        requires
            k < 8,
            m == (if k == 0 {
                1u8
            } else if k == 1 {
                2u8
            } else if k == 2 {
                4u8
            } else if k == 3 {
                8u8
            } else if k == 4 {
                16u8
            } else if k == 5 {
                32u8
            } else if k == 6 {
                64u8
            } else {
                128u8
            }),
    ;
    assert((b / (1u8 << k)) % 2 == 1 <==> (b >> k) & 1 == 1) by (bit_vector)
        requires
            k < 8,
    ;
    assert(((b >> k) & 1 == 1) ==> (b | (1u8 << k)) == b && (b & !(1u8 << k)) == b - (1u8 << k))
        by (bit_vector)
        requires
            k < 8,
    ;
    assert(!((b >> k) & 1 == 1) ==> (b & !(1u8 << k)) == b && (b | (1u8 << k)) == b + (1u8 << k))
        by (bit_vector)
        requires
            k < 8,
    ;
    assert(b as int / m as int == (b / m) as int);
}

/// What an entry set says. Its checksum stands at byte 2 of the file entry, its
/// attributes at 4, of which bit 4 tells a directory, and its modification at
/// 12, with hundredths at 22 and an offset from UTC at 24. The stream entry,
/// of type 0xC0, says at bit 1 of byte 1 that the clusters lie in a row, at
/// byte 3 how long the name is, at 8 how much is valid, at 20 the first cluster
/// and at 24 the length.
pub proof fn what_an_entry_set_says(set: Seq<Seq<u8>>)
    requires
        set.len() >= 2,
    ensures
        set_entry(set) is Ok <==> set_sum(set, (32 * set.len()) as nat) == le16(set[0], 2)
            && set[1][0] == 0xC0 && name_pieces(set, 2).len() >= set[1][3],
        set_entry(set) matches Ok(e) ==> {
            let stamp = stamp_ms(le32(set[0], 12), set[0][22], set[0][24]);
            &&& e.is_dir <==> le16(set[0], 4) / 16 % 2 == 1
            &&& e.no_fat_chain <==> set[1][1] / 2 % 2 == 1
            &&& e.valid_size == le64(set[1], 8)
            &&& e.first_cluster == le32(set[1], 20)
            &&& e.size == le64(set[1], 24)
            &&& e.name == text_of_utf16(name_pieces(set, 2).take(set[1][3] as int))
            &&& stamp is None ==> e.mtime_ms is None
            &&& stamp matches Some(ms) ==> e.mtime_ms == Some(ms as i64)
        },
{
}

/// The name of a set is what its name entries hold, of type 0xC1, from the
/// third entry of the set on: fifteen little-endian units each, from byte 2 on.
pub proof fn a_name_is_in_its_entries(set: Seq<Seq<u8>>, j: int, k: int)
    requires
        2 <= j <= set.len(),
        0 <= k < 15,
    ensures
        j == set.len() || set[j][0] != 0xC1 ==> name_pieces(set, j) == Seq::<u16>::empty(),
        j < set.len() && set[j][0] == 0xC1 ==> {
            let all = name_pieces(set, j);
            &&& all.len() == 15 + name_pieces(set, j + 1).len()
            &&& all[k] == le16(set[j], 2 + 2 * k)
            &&& all.skip(15) == name_pieces(set, j + 1)
        },
{
    if j < set.len() && set[j][0] == 0xC1 {
        assert(name_pieces(set, j).skip(15) =~= name_pieces(set, j + 1));
    }
}

/// A directory's entries are its file entries, of type 0x85, each with as many
/// entries behind it as its byte 1 says; what is of another type is passed
/// over.
pub proof fn a_directory_is_its_sets(raws: Seq<Seq<u8>>, i: int)
    requires
        0 <= i < raws.len(),
    ensures
        raws[i][0] != 0x85 ==> parsed_from(raws, i) == parsed_from(raws, i + 1),
        raws[i][0] == 0x85 && (raws[i][1] < 2 || i + 1 + raws[i][1] > raws.len()) ==> parsed_from(
            raws,
            i,
        ) is Err,
        raws[i][0] == 0x85 && raws[i][1] >= 2 && i + 1 + raws[i][1] <= raws.len() ==> {
            let next = i + 1 + raws[i][1];
            parsed_from(raws, i) matches Ok(all) ==> {
                &&& set_entry(raws.subrange(i, next)) == Ok::<EntryModel, ExFault>(all[0])
                &&& parsed_from(raws, next) == Ok::<Seq<EntryModel>, ExFault>(all.skip(1))
            }
        },
        parsed_from(raws, raws.len() as int) == Ok::<Seq<EntryModel>, ExFault>(seq![]),
{
    if raws[i][0] == 0x85 && raws[i][1] >= 2 && i + 1 + raws[i][1] <= raws.len() {
        if let Ok(all) = parsed_from(raws, i) {
            let rest = parsed_from(raws, i + 1 + raws[i][1])->Ok_0;
            assert(all.skip(1) =~= rest);
        }
    }
}

/// A timestamp holds the years since 1980, month, day, hour, minute and two
/// seconds in 7, 4, 5, 5, 6 and 5 bits, highest first; hundredths of a second
/// go on top. An offset from UTC, where the top bit of its byte is set, is a
/// number of quarters of an hour that is taken off.
pub proof fn a_timestamp_is_its_fields(
    year: int,
    month: int,
    day: int,
    hour: int,
    minute: int,
    two: int,
    centis: u8,
    quarters: int,
)
    requires
        1980 <= year <= 2107,
        1 <= month <= 12,
        1 <= day <= 31,
        0 <= hour <= 31,
        0 <= minute <= 63,
        0 <= two <= 31,
        -64 <= quarters < 64,
    ensures
        ({
            let ts = ((((((year - 1980) * 16 + month) * 32 + day) * 32 + hour) * 64 + minute) * 32
                + two) as u32;
            let utc = (0x80 + (if quarters < 0 {
                quarters + 128
            } else {
                quarters
            })) as u8;
            let local = moment_ms(
                year,
                month,
                day,
                3600 * hour + 60 * minute + 2 * two,
                10 * centis,
            );
            &&& stamp_ms(ts, centis, 0) == Some(local)
            &&& stamp_ms(ts, centis, utc) == Some(local - 900_000 * quarters)
        }),
{
    lemma_fields(year - 1980, month, day, hour, minute, two);
}

/// A timestamp without a month or a day of one is none.
pub proof fn no_day_is_no_date(ts: u32, centis: u8, utc: u8)
    ensures
        stamp_ms(ts, centis, utc) is None <==> (ts >> 21) & 15 == 0 || (ts >> 21) & 15 > 12 || (ts
            >> 16) & 31 == 0,
{
    assert((ts >> 21) & 15 == ts / 0x20_0000 % 16) by (bit_vector);
    assert((ts >> 16) & 31 == ts / 0x1_0000 % 32) by (bit_vector);
}

#[verifier::spinoff_prover]
proof fn lemma_fields(years: int, month: int, day: int, hour: int, minute: int, two: int)
    requires
        0 <= years <= 127,
        1 <= month <= 12,
        1 <= day <= 31,
        0 <= hour <= 31,
        0 <= minute <= 63,
        0 <= two <= 31,
    ensures
        ({
            let ts = ((((years * 16 + month) * 32 + day) * 32 + hour) * 64 + minute) * 32 + two;
            &&& 0 <= ts <= u32::MAX
            &&& ts % 32 == two
            &&& ts / 0x20 % 64 == minute
            &&& ts / 0x800 % 32 == hour
            &&& ts / 0x1_0000 % 32 == day
            &&& ts / 0x20_0000 % 16 == month
            &&& ts / 0x200_0000 == years
        }),
{
    let a = years * 16 + month;
    let b = a * 32 + day;
    let c = b * 32 + hour;
    let d = c * 64 + minute;
    let ts = d * 32 + two;
    assert(ts / 32 == d);
    assert(ts / 0x800 == c);
    assert(ts / 0x1_0000 == b);
    assert(ts / 0x20_0000 == a);
    assert(ts / 0x200_0000 == years);
}

/// What is made here is dated the first of January 2024.
pub proof fn new_entries_are_dated()
    ensures
        stamp_ms(FIXED_TS, 0, 0) == Some(moment_ms(2024, 1, 1, 0, 0)),
{
    assert(month_start(1) == 0);
}

/// A name's hash takes two steps for each of its code units, in upper case,
/// the lower byte first; each rotates right by a bit and adds the byte.
pub proof fn a_name_hash_steps_through_its_bytes(upcase: Seq<u16>, units: Seq<u16>, u: u16)
    ensures
        hash_of(upcase, seq![]) == 0,
        ({
            let up = if (u as int) < upcase.len() {
                upcase[u as int]
            } else {
                u
            };
            let sum = hash_of(upcase, units);
            let mid = ((((sum >> 1) | (sum << 15)) + up % 256) % 0x1_0000) as u16;
            hash_of(upcase, units.push(u)) as int == (((mid >> 1) | (mid << 15)) + up / 256)
                % 0x1_0000
        }),
{
    let up = upcased(upcase, u);
    let sum = hash_of(upcase, units);
    assert(units.push(u).drop_last() =~= units);
    a_step_rotates_right(sum, (up % 0x100) as u8);
    a_step_rotates_right(roll16(sum, (up % 0x100) as u8), (up / 0x100) as u8);
}

/// Names are the same where they have as many code units and each of one is in
/// upper case what the other's is; units that the table does not reach are
/// their own upper case.
#[verifier::spinoff_prover]
pub proof fn same_names_have_the_same_upper_case(upcase: Seq<u16>, a: Seq<char>, b: Seq<char>)
    ensures
        same_name(upcase, a, b) <==> utf16_of(a).len() == utf16_of(b).len() && forall|i: int|
            0 <= i < utf16_of(a).len() ==> upcased(upcase, #[trigger] utf16_of(a)[i]) == upcased(
                upcase,
                utf16_of(b)[i],
            ),
        forall|u: u16|
            upcased(upcase, u) == (if (u as int) < upcase.len() {
                upcase[u as int]
            } else {
                u
            }),
{
    let x = upcased_all(upcase, utf16_of(a));
    let y = upcased_all(upcase, utf16_of(b));
    assert(x.len() == utf16_of(a).len() && y.len() == utf16_of(b).len());
    if x == y {
        assert forall|i: int| 0 <= i < utf16_of(a).len() implies upcased(
            upcase,
            #[trigger] utf16_of(a)[i],
        ) == upcased(upcase, utf16_of(b)[i]) by {
            assert(x[i] == y[i]);
            assert(x[i] == upcased(upcase, utf16_of(a)[i]));
            assert(y[i] == upcased(upcase, utf16_of(b)[i]));
        }
    } else if utf16_of(a).len() == utf16_of(b).len() && forall|i: int|
        0 <= i < utf16_of(a).len() ==> upcased(upcase, #[trigger] utf16_of(a)[i]) == upcased(
            upcase,
            utf16_of(b)[i],
        ) {
        assert(x =~= y);
    }
}

/// The entry of a name is the first that has it.
pub proof fn the_first_of_a_name_is_meant(
    upcase: Seq<u16>,
    entries: Seq<EntryModel>,
    name: Seq<char>,
    j: int,
)
    requires
        0 <= j <= entries.len(),
    ensures
        match named_from(upcase, entries, name, j) {
            Some(e) => exists|i: int|
                j <= i < entries.len() && e == #[trigger] entries[i] && same_name(
                    upcase,
                    e.name,
                    name,
                ) && forall|k: int|
                    j <= k < i ==> !same_name(upcase, (#[trigger] entries[k]).name, name),
            None => forall|k: int|
                j <= k < entries.len() ==> !same_name(upcase, (#[trigger] entries[k]).name, name),
        },
    decreases entries.len() - j,
{
    if j < entries.len() && !same_name(upcase, entries[j].name, name) {
        the_first_of_a_name_is_meant(upcase, entries, name, j + 1);
    } else if j < entries.len() {
        assert(entries[j] == entries[j]);
    }
}

/// An up-case table lists one word for each unit; a word of all ones and a
/// number behind it stand for as many units that are their own upper case.
pub proof fn a_table_lists_word_by_word(words: Seq<u16>, i: int, map: Seq<u16>)
    requires
        0 <= i < words.len(),
        map.len() <= 0xFFFF,
    ensures
        words[i] != 0xFFFF ==> expanded(words, i, map) == expanded(
            words,
            i + 1,
            map.push(words[i]),
        ),
        words[i] == 0xFFFF && i + 1 < words.len() && map.len() + words[i + 1] <= 0x1_0000
            ==> expanded(words, i, map) == expanded(
            words,
            i + 2,
            map + Seq::new(words[i + 1] as nat, |k: int| (map.len() + k) as u16),
        ),
        expanded(words, words.len() as int, map) == Ok::<Seq<u16>, ExFault>(map),
{
    if words[i] == 0xFFFF && i + 1 < words.len() {
        assert(identity_run(map.len() as int, words[i + 1] as int) =~= Seq::new(
            words[i + 1] as nat,
            |k: int| (map.len() + k) as u16,
        ));
    }
}

/// A byte of a file lies as far into one of its clusters as its place is beyond
/// whole clusters; that cluster is of the chain the one with as many before it,
/// or of a run as far behind the first. Beyond what is valid it is zero.
pub proof fn a_byte_lies_in_its_cluster(
    img: Seq<u8>,
    geo: Geometry,
    e: EntryModel,
    chain: Seq<u32>,
    pos: int,
    idx: int,
    at: int,
)
    requires
        0 <= at < geo.cluster_len(),
        0 <= idx,
        pos == idx * geo.cluster_len() + at,
    ensures
        pos >= e.valid_size ==> file_byte(img, geo, e, chain, pos) == Ok::<u8, ExFault>(0),
        pos < e.valid_size && !e.no_fat_chain && idx < chain.len() && geo.has_cluster(
            chain[idx] as int,
        ) && geo.cluster_start(chain[idx] as int) + at < img.len() ==> file_byte(
            img,
            geo,
            e,
            chain,
            pos,
        ) == Ok::<u8, ExFault>(img[geo.cluster_start(chain[idx] as int) + at]),
        pos < e.valid_size && e.no_fat_chain && geo.has_cluster(e.first_cluster + idx)
            && geo.cluster_count <= 0xFFFF_FFFD && geo.cluster_start(e.first_cluster + idx) + at
            < img.len() ==> file_byte(img, geo, e, chain, pos) == Ok::<u8, ExFault>(
            img[geo.cluster_start(e.first_cluster + idx) + at],
        ),
{
    let n = geo.cluster_len();
    assert(pos / n == idx && pos % n == at) by (nonlinear_arith)
        requires
            0 <= at < n,
            pos == idx * n + at,
    ;
}

/// A read gives as many bytes as are asked for and there are, each the file's
/// own at its place; beyond the end it gives none.
pub proof fn a_read_gives_the_bytes_of_a_file(
    img: Seq<u8>,
    geo: Geometry,
    e: EntryModel,
    offset: int,
    len: int,
    i: int,
)
    requires
        0 <= offset,
        0 <= len,
        !e.is_dir,
    ensures
        offset >= e.size ==> file_read(img, geo, e, offset, len) == Ok::<Seq<u8>, ExFault>(seq![]),
        offset < e.size ==> (file_read(img, geo, e, offset, len) matches Ok(data) ==> {
            &&& data.len() == (if offset + len <= e.size {
                len
            } else {
                e.size - offset
            })
            &&& 0 <= i < data.len() ==> file_byte(
                img,
                geo,
                e,
                file_chain(img, geo, e)->Ok_0,
                offset + i,
            ) == Ok::<u8, ExFault>(data[i])
        }),
{
    if offset < e.size {
        if let Ok(chain) = file_chain(img, geo, e) {
            lemma_bytes_of(img, geo, e, chain, offset, lesser(len, e.size - offset), i);
        }
    }
}

proof fn lemma_bytes_of(
    img: Seq<u8>,
    geo: Geometry,
    e: EntryModel,
    chain: Seq<u32>,
    offset: int,
    n: int,
    i: int,
)
    requires
        0 <= n,
    ensures
        file_bytes(img, geo, e, chain, offset, n) matches Ok(data) ==> {
            &&& data.len() == n
            &&& 0 <= i < n ==> file_byte(img, geo, e, chain, offset + i) == Ok::<u8, ExFault>(
                data[i],
            )
        },
    decreases n,
{
    if n > 0 {
        lemma_bytes_of(img, geo, e, chain, offset, n - 1, i);
    }
}

/// So many parts of a length hold a number, and one fewer does not; a write
/// makes a file as long as it reaches, and never shorter.
pub proof fn parts_hold_a_number(a: int, b: int, size: u64, offset: u64, len: nat)
    requires
        0 < b,
        0 <= a,
    ensures
        parts(a, b) * b >= a,
        a > 0 ==> (parts(a, b) - 1) * b < a,
        a == 0 ==> parts(a, b) == 0,
        size_after(size, offset, len) >= size,
        size_after(size, offset, len) >= offset + len,
        size_after(size, offset, len) == size || size_after(size, offset, len) == offset + len,
{
    let q = parts(a, b);
    assert(q * b >= a && (q - 1) * b < a || a == 0) by (nonlinear_arith)
        requires
            0 < b,
            0 <= a,
            q == (a + b - 1) / b,
    ;
    assert(a == 0 ==> q == 0) by (nonlinear_arith)
        requires
            0 < b,
            q == (a + b - 1) / b,
    ;
}

/// An entry is in use where the top bit of its type is set; one that is given
/// up loses that bit and keeps everything else.
pub proof fn an_entry_given_up_loses_one_bit(raws: Seq<Seq<u8>>, i: int, j: int)
    requires
        0 <= i < raws.len(),
        0 <= j < raws[i].len(),
    ensures
        usable(raws[i]) <==> raws[i][0] & 0x80 == 0,
        unused(raws).len() == raws.len(),
        unused(raws)[i].len() == raws[i].len(),
        unused(raws)[i][j] == (if j == 0 {
            raws[i][0] & 0x7F
        } else {
            raws[i][j]
        }),
{
    let b = raws[i][0];
    assert(b & 0x80 == 0 <==> b < 0x80) by (bit_vector);
    assert(b & 0x7F == b % 0x80) by (bit_vector);
}

/// What is read of a directory, entry by entry: the `k`-th raw entry is the 32
/// bytes that lie `k` entries into its clusters. The walk ends where an entry of
/// type 0 ends the directory, where its recorded length does, or where its
/// clusters do.
#[verifier::rlimit(30)]
pub proof fn a_walk_reads_entry_by_entry(
    img: Seq<u8>,
    geo: Geometry,
    clusters: Seq<int>,
    data_len: int,
    k: int,
    stops: spec_fn(Seq<u8>) -> bool,
    i: int,
)
    requires
        geo.cluster_len() >= 32,
        0 <= k <= clusters.len() * (geo.cluster_len() / 32),
        forall|raw: Seq<u8>| !#[trigger] stops(raw),
    ensures
        walk_from(img, geo, clusters, data_len, k, stops) matches Ok(raws) ==> {
            let per = geo.cluster_len() / 32;
            let end = k + raws.len();
            let last = geo.cluster_start(clusters[end / per]) + 32 * (end % per);
            &&& end <= clusters.len() * per
            &&& 0 <= i < raws.len() ==> {
                let at = geo.cluster_start(clusters[(k + i) / per]) + 32 * ((k + i) % per);
                raws[i] == img.subrange(at, at + 32) && raws[i][0] != 0 && 32 * (k + i) < data_len
            }
            &&& end == clusters.len() * per || 32 * end >= data_len || clusters[end / per]
                > 0xFFFF_FFFF || img.subrange(last, last + 32)[0] == 0
        },
    decreases clusters.len() * (geo.cluster_len() / 32) - k,
{
    let per = geo.cluster_len() / 32;
    if k < clusters.len() * per {
        if let Ok(Some(raw)) = raw_at(img, geo, clusters, data_len, k) {
            if raw[0] != 0 {
                a_walk_reads_entry_by_entry(img, geo, clusters, data_len, k + 1, stops, i - 1);
                if let Ok(rest) = walk_from(img, geo, clusters, data_len, k + 1, stops) {
                    let raws = seq![raw] + rest;
                    if 0 < i < raws.len() {
                        assert(raws[i] == rest[i - 1]);
                        assert(k + 1 + (i - 1) == k + i);
                    }
                    assert(k + raws.len() == k + 1 + rest.len());
                }
            }
        }
    }
}

/// The clusters of a directory are its chain's, or a run from its first on as
/// long as its length asks for, but one at least and no more than there are.
pub proof fn a_directory_has_its_clusters(
    img: Seq<u8>,
    geo: Geometry,
    first: u32,
    data_len: u64,
    i: int,
)
    requires
        geo.cluster_len() > 0,
    ensures
        clusters_of(img, geo, first, true, data_len) matches Ok(run) ==> {
            &&& 0 <= i < run.len() ==> run[i] == first + i
            &&& run.len() <= geo.cluster_count
            &&& run.len() < geo.cluster_count ==> run.len() * geo.cluster_len() >= data_len
            &&& run.len() > 1 ==> (run.len() - 1) * geo.cluster_len() < data_len
            &&& run.len() == 0 ==> geo.cluster_count == 0
        },
        clusters_of(img, geo, first, false, data_len) matches Ok(clusters) ==> {
            &&& chain_of(img, geo, first, None) is Ok
            &&& clusters.len() == chain_of(img, geo, first, None)->Ok_0.len()
            &&& 0 <= i < clusters.len() ==> clusters[i] == chain_of(img, geo, first, None)->Ok_0[i]
        },
{
    let n = geo.cluster_len();
    parts_hold_a_number(data_len as int, n, 0, 0, 0);
    let want = parts(data_len as int, n);
    assert(want <= 1 ==> 1 * n >= data_len) by (nonlinear_arith)
        requires
            want * n >= data_len,
            n > 0,
    ;
    assert(want > geo.cluster_count && geo.cluster_count >= 1 ==> (geo.cluster_count - 1) * n
        < data_len) by (nonlinear_arith)
        requires
            data_len > 0 ==> (want - 1) * n < data_len,
            data_len == 0 ==> want == 0,
            n > 0,
    ;
    assert(0 <= want) by (nonlinear_arith)
        requires
            want * n >= data_len,
            n > 0,
            data_len >= 0,
    ;
}

/// Where a volume's bitmap and up-case table lie is said by the first entry of
/// type 0x81 whose lowest flag is clear, and by the first of type 0x82: the
/// first cluster at byte 20 and the length in bytes at 24.
pub proof fn the_root_tells_of_bitmap_and_table(img: Seq<u8>, geo: Geometry)
    ensures
        bitmap_entry(img, geo) matches Ok(Some(bm)) ==> {
            &&& walked(img, geo, geo.root_first_cluster, false, u64::MAX, stopper(AtBitmap))
                matches Ok(raws) && raws.len() > 0 && raws.last()[0] == 0x81 && raws.last()[1] % 2
                == 0 && bm.first_cluster == le32(raws.last(), 20) && bm.length_bytes == le64(
                raws.last(),
                24,
            )
        },
        upcase_entry(img, geo) matches Ok(Some(at)) ==> {
            &&& walked(img, geo, geo.root_first_cluster, false, u64::MAX, stopper(AtUpcase))
                matches Ok(raws) && raws.len() > 0 && raws.last()[0] == 0x82 && at.0 == le32(
                raws.last(),
                20,
            ) && at.1 == le64(raws.last(), 24)
        },
        forall|raw: Seq<u8>| #[trigger] stopper(AtBitmap)(raw) <==> raw[0] == 0x81 && raw[1] % 2 == 0,
        forall|raw: Seq<u8>| #[trigger] stopper(AtUpcase)(raw) <==> raw[0] == 0x82,
{
}

/// A walk with an aim ends at the first entry that it aims at, if there is one.
pub proof fn a_walk_stops_at_its_aim(
    img: Seq<u8>,
    geo: Geometry,
    clusters: Seq<int>,
    data_len: int,
    k: int,
    stops: spec_fn(Seq<u8>) -> bool,
    i: int,
)
    requires
        0 <= k,
    ensures
        walk_from(img, geo, clusters, data_len, k, stops) matches Ok(raws) ==> (0 <= i < raws.len()
            - 1 ==> !stops(raws[i])),
    decreases clusters.len() * per_cluster(geo) - k,
{
    if k < clusters.len() * per_cluster(geo) {
        if let Ok(Some(raw)) = raw_at(img, geo, clusters, data_len, k) {
            if raw[0] != 0 && !stops(raw) {
                a_walk_stops_at_its_aim(img, geo, clusters, data_len, k + 1, stops, i - 1);
                if let Ok(rest) = walk_from(img, geo, clusters, data_len, k + 1, stops) {
                    let raws = seq![raw] + rest;
                    if 0 < i < raws.len() {
                        assert(raws[i] == rest[i - 1]);
                    }
                }
            }
        }
    }
}

/// A stored table is the bytes of its chain, cluster after cluster, as far as
/// its length goes, read as little-endian words.
pub proof fn a_table_lies_in_its_chain(
    img: Seq<u8>,
    geo: Geometry,
    chain: Seq<u32>,
    len: int,
    n: int,
    idx: int,
    at: int,
)
    requires
        0 <= n <= chain.len(),
        0 <= len,
        geo.cluster_len() > 0,
        0 <= idx < n,
        0 <= at < geo.cluster_len(),
        idx * geo.cluster_len() + at < len,
    ensures
        stored_table(img, geo, chain, len, n) matches Ok(raw) ==> {
            &&& raw.len() == len
            &&& geo.has_cluster(chain[idx] as int)
            &&& raw[idx * geo.cluster_len() + at] == img[geo.cluster_start(chain[idx] as int) + at]
        },
    decreases n,
{
    let cl = geo.cluster_len();
    let start = (n - 1) * cl;
    lemma_table_len(img, geo, chain, len, n - 1);
    assert(idx * cl + at < start + cl) by (nonlinear_arith)
        requires
            0 <= idx <= n - 1,
            at < cl,
            start == (n - 1) * cl,
            cl > 0,
    ;
    if idx < n - 1 {
        a_table_lies_in_its_chain(img, geo, chain, len, n - 1, idx, at);
        assert(idx * cl + at < start) by (nonlinear_arith)
            requires
                0 <= idx < n - 1,
                at < cl,
                start == (n - 1) * cl,
                cl > 0,
        ;
    }
    assert(0 <= start) by (nonlinear_arith)
        requires
            n >= 1,
            cl > 0,
            start == (n - 1) * cl,
    ;
    assert(0 <= idx * cl) by (nonlinear_arith)
        requires
            0 <= idx,
            cl > 0,
    ;
}

proof fn lemma_table_len(img: Seq<u8>, geo: Geometry, chain: Seq<u32>, len: int, n: int)
    requires
        0 <= n,
        0 <= len,
        geo.cluster_len() > 0,
    ensures
        stored_table(img, geo, chain, len, n) matches Ok(raw) ==> raw.len() == len,
    decreases n,
{
    if n > 0 {
        lemma_table_len(img, geo, chain, len, n - 1);
        let start = (n - 1) * geo.cluster_len();
        let cl = geo.cluster_len();
        assert(0 <= start) by (nonlinear_arith)
            requires
                n >= 1,
                cl > 0,
                start == (n - 1) * cl,
        ;
    }
}

/// A table's words are its bytes by twos, the lower first.
pub proof fn words_are_pairs_of_bytes(raw: Seq<u8>, k: int)
    requires
        0 <= k < raw.len() / 2,
    ensures
        words_of(raw).len() == raw.len() / 2,
        words_of(raw)[k] as int == raw[2 * k] + 256 * raw[2 * k + 1],
{
    bytes_have_their_worth(raw, 2 * k);
}

/// A path leads through its directories: to the root where it has no component,
/// and else to the entry of its last that the directory holds to which the rest
/// of it leads. What lies below a file is not found.
pub proof fn a_path_leads_through_its_directories(
    img: Seq<u8>,
    vol: Volume,
    dir: Seq<char>,
    name: Seq<char>,
)
    requires
        name.len() > 0,
        !name.contains('/'),
    ensures
        lookup_result(img, vol, seq![]) == Ok::<Option<EntryModel>, ExFault>(None),
        lookup_result(img, vol, dir + seq!['/']) == lookup_result(img, vol, dir),
        lookup_result(img, vol, dir + seq!['/'] + name) == (match lookup_result(img, vol, dir) {
            Err(f) => Err(f),
            Ok(at) => match children(img, vol.geo, at) {
                Err(f) => Err(f),
                Ok(entries) => match named_from(vol.upcase, entries, name, 0) {
                    None => Err(ExFault::NotFound),
                    Some(e) => Ok(Some(e)),
                },
            },
        }),
        forall|e: EntryModel|
            !e.is_dir ==> #[trigger] children(img, vol.geo, Some(e)) == Err::<
                Seq<EntryModel>,
                ExFault,
            >(ExFault::NotFound),
        forall|e: EntryModel|
            e.is_dir ==> #[trigger] children(img, vol.geo, Some(e)) == directory(
                img,
                vol.geo,
                e.first_cluster,
                e.no_fat_chain,
                e.size,
            ),
        children(img, vol.geo, None) == directory(
            img,
            vol.geo,
            vol.geo.root_first_cluster,
            false,
            u64::MAX,
        ),
{
    slashes_part_components(dir, name);
    slashes_part_components(name, name);
    slashes_part_components(dir, seq![]);
    assert(dir + seq!['/'] + Seq::<char>::empty() =~= dir + seq!['/']);
    assert(components(dir) + Seq::<Seq<char>>::empty() =~= components(dir));
    assert(components(dir) + seq![name] =~= components(dir).push(name));
    lookup_goes_through(img, vol, components(dir), name, 0, None);
}

/// What an entry without a chain owns is as many clusters as its length needs,
/// from its first on; and what one with a chain owns is its chain.
pub proof fn what_an_entry_owns(img: Seq<u8>, geo: Geometry, e: EntryModel, i: int)
    requires
        e.first_cluster >= 2,
        geo.cluster_len() > 0,
        geo.cluster_count <= 0xFFFF_FFFD,
        e.no_fat_chain ==> e.first_cluster + parts(e.size as int, geo.cluster_len())
            <= geo.cluster_count + 2,
    ensures
        ({
            let own = owned_clusters(img, geo, e);
            let n = geo.cluster_len();
            &&& e.no_fat_chain ==> {
                &&& own.len() * n >= e.size
                &&& e.size > 0 ==> (own.len() - 1) * n < e.size
                &&& 0 <= i < own.len() ==> own[i] == e.first_cluster + i
            }
            &&& !e.no_fat_chain ==> (chain_of(img, geo, e.first_cluster, None) matches Ok(chain)
                ==> own == chain)
        }),
{
    let n = geo.cluster_len();
    parts_hold_a_number(e.size as int, n, 0, 0, 0);
    let want = parts(e.size as int, n);
    assert(0 <= want) by (nonlinear_arith)
        requires
            want * n >= e.size,
            n > 0,
            e.size >= 0,
    ;
}

} // verus!
