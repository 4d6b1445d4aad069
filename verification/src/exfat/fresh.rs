//! What a new volume is: one that opens, and is empty.

use vstd::prelude::*;

use super::boot::{
    boot_fields, boot_region, boot_sector_fault, boot_sum, exfat_name, pow2, repeats, Geometry,
};
use super::clusters::{allocated, bit_is_set};
use super::dir::{
    directory, is_bitmap, is_upcase, parsed_from, per_cluster, raw_at, stopper, walk_from, walked,
    AtBitmap, AtUpcase, EntryModel, ENTRY_FILE,
};
use super::fat::{chain_from, chain_of, fat_at, fat_slot};
use super::folding::{folding, table_bytes, the_table_is_the_folding};
use super::format::{
    bitmap_fill, bitmap_image, bitmap_record, boot_body, boot_image, boot_sector,
    fat_image, fat_word, formatted, label_entry, layout_of, layout_ok, layouts_are_sound,
    lemma_small_pows, percent_used, pieces, pieces_from, root_image,
    upcase_image, upcase_record, Layout,
};
use super::fs::{bitmap_entry, children, opened, upcase_entry, BitmapLoc, Volume};
use super::io::ExFault;
use super::upcase::{parts, stored_table, table_at};
use crate::bytes::{
    le16_bytes, le32, le32_bytes, le64, le64_bytes, read_32, read_64, slice_of, splice,
    zeros,
};
use crate::device::Disk;

verus! {

broadcast use crate::bytes::group_widths;

/// What opening a new volume learns of it.
pub open spec fn new_volume(l: Layout) -> Volume {
    Volume {
        geo: l.geometry(),
        upcase: folding(),
        bitmap: Some(
            BitmapLoc {
                first_cluster: 2,
                length_bytes: parts(l.cluster_count as int, 8) as u64,
            },
        ),
    }
}

/// Whether the parts of a new volume lie where its layout puts them.
pub open spec fn laid_out(img: Seq<u8>, l: Layout, serial: u32) -> bool {
    &&& slice_of(img, 512 * l.fat_offset, 512 * l.fat_length) == fat_image(l)
    &&& slice_of(img, l.start(2), l.bm_clusters * l.cluster_len()) == bitmap_image(l)
    &&& slice_of(img, l.start(l.upcase_first()), l.upcase_clusters * l.cluster_len())
        == upcase_image(l)
    &&& slice_of(img, l.start(l.root_first()), l.cluster_len()) == root_image(l)
    &&& slice_of(img, 0, 6144) == boot_image(l, serial)
    &&& slice_of(img, 6144, 6144) == boot_image(l, serial)
}

proof fn lemma_kept(img: Seq<u8>, at: int, n: int, offset: int, data: Seq<u8>)
    requires
        0 <= at,
        0 <= n,
        at + n <= img.len(),
        0 <= offset,
        offset + data.len() <= img.len(),
        at + n <= offset || offset + data.len() <= at,
    ensures
        splice(img, offset, data).len() == img.len(),
        slice_of(splice(img, offset, data), at, n) == slice_of(img, at, n),
{
    assert(slice_of(splice(img, offset, data), at, n) =~= slice_of(img, at, n));
}

proof fn lemma_there(img: Seq<u8>, offset: int, data: Seq<u8>)
    requires
        0 <= offset,
        offset + data.len() <= img.len(),
    ensures
        splice(img, offset, data).len() == img.len(),
        slice_of(splice(img, offset, data), offset, data.len() as int) == data,
{
    assert(slice_of(splice(img, offset, data), offset, data.len() as int) =~= data);
}

pub proof fn lemma_places(l: Layout, total_bytes: u64)
    requires
        layout_ok(l, total_bytes),
    ensures
        l.cluster_len() == 4096 || l.cluster_len() == 32768 || l.cluster_len() == 131072,
        l.start(2) == 512 * l.heap_offset,
        l.start(l.upcase_first()) == l.start(2) + l.bm_clusters * l.cluster_len(),
        l.start(l.root_first()) == l.start(l.upcase_first()) + l.upcase_clusters * l.cluster_len(),
        5836 <= l.upcase_clusters * l.cluster_len(),
        l.start(l.root_first()) + l.cluster_len() <= 512 * l.total_sectors,
        512 * l.total_sectors <= total_bytes,
        12288 <= 512 * l.fat_offset,
        512 * l.fat_offset + 512 * l.fat_length == l.start(2),
        l.bm_clusters * l.cluster_len() >= 4096,
        fat_image(l).len() == 512 * l.fat_length,
        bitmap_image(l).len() == l.bm_clusters * l.cluster_len(),
        upcase_image(l).len() == l.upcase_clusters * l.cluster_len(),
        root_image(l).len() == l.cluster_len(),
{
    let cl = l.cluster_len();
    let b = l.bm_clusters as int;
    let up = l.upcase_clusters as int;
    assert((l.root_first() - 2) * cl == b * cl + up * cl) by (nonlinear_arith)
        requires
            l.root_first() - 2 == b + up,
    ;
    assert(b * cl + up * cl + cl <= l.cluster_count * cl) by (nonlinear_arith)
        requires
            b + up + 1 <= l.cluster_count,
            cl > 0,
    ;
    super::format::lemma_parts(5836, cl);
    assert(l.cluster_count * cl == 512 * (l.cluster_count * l.spc)) by (nonlinear_arith)
        requires
            cl == 512 * l.spc,
    ;
    assert(b * cl >= cl) by (nonlinear_arith)
        requires
            b >= 1,
            cl > 0,
    ;
    assert(table_bytes().len() == 5836);
}

proof fn lemma_boot_len(l: Layout, serial: u32)
    ensures
        boot_image(l, serial).len() == 6144,
        boot_sector(l, serial).len() == 512,
{
}

/// Formatting a disk that is as long as it is said to be succeeds wherever
/// there is a layout; it puts every part in its place and changes nothing
/// else.
#[verifier::spinoff_prover]
#[verifier::rlimit(40)]
pub proof fn formatting_lays_out(disk: Disk, total_bytes: u64, serial: u32)
    requires
        total_bytes <= disk.bytes.len(),
        layout_of(total_bytes) is Ok,
    ensures
        ({
            let l = layout_of(total_bytes)->Ok_0;
            let (after, r) = formatted(disk, total_bytes, serial);
            &&& r is Ok
            &&& after.bytes.len() == disk.bytes.len()
            &&& laid_out(after.bytes, l, serial)
            &&& forall|i: int|
                total_bytes <= i < disk.bytes.len() ==> after.bytes[i] == disk.bytes[i]
        }),
{
    layouts_are_sound(total_bytes);
    let l = layout_of(total_bytes)->Ok_0;
    lemma_places(l, total_bytes);
    lemma_boot_len(l, serial);
    let p = pieces(l, serial);
    reveal_with_fuel(pieces_from, 7);
    let b0 = disk.bytes;
    let (o1, d1) = (512 * l.fat_offset, fat_image(l));
    let (o2, d2) = (l.start(2), bitmap_image(l));
    let (o3, d3) = (l.start(l.upcase_first()), upcase_image(l));
    let (o4, d4) = (l.start(l.root_first()), root_image(l));
    let d5 = boot_image(l, serial);
    assert(p =~= seq![(o1, d1), (o2, d2), (o3, d3), (o4, d4), (0int, d5), (6144int, d5)]);
    let b1 = splice(b0, o1, d1);
    lemma_there(b0, o1, d1);
    let b2 = splice(b1, o2, d2);
    lemma_there(b1, o2, d2);
    lemma_kept(b1, o1, d1.len() as int, o2, d2);
    let b3 = splice(b2, o3, d3);
    lemma_there(b2, o3, d3);
    lemma_kept(b2, o1, d1.len() as int, o3, d3);
    lemma_kept(b2, o2, d2.len() as int, o3, d3);
    let b4 = splice(b3, o4, d4);
    lemma_there(b3, o4, d4);
    lemma_kept(b3, o1, d1.len() as int, o4, d4);
    lemma_kept(b3, o2, d2.len() as int, o4, d4);
    lemma_kept(b3, o3, d3.len() as int, o4, d4);
    let b5 = splice(b4, 0, d5);
    lemma_there(b4, 0, d5);
    lemma_kept(b4, o1, d1.len() as int, 0, d5);
    lemma_kept(b4, o2, d2.len() as int, 0, d5);
    lemma_kept(b4, o3, d3.len() as int, 0, d5);
    lemma_kept(b4, o4, d4.len() as int, 0, d5);
    let b6 = splice(b5, 6144, d5);
    lemma_there(b5, 6144, d5);
    lemma_kept(b5, o1, d1.len() as int, 6144, d5);
    lemma_kept(b5, o2, d2.len() as int, 6144, d5);
    lemma_kept(b5, o3, d3.len() as int, 6144, d5);
    lemma_kept(b5, o4, d4.len() as int, 6144, d5);
    lemma_kept(b5, 0, 6144, 6144, d5);
    assert(formatted(disk, total_bytes, serial).0.bytes == b6);
}

proof fn lemma_sum_of_prefix(a: Seq<u8>, b: Seq<u8>, n: nat)
    requires
        n <= a.len(),
        n <= b.len(),
        forall|i: int| 0 <= i < n ==> a[i] == b[i],
    ensures
        boot_sum(a, n) == boot_sum(b, n),
    decreases n,
{
    if n > 0 {
        lemma_sum_of_prefix(a, b, (n - 1) as nat);
    }
}

#[verifier::spinoff_prover]
#[verifier::rlimit(60)]
proof fn lemma_boot_sector(l: Layout, serial: u32, total_bytes: u64)
    requires
        layout_ok(l, total_bytes),
    ensures
        boot_sector_fault(boot_sector(l, serial)) is None,
        boot_fields(boot_sector(l, serial)) == l.geometry(),
{
    let bs = boot_sector(l, serial);
    lemma_boot_len(l, serial);
    lemma_small_pows();
    assert(pow2(9) == 512) by {
        reveal_with_fuel(pow2, 11);
    }
    let head = seq![0xEBu8, 0x76, 0x90] + exfat_name() + zeros(61) + le64_bytes(l.total_sectors);
    assert(head.len() == 80);
    let f1 = head + le32_bytes(l.fat_offset as u32);
    let f2 = f1 + le32_bytes(l.fat_length as u32);
    let f3 = f2 + le32_bytes(l.heap_offset as u32);
    let f4 = f3 + le32_bytes(l.cluster_count as u32);
    let f5 = f4 + le32_bytes(l.root_first() as u32);
    let f6 = f5 + le32_bytes(serial) + le16_bytes(0x0100) + zeros(2);
    let mid = seq![9u8, l.spc_shift, 1, 0x80, percent_used(l) as u8];
    let tail = seq![0x55u8, 0xAA];
    assert(bs == f6 + mid + zeros(397) + tail);
    assert(f6.len() == 108);
    assert(bs[108] == mid[0] && bs[109] == mid[1]);
    assert(bs[510] == tail[0] && bs[511] == tail[1]);
    assert(slice_of(bs, 3, 8) =~= exfat_name());
    assert forall|i: int| 11 <= i < 64 implies #[trigger] bs[i] == 0 by {
        assert(bs[i] == head[i]);
    }
    assert(slice_of(bs, 80, 4) =~= le32_bytes(l.fat_offset as u32));
    assert(slice_of(bs, 84, 4) =~= le32_bytes(l.fat_length as u32));
    assert(slice_of(bs, 88, 4) =~= le32_bytes(l.heap_offset as u32));
    assert(slice_of(bs, 92, 4) =~= le32_bytes(l.cluster_count as u32));
    assert(slice_of(bs, 96, 4) =~= le32_bytes(l.root_first() as u32));
    read_32(bs, 80, l.fat_offset as u32);
    read_32(bs, 84, l.fat_length as u32);
    read_32(bs, 88, l.heap_offset as u32);
    read_32(bs, 92, l.cluster_count as u32);
    read_32(bs, 96, l.root_first() as u32);
}

proof fn lemma_boot_accepted(img: Seq<u8>, l: Layout, serial: u32, total_bytes: u64)
    requires
        layout_ok(l, total_bytes),
        total_bytes <= img.len(),
        laid_out(img, l, serial),
    ensures
        boot_region(img) == Ok::<Geometry, ExFault>(l.geometry()),
{
    lemma_places(l, total_bytes);
    lemma_boot_len(l, serial);
    lemma_boot_sector(l, serial, total_bytes);
    let whole = boot_image(l, serial);
    let body = boot_body(l, serial);
    let sum = boot_sum(body, 5632);
    assert forall|i: int| 0 <= i < 6144 implies img[i] == whole[i] by {
        assert(slice_of(img, 0, 6144)[i] == img[i]);
    }
    assert(img.take(512) =~= boot_sector(l, serial));
    lemma_sum_of_prefix(img, body, 5632);
    let last = slice_of(img, 5632, 512);
    assert(repeats(last, sum)) by {
        assert forall|k: int| 0 <= k < last.len() / 4 implies #[trigger] le32(last, 4 * k)
            == sum by {
            assert(slice_of(last, 4 * k, 4) =~= le32_bytes(sum)) by {
                assert forall|j: int| 0 <= j < 4 implies last[4 * k + j] == le32_bytes(sum)[j] by {
                    assert(last[4 * k + j] == whole[5632 + 4 * k + j]);
                    assert((4 * k + j) % 4 == j);
                }
            }
            read_32(last, 4 * k, sum);
        }
    }
}

pub proof fn lemma_link(img: Seq<u8>, l: Layout, serial: u32, total_bytes: u64, c: int)
    requires
        layout_ok(l, total_bytes),
        total_bytes <= img.len(),
        laid_out(img, l, serial),
        l.geometry().has_cluster(c),
    ensures
        fat_at(img, l.geometry(), c) == Ok::<u32, ExFault>(fat_word(l, c)),
{
    lemma_places(l, total_bytes);
    let at = fat_slot(l.geometry(), c);
    let table = fat_image(l);
    assert(4 * c + 4 <= 512 * l.fat_length);
    assert(slice_of(img, at, 4) =~= le32_bytes(fat_word(l, c))) by {
        assert forall|j: int| 0 <= j < 4 implies img[at + j] == le32_bytes(fat_word(l, c))[j] by {
            assert(slice_of(img, 512 * l.fat_offset, 512 * l.fat_length)[4 * c + j] == img[at + j]);
            assert((4 * c + j) / 4 == c && (4 * c + j) % 4 == j);
            assert(table[4 * c + j] == le32_bytes(fat_word(l, c))[j]);
        }
    }
    read_32(img, at, fat_word(l, c));
}

/// The chain of the stored table: its clusters, one behind the other.
spec fn table_chain(l: Layout) -> Seq<u32> {
    Seq::new(l.upcase_clusters as nat, |i: int| (l.upcase_first() + i) as u32)
}

proof fn lemma_table_chain(img: Seq<u8>, l: Layout, serial: u32, total_bytes: u64)
    requires
        layout_ok(l, total_bytes),
        total_bytes <= img.len(),
        laid_out(img, l, serial),
    ensures
        chain_of(
            img,
            l.geometry(),
            l.upcase_first() as u32,
            Some(l.upcase_clusters),
        ) == Ok::<Seq<u32>, ExFault>(table_chain(l)),
{
    let geo = l.geometry();
    let first = l.upcase_first() as u32;
    lemma_link(img, l, serial, total_bytes, first as int);
    reveal_with_fuel(chain_from, 3);
    if l.upcase_clusters == 1 {
        assert(seq![first] =~= table_chain(l));
    } else {
        lemma_link(img, l, serial, total_bytes, first + 1);
        assert(seq![first] + seq![(first + 1) as u32] =~= table_chain(l));
    }
}

#[verifier::spinoff_prover]
proof fn lemma_table(img: Seq<u8>, l: Layout, serial: u32, total_bytes: u64)
    requires
        layout_ok(l, total_bytes),
        total_bytes <= img.len(),
        laid_out(img, l, serial),
    ensures
        table_at(img, l.geometry(), l.upcase_first() as u32, 5836) == Ok::<Seq<u16>, ExFault>(
            folding(),
        ),
{
    lemma_places(l, total_bytes);
    lemma_table_chain(img, l, serial, total_bytes);
    let geo = l.geometry();
    let cl = l.cluster_len();
    assert(geo.cluster_len() == cl);
    let chain = table_chain(l);
    let at = l.start(l.upcase_first());
    assert(geo.bytes_per_sector * geo.cluster_heap_offset_sectors == 512 * l.heap_offset);
    assert(geo.cluster_start(l.upcase_first()) == at);
    reveal_with_fuel(stored_table, 3);
    let raw = stored_table(img, geo, chain, 5836, chain.len() as int)->Ok_0;
    assert forall|b: int| 0 <= b < 5836 implies img[at + b] == table_bytes()[b] by {
        assert(slice_of(img, at, l.upcase_clusters * cl)[b] == img[at + b]);
        assert(upcase_image(l)[b] == table_bytes()[b]);
    }
    assert(0 * cl == 0 && 1 * cl == cl);
    assert(chain[0] == l.upcase_first());
    if l.upcase_clusters == 1 {
        assert(cl >= 5836);
        assert(raw =~= table_bytes());
    } else {
        assert(chain[1] == l.upcase_first() + 1);
        assert(geo.cluster_start(l.upcase_first() + 1) == at + cl) by (nonlinear_arith)
            requires
                geo.cluster_start(l.upcase_first()) == at,
                geo.cluster_len() == cl,
        ;
        assert(cl == 4096) by {
            if cl == 32768 {
                assert(parts(5836, 32768) == 1);
            } else if cl == 131072 {
                assert(parts(5836, 131072) == 1);
            }
        }
        assert(2 * cl <= img.len() - at);
        assert(raw =~= table_bytes());
    }
    the_table_is_the_folding();
}

/// The raw entries of a new root directory.
pub open spec fn root_rows(l: Layout) -> Seq<Seq<u8>> {
    seq![label_entry(), bitmap_record(l), upcase_record(l), zeros(32)]
}

pub proof fn lemma_records(l: Layout)
    ensures
        label_entry().len() == 32,
        bitmap_record(l).len() == 32,
        upcase_record(l).len() == 32,
        label_entry()[0] == 0x83,
        is_bitmap(bitmap_record(l)),
        le32(bitmap_record(l), 20) == 2,
        le64(bitmap_record(l), 24) == parts(l.cluster_count as int, 8) as u64,
        is_upcase(upcase_record(l)),
        le32(upcase_record(l), 20) == l.upcase_first() as u32,
        le64(upcase_record(l), 24) == 5836,
{
    let n = parts(l.cluster_count as int, 8) as u64;
    let b = bitmap_record(l);
    assert(slice_of(b, 20, 4) =~= le32_bytes(2));
    assert(slice_of(b, 24, 8) =~= le64_bytes(n));
    read_32(b, 20, 2);
    read_64(b, 24, n);
    let u = upcase_record(l);
    let f = l.upcase_first() as u32;
    assert(slice_of(u, 20, 4) =~= le32_bytes(f));
    assert(slice_of(u, 24, 8) =~= le64_bytes(5836));
    read_32(u, 20, f);
    read_64(u, 24, 5836);
}

pub proof fn lemma_root_rows(img: Seq<u8>, l: Layout, serial: u32, total_bytes: u64, k: int)
    requires
        layout_ok(l, total_bytes),
        total_bytes <= img.len(),
        laid_out(img, l, serial),
        0 <= k < 4,
    ensures
        raw_at(img, l.geometry(), seq![l.root_first()], u64::MAX as int, k) == Ok::<
            Option<Seq<u8>>,
            ExFault,
        >(Some(root_rows(l)[k])),
        per_cluster(l.geometry()) >= 128,
{
    lemma_places(l, total_bytes);
    lemma_records(l);
    let geo = l.geometry();
    let cl = l.cluster_len();
    assert(geo.cluster_len() == cl);
    let at = l.start(l.root_first());
    assert(geo.cluster_start(l.root_first()) == at) by {
        assert(geo.bytes_per_sector * geo.cluster_heap_offset_sectors == 512 * l.heap_offset);
    }
    let per = per_cluster(geo);
    assert(per == 128 || per == 1024 || per == 4096);
    assert(k / per == 0 && k % per == k) by {
        vstd::arithmetic::div_mod::lemma_small_mod(k as nat, per as nat);
        vstd::arithmetic::div_mod::lemma_basic_div(k, per);
    }
    let row = slice_of(img, at + 32 * k, 32);
    assert(row =~= root_rows(l)[k]) by {
        assert forall|j: int| 0 <= j < 32 implies row[j] == root_rows(l)[k][j] by {
            assert(slice_of(img, at, cl)[32 * k + j] == img[at + 32 * k + j]);
        }
    }
}

pub proof fn lemma_root_walk(
    img: Seq<u8>,
    l: Layout,
    serial: u32,
    total_bytes: u64,
    stops: spec_fn(Seq<u8>) -> bool,
)
    requires
        layout_ok(l, total_bytes),
        total_bytes <= img.len(),
        laid_out(img, l, serial),
        !stops(label_entry()),
    ensures
        walked(img, l.geometry(), l.root_first() as u32, false, u64::MAX, stops) == Ok::<
            Seq<Seq<u8>>,
            ExFault,
        >(
            if stops(bitmap_record(l)) {
                seq![label_entry(), bitmap_record(l)]
            } else {
                seq![label_entry(), bitmap_record(l), upcase_record(l)]
            },
        ),
{
    let geo = l.geometry();
    let first = l.root_first() as u32;
    lemma_link(img, l, serial, total_bytes, first as int);
    reveal_with_fuel(chain_from, 2);
    let chain = seq![first];
    assert(chain_of(img, geo, first, None) == Ok::<Seq<u32>, ExFault>(chain));
    let clusters = seq![l.root_first()];
    assert(chain.map_values(|c: u32| c as int) =~= clusters);
    lemma_records(l);
    lemma_root_rows(img, l, serial, total_bytes, 0);
    lemma_root_rows(img, l, serial, total_bytes, 1);
    lemma_root_rows(img, l, serial, total_bytes, 2);
    lemma_root_rows(img, l, serial, total_bytes, 3);
    assert(clusters.len() * per_cluster(geo) == per_cluster(geo));
    reveal_with_fuel(walk_from, 5);
    let rows = root_rows(l);
    assert(rows[3][0] == 0);
    let top = u64::MAX as int;
    let w3 = walk_from(img, geo, clusters, top, 3, stops);
    assert(w3 == Ok::<Seq<Seq<u8>>, ExFault>(seq![]));
    let w2 = walk_from(img, geo, clusters, top, 2, stops);
    assert(seq![rows[2]] + seq![] =~= seq![rows[2]]);
    assert(w2 == Ok::<Seq<Seq<u8>>, ExFault>(seq![rows[2]]));
    assert(seq![rows[1]] + seq![rows[2]] =~= seq![rows[1], rows[2]]);
    assert(seq![rows[0]] + seq![rows[1], rows[2]] =~= seq![rows[0], rows[1], rows[2]]);
    assert(seq![rows[0]] + seq![rows[1]] =~= seq![rows[0], rows[1]]);
}

/// Rows that are no File entries stand for an empty directory.
pub proof fn lemma_no_files(raws: Seq<Seq<u8>>, i: int)
    requires
        0 <= i <= raws.len(),
        forall|k: int| 0 <= k < raws.len() ==> (#[trigger] raws[k])[0] != ENTRY_FILE,
    ensures
        parsed_from(raws, i) == Ok::<Seq<EntryModel>, ExFault>(seq![]),
    decreases raws.len() - i,
{
    if i < raws.len() {
        assert(raws[i][0] != ENTRY_FILE);
        lemma_no_files(raws, i + 1);
    }
}

pub proof fn lemma_empty_root(img: Seq<u8>, l: Layout, serial: u32, total_bytes: u64)
    requires
        layout_ok(l, total_bytes),
        total_bytes <= img.len(),
        laid_out(img, l, serial),
    ensures
        directory(img, l.geometry(), l.geometry().root_first_cluster, false, u64::MAX) == Ok::<
            Seq<EntryModel>,
            ExFault,
        >(seq![]),
{
    let all = |raw: Seq<u8>| false;
    lemma_root_walk(img, l, serial, total_bytes, all);
    lemma_records(l);
    let rows = seq![label_entry(), bitmap_record(l), upcase_record(l)];
    assert forall|k: int| 0 <= k < rows.len() implies (#[trigger] rows[k])[0] != ENTRY_FILE by {
        if k == 0 {
            assert(rows[k] == label_entry());
        } else if k == 1 {
            assert(rows[k] == bitmap_record(l));
        } else {
            assert(rows[k] == upcase_record(l));
        }
    }
    lemma_no_files(rows, 0);
}

proof fn lemma_system_entries(img: Seq<u8>, l: Layout, serial: u32, total_bytes: u64)
    requires
        layout_ok(l, total_bytes),
        total_bytes <= img.len(),
        laid_out(img, l, serial),
    ensures
        upcase_entry(img, l.geometry()) == Ok::<Option<(u32, u64)>, ExFault>(
            Some((l.upcase_first() as u32, 5836u64)),
        ),
        bitmap_entry(img, l.geometry()) == Ok::<Option<BitmapLoc>, ExFault>(
            new_volume(l).bitmap,
        ),
{
    lemma_records(l);
    lemma_root_walk(img, l, serial, total_bytes, stopper(AtUpcase));
    lemma_root_walk(img, l, serial, total_bytes, stopper(AtBitmap));
    assert(seq![label_entry(), bitmap_record(l), upcase_record(l)].last() == upcase_record(l));
    assert(seq![label_entry(), bitmap_record(l)].last() == bitmap_record(l));
}

/// Whatever the disk held before, a formatted volume opens: with the geometry
/// of its layout, its case folding and its bitmap; and its root directory is
/// empty.
pub proof fn a_new_volume_opens_empty(disk: Disk, total_bytes: u64, serial: u32)
    requires
        total_bytes <= disk.bytes.len(),
        layout_of(total_bytes) is Ok,
    ensures
        formatted(disk, total_bytes, serial).1 is Ok,
        opened(formatted(disk, total_bytes, serial).0.bytes) == Ok::<Volume, ExFault>(
            new_volume(layout_of(total_bytes)->Ok_0),
        ),
        children(
            formatted(disk, total_bytes, serial).0.bytes,
            new_volume(layout_of(total_bytes)->Ok_0).geo,
            None,
        ) == Ok::<Seq<EntryModel>, ExFault>(seq![]),
{
    formatting_lays_out(disk, total_bytes, serial);
    layouts_are_sound(total_bytes);
    let l = layout_of(total_bytes)->Ok_0;
    let img = formatted(disk, total_bytes, serial).0.bytes;
    lemma_boot_accepted(img, l, serial, total_bytes);
    lemma_system_entries(img, l, serial, total_bytes);
    lemma_table(img, l, serial, total_bytes);
    lemma_empty_root(img, l, serial, total_bytes);
}

proof fn lemma_fill_bits(used: int, c: int)
    requires
        2 <= c,
        0 <= used,
    ensures
        bit_is_set(bitmap_fill(used, (c - 2) / 8), c) == (c < 2 + used),
{
    lemma_small_pows();
    let i = (c - 2) / 8;
    let k = (c - 2) % 8;
    let b = bitmap_fill(used, i);
    assert(c - 2 == 8 * i + k);
    if 8 * i + 8 <= used {
        assert(b == 255);
        assert(255int / 1 % 2 == 1 && 255int / 2 % 2 == 1 && 255int / 4 % 2 == 1 && 255int / 8 % 2
            == 1 && 255int / 16 % 2 == 1 && 255int / 32 % 2 == 1 && 255int / 64 % 2 == 1 && 255int
            / 128 % 2 == 1);
    } else if 8 * i >= used {
        assert(b == 0);
    } else {
        let u = used - 8 * i;
        assert(1 <= u <= 7);
        assert(b == pow2(u) - 1);
        if k == 0 {
            assert(b as int / 1 % 2 == 1);
        } else if k == 1 {
            assert((b as int / 2 % 2 == 1) == (u > 1));
        } else if k == 2 {
            assert((b as int / 4 % 2 == 1) == (u > 2));
        } else if k == 3 {
            assert((b as int / 8 % 2 == 1) == (u > 3));
        } else if k == 4 {
            assert((b as int / 16 % 2 == 1) == (u > 4));
        } else if k == 5 {
            assert((b as int / 32 % 2 == 1) == (u > 5));
        } else if k == 6 {
            assert((b as int / 64 % 2 == 1) == (u > 6));
        } else {
            assert((b as int / 128 % 2 == 1) == false);
        }
    }
}

/// On a new volume exactly the clusters of the bitmap, the up-case table and
/// the root directory are in use.
pub proof fn a_new_volume_is_free(disk: Disk, total_bytes: u64, serial: u32, c: int)
    requires
        total_bytes <= disk.bytes.len(),
        layout_of(total_bytes) is Ok,
        layout_of(total_bytes)->Ok_0.geometry().has_cluster(c),
    ensures
        ({
            let l = layout_of(total_bytes)->Ok_0;
            allocated(
                formatted(disk, total_bytes, serial).0.bytes,
                l.geometry(),
                new_volume(l).bitmap->Some_0,
                c,
            ) == Ok::<bool, ExFault>(c <= l.root_first())
        }),
{
    formatting_lays_out(disk, total_bytes, serial);
    layouts_are_sound(total_bytes);
    let l = layout_of(total_bytes)->Ok_0;
    let img = formatted(disk, total_bytes, serial).0.bytes;
    let geo = l.geometry();
    lemma_places(l, total_bytes);
    lemma_fill_bits(l.used(), c);
    let i = (c - 2) / 8;
    let n = l.bm_clusters * l.cluster_len();
    assert(i < parts(l.cluster_count as int, 8));
    assert(geo.cluster_start(2) == l.start(2)) by {
        assert(geo.bytes_per_sector * geo.cluster_heap_offset_sectors == 512 * l.heap_offset);
    }
    assert(slice_of(img, l.start(2), n)[i] == img[l.start(2) + i]);
    assert(bitmap_image(l)[i] == bitmap_fill(l.used(), i));
}

} // verus!
