//! Where clusters are free, what needs them succeeds.

use vstd::prelude::*;

use super::areas::{
    bitmap_area, bitmap_placed, bits_are_there, in_use, linked_confined, marked_confined, members,
    placed,
};
use super::boot::Geometry;
use super::chains::{
    all_exist, allocation_is_fresh, lemma_free, lemma_len, lemma_need, strung_chain_is_linked,
    taken_clusters_were_free,
};
use super::clusters::{allocation, free_from, taken, tried};
use super::dir::EntryModel;
use super::fs::{BitmapLoc, Volume};
use super::io::ExFault;
use super::readback::{
    data_is_stored, data_stage, lemma_entry_rewritten, lemma_target, lemma_write_stages, sound_file,
};
use super::tree_laws::{a_created_directory_is_empty, vacant};
use super::upcase::lesser;
use super::write::{
    chain_grown, cluster_need, creation, existing, file_written, loc_chain, size_after, truncation,
};
use crate::bytes::zeros;
use crate::device::Disk;

verus! {

/// Whether some clusters exist, are all different, and are all free.
pub open spec fn spare(img: Seq<u8>, geo: Geometry, bm: BitmapLoc, clusters: Seq<u32>) -> bool {
    &&& all_exist(geo, clusters)
    &&& clusters.no_duplicates()
    &&& forall|i: int| 0 <= i < clusters.len() ==> !in_use(img, geo, bm, #[trigger] clusters[i] as int)
}

/// Whether `n` clusters are free.
pub open spec fn has_free(img: Seq<u8>, geo: Geometry, bm: BitmapLoc, n: int) -> bool {
    exists|clusters: Seq<u32>| #[trigger] spare(img, geo, bm, clusters) && clusters.len() >= n
}

/// A search comes to every cluster.
proof fn lemma_tried(geo: Geometry, hint: int, c: int) -> (i: int)
    requires
        geo.has_cluster(c),
    ensures
        0 <= i < geo.cluster_count,
        tried(geo, hint, i) == c,
{
    let n = geo.cluster_count as int;
    let i = (c - hint) % n;
    let q = (c - hint) / n;
    assert(0 <= i < n && c - hint == n * q + i) by (nonlinear_arith)
        requires
            n > 0,
            i == (c - hint) % n,
            q == (c - hint) / n,
    ;
    assert(hint - 2 + i == (0 - q) * n + (c - 2)) by (nonlinear_arith)
        requires
            c - hint == n * q + i,
    ;
    vstd::arithmetic::div_mod::lemma_fundamental_div_mod_converse(hint - 2 + i, n, 0 - q, c - 2);
    i
}

/// A search that comes to a free cluster finds one.
proof fn lemma_search_finds(
    img: Seq<u8>,
    geo: Geometry,
    bm: BitmapLoc,
    hint: int,
    i: int,
    j: int,
)
    requires
        placed(geo, img.len()),
        bitmap_placed(geo, bm),
        0 <= i <= j < geo.cluster_count,
        !in_use(img, geo, bm, tried(geo, hint, j)),
    ensures
        free_from(img, geo, bm, hint, i) is Ok,
    decreases j - i,
{
    let c = tried(geo, hint, i);
    let n = geo.cluster_count as int;
    let x = hint - 2 + i;
    assert(0 <= x % n < n) by (nonlinear_arith)
        requires
            n > 0,
    ;
    bits_are_there(img, geo, bm, c);
    reveal(in_use);
    if i < j {
        lemma_search_finds(img, geo, bm, hint, i + 1, j);
    }
}

/// Of more clusters than another list has, one is not in it.
proof fn lemma_one_left(s: Seq<u32>, t: Seq<u32>) -> (i: int)
    requires
        s.no_duplicates(),
        t.no_duplicates(),
        s.len() < t.len(),
    ensures
        0 <= i < t.len(),
        !s.contains(t[i]),
{
    if forall|i: int| 0 <= i < t.len() ==> s.contains(#[trigger] t[i]) {
        s.unique_seq_to_set();
        t.unique_seq_to_set();
        vstd::seq_lib::seq_to_set_is_finite(s);
        assert(t.to_set().subset_of(s.to_set())) by {
            assert forall|c: u32| t.to_set().contains(c) implies s.to_set().contains(c) by {
                let i = choose|i: int| 0 <= i < t.len() && t[i] == c;
                assert(s.contains(t[i]));
            }
        }
        vstd::set_lib::lemma_len_subset(t.to_set(), s.to_set());
    }
    choose|i: int| 0 <= i < t.len() && !s.contains(#[trigger] t[i])
}

proof fn lemma_taking_succeeds(
    disk: Disk,
    geo: Geometry,
    bm: BitmapLoc,
    clusters: Seq<u32>,
    n: int,
)
    requires
        placed(geo, disk.bytes.len()),
        bitmap_placed(geo, bm),
        spare(disk.bytes, geo, bm, clusters),
        n <= clusters.len(),
    ensures
        taken(disk, geo, bm, n).1 is Ok,
    decreases n,
{
    if n > 0 {
        lemma_taking_succeeds(disk, geo, bm, clusters, n - 1);
        taken_clusters_were_free(disk, geo, bm, n - 1);
        taken_clusters_were_free(disk, geo, bm, n);
        let (d, r) = taken(disk, geo, bm, n - 1);
        let s = r->Ok_0;
        let hint = if s.len() == 0 {
            2
        } else {
            s.last() + 1
        };
        lemma_len(disk.bytes, d.bytes, geo, Set::empty(), bitmap_area(geo, bm));
        let i = lemma_one_left(s, clusters);
        let c = clusters[i] as int;
        assert(geo.has_cluster(clusters[i] as int));
        assert(!members(s).contains(c));
        assert(!in_use(d.bytes, geo, bm, c));
        let j = lemma_tried(geo, hint, c);
        lemma_search_finds(d.bytes, geo, bm, hint, 0, j);
        let got = free_from(d.bytes, geo, bm, hint, 0)->Ok_0;
        lemma_free(d.bytes, geo, bm, hint, 0);
        marked_confined(d, geo, bm, got as int, true);
    }
}

/// Where enough clusters are free, an allocation succeeds.
pub proof fn an_allocation_with_room_succeeds(disk: Disk, geo: Geometry, bm: BitmapLoc, n: int)
    requires
        placed(geo, disk.bytes.len()),
        bitmap_placed(geo, bm),
        0 < n,
        has_free(disk.bytes, geo, bm, n),
    ensures
        allocation(disk, geo, bm, n).1 is Ok,
{
    let clusters = choose|clusters: Seq<u32>|
        #[trigger] spare(disk.bytes, geo, bm, clusters) && clusters.len() >= n;
    lemma_taking_succeeds(disk, geo, bm, clusters, n);
    taken_clusters_were_free(disk, geo, bm, n);
    let (d, r) = taken(disk, geo, bm, n);
    lemma_len(disk.bytes, d.bytes, geo, Set::empty(), bitmap_area(geo, bm));
    strung_chain_is_linked(d, geo, r->Ok_0, n);
}

/// A write succeeds where as many clusters are free as the file needs more
/// than it has.
pub proof fn a_write_with_room_succeeds(
    disk: Disk,
    vol: Volume,
    path: Seq<char>,
    e: EntryModel,
    offset: u64,
    data: Seq<u8>,
)
    requires
        sound_file(disk.bytes, vol, path, e),
        data.len() > 0,
        offset + data.len() <= u64::MAX,
        has_free(
            disk.bytes,
            vol.geo,
            vol.bitmap->Some_0,
            cluster_need(vol.geo, size_after(e.size, offset, data.len())) - cluster_need(
                vol.geo,
                e.size as int,
            ),
        ),
    ensures
        file_written(disk, vol, path, offset, data).1 == Ok::<usize, ExFault>(
            data.len() as usize,
        ),
{
    let img = disk.bytes;
    let geo = vol.geo;
    let bm = vol.bitmap->Some_0;
    lemma_target(img, vol, path, e);
    let loc = existing(img, vol, path)->Ok_0;
    let size = size_after(e.size, offset, data.len());
    let chain = loc_chain(img, geo, loc)->Ok_0;
    let need = cluster_need(geo, size) - cluster_need(geo, e.size as int);
    lemma_need(geo, e.size as int, size);
    if need > 0 {
        an_allocation_with_room_succeeds(disk, geo, bm, need);
        allocation_is_fresh(disk, geo, bm, need);
        let d = allocation(disk, geo, bm, need).0;
        let added = allocation(disk, geo, bm, need).1->Ok_0;
        lemma_len(img, d.bytes, geo, members(added), bitmap_area(geo, bm));
        if chain.len() > 0 {
            assert(geo.has_cluster(chain[chain.len() - 1] as int));
            linked_confined(d, geo, chain.last() as int, added[0]);
        }
    }
    assert(chain_grown(disk, geo, bm, loc, chain, size).1 is Ok);
    data_is_stored(disk, geo, bm, loc, offset, data);
    lemma_write_stages(disk, vol, path, loc, offset, data);
    let (mid, r) = data_stage(disk, geo, bm, loc, offset, data);
    let (first, whole) = r->Ok_0;
    lemma_entry_rewritten(disk, mid.flushed(), vol, path, e, loc, offset, data, first, whole);
}

/// Growing a file succeeds where as many clusters are free as it needs more
/// than it has.
pub proof fn a_file_with_room_grows(
    disk: Disk,
    vol: Volume,
    path: Seq<char>,
    e: EntryModel,
    len: u64,
)
    requires
        sound_file(disk.bytes, vol, path, e),
        len > e.size,
        has_free(
            disk.bytes,
            vol.geo,
            vol.bitmap->Some_0,
            cluster_need(vol.geo, len as int) - cluster_need(vol.geo, e.size as int),
        ),
    ensures
        truncation(disk, vol, path, len).1 is Ok,
{
    lemma_target(disk.bytes, vol, path, e);
    let pad = lesser(len - e.size, vol.geo.cluster_len());
    a_write_with_room_succeeds(
        disk,
        vol,
        path,
        e,
        (len - pad) as u64,
        zeros(pad as nat),
    );
}

/// A directory can be created where one cluster is free.
pub proof fn a_directory_with_room_is_created(disk: Disk, vol: Volume, path: Seq<char>)
    requires
        vacant(disk.bytes, vol, path),
        has_free(disk.bytes, vol.geo, vol.bitmap->Some_0, 1),
    ensures
        creation(disk, vol, path, true).1 is Ok,
{
    a_created_directory_is_empty(disk, vol, path);
    an_allocation_with_room_succeeds(disk, vol.geo, vol.bitmap->Some_0, 1);
}

} // verus!
