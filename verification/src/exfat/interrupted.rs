//! What a power cut leaves of the operations that change a directory: the old
//! listing or the new one, and everything else as it was.

use vstd::prelude::*;

use super::areas::{
    bitmap_area, bitmap_placed, cluster_place, confined, confined_refl, confined_trans,
    confined_weaker, in_use, linked_confined, marked_confined, members, placed,
};
use super::boot::Geometry;
use super::chains::{
    all_exist, allocation_is_fresh, confined_chain, doomed_is_the_chain, freed_clusters_are_free,
    lemma_len, lemma_need,
};
use super::clusters::{
    allocation, bitmap_byte, chain_freed, freed, linked, marked, with_bit,
};
use super::creating::{gains, new_entry, placed_entry_is_listed, set_len};
use super::cuts::{
    all_cuts, cuts_of_a_flush, cuts_of_a_write, cuts_refl, cuts_trans, lemma_allocation_cuts,
    lemma_last_write, lemma_takes_itself, replayed, takes_in,
};
use super::dir::EntryModel;
use super::entries::{named_is_found, set_from};
use super::fat::{chain_clusters_exist, fat_slot};
use super::fs::{children, BitmapLoc, Volume};
use super::io::ExFault;
use super::readback::{
    home_clusters, home_of, lookup_and_change_agree, place_of, upper_clusters,
};
use super::removing::{cleared_entry_is_gone, loses};
use super::renaming::{lemma_left_behind, lemma_rename_stages, movable};
use super::tree_laws::{
    lemma_dir_cluster, lemma_home_changed, lemma_mkdir_stages, lemma_removal_stages,
    lemma_room_stays, owned_clusters, removable, target_of_a_sound_way, vacant,
};
use super::ways::{dir_rows, dir_stays};
use super::write::{
    adjoining, cleared, cluster_zeroed, contiguous_len, creation, emptiness,
    entry_placed, existing, removal, renaming, target,
};
use crate::bytes::{le32_bytes, zeros};
use crate::device::Disk;
use crate::text::leaf_of;

verus! {

/// A power cut in the course of creating a file leaves the disk as it was or
/// the file created: its set is one write.
pub proof fn a_cut_of_a_creation_leaves_the_old_or_the_new(
    disk: Disk,
    vol: Volume,
    path: Seq<char>,
    cut: int,
)
    requires
        vacant(disk.bytes, vol, path),
        disk.log.len() <= cut <= creation(disk, vol, path, false).0.log.len(),
    ensures
        ({
            let after = creation(disk, vol, path, false).0;
            let x = replayed(disk.bytes, after.log.subrange(disk.log.len() as int, cut));
            x == disk.bytes || x == after.bytes
        }),
{
    let img = disk.bytes;
    let home = home_of(img, vol, path);
    target_of_a_sound_way(img, vol, path);
    let dir = target(img, vol, path)->Ok_0.0;
    placed_entry_is_listed(disk, vol, home, dir, leaf_of(path), false, 0, 0, 0, 0);
    let after = creation(disk, vol, path, false).0;
    assert(after == entry_placed(disk, vol, dir, leaf_of(path), false, 0, 0, 0, 0x00).0);
    lemma_one_write(disk, after, cut);
}

/// One write and a flush have two kinds of cuts.
proof fn lemma_one_write(disk: Disk, after: Disk, cut: int)
    requires
        exists|o: int, bytes: Seq<u8>| after == (#[trigger] disk.written(o, bytes)).flushed(),
        disk.log.len() <= cut <= after.log.len(),
    ensures
        ({
            let x = replayed(disk.bytes, after.log.subrange(disk.log.len() as int, cut));
            x == disk.bytes || x == after.bytes
        }),
{
    let (o, bytes) = choose|o: int, bytes: Seq<u8>|
        after == (#[trigger] disk.written(o, bytes)).flushed();
    let p = |x: Seq<u8>| x == disk.bytes;
    cuts_refl(disk, p);
    lemma_last_write(disk, disk, o, bytes, cut, p);
}

/// A power cut in the course of creating a directory leaves at worst a cluster
/// that is marked but not led to, or the directory created: until its set,
/// which is one write, is there, nothing changes but the bitmap and a cluster
/// that was free. All of that is flushed before the set is written.
#[verifier::spinoff_prover]
#[verifier::rlimit(40)]
pub proof fn a_cut_of_a_new_directory_loses_no_more_than_a_cluster(
    disk: Disk,
    vol: Volume,
    path: Seq<char>,
    cut: int,
)
    requires
        vacant(disk.bytes, vol, path),
        creation(disk, vol, path, true).1 is Ok,
        disk.log.len() <= cut <= creation(disk, vol, path, true).0.log.len(),
    ensures
        ({
            let after = creation(disk, vol, path, true).0;
            let geo = vol.geo;
            let bm = vol.bitmap->Some_0;
            let x = replayed(disk.bytes, after.log.subrange(disk.log.len() as int, cut));
            x == after.bytes || exists|c: int|
                {
                    &&& geo.has_cluster(c)
                    &&& !in_use(disk.bytes, geo, bm, c)
                    &&& #[trigger] confined(
                        disk.bytes,
                        x,
                        geo,
                        Set::empty().insert(c),
                        bitmap_area(geo, bm).union(Set::empty().insert(c)),
                    )
                }
        }),
        ({
            let log = creation(disk, vol, path, true).0.log;
            let n = log.len() as int;
            n >= 3 && log[n - 3] is Flush && log[n - 2] is Write && log[n - 1] is Flush
        }),
{
    let img = disk.bytes;
    let geo = vol.geo;
    let bm = vol.bitmap->Some_0;
    let area = bitmap_area(geo, bm);
    let home = home_of(img, vol, path);
    let hc = home_clusters(img, vol, path);
    let uc = upper_clusters(img, vol, path);
    let name = leaf_of(path);
    target_of_a_sound_way(img, vol, path);
    let dir = target(img, vol, path)->Ok_0.0;
    lemma_mkdir_stages(disk, vol, path, dir);
    lemma_dir_cluster(disk, geo, bm);
    let (d, r) = allocation(disk, geo, bm, 1);
    let chain = r->Ok_0;
    let c = chain[0] as int;
    let one = Set::<int>::empty().insert(c);
    let both = area.union(one);
    assert(geo.has_cluster(c));
    assert(!in_use(img, geo, bm, c));
    let p = |x: Seq<u8>| confined(img, x, geo, one, both);
    allocation_is_fresh(disk, geo, bm, 1);
    assert(members(chain) =~= one) by {
        assert forall|k: int| members(chain).contains(k) == one.contains(k) by {
            if k == c {
                assert(chain[0] as int == k);
            }
        }
    }
    assert(takes_in(p, img, geo, one, area)) by {
        assert forall|x: Seq<u8>| #[trigger] confined(img, x, geo, one, area) implies p(x) by {
            confined_weaker(img, x, geo, one, area, one, both);
        }
    }
    lemma_allocation_cuts(disk, geo, bm, 1, p);
    let d1 = cluster_zeroed(d, geo, chain[0]).0;
    assert(confined(img, d.bytes, geo, one, area));
    confined_weaker(img, d.bytes, geo, one, area, one, both);
    lemma_len(img, d.bytes, geo, one, area);
    cluster_place(geo, d.bytes.len(), c);
    let data = zeros(geo.cluster_len() as nat);
    assert(d1 == d.written(geo.cluster_start(c), data));
    assert(p(d1.bytes));
    cuts_of_a_write(d, geo.cluster_start(c), data, p);
    cuts_trans(disk, d, d1, p);
    let d2 = d1.flushed();
    cuts_of_a_flush(d1, p);
    cuts_trans(disk, d1, d2, p);
    assert(!hc.contains(c) && !uc.contains(c) && !area.contains(c));
    lemma_len(img, d2.bytes, geo, one, both);
    lemma_room_stays(img, d2.bytes, vol, one, both, home, set_len(name));
    let size = geo.cluster_len() as u64;
    placed_entry_is_listed(d2, vol, home, dir, name, true, chain[0], size, size, 0x01);
    let after = creation(disk, vol, path, true).0;
    assert(after == entry_placed(d2, vol, dir, name, true, chain[0], size, size, 0x01).0);
    let (o, bytes) = choose|o: int, bytes: Seq<u8>|
        after == (#[trigger] d2.written(o, bytes)).flushed();
    lemma_last_write(disk, d2, o, bytes, cut, p);
}

proof fn lemma_freed_cuts(
    disk: Disk,
    geo: Geometry,
    bm: BitmapLoc,
    clusters: Seq<u32>,
    n: int,
    p: spec_fn(Seq<u8>) -> bool,
)
    requires
        placed(geo, disk.bytes.len()),
        bitmap_placed(geo, bm),
        all_exist(geo, clusters),
        0 <= n <= clusters.len(),
        takes_in(p, disk.bytes, geo, members(clusters), bitmap_area(geo, bm)),
    ensures
        all_cuts(disk, freed(disk, geo, bm, clusters, n).0, p),
    decreases n,
{
    let m = members(clusters);
    let area = bitmap_area(geo, bm);
    lemma_takes_itself(p, disk.bytes, geo, m, area);
    if n == 0 {
        cuts_refl(disk, p);
    } else {
        lemma_freed_cuts(disk, geo, bm, clusters, n - 1, p);
        freed_clusters_are_free(disk, geo, bm, clusters, n - 1);
        freed_clusters_are_free(disk, geo, bm, clusters, n);
        let d = freed(disk, geo, bm, clusters, n - 1).0;
        let c = clusters[n - 1] as int;
        assert(geo.has_cluster(clusters[n - 1] as int));
        lemma_len(disk.bytes, d.bytes, geo, m, area);
        marked_confined(d, geo, bm, c, false);
        let d2 = marked(d, geo, bm, c, false).0;
        confined_trans(disk.bytes, d.bytes, d2.bytes, geo, m, area, Set::empty(), area);
        assert(m.union(Set::empty()) =~= m);
        assert(area.union(area) =~= area);
        lemma_len(d.bytes, d2.bytes, geo, Set::empty(), area);
        linked_confined(d2, geo, c, 0);
        let d3 = freed(disk, geo, bm, clusters, n).0;
        assert(d3 == linked(d2, geo, c, 0).0);
        assert(confined(disk.bytes, d.bytes, geo, m, area));
        assert(confined(disk.bytes, d2.bytes, geo, m, area));
        assert(confined(disk.bytes, d3.bytes, geo, m, area));
        let (off, b) = bitmap_byte(d.bytes, geo, bm, c)->Ok_0;
        cuts_of_a_write(d, off, seq![with_bit(b, c, false)], p);
        cuts_of_a_write(d2, fat_slot(geo, c), le32_bytes(0), p);
        cuts_trans(disk, d, d2, p);
        cuts_trans(disk, d2, d3, p);
    }
}

/// A power cut in the course of a removal leaves the disk as it was, or the
/// entry out of its directory's listing and the rest of that listing as it
/// was; nothing else changes but the bitmap and the links of the entry's own
/// clusters, some of which may stay marked. (A set that lies in two clusters is
/// left out: clearing it takes more than one write.)
#[verifier::spinoff_prover]
#[verifier::rlimit(40)]
pub proof fn a_cut_of_a_removal_leaves_the_old_or_the_new_listing(
    disk: Disk,
    vol: Volume,
    path: Seq<char>,
    e: EntryModel,
    cut: int,
)
    requires
        removable(disk.bytes, vol, path, e),
        existing(disk.bytes, vol, path) matches Ok(loc) && adjoining(loc.offsets),
        disk.log.len() <= cut <= removal(disk, vol, path).0.log.len(),
    ensures
        ({
            let img = disk.bytes;
            let geo = vol.geo;
            let home = home_of(img, vol, path);
            let after = removal(disk, vol, path).0;
            let x = replayed(img, after.log.subrange(disk.log.len() as int, cut));
            x == img || {
                &&& loses(img, x, vol, home, e)
                &&& children(x, geo, home) == children(after.bytes, geo, home)
                &&& confined(
                    img,
                    x,
                    geo,
                    members(owned_clusters(img, geo, e)),
                    home_clusters(img, vol, path).union(bitmap_area(geo, vol.bitmap->Some_0)),
                )
            }
        }),
{
    let img = disk.bytes;
    let geo = vol.geo;
    let bm = vol.bitmap->Some_0;
    let area = bitmap_area(geo, bm);
    let home = home_of(img, vol, path);
    let hc = home_clusters(img, vol, path);
    let raws = dir_rows(img, vol, home);
    let k = place_of(img, vol, path);
    let own = owned_clusters(img, geo, e);
    let m = members(own);
    lookup_and_change_agree(img, vol, path, e);
    named_is_found(vol.upcase, raws, leaf_of(path), 0);
    let loc = existing(img, vol, path)->Ok_0;
    let set = set_from(raws, k);
    assert(set[0] == raws[k] && set[1] == raws[k + 1]);
    assert(loc.first_cluster == e.first_cluster && loc.is_dir == e.is_dir && loc.data_len
        == e.size);
    assert((loc.flags / 2 % 2 == 1) == e.no_fat_chain);
    cleared_entry_is_gone(disk, vol, home, leaf_of(path), k);
    let d1 = cleared(disk, loc.offsets).0;
    let d = d1.flushed();
    assert(emptiness(img, geo, loc) is Ok);
    lemma_removal_stages(disk, vol, path, loc);
    lemma_len(img, d.bytes, geo, Set::empty(), hc);
    let after = removal(disk, vol, path).0;
    let data = choose|data: Seq<u8>| d1 == #[trigger] disk.written(loc.offsets[0] as int, data);
    let p = |x: Seq<u8>| x == img || confined(d.bytes, x, geo, m, area);
    confined_refl(d.bytes, geo);
    confined_weaker(d.bytes, d.bytes, geo, Set::empty(), Set::empty(), m, area);
    assert(p(d.bytes));
    cuts_of_a_write(disk, loc.offsets[0] as int, data, p);
    cuts_of_a_flush(d1, p);
    cuts_trans(disk, d1, d, p);
    target_of_a_sound_way(img, vol, path);
    lemma_home_changed(img, d.bytes, vol, path);
    let first = e.first_cluster;
    if first >= 2 {
        let count = geo.cluster_count as int;
        let run = contiguous_len(geo, loc);
        if e.no_fat_chain {
            lemma_need(geo, e.size as int, u64::MAX as int);
            assert(all_exist(geo, own));
        } else {
            confined_chain(img, d.bytes, geo, Set::empty(), hc, first, 0, count, false);
            doomed_is_the_chain(d.bytes, geo, first, 0);
            chain_clusters_exist(d.bytes, geo, first, 0, count, false);
        }
        let n = own.len() as int;
        freed_clusters_are_free(d, geo, bm, own, n);
        let d2 = freed(d, geo, bm, own, n).0;
        assert(chain_freed(d, geo, bm, first, run) == (d2, Ok::<(), ExFault>(())));
        assert(takes_in(p, d.bytes, geo, m, area));
        lemma_freed_cuts(d, geo, bm, own, n, p);
        assert(after == d2.flushed());
        cuts_trans(disk, d, d2, p);
        cuts_of_a_flush(d2, p);
        cuts_trans(disk, d2, after, p);
    } else {
        assert(m =~= Set::empty());
    }
    assert(confined(d.bytes, after.bytes, geo, m, area));
    let x = replayed(img, after.log.subrange(disk.log.len() as int, cut));
    assert(p(x));
    dir_stays(d.bytes, after.bytes, vol, m, area, home);
    if x != img {
        dir_stays(d.bytes, x, vol, m, area, home);
        confined_trans(img, d.bytes, x, geo, Set::empty(), hc, m, area);
        assert(Set::empty().union(m) =~= m);
    }
}

/// A power cut in the course of a move leaves the disk as it was, the move
/// done, or the entry under both names: its new set is one write, and so is
/// the clearing of the old one. (A set that lies in two clusters is left out:
/// clearing it takes more than one write.)
#[verifier::spinoff_prover]
pub proof fn a_cut_of_a_move_keeps_a_name(
    disk: Disk,
    vol: Volume,
    from: Seq<char>,
    to: Seq<char>,
    e: EntryModel,
    cut: int,
)
    requires
        movable(disk.bytes, vol, from, to, e),
        existing(disk.bytes, vol, from) matches Ok(src) && adjoining(src.offsets),
        disk.log.len() <= cut <= renaming(disk, vol, from, to).0.log.len(),
    ensures
        ({
            let img = disk.bytes;
            let after = renaming(disk, vol, from, to).0;
            let x = replayed(img, after.log.subrange(disk.log.len() as int, cut));
            let ht = home_of(img, vol, to);
            ||| x == img
            ||| x == after.bytes
            ||| exists|e2: EntryModel|
                {
                    &&& #[trigger] gains(img, x, vol, ht, e2)
                    &&& e2.name == leaf_of(to)
                    &&& e2.first_cluster == e.first_cluster
                    &&& e2.size == e.size
                    &&& confined(img, x, vol.geo, Set::empty(), home_clusters(img, vol, to))
                }
        }),
{
    let img = disk.bytes;
    lookup_and_change_agree(img, vol, from, e);
    let src = existing(img, vol, from)->Ok_0;
    target_of_a_sound_way(img, vol, to);
    let dir = target(img, vol, to)->Ok_0.0;
    lemma_rename_stages(disk, vol, from, to, src, dir);
    lemma_left_behind(disk, vol, from, to, e, src, dir);
    let d = entry_placed(
        disk,
        vol,
        dir,
        leaf_of(to),
        src.is_dir,
        src.first_cluster,
        src.data_len,
        src.valid_len,
        src.flags,
    ).0;
    let after = renaming(disk, vol, from, to).0;
    let x = replayed(img, after.log.subrange(disk.log.len() as int, cut));
    let p = |x: Seq<u8>| x == img || x == d.bytes;
    let (o, bytes) = choose|o: int, bytes: Seq<u8>| d == (#[trigger] disk.written(o, bytes)).flushed();
    let d0 = disk.written(o, bytes);
    cuts_of_a_write(disk, o, bytes, p);
    cuts_of_a_flush(d0, p);
    cuts_trans(disk, d0, d, p);
    let data = choose|data: Seq<u8>|
        cleared(d, src.offsets).0 == #[trigger] d.written(src.offsets[0] as int, data);
    lemma_last_write(disk, d, src.offsets[0] as int, data, cut, p);
    let e2 = new_entry(leaf_of(to), e.is_dir, e.first_cluster, e.size, e.valid_size, src.flags);
    if x == d.bytes {
        assert(gains(img, x, vol, home_of(img, vol, to), e2));
    }
}

} // verus!
