//! What a power cut leaves of the files that an operation has nothing to do
//! with: all of them, found and read as before, wherever the cut falls.

use vstd::prelude::*;

use super::areas::{bitmap_area, confined, in_use, members};
use super::cut_short::a_cut_of_a_truncation_leaves_the_old_or_the_new;
use super::cuts::{lemma_last_write, lemma_write_parts, replayed, untorn};
use super::dir::EntryModel;
use super::fs::{children, file_chain, Volume};
use super::interrupted::{
    a_cut_of_a_creation_leaves_the_old_or_the_new, a_cut_of_a_move_keeps_a_name,
    a_cut_of_a_new_directory_loses_no_more_than_a_cluster,
    a_cut_of_a_removal_leaves_the_old_or_the_new_listing,
};
use super::neighbours::{
    a_creation_leaves_others_alone, a_new_directory_leaves_others_alone,
    a_write_leaves_others_alone, bystander, bystanders_are_unharmed, file_reach,
    gaining_keeps_the_rest, losing_keeps_the_rest, staying_keeps_all, swapping_keeps_the_rest,
    unharmed,
};
use super::readback::{
    home_clusters, home_of, lemma_fresh_apart, lemma_way_end, sound_file, valid_in,
};
use super::renaming::{a_move_leaves_others_alone, movable};
use super::resizing::shortened;
use super::tree_laws::{owned_clusters, removable, target_of_a_sound_way, vacant};
use super::upcase::lesser;
use super::write::{
    adjoining, cluster_need, creation, existing, file_written, removal, renaming, truncation,
};
use crate::device::Disk;
use crate::text::{components, leaf_of, parent_of};

verus! {

/// What a disk holds once a cut left only some of an operation's writes.
pub open spec fn cut_at(disk: Disk, after: Disk, cut: int) -> Seq<u8> {
    replayed(disk.bytes, after.log.subrange(disk.log.len() as int, cut))
}

/// A power cut in the course of a write harms no other file: wherever it
/// falls, every file that keeps clear of the one written is found and reads as
/// before, and the directory lists what it listed before or lists after.
#[verifier::spinoff_prover]
#[verifier::rlimit(40)]
pub proof fn a_cut_of_a_write_harms_no_other(
    disk: Disk,
    vol: Volume,
    path: Seq<char>,
    e: EntryModel,
    offset: u64,
    data: Seq<u8>,
    cut: int,
    other: Seq<char>,
    f: EntryModel,
)
    requires
        sound_file(disk.bytes, vol, path, e),
        data.len() > 0,
        offset + data.len() <= u64::MAX,
        file_written(disk, vol, path, offset, data).1 is Ok,
        disk.log.len() <= cut <= file_written(disk, vol, path, offset, data).0.log.len(),
        existing(disk.bytes, vol, path) matches Ok(loc) && loc.offsets[1] == loc.offsets[0] + 32,
        bystander(
            disk.bytes,
            vol,
            home_of(disk.bytes, vol, path),
            e.name,
            file_reach(disk.bytes, vol, e),
            other,
            f,
        ),
    ensures
        ({
            let after = file_written(disk, vol, path, offset, data).0;
            let x = cut_at(disk, after, cut);
            let home = home_of(disk.bytes, vol, path);
            &&& unharmed(disk.bytes, x, vol, other, f)
            &&& children(x, vol.geo, home) == children(disk.bytes, vol.geo, home) || children(
                x,
                vol.geo,
                home,
            ) == children(after.bytes, vol.geo, home)
        }),
{
    let img = disk.bytes;
    let geo = vol.geo;
    let bm = vol.bitmap->Some_0;
    let area = bitmap_area(geo, bm);
    let home = home_of(img, vol, path);
    let hc = home_clusters(img, vol, path);
    let lo = lesser(valid_in(e) as int, offset as int);
    let hi = offset + data.len();
    let (mid, o, bytes, whole) = lemma_write_parts(disk, vol, path, e, offset, data);
    let chain = file_chain(img, geo, e)->Ok_0;
    let p = |x: Seq<u8>| untorn(img, x, geo, bm, chain, whole, lo, hi);
    let after = file_written(disk, vol, path, offset, data).0;
    lemma_last_write(disk, mid, o, bytes, cut, p);
    let x = cut_at(disk, after, cut);
    if cut <= mid.log.len() {
        let m = members(whole);
        let clusters = area.union(m);
        assert(confined(img, x, geo, m, clusters));
        lemma_fresh_apart(img, vol, path, e, whole);
        lemma_way_end(img, vol, components(parent_of(path)), 0, None);
        staying_keeps_all(img, x, vol, home, m, clusters, e.name);
        bystanders_are_unharmed(
            img,
            x,
            vol,
            home,
            e.name,
            file_reach(img, vol, e),
            m,
            clusters,
            other,
            f,
        );
    } else {
        a_write_leaves_others_alone(disk, vol, path, e, offset, data, other, f);
    }
}

/// A power cut in the course of creating a file harms no other file.
pub proof fn a_cut_of_a_creation_harms_no_other(
    disk: Disk,
    vol: Volume,
    path: Seq<char>,
    cut: int,
    other: Seq<char>,
    f: EntryModel,
)
    requires
        vacant(disk.bytes, vol, path),
        disk.log.len() <= cut <= creation(disk, vol, path, false).0.log.len(),
        bystander(
            disk.bytes,
            vol,
            home_of(disk.bytes, vol, path),
            leaf_of(path),
            Set::empty(),
            other,
            f,
        ),
    ensures
        unharmed(
            disk.bytes,
            cut_at(disk, creation(disk, vol, path, false).0, cut),
            vol,
            other,
            f,
        ),
{
    let hc = home_clusters(disk.bytes, vol, path);
    assert(Set::<int>::empty().union(hc) =~= hc);
    a_cut_of_a_creation_leaves_the_old_or_the_new(disk, vol, path, cut);
    a_creation_leaves_others_alone(disk, vol, path, other, f);
}

/// A power cut in the course of creating a directory harms no other file.
pub proof fn a_cut_of_a_new_directory_harms_no_other(
    disk: Disk,
    vol: Volume,
    path: Seq<char>,
    cut: int,
    other: Seq<char>,
    f: EntryModel,
)
    requires
        vacant(disk.bytes, vol, path),
        creation(disk, vol, path, true).1 is Ok,
        disk.log.len() <= cut <= creation(disk, vol, path, true).0.log.len(),
        bystander(
            disk.bytes,
            vol,
            home_of(disk.bytes, vol, path),
            leaf_of(path),
            bitmap_area(vol.geo, vol.bitmap->Some_0),
            other,
            f,
        ),
    ensures
        unharmed(
            disk.bytes,
            cut_at(disk, creation(disk, vol, path, true).0, cut),
            vol,
            other,
            f,
        ),
{
    let img = disk.bytes;
    let geo = vol.geo;
    let bm = vol.bitmap->Some_0;
    let area = bitmap_area(geo, bm);
    let home = home_of(img, vol, path);
    let after = creation(disk, vol, path, true).0;
    let x = cut_at(disk, after, cut);
    a_cut_of_a_new_directory_loses_no_more_than_a_cluster(disk, vol, path, cut);
    a_new_directory_leaves_others_alone(disk, vol, path, other, f);
    if x != after.bytes {
        let c = choose|c: int|
            {
                &&& geo.has_cluster(c)
                &&& !in_use(disk.bytes, geo, bm, c)
                &&& #[trigger] confined(
                    disk.bytes,
                    x,
                    geo,
                    Set::empty().insert(c),
                    area.union(Set::empty().insert(c)),
                )
            };
        let one = Set::<int>::empty().insert(c);
        target_of_a_sound_way(img, vol, path);
        assert(!home_clusters(img, vol, path).contains(c));
        staying_keeps_all(img, x, vol, home, one, area.union(one), leaf_of(path));
        bystanders_are_unharmed(
            img,
            x,
            vol,
            home,
            leaf_of(path),
            area,
            one,
            area.union(one),
            other,
            f,
        );
    }
}

/// A power cut in the course of a removal harms no other file.
pub proof fn a_cut_of_a_removal_harms_no_other(
    disk: Disk,
    vol: Volume,
    path: Seq<char>,
    e: EntryModel,
    cut: int,
    other: Seq<char>,
    f: EntryModel,
)
    requires
        removable(disk.bytes, vol, path, e),
        existing(disk.bytes, vol, path) matches Ok(loc) && adjoining(loc.offsets),
        disk.log.len() <= cut <= removal(disk, vol, path).0.log.len(),
        bystander(
            disk.bytes,
            vol,
            home_of(disk.bytes, vol, path),
            e.name,
            members(owned_clusters(disk.bytes, vol.geo, e)).union(
                bitmap_area(vol.geo, vol.bitmap->Some_0),
            ),
            other,
            f,
        ),
    ensures
        unharmed(disk.bytes, cut_at(disk, removal(disk, vol, path).0, cut), vol, other, f),
{
    let img = disk.bytes;
    let home = home_of(img, vol, path);
    let area = bitmap_area(vol.geo, vol.bitmap->Some_0);
    let own = members(owned_clusters(img, vol.geo, e));
    let x = cut_at(disk, removal(disk, vol, path).0, cut);
    a_cut_of_a_removal_leaves_the_old_or_the_new_listing(disk, vol, path, e, cut);
    if x != img {
        losing_keeps_the_rest(img, x, vol, home, e);
        bystanders_are_unharmed(
            img,
            x,
            vol,
            home,
            e.name,
            own.union(area),
            own,
            home_clusters(img, vol, path).union(area),
            other,
            f,
        );
    }
}

/// A power cut in the course of shrinking a file harms no other file.
pub proof fn a_cut_of_a_truncation_harms_no_other(
    disk: Disk,
    vol: Volume,
    path: Seq<char>,
    e: EntryModel,
    len: u64,
    cut: int,
    other: Seq<char>,
    f: EntryModel,
)
    requires
        sound_file(disk.bytes, vol, path, e),
        len <= e.size,
        0 < e.size,
        existing(disk.bytes, vol, path) matches Ok(loc) && loc.offsets[1] == loc.offsets[0] + 32,
        disk.log.len() <= cut <= truncation(disk, vol, path, len).0.log.len(),
        bystander(
            disk.bytes,
            vol,
            home_of(disk.bytes, vol, path),
            e.name,
            file_reach(disk.bytes, vol, e),
            other,
            f,
        ),
    ensures
        unharmed(disk.bytes, cut_at(disk, truncation(disk, vol, path, len).0, cut), vol, other, f),
{
    let img = disk.bytes;
    let home = home_of(img, vol, path);
    let area = bitmap_area(vol.geo, vol.bitmap->Some_0);
    let m = members(file_chain(img, vol.geo, e)->Ok_0);
    let x = cut_at(disk, truncation(disk, vol, path, len).0, cut);
    a_cut_of_a_truncation_leaves_the_old_or_the_new(disk, vol, path, e, len, cut);
    if x != img {
        let e2 = shortened(e, len, cluster_need(vol.geo, len as int));
        swapping_keeps_the_rest(img, x, vol, home, e, e2);
        bystanders_are_unharmed(
            img,
            x,
            vol,
            home,
            e.name,
            file_reach(img, vol, e),
            m,
            area.union(home_clusters(img, vol, path)),
            other,
            f,
        );
    }
}

/// A power cut in the course of a move harms no other file.
pub proof fn a_cut_of_a_move_harms_no_other(
    disk: Disk,
    vol: Volume,
    from: Seq<char>,
    to: Seq<char>,
    e: EntryModel,
    cut: int,
    other: Seq<char>,
    f: EntryModel,
)
    requires
        movable(disk.bytes, vol, from, to, e),
        existing(disk.bytes, vol, from) matches Ok(src) && adjoining(src.offsets),
        disk.log.len() <= cut <= renaming(disk, vol, from, to).0.log.len(),
        bystander(
            disk.bytes,
            vol,
            home_of(disk.bytes, vol, from),
            e.name,
            Set::empty(),
            other,
            f,
        ),
        bystander(
            disk.bytes,
            vol,
            home_of(disk.bytes, vol, to),
            leaf_of(to),
            Set::empty(),
            other,
            f,
        ),
    ensures
        unharmed(disk.bytes, cut_at(disk, renaming(disk, vol, from, to).0, cut), vol, other, f),
{
    let img = disk.bytes;
    let ht = home_of(img, vol, to);
    let after = renaming(disk, vol, from, to).0;
    let x = cut_at(disk, after, cut);
    a_cut_of_a_move_keeps_a_name(disk, vol, from, to, e, cut);
    a_move_leaves_others_alone(disk, vol, from, to, e, other, f);
    if x != img && x != after.bytes {
        let e2 = choose|e2: EntryModel|
            {
                &&& #[trigger] super::creating::gains(img, x, vol, ht, e2)
                &&& e2.name == leaf_of(to)
                &&& e2.first_cluster == e.first_cluster
                &&& e2.size == e.size
                &&& confined(img, x, vol.geo, Set::empty(), home_clusters(img, vol, to))
            };
        gaining_keeps_the_rest(img, x, vol, ht, e2);
        bystanders_are_unharmed(
            img,
            x,
            vol,
            ht,
            leaf_of(to),
            Set::empty(),
            Set::empty(),
            home_clusters(img, vol, to),
            other,
            f,
        );
    }
}

} // verus!
