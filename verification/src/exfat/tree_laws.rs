//! What the operations on a volume's tree keep: a created entry is found, a
//! removed one is not, and everything else stays where it was.

use vstd::prelude::*;

use super::areas::{
    bitmap_area, bitmap_placed, cluster_of, cluster_place, cluster_put, confined, confined_bits,
    confined_links, confined_trans, confined_weaker, in_use, members, placed,
};
use super::boot::Geometry;
use super::chains::{
    all_exist, allocation_is_fresh, confined_chain, doomed_is_the_chain, freed_clusters_are_free,
    full, lemma_len, lemma_need, next_of,
};
use super::clusters::{allocation, chain_freed, freed, run_of};
use super::creating::{
    gains, has_room, neat_dir, new_entry, placed_entry_is_listed, room_at_the_end, set_len,
};
use super::dir::{directory, parsed_from, per_cluster, EntryModel, ENTRY_END, ENTRY_FILE};
use super::entries::{
    lemma_row, lemma_until_end, named_is_found, row_in, rows_in, set_from, slot_holds_row,
    sound_names, until_end,
};
use super::fat::{chain_clusters_exist, chain_from, chain_of, fat_at, BAD_CLUSTER, END_OF_CHAIN};
use super::format::{
    bitmap_record, formatted, label_entry, layout_of, layout_ok, layouts_are_sound, lemma_parts,
    lemma_small_pows, root_image, upcase_record, Layout,
};
use super::fresh::{
    a_new_volume_is_free, a_new_volume_opens_empty, formatting_lays_out, laid_out, lemma_link,
    lemma_no_files, lemma_places, lemma_records, lemma_root_rows, new_volume,
};
use super::fs::{children, file_chain, lookup_from, lookup_result, named_from, BitmapLoc, Volume};
use super::io::ExFault;
use super::listing::whole_sets;
use super::readback::{
    home_clusters, home_of, lemma_way_end, lemma_way_kept, lookup_and_change_agree, place_of,
    sound_file, sound_way, upper_clusters,
};
use super::removing::{cleared_entry_is_gone, loses, named_once};
use super::ways::{
    dir_chain, dir_first, dir_rows, dir_stays, lookup_goes_through, tidy_children, tidy_dir,
    tidy_located, tidy_way, way_clusters, ways_agree,
};
use super::upcase::parts;
use super::write::{
    cleared, cluster_need, cluster_zeroed, contiguous_len, creation, emptiness, entry_placed, existing, removal, run_from,
    slots, target, DirModel, LocModel,
};
use crate::bytes::{splice, zeros};
use crate::device::Disk;
use crate::text::{
    a_child_lies_in_its_directory, a_path_is_its_directory_and_its_name, child_of, components,
    leaf_of, parent_of, utf16_of,
};

verus! {

/// Whether a path leads nowhere, and its directory can take a set of its name.
pub open spec fn vacant(img: Seq<u8>, vol: Volume, path: Seq<char>) -> bool {
    let home = home_of(img, vol, path);
    &&& sound_way(img, vol, path)
    &&& neat_dir(img, vol, home)
    &&& 1 <= utf16_of(leaf_of(path)).len() <= 255
    &&& has_room(img, vol, home, set_len(leaf_of(path)))
    &&& lookup_result(img, vol, path) == Err::<Option<EntryModel>, ExFault>(ExFault::NotFound)
}

/// What a change finds at a path whose way is in order.
pub proof fn target_of_a_sound_way(img: Seq<u8>, vol: Volume, path: Seq<char>)
    requires
        sound_way(img, vol, path),
    ensures
        tidy_dir(img, vol, home_of(img, vol, path)),
        children(img, vol.geo, home_of(img, vol, path)) is Ok,
        lookup_result(img, vol, path) == (match named_from(
            vol.upcase,
            children(img, vol.geo, home_of(img, vol, path))->Ok_0,
            leaf_of(path),
            0,
        ) {
            None => Err(ExFault::NotFound),
            Some(e) => Ok(Some(e)),
        }),
        target(img, vol, path) matches Ok((dir, loc)) && dir.first_cluster == dir_first(
            vol,
            home_of(img, vol, path),
        ) && (loc is Some == (lookup_result(img, vol, path) is Ok)),
{
    let comps = components(parent_of(path));
    let root = DirModel { first_cluster: vol.geo.root_first_cluster, entry: None };
    a_path_is_its_directory_and_its_name(path);
    lookup_goes_through(img, vol, comps, leaf_of(path), 0, None);
    ways_agree(img, vol, comps, 0, None, root);
    lemma_way_end(img, vol, comps, 0, None);
    let home = home_of(img, vol, path);
    tidy_children(img, vol, home);
    tidy_located(img, vol, home, leaf_of(path));
    named_is_found(vol.upcase, dir_rows(img, vol, home), leaf_of(path), 0);
}

/// A change confined to the last directory keeps the way and the bits.
pub proof fn lemma_home_changed(
    img: Seq<u8>,
    after: Seq<u8>,
    vol: Volume,
    path: Seq<char>,
)
    requires
        sound_way(img, vol, path),
        confined(img, after, vol.geo, Set::empty(), home_clusters(img, vol, path)),
        tidy_dir(after, vol, home_of(img, vol, path)),
        dir_chain(after, vol, home_of(img, vol, path)) == dir_chain(
            img,
            vol,
            home_of(img, vol, path),
        ),
    ensures
        sound_way(after, vol, path),
        home_of(after, vol, path) == home_of(img, vol, path),
        home_clusters(after, vol, path) == home_clusters(img, vol, path),
        upper_clusters(after, vol, path) == upper_clusters(img, vol, path),
        forall|c: int|
            vol.geo.has_cluster(c) ==> #[trigger] in_use(after, vol.geo, vol.bitmap->Some_0, c)
                == in_use(img, vol.geo, vol.bitmap->Some_0, c),
{
    let geo = vol.geo;
    let bm = vol.bitmap->Some_0;
    let hc = home_clusters(img, vol, path);
    assert forall|c: int| geo.has_cluster(c) implies #[trigger] in_use(after, geo, bm, c) == in_use(
        img,
        geo,
        bm,
        c,
    ) by {
        confined_bits(img, after, geo, bm, Set::empty(), hc, c);
    }
    lemma_way_kept(img, after, vol, path, Set::empty(), hc);
}

/// A file created where there is none is found: empty, in order, and in its
/// directory's listing, which is otherwise what it was. Nothing but that
/// directory changes.
pub proof fn a_created_file_is_found(disk: Disk, vol: Volume, path: Seq<char>)
    requires
        vacant(disk.bytes, vol, path),
    ensures
        ({
            let (after, r) = creation(disk, vol, path, false);
            let e = new_entry(leaf_of(path), false, 0, 0, 0, 0);
            let home = home_of(disk.bytes, vol, path);
            &&& r is Ok
            &&& lookup_result(after.bytes, vol, path) == Ok::<Option<EntryModel>, ExFault>(Some(e))
            &&& sound_file(after.bytes, vol, path, e)
            &&& home_of(after.bytes, vol, path) == home
            &&& gains(disk.bytes, after.bytes, vol, home, e)
            &&& confined(
                disk.bytes,
                after.bytes,
                vol.geo,
                Set::empty(),
                home_clusters(disk.bytes, vol, path),
            )
        }),
{
    let img = disk.bytes;
    let geo = vol.geo;
    let home = home_of(img, vol, path);
    target_of_a_sound_way(img, vol, path);
    let dir = target(img, vol, path)->Ok_0.0;
    placed_entry_is_listed(disk, vol, home, dir, leaf_of(path), false, 0, 0, 0, 0);
    let after = creation(disk, vol, path, false).0;
    let e = new_entry(leaf_of(path), false, 0, 0, 0, 0);
    assert(creation(disk, vol, path, false) == entry_placed(
        disk,
        vol,
        dir,
        leaf_of(path),
        false,
        0,
        0,
        0,
        0x00,
    ));
    lemma_home_changed(img, after.bytes, vol, path);
    target_of_a_sound_way(after.bytes, vol, path);
    lemma_need(geo, 0, 1);
    assert(file_chain(after.bytes, geo, e) == Ok::<Seq<u32>, ExFault>(seq![]));
    assert(members(Seq::<u32>::empty()) =~= Set::empty());
}

proof fn lemma_no_names(raws: Seq<Seq<u8>>, i: int)
    requires
        0 <= i,
        forall|k: int| 0 <= k < raws.len() ==> (#[trigger] raws[k])[0] != ENTRY_FILE,
    ensures
        sound_names(raws, i),
        whole_sets(raws, i),
    decreases raws.len() - i,
{
    if i < raws.len() {
        assert(raws[i][0] != ENTRY_FILE);
        lemma_no_names(raws, i + 1);
    }
}

/// The root directory of a new volume.
proof fn lemma_new_root(img: Seq<u8>, l: Layout, serial: u32, total_bytes: u64)
    requires
        layout_ok(l, total_bytes),
        total_bytes <= img.len(),
        laid_out(img, l, serial),
        placed(l.geometry(), img.len()),
    ensures
        tidy_dir(img, new_volume(l), None),
        neat_dir(img, new_volume(l), None),
        dir_chain(img, new_volume(l), None) == seq![l.root_first() as u32],
        dir_rows(img, new_volume(l), None).len() == 3,
        per_cluster(l.geometry()) >= 128,
{
    let vol = new_volume(l);
    let geo = l.geometry();
    let first = l.root_first() as u32;
    let chain = seq![first];
    lemma_places(l, total_bytes);
    lemma_link(img, l, serial, total_bytes, first as int);
    reveal_with_fuel(chain_from, 2);
    assert(chain_of(img, geo, first, None) == Ok::<Seq<u32>, ExFault>(chain));
    assert(dir_chain(img, vol, None) == chain);
    lemma_records(l);
    let rows = rows_in(img, geo, chain);
    let per = per_cluster(geo);
    lemma_root_rows(img, l, serial, total_bytes, 0);
    assert(1 * per == per);
    assert(geo.cluster_start(first as int) == l.start(l.root_first())) by {
        assert(geo.bytes_per_sector * geo.cluster_heap_offset_sectors == 512 * l.heap_offset);
    }
    assert(cluster_of(img, geo, first as int) == root_image(l));
    assert forall|k: int| 0 <= k < rows.len() implies (#[trigger] rows[k])[0] == (if k == 0 {
        0x83u8
    } else if k == 1 {
        0x81u8
    } else if k == 2 {
        0x82u8
    } else {
        0u8
    }) by {
        lemma_row(geo, 1, k);
        assert(chain[k / per] == first);
        assert(k / per == 0);
        vstd::arithmetic::div_mod::lemma_small_mod(k as nat, per as nat);
        assert(rows[k][0] == root_image(l)[32 * k]);
        if k == 0 {
            assert(root_image(l)[0] == label_entry()[0]);
        } else if k == 1 {
            assert(root_image(l)[32] == bitmap_record(l)[0]);
        } else if k == 2 {
            assert(root_image(l)[64] == upcase_record(l)[0]);
        }
    }
    let raws = until_end(rows, 0);
    lemma_until_end(rows, 0);
    assert(raws.len() == 3) by {
        if raws.len() < 3 {
            assert(rows[raws.len() as int][0] != 0);
        }
        if raws.len() > 3 {
            assert(rows[3][0] == 0);
        }
    }
    assert forall|k: int| 0 <= k < raws.len() implies (#[trigger] raws[k])[0] != ENTRY_FILE by {
        assert(raws[k] == rows[k]);
    }
    lemma_no_files(raws, 0);
    lemma_no_names(raws, 0);
}

/// A new volume takes a file: whatever the disk held before formatting, any
/// name that is neither empty nor too long can be created in its root.
pub proof fn a_new_volume_takes_files(
    disk: Disk,
    total_bytes: u64,
    serial: u32,
    path: Seq<char>,
)
    requires
        total_bytes <= disk.bytes.len(),
        layout_of(total_bytes) is Ok,
        layout_of(total_bytes)->Ok_0.cluster_count + 2 <= BAD_CLUSTER,
        components(parent_of(path)).len() == 0,
        1 <= utf16_of(leaf_of(path)).len() <= 255,
    ensures
        vacant(
            formatted(disk, total_bytes, serial).0.bytes,
            new_volume(layout_of(total_bytes)->Ok_0),
            path,
        ),
{
    let l = layout_of(total_bytes)->Ok_0;
    let vol = new_volume(l);
    let geo = vol.geo;
    let bm = vol.bitmap->Some_0;
    let img = formatted(disk, total_bytes, serial).0.bytes;
    formatting_lays_out(disk, total_bytes, serial);
    layouts_are_sound(total_bytes);
    a_new_volume_opens_empty(disk, total_bytes, serial);
    lemma_places(l, total_bytes);
    let cl = l.cluster_len();
    assert(geo.cluster_len() == cl);
    assert(geo.cluster_count * cl == 512 * (l.cluster_count * l.spc)) by (nonlinear_arith)
        requires
            cl == 512 * l.spc,
            geo.cluster_count == l.cluster_count,
    ;
    assert(geo.wf());
    assert(placed(geo, img.len()));
    // The bitmap.
    let bytes = parts(l.cluster_count as int, 8);
    lemma_parts(l.cluster_count as int, 8);
    assert(l.bm_clusters == parts(bytes, cl)) by {
        lemma_small_pows();
    }
    assert(bitmap_placed(geo, bm));
    lemma_new_root(img, l, serial, total_bytes);
    let comps = components(parent_of(path));
    assert(home_of(img, vol, path) is None);
    let home = home_clusters(img, vol, path);
    assert(upper_clusters(img, vol, path) =~= Set::empty());
    assert forall|c: int| #[trigger] home.contains(c) implies c == l.root_first() by {
        let chain = seq![l.root_first() as u32];
        let i = choose|i: int| 0 <= i < chain.len() && #[trigger] chain[i] as int == c;
    }
    reveal(in_use);
    assert forall|c: int|
        home.contains(c) || upper_clusters(img, vol, path).contains(c) || bitmap_area(
            geo,
            bm,
        ).contains(c) implies #[trigger] in_use(img, geo, bm, c) by {
        a_new_volume_is_free(disk, total_bytes, serial, c);
    }
    assert(leaf_of(path).len() > 0);
    assert(tidy_way(img, vol, comps, 0, None));
    assert(sound_way(img, vol, path));
    target_of_a_sound_way(img, vol, path);
    lemma_parts(utf16_of(leaf_of(path)).len() as int, 15);
    let per = per_cluster(geo);
    vstd::arithmetic::div_mod::lemma_small_mod(3, per as nat);
    assert(set_len(leaf_of(path)) <= 2 + 17);
    assert(1 * per == per);
    room_at_the_end(img, vol, None, set_len(leaf_of(path)));
}

/// The clusters that removing an entry frees.
pub open spec fn owned_clusters(img: Seq<u8>, geo: Geometry, e: EntryModel) -> Seq<u32> {
    if e.first_cluster < 2 {
        seq![]
    } else if e.no_fat_chain {
        run_of(geo, e.first_cluster, cluster_need(geo, e.size as int) as u64)
    } else {
        chain_of(img, geo, e.first_cluster, None)->Ok_0
    }
}

/// Whether a path leads to an entry that can be removed: a file or an empty
/// directory, the only one of its name, whose clusters lie apart from the
/// directories on the way and from the bitmap.
pub open spec fn removable(img: Seq<u8>, vol: Volume, path: Seq<char>, e: EntryModel) -> bool {
    let home = home_of(img, vol, path);
    let own = members(owned_clusters(img, vol.geo, e));
    &&& sound_way(img, vol, path)
    &&& neat_dir(img, vol, home)
    &&& lookup_result(img, vol, path) == Ok::<Option<EntryModel>, ExFault>(Some(e))
    &&& named_once(vol.upcase, children(img, vol.geo, home)->Ok_0, leaf_of(path))
    &&& e.is_dir ==> directory(img, vol.geo, e.first_cluster, false, u64::MAX) == Ok::<
        Seq<EntryModel>,
        ExFault,
    >(seq![])
    &&& e.first_cluster >= 2 ==> if e.no_fat_chain {
        e.first_cluster + cluster_need(vol.geo, e.size as int) <= vol.geo.cluster_count + 2
    } else {
        chain_of(img, vol.geo, e.first_cluster, None) is Ok
    }
    &&& own.disjoint(home_clusters(img, vol, path))
    &&& own.disjoint(upper_clusters(img, vol, path))
    &&& own.disjoint(bitmap_area(vol.geo, vol.bitmap->Some_0))
}

/// Removing, taken apart.
pub proof fn lemma_removal_stages(disk: Disk, vol: Volume, path: Seq<char>, loc: LocModel)
    requires
        existing(disk.bytes, vol, path) == Ok::<LocModel, ExFault>(loc),
        emptiness(disk.bytes, vol.geo, loc) is Ok,
        vol.bitmap is Some,
        cleared(disk, loc.offsets).1 is Ok,
    ensures
        removal(disk, vol, path) == ({
            let d = cleared(disk, loc.offsets).0.flushed();
            if loc.first_cluster < 2 {
                (d, Ok::<(), ExFault>(()))
            } else {
                match chain_freed(
                    d,
                    vol.geo,
                    vol.bitmap->Some_0,
                    loc.first_cluster,
                    contiguous_len(vol.geo, loc),
                ) {
                    (d2, Err(f)) => (d2, Err(f)),
                    (d2, Ok(_)) => (d2.flushed(), Ok(())),
                }
            }
        }),
{
}

/// A removed entry is not found, its directory's listing is otherwise what it
/// was, its clusters are free, whether they were chained or just followed each
/// other, and no other cluster's use changes.
pub proof fn a_removed_entry_is_gone(disk: Disk, vol: Volume, path: Seq<char>, e: EntryModel)
    requires
        removable(disk.bytes, vol, path, e),
    ensures
        ({
            let img = disk.bytes;
            let geo = vol.geo;
            let bm = vol.bitmap->Some_0;
            let (after, r) = removal(disk, vol, path);
            let own = members(owned_clusters(img, geo, e));
            let home = home_of(img, vol, path);
            &&& r is Ok
            &&& lookup_result(after.bytes, vol, path) == Err::<Option<EntryModel>, ExFault>(
                ExFault::NotFound,
            )
            &&& sound_way(after.bytes, vol, path)
            &&& home_of(after.bytes, vol, path) == home
            &&& loses(img, after.bytes, vol, home, e)
            &&& forall|c: int|
                geo.has_cluster(c) ==> #[trigger] in_use(after.bytes, geo, bm, c) == (in_use(
                    img,
                    geo,
                    bm,
                    c,
                ) && !own.contains(c))
            &&& confined(
                img,
                after.bytes,
                geo,
                own,
                home_clusters(img, vol, path).union(bitmap_area(geo, bm)),
            )
        }),
{
    let img = disk.bytes;
    let geo = vol.geo;
    let bm = vol.bitmap->Some_0;
    let area = bitmap_area(geo, bm);
    let home = home_of(img, vol, path);
    let hc = home_clusters(img, vol, path);
    let raws = dir_rows(img, vol, home);
    let k = place_of(img, vol, path);
    let own = owned_clusters(img, geo, e);
    let m = members(own);
    lookup_and_change_agree(img, vol, path, e);
    named_is_found(vol.upcase, raws, leaf_of(path), 0);
    let loc = existing(img, vol, path)->Ok_0;
    let set = set_from(raws, k);
    assert(set[0] == raws[k] && set[1] == raws[k + 1]);
    assert(loc.first_cluster == e.first_cluster && loc.is_dir == e.is_dir && loc.data_len
        == e.size);
    assert((loc.flags / 2 % 2 == 1) == e.no_fat_chain);
    cleared_entry_is_gone(disk, vol, home, leaf_of(path), k);
    let d = cleared(disk, loc.offsets).0.flushed();
    assert(emptiness(img, geo, loc) is Ok);
    lemma_removal_stages(disk, vol, path, loc);
    lemma_home_changed(img, d.bytes, vol, path);
    target_of_a_sound_way(d.bytes, vol, path);
    lemma_len(img, d.bytes, geo, Set::empty(), hc);
    let after = removal(disk, vol, path).0;
    if e.first_cluster < 2 {
        assert(m =~= Set::empty());
        confined_weaker(img, after.bytes, geo, Set::empty(), hc, m, hc.union(area));
    } else {
        let first = e.first_cluster;
        let count = geo.cluster_count as int;
        let run = contiguous_len(geo, loc);
        if e.no_fat_chain {
            lemma_need(geo, e.size as int, u64::MAX as int);
            assert(all_exist(geo, own));
        } else {
            confined_chain(img, d.bytes, geo, Set::empty(), hc, first, 0, count, false);
            doomed_is_the_chain(d.bytes, geo, first, 0);
            chain_clusters_exist(d.bytes, geo, first, 0, count, false);
        }
        let n = own.len() as int;
        freed_clusters_are_free(d, geo, bm, own, n);
        let d2 = freed(d, geo, bm, own, n).0;
        assert(own.take(n) =~= own);
        assert(chain_freed(d, geo, bm, first, run) == (d2, Ok::<(), ExFault>(())));
        lemma_len(d.bytes, d2.bytes, geo, m, area);
        confined_trans(img, d.bytes, d2.bytes, geo, Set::empty(), hc, m, area);
        assert(Set::empty().union(m) =~= m);
        dir_stays(d.bytes, d2.bytes, vol, m, area, home);
        assert forall|c: int| geo.has_cluster(c) implies #[trigger] in_use(d2.bytes, geo, bm, c)
            == (in_use(img, geo, bm, c) && !m.contains(c)) by {
            assert(in_use(d.bytes, geo, bm, c) == in_use(img, geo, bm, c));
        }
        lemma_way_kept_by_freeing(d.bytes, d2.bytes, vol, path, m);
        target_of_a_sound_way(d2.bytes, vol, path);
    }
}

/// Freeing clusters that are not on the way keeps the way.
proof fn lemma_way_kept_by_freeing(
    img: Seq<u8>,
    after: Seq<u8>,
    vol: Volume,
    path: Seq<char>,
    own: Set<int>,
)
    requires
        sound_way(img, vol, path),
        confined(img, after, vol.geo, own, bitmap_area(vol.geo, vol.bitmap->Some_0)),
        own.disjoint(home_clusters(img, vol, path)),
        own.disjoint(upper_clusters(img, vol, path)),
        own.disjoint(bitmap_area(vol.geo, vol.bitmap->Some_0)),
        forall|c: int|
            vol.geo.has_cluster(c) ==> #[trigger] in_use(after, vol.geo, vol.bitmap->Some_0, c) == (
            in_use(img, vol.geo, vol.bitmap->Some_0, c) && !own.contains(c)),
    ensures
        sound_way(after, vol, path),
        home_of(after, vol, path) == home_of(img, vol, path),
        children(after, vol.geo, home_of(img, vol, path)) == children(
            img,
            vol.geo,
            home_of(img, vol, path),
        ),
        dir_rows(after, vol, home_of(img, vol, path)) == dir_rows(
            img,
            vol,
            home_of(img, vol, path),
        ),
        neat_dir(img, vol, home_of(img, vol, path)) ==> neat_dir(
            after,
            vol,
            home_of(img, vol, path),
        ),
{
    let geo = vol.geo;
    let bm = vol.bitmap->Some_0;
    let area = bitmap_area(geo, bm);
    let comps = components(parent_of(path));
    lemma_way_end(img, vol, comps, 0, None);
    let home = home_of(img, vol, path);
    lemma_len(img, after, geo, own, area);
    dir_stays(img, after, vol, own, area, home);
    lemma_way_kept(img, after, vol, path, own, area);
}

/// The slots that a search finds in a directory depend on its rows alone.
pub proof fn lemma_run_stays(
    a: Seq<u8>,
    b: Seq<u8>,
    geo: Geometry,
    chain: Seq<u32>,
    k: int,
    s: int,
    run: int,
)
    requires
        placed(geo, a.len()),
        placed(geo, b.len()),
        all_exist(geo, chain),
        rows_in(b, geo, chain) == rows_in(a, geo, chain),
        0 <= s,
    ensures
        run_from(b, slots(geo, chain), per_cluster(geo), k, s, run) == run_from(
            a,
            slots(geo, chain),
            per_cluster(geo),
            k,
            s,
            run,
        ),
    decreases slots(geo, chain).len() - s,
{
    if s < slots(geo, chain).len() {
        slot_holds_row(a, geo, chain, s);
        slot_holds_row(b, geo, chain, s);
        assert(rows_in(a, geo, chain)[s] == row_in(a, geo, chain, s));
        assert(rows_in(b, geo, chain)[s] == row_in(b, geo, chain, s));
        let before = if s % per_cluster(geo) == 0 {
            0
        } else {
            run
        };
        lemma_run_stays(a, b, geo, chain, k, s + 1, 0);
        lemma_run_stays(a, b, geo, chain, k, s + 1, before + 1);
    }
}

/// Room stays where nothing of a directory changes.
pub proof fn lemma_room_stays(
    a: Seq<u8>,
    b: Seq<u8>,
    vol: Volume,
    words: Set<int>,
    clusters: Set<int>,
    dir: Option<EntryModel>,
    k: int,
)
    requires
        placed(vol.geo, a.len()),
        confined(a, b, vol.geo, words, clusters),
        tidy_dir(a, vol, dir),
        members(dir_chain(a, vol, dir)).disjoint(words),
        members(dir_chain(a, vol, dir)).disjoint(clusters),
    ensures
        tidy_dir(b, vol, dir),
        neat_dir(a, vol, dir) ==> neat_dir(b, vol, dir),
        has_room(b, vol, dir, k) == has_room(a, vol, dir, k),
        dir_chain(b, vol, dir) == dir_chain(a, vol, dir),
        children(b, vol.geo, dir) == children(a, vol.geo, dir),
{
    lemma_len(a, b, vol.geo, words, clusters);
    dir_stays(a, b, vol, words, clusters, dir);
    tidy_children(a, vol, dir);
    lemma_run_stays(a, b, vol.geo, dir_chain(a, vol, dir), k, 0, 0);
}

/// A cluster of zeros, ended in the table, is an empty directory.
pub proof fn lemma_zeroed_dir(img: Seq<u8>, vol: Volume, e: EntryModel)
    requires
        placed(vol.geo, img.len()),
        e.is_dir,
        !e.no_fat_chain,
        vol.geo.has_cluster(e.first_cluster as int),
        e.size == vol.geo.cluster_len(),
        fat_at(img, vol.geo, e.first_cluster as int) == Ok::<u32, ExFault>(END_OF_CHAIN),
        cluster_of(img, vol.geo, e.first_cluster as int) == zeros(vol.geo.cluster_len() as nat),
    ensures
        tidy_dir(img, vol, Some(e)),
        neat_dir(img, vol, Some(e)),
        dir_chain(img, vol, Some(e)) == seq![e.first_cluster],
        dir_rows(img, vol, Some(e)).len() == 0,
        children(img, vol.geo, Some(e)) == Ok::<Seq<EntryModel>, ExFault>(seq![]),
{
    let geo = vol.geo;
    let chain = seq![e.first_cluster];
    reveal_with_fuel(chain_from, 2);
    assert(chain_of(img, geo, e.first_cluster, None) == Ok::<Seq<u32>, ExFault>(chain));
    assert(1 * geo.cluster_len() == geo.cluster_len());
    let rows = rows_in(img, geo, chain);
    assert forall|k: int| 0 <= k < rows.len() implies (#[trigger] rows[k])[0] == ENTRY_END by {
        lemma_row(geo, 1, k);
        assert(chain[k / per_cluster(geo)] == e.first_cluster);
    }
    let raws = until_end(rows, 0);
    assert(raws =~= seq![]);
    assert(parsed_from(raws, 0) == Ok::<Seq<EntryModel>, ExFault>(seq![]));
    tidy_children(img, vol, Some(e));
}

/// What the disk is like once a new directory has its cluster: that cluster
/// was free, is zeroed and ends its chain, and nothing else but the bitmap
/// changed.
pub proof fn lemma_dir_cluster(disk: Disk, geo: Geometry, bm: BitmapLoc)
    requires
        placed(geo, disk.bytes.len()),
        bitmap_placed(geo, bm),
        forall|c: int|
            bitmap_area(geo, bm).contains(c) ==> #[trigger] in_use(disk.bytes, geo, bm, c),
    ensures
        match allocation(disk, geo, bm, 1) {
            (_, Err(f)) => f == full(),
            (d, Ok(chain)) => {
                let c = chain[0] as int;
                let (d2, r) = cluster_zeroed(d, geo, chain[0]);
                let one = Set::<int>::empty().insert(c);
                &&& chain.len() == 1
                &&& r is Ok
                &&& geo.has_cluster(c)
                &&& !in_use(disk.bytes, geo, bm, c)
                &&& confined(disk.bytes, d2.bytes, geo, one, bitmap_area(geo, bm).union(one))
                &&& fat_at(d2.bytes, geo, c) == Ok::<u32, ExFault>(END_OF_CHAIN)
                &&& cluster_of(d2.bytes, geo, c) == zeros(geo.cluster_len() as nat)
                &&& forall|k: int|
                    geo.has_cluster(k) ==> #[trigger] in_use(d2.bytes, geo, bm, k) == (in_use(
                        disk.bytes,
                        geo,
                        bm,
                        k,
                    ) || k == c)
            },
        },
{
    allocation_is_fresh(disk, geo, bm, 1);
    if let Ok(chain) = allocation(disk, geo, bm, 1).1 {
        let d = allocation(disk, geo, bm, 1).0;
        let c = chain[0] as int;
        let one = Set::<int>::empty().insert(c);
        let area = bitmap_area(geo, bm);
        assert(geo.has_cluster(chain[0] as int));
        assert(members(chain) =~= one) by {
            assert forall|k: int| members(chain).contains(k) == one.contains(k) by {
                if k == c {
                    assert(chain[0] as int == k);
                }
            }
        }
        lemma_len(disk.bytes, d.bytes, geo, one, area);
        let data = zeros(geo.cluster_len() as nat);
        cluster_place(geo, d.bytes.len(), c);
        cluster_put(d.bytes, geo, c, 0, data);
        let d2 = cluster_zeroed(d, geo, chain[0]).0;
        assert(d2.bytes == splice(d.bytes, geo.cluster_start(c) + 0, data));
        assert(cluster_of(d2.bytes, geo, c) =~= data);
        lemma_len(d.bytes, d2.bytes, geo, Set::empty(), one);
        confined_trans(disk.bytes, d.bytes, d2.bytes, geo, one, area, Set::empty(), one);
        assert(one.union(Set::empty()) =~= one);
        assert(!in_use(disk.bytes, geo, bm, chain[0] as int));
        assert(one.disjoint(area)) by {
            if area.contains(c) {
                assert(in_use(disk.bytes, geo, bm, c));
            }
        }
        confined_links(d.bytes, d2.bytes, geo, Set::empty(), one, c);
        assert(fat_at(d.bytes, geo, chain[0] as int) == Ok::<u32, ExFault>(next_of(chain, 0)));
        assert forall|k: int| geo.has_cluster(k) implies #[trigger] in_use(d2.bytes, geo, bm, k)
            == (in_use(disk.bytes, geo, bm, k) || k == c) by {
            confined_bits(d.bytes, d2.bytes, geo, bm, Set::empty(), one, k);
            assert(in_use(d.bytes, geo, bm, k) == (in_use(disk.bytes, geo, bm, k) || members(
                chain,
            ).contains(k)));
        }
    }
}

/// Creating a directory, taken apart.
pub proof fn lemma_mkdir_stages(disk: Disk, vol: Volume, path: Seq<char>, dir: DirModel)
    requires
        target(disk.bytes, vol, path) == Ok::<(DirModel, Option<LocModel>), ExFault>((dir, None)),
        vol.bitmap is Some,
    ensures
        creation(disk, vol, path, true) == (match allocation(
            disk,
            vol.geo,
            vol.bitmap->Some_0,
            1,
        ) {
            (d, Err(f)) => (d, Err::<(), ExFault>(f)),
            (d, Ok(chain)) => match cluster_zeroed(d, vol.geo, chain[0]) {
                (d2, Err(f)) => (d2, Err(f)),
                (d2, Ok(_)) => entry_placed(
                    d2.flushed(),
                    vol,
                    dir,
                    leaf_of(path),
                    true,
                    chain[0],
                    vol.geo.cluster_len() as u64,
                    vol.geo.cluster_len() as u64,
                    0x01,
                ),
            },
        }),
{
}

/// A directory created where there is nothing is found: empty, in order, in a
/// cluster that was free, and in its directory's listing, which is otherwise
/// what it was. Creating one fails only for want of a free cluster.
#[verifier::spinoff_prover]
#[verifier::rlimit(40)]
pub proof fn a_created_directory_is_empty(disk: Disk, vol: Volume, path: Seq<char>)
    requires
        vacant(disk.bytes, vol, path),
    ensures
        creation(disk, vol, path, true).1 is Ok == (allocation(
            disk,
            vol.geo,
            vol.bitmap->Some_0,
            1,
        ).1 is Ok),
        match creation(disk, vol, path, true) {
            (_, Err(f)) => f == full(),
            (after, Ok(_)) => {
                let img = disk.bytes;
                let geo = vol.geo;
                let bm = vol.bitmap->Some_0;
                let home = home_of(img, vol, path);
                let e = lookup_result(after.bytes, vol, path)->Ok_0->Some_0;
                let c = e.first_cluster as int;
                let one = Set::<int>::empty().insert(c);
                &&& lookup_result(after.bytes, vol, path) == Ok::<Option<EntryModel>, ExFault>(
                    Some(e),
                )
                &&& e.name == leaf_of(path)
                &&& e.is_dir
                &&& children(after.bytes, geo, Some(e)) == Ok::<Seq<EntryModel>, ExFault>(seq![])
                &&& tidy_dir(after.bytes, vol, Some(e))
                &&& neat_dir(after.bytes, vol, Some(e))
                &&& dir_chain(after.bytes, vol, Some(e)) == seq![e.first_cluster]
                &&& dir_rows(after.bytes, vol, Some(e)).len() == 0
                &&& geo.has_cluster(c)
                &&& !in_use(img, geo, bm, c)
                &&& in_use(after.bytes, geo, bm, c)
                &&& sound_way(after.bytes, vol, path)
                &&& home_of(after.bytes, vol, path) == home
                &&& home_clusters(after.bytes, vol, path) == home_clusters(img, vol, path)
                &&& upper_clusters(after.bytes, vol, path) == upper_clusters(img, vol, path)
                &&& gains(img, after.bytes, vol, home, e)
                &&& confined(
                    img,
                    after.bytes,
                    geo,
                    one,
                    bitmap_area(geo, bm).union(one).union(home_clusters(img, vol, path)),
                )
            },
        },
{
    let img = disk.bytes;
    let geo = vol.geo;
    let bm = vol.bitmap->Some_0;
    let area = bitmap_area(geo, bm);
    let home = home_of(img, vol, path);
    let hc = home_clusters(img, vol, path);
    let uc = upper_clusters(img, vol, path);
    let name = leaf_of(path);
    target_of_a_sound_way(img, vol, path);
    let dir = target(img, vol, path)->Ok_0.0;
    lemma_mkdir_stages(disk, vol, path, dir);
    lemma_dir_cluster(disk, geo, bm);
    if let Ok(chain) = allocation(disk, geo, bm, 1).1 {
        let c = chain[0] as int;
        let one = Set::<int>::empty().insert(c);
        let d2 = cluster_zeroed(allocation(disk, geo, bm, 1).0, geo, chain[0]).0.flushed();
        lemma_len(img, d2.bytes, geo, one, area.union(one));
        assert(!hc.contains(c) && !uc.contains(c) && !area.contains(c)) by {
            assert(!in_use(img, geo, bm, c));
        }
        lemma_room_stays(img, d2.bytes, vol, one, area.union(one), home, set_len(name));
        lemma_way_kept(img, d2.bytes, vol, path, one, area.union(one));
        let size = geo.cluster_len() as u64;
        placed_entry_is_listed(d2, vol, home, dir, name, true, chain[0], size, size, 0x01);
        let e = new_entry(name, true, chain[0], size, size, 0x01);
        let after = creation(disk, vol, path, true).0;
        lemma_home_changed(d2.bytes, after.bytes, vol, path);
        target_of_a_sound_way(after.bytes, vol, path);
        assert(lookup_result(after.bytes, vol, path) == Ok::<Option<EntryModel>, ExFault>(Some(e)));
        lemma_len(d2.bytes, after.bytes, geo, Set::empty(), hc);
        confined_trans(
            img,
            d2.bytes,
            after.bytes,
            geo,
            one,
            area.union(one),
            Set::empty(),
            hc,
        );
        assert(one.union(Set::empty()) =~= one);
        confined_links(d2.bytes, after.bytes, geo, Set::empty(), hc, c);
        assert(cluster_of(after.bytes, geo, c) == cluster_of(d2.bytes, geo, c)) by {
            reveal(confined);
        }
        lemma_zeroed_dir(after.bytes, vol, e);
    }
}

/// A way goes one directory further where the next one is in order.
pub proof fn lemma_way_goes_on(
    img: Seq<u8>,
    vol: Volume,
    comps: Seq<Seq<char>>,
    name: Seq<char>,
    i: int,
    cur: Option<EntryModel>,
    e: EntryModel,
)
    requires
        placed(vol.geo, img.len()),
        0 <= i <= comps.len(),
        tidy_way(img, vol, comps, i, cur),
        ({
            let dir = lookup_from(img, vol, comps, i, cur)->Ok_0;
            named_from(vol.upcase, children(img, vol.geo, dir)->Ok_0, name, 0) == Some(e)
        }),
        tidy_dir(img, vol, Some(e)),
    ensures
        tidy_way(img, vol, comps.push(name), i, cur),
        lookup_from(img, vol, comps.push(name), i, cur) == Ok::<Option<EntryModel>, ExFault>(
            Some(e),
        ),
        way_clusters(img, vol, comps.push(name), i, cur) == way_clusters(
            img,
            vol,
            comps,
            i,
            cur,
        ).union(members(dir_chain(img, vol, lookup_from(img, vol, comps, i, cur)->Ok_0))),
    decreases comps.len() - i,
{
    let longer = comps.push(name);
    let here = members(dir_chain(img, vol, cur));
    tidy_children(img, vol, cur);
    if i < comps.len() {
        assert(longer[i] == comps[i]);
        let next = named_from(
            vol.upcase,
            parsed_from(dir_rows(img, vol, cur), 0)->Ok_0,
            comps[i],
            0,
        )->Some_0;
        lemma_way_goes_on(img, vol, comps, name, i + 1, Some(next), e);
        assert(way_clusters(img, vol, longer, i, cur) =~= way_clusters(
            img,
            vol,
            comps,
            i,
            cur,
        ).union(members(dir_chain(img, vol, lookup_from(img, vol, comps, i, cur)->Ok_0))));
    } else {
        assert(longer[i] == name);
        assert(tidy_way(img, vol, longer, i + 1, Some(e)));
        assert(lookup_from(img, vol, longer, i + 1, Some(e)) == Ok::<Option<EntryModel>, ExFault>(
            Some(e),
        ));
        assert(way_clusters(img, vol, longer, i + 1, Some(e)) =~= Set::empty());
        assert(way_clusters(img, vol, comps, i, cur) =~= Set::empty());
        assert(way_clusters(img, vol, longer, i, cur) =~= here);
        assert(Set::empty().union(here) =~= here);
    }
}

/// Whether a path leads to a directory that is in order, all of it in use, and
/// apart from the directories on the way and from the bitmap.
pub open spec fn sound_dir(img: Seq<u8>, vol: Volume, path: Seq<char>, e: EntryModel) -> bool {
    let own = members(dir_chain(img, vol, Some(e)));
    &&& sound_way(img, vol, path)
    &&& lookup_result(img, vol, path) == Ok::<Option<EntryModel>, ExFault>(Some(e))
    &&& tidy_dir(img, vol, Some(e))
    &&& neat_dir(img, vol, Some(e))
    &&& own.disjoint(home_clusters(img, vol, path))
    &&& own.disjoint(upper_clusters(img, vol, path))
    &&& own.disjoint(bitmap_area(vol.geo, vol.bitmap->Some_0))
    &&& forall|c: int| own.contains(c) ==> #[trigger] in_use(img, vol.geo, vol.bitmap->Some_0, c)
}

/// The way to a child of a directory in order is in order.
pub proof fn lemma_way_to_child(
    img: Seq<u8>,
    vol: Volume,
    path: Seq<char>,
    e: EntryModel,
    name: Seq<char>,
)
    requires
        sound_dir(img, vol, path, e),
        name.len() > 0,
        !name.contains('/'),
    ensures
        sound_way(img, vol, child_of(path, name)),
        home_of(img, vol, child_of(path, name)) == Some(e),
        leaf_of(child_of(path, name)) == name,
{
    let geo = vol.geo;
    let bm = vol.bitmap->Some_0;
    let child = child_of(path, name);
    let comps = components(parent_of(path));
    a_path_is_its_directory_and_its_name(path);
    a_child_lies_in_its_directory(path, name);
    target_of_a_sound_way(img, vol, path);
    lemma_way_goes_on(img, vol, comps, leaf_of(path), 0, None, e);
    assert(home_of(img, vol, child) == Some(e));
    let own = home_clusters(img, vol, child);
    let below = upper_clusters(img, vol, child);
    assert(below == upper_clusters(img, vol, path).union(home_clusters(img, vol, path)));
    assert forall|k: int|
        own.contains(k) || below.contains(k) || bitmap_area(geo, bm).contains(
            k,
        ) implies #[trigger] in_use(img, geo, bm, k) by {}
}

/// A new directory takes files: any name that is neither empty nor too long
/// for a cluster can be created in it.
#[verifier::spinoff_prover]
#[verifier::rlimit(40)]
pub proof fn a_new_directory_takes_files(
    disk: Disk,
    vol: Volume,
    path: Seq<char>,
    name: Seq<char>,
)
    requires
        vacant(disk.bytes, vol, path),
        creation(disk, vol, path, true).1 is Ok,
        !name.contains('/'),
        1 <= utf16_of(name).len() <= 255,
        set_len(name) <= per_cluster(vol.geo),
    ensures
        vacant(creation(disk, vol, path, true).0.bytes, vol, child_of(path, name)),
{
    let img = disk.bytes;
    let geo = vol.geo;
    let bm = vol.bitmap->Some_0;
    let after = creation(disk, vol, path, true).0.bytes;
    let child = child_of(path, name);
    assert(name.len() > 0) by {
        if name.len() == 0 {
            assert(utf16_of(name).len() == 0);
        }
    }
    a_created_directory_is_empty(disk, vol, path);
    let e = lookup_result(after, vol, path)->Ok_0->Some_0;
    let c = e.first_cluster as int;
    assert(!home_clusters(img, vol, path).contains(c) && !upper_clusters(img, vol, path).contains(c)
        && !bitmap_area(geo, bm).contains(c)) by {
        assert(!in_use(img, geo, bm, c));
    }
    let own = members(dir_chain(after, vol, Some(e)));
    assert(own =~= Set::empty().insert(c)) by {
        let chain = seq![e.first_cluster];
        assert(chain[0] as int == c);
    }
    assert(sound_dir(after, vol, path, e));
    lemma_way_to_child(after, vol, path, e, name);
    target_of_a_sound_way(after, vol, child);
    lemma_parts(utf16_of(name).len() as int, 15);
    let per = per_cluster(geo);
    vstd::arithmetic::div_mod::lemma_small_mod(0, per as nat);
    assert(1 * per == per);
    room_at_the_end(after, vol, Some(e), set_len(name));
}

} // verus!
