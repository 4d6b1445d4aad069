//! Directories that are full up to their end: slots behind the end are opened
//! up for a new entry, and the root grows by a cluster where it has none.

use vstd::prelude::*;

use super::areas::{
    bitmap_area, bitmap_placed, cluster_of, confined, confined_bits, confined_links, confined_refl,
    confined_trans, confined_weaker, in_use, linked_confined, members, placed,
};
use super::boot::Geometry;
use super::chains::{
    all_exist, chain_is_linked, confined_chain, ended_chain_has_no_loop, full, lemma_len,
    lemma_need, lemma_reads_back, links, next_of,
};
use super::clusters::{allocation, linked};
use super::creating::{
    found_run_is_usable, gains, neat_dir, neat_rows, new_entry, new_set_is_valid,
    placed_entry_is_listed, put_set_is_listed, set_len,
};
use super::dir::{parsed_from, per_cluster, EntryModel, ENTRY_END, ENTRY_FILE};
use super::entries::{
    lemma_row, lemma_until_end, named_is_found, row_in, row_put, rows_in, set_from, slot_holds_row,
    sound_names, until_end,
};
use super::fat::{chain_of, fat_at, END_OF_CHAIN};
use super::fs::{children, file_chain, lookup_result, named_from, BitmapLoc, Volume};
use super::io::{bytes_at, put_at, ExFault};
use super::listing::{
    listing_splits, names_join, names_passed_over, passed_over, whole_joins, whole_sets,
};
use super::readback::{
    home_clusters, home_of, lemma_rewritten_home, lemma_way_kept,
    lookup_and_change_agree, place_of, restated, sound_file, sound_way, swaps, upper_clusters,
};
use super::tree_laws::{
    lemma_dir_cluster, lemma_home_changed, lemma_mkdir_stages, lemma_room_stays, lemma_run_stays,
    lemma_way_goes_on, lemma_way_to_child, lemma_zeroed_dir, sound_dir, target_of_a_sound_way,
};
use super::ways::{
    dir_chain, dir_first, dir_rows, dir_stays, tidy_children, tidy_dir,
};
use super::write::{
    cluster_zeroed, creation, dir_from, dir_grown, entry_placed, existing, flat, located, new_set,
    opened_up, restreamed, run_from, slot_run, slots, target, usable, DirModel, ENTRY_DELETED,
};
use crate::bytes::zeros;
use crate::device::Disk;
use crate::text::{
    a_child_lies_in_its_directory, a_path_is_its_directory_and_its_name, child_of, components,
    leaf_of, parent_of, utf16_of,
};

verus! {

/// The rows of a directory where none from the `j`-th to before the `to`-th
/// ends it any more.
pub open spec fn rows_opened(rows: Seq<Seq<u8>>, j: int, to: int) -> Seq<Seq<u8>> {
    Seq::new(
        rows.len(),
        |i: int|
            if j <= i < to && rows[i][0] == ENTRY_END {
                rows[i].update(0, ENTRY_DELETED)
            } else {
                rows[i]
            },
    )
}

/// Opening up slots of a directory succeeds, touches its clusters alone, and
/// marks the slots that ended it.
proof fn lemma_opened_rows(
    disk: Disk,
    geo: Geometry,
    chain: Seq<u32>,
    offsets: Seq<u64>,
    j: int,
    to: int,
)
    requires
        placed(geo, disk.bytes.len()),
        all_exist(geo, chain),
        chain.no_duplicates(),
        0 <= j <= to <= chain.len() * per_cluster(geo),
        forall|i: int| 0 <= i < to ==> #[trigger] offsets[i] == slots(geo, chain)[i],
    ensures
        ({
            let (after, r) = opened_up(disk, offsets, j, to);
            &&& r is Ok
            &&& confined(disk.bytes, after.bytes, geo, Set::empty(), members(chain))
            &&& rows_in(after.bytes, geo, chain) == rows_opened(
                rows_in(disk.bytes, geo, chain),
                j,
                to,
            )
        }),
    decreases to - j,
{
    let rows = rows_in(disk.bytes, geo, chain);
    let m = members(chain);
    if j == to {
        confined_refl(disk.bytes, geo);
        confined_weaker(disk.bytes, disk.bytes, geo, Set::empty(), Set::empty(), Set::empty(), m);
        assert(rows_opened(rows, j, to) =~= rows);
    } else {
        slot_holds_row(disk.bytes, geo, chain, j);
        assert(offsets[j] == slots(geo, chain)[j]);
        assert(rows[j] == row_in(disk.bytes, geo, chain, j));
        if rows[j][0] != ENTRY_END {
            lemma_opened_rows(disk, geo, chain, offsets, j + 1, to);
            assert(rows_opened(rows, j + 1, to) =~= rows_opened(rows, j, to));
        } else {
            let raw = rows[j].update(0, ENTRY_DELETED);
            row_put(disk.bytes, geo, chain, j, raw);
            let mid = disk.written(offsets[j] as int, raw);
            assert(put_at(disk, offsets[j] as int, raw) == (mid, Ok::<(), ExFault>(())));
            lemma_len(disk.bytes, mid.bytes, geo, Set::empty(), m);
            lemma_opened_rows(mid, geo, chain, offsets, j + 1, to);
            let after = opened_up(mid, offsets, j + 1, to).0;
            confined_trans(
                disk.bytes,
                mid.bytes,
                after.bytes,
                geo,
                Set::empty(),
                m,
                Set::empty(),
                m,
            );
            assert(m.union(m) =~= m);
            assert(Set::<int>::empty().union(Set::empty()) =~= Set::empty());
            assert(rows_opened(rows.update(j, raw), j + 1, to) =~= rows_opened(rows, j, to));
        }
    }
}

/// Slots opened up behind the end of a directory list nothing.
#[verifier::spinoff_prover]
pub proof fn lemma_opened_listing(rows: Seq<Seq<u8>>, to: int)
    requires
        parsed_from(until_end(rows, 0), 0) is Ok,
        sound_names(until_end(rows, 0), 0),
        neat_rows(rows),
        until_end(rows, 0).len() <= to <= rows.len(),
        forall|i: int| 0 <= i < rows.len() ==> (#[trigger] rows[i]).len() == 32,
    ensures
        ({
            let raws2 = until_end(rows_opened(rows, 0, to), 0);
            &&& raws2.len() == to
            &&& parsed_from(raws2, 0) == parsed_from(until_end(rows, 0), 0)
            &&& sound_names(raws2, 0)
            &&& neat_rows(rows_opened(rows, 0, to))
        }),
{
    let rows2 = rows_opened(rows, 0, to);
    let raws = until_end(rows, 0);
    let raws2 = until_end(rows2, 0);
    let m = raws.len() as int;
    lemma_until_end(rows, 0);
    lemma_until_end(rows2, 0);
    assert(raws2.len() == to) by {
        let got = raws2.len() as int;
        if got < to {
            assert(rows2[got][0] == ENTRY_END);
            assert(rows[got].len() == 32);
        }
        if got > to {
            assert(rows2[to] == rows[to]);
            assert(rows[to][0] == ENTRY_END);
        }
    }
    assert(raws2.take(m) =~= raws) by {
        assert forall|i: int| 0 <= i < m implies raws2[i] == raws[i] by {
            assert(raws2[i] == rows2[i] && raws[i] == rows[i]);
            assert(rows[i][0] != ENTRY_END);
        }
    }
    assert forall|i: int| m <= i < to implies (#[trigger] raws2[i])[0] != ENTRY_FILE by {
        assert(raws2[i] == rows2[i]);
        assert(rows[i].len() == 32 && rows[i][0] == ENTRY_END);
    }
    passed_over(raws2, m, to);
    names_passed_over(raws2, m, to);
    assert(parsed_from(raws2, to) == Ok::<Seq<EntryModel>, ExFault>(seq![]));
    listing_splits(raws2, 0, m);
    let p = parsed_from(raws, 0)->Ok_0;
    assert(p + Seq::<EntryModel>::empty() =~= p);
    assert(whole_sets(raws2, to) && sound_names(raws2, to));
    whole_joins(raws2, 0, m);
    names_join(raws2, 0, m);
    assert forall|i: int| raws2.len() <= i < rows2.len() implies (#[trigger] rows2[i])[0]
        == ENTRY_END by {
        assert(rows2[i] == rows[i]);
    }
}

/// Opening up a directory beyond its end moves the end and keeps the listing.
proof fn lemma_opened_dir(
    disk: Disk,
    vol: Volume,
    home: Option<EntryModel>,
    offsets: Seq<u64>,
    to: int,
)
    requires
        placed(vol.geo, disk.bytes.len()),
        tidy_dir(disk.bytes, vol, home),
        neat_dir(disk.bytes, vol, home),
        dir_rows(disk.bytes, vol, home).len() <= to <= dir_chain(disk.bytes, vol, home).len()
            * per_cluster(vol.geo),
        forall|i: int|
            0 <= i < to ==> #[trigger] offsets[i] == slots(
                vol.geo,
                dir_chain(disk.bytes, vol, home),
            )[i],
    ensures
        ({
            let chain = dir_chain(disk.bytes, vol, home);
            let (after, r) = opened_up(disk, offsets, 0, to);
            &&& r is Ok
            &&& confined(disk.bytes, after.bytes, vol.geo, Set::empty(), members(chain))
            &&& tidy_dir(after.bytes, vol, home)
            &&& neat_dir(after.bytes, vol, home)
            &&& dir_chain(after.bytes, vol, home) == chain
            &&& dir_rows(after.bytes, vol, home).len() == to
            &&& children(after.bytes, vol.geo, home) == children(disk.bytes, vol.geo, home)
            &&& rows_in(after.bytes, vol.geo, chain) == rows_opened(
                rows_in(disk.bytes, vol.geo, chain),
                0,
                to,
            )
        }),
{
    let img = disk.bytes;
    let geo = vol.geo;
    let chain = dir_chain(img, vol, home);
    let rows = rows_in(img, geo, chain);
    tidy_children(img, vol, home);
    ended_chain_has_no_loop(img, geo, dir_first(vol, home), 0, geo.cluster_count as int);
    lemma_opened_rows(disk, geo, chain, offsets, 0, to);
    let after = opened_up(disk, offsets, 0, to).0;
    assert forall|i: int| 0 <= i < rows.len() implies (#[trigger] rows[i]).len() == 32 by {
        slot_holds_row(img, geo, chain, i);
    }
    lemma_opened_listing(rows, to);
    lemma_len(img, after.bytes, geo, Set::empty(), members(chain));
    confined_chain(
        img,
        after.bytes,
        geo,
        Set::empty(),
        members(chain),
        dir_first(vol, home),
        0,
        geo.cluster_count as int,
        false,
    );
    tidy_children(after.bytes, vol, home);
}

/// Whether a path leads nowhere, its directory is in order, and a set of its
/// name fits a cluster.
pub open spec fn unclaimed(img: Seq<u8>, vol: Volume, path: Seq<char>) -> bool {
    &&& sound_way(img, vol, path)
    &&& neat_dir(img, vol, home_of(img, vol, path))
    &&& 1 <= utf16_of(leaf_of(path)).len() <= 255
    &&& set_len(leaf_of(path)) <= per_cluster(vol.geo)
    &&& lookup_result(img, vol, path) == Err::<Option<EntryModel>, ExFault>(ExFault::NotFound)
}

/// Where a directory has slots side by side for a set of `k` raw entries,
/// whether before its end or behind it.
pub open spec fn free_slots(img: Seq<u8>, vol: Volume, dir: Option<EntryModel>, k: int) -> Result<
    Option<int>,
    ExFault,
> {
    run_from(img, slots(vol.geo, dir_chain(img, vol, dir)), per_cluster(vol.geo), k, 0, 0)
}

/// Looking for slots in a directory in order ends.
pub proof fn lemma_slots_are_read(
    img: Seq<u8>,
    geo: Geometry,
    chain: Seq<u32>,
    k: int,
    s: int,
    run: int,
)
    requires
        placed(geo, img.len()),
        all_exist(geo, chain),
        0 <= s,
    ensures
        run_from(img, slots(geo, chain), per_cluster(geo), k, s, run) is Ok,
    decreases slots(geo, chain).len() - s,
{
    if s < slots(geo, chain).len() {
        slot_holds_row(img, geo, chain, s);
        let before = if s % per_cluster(geo) == 0 {
            0
        } else {
            run
        };
        lemma_slots_are_read(img, geo, chain, k, s + 1, 0);
        lemma_slots_are_read(img, geo, chain, k, s + 1, before + 1);
    }
}

/// Writing a new set into free slots of a directory, before its end or behind
/// it, adds the entry.
#[verifier::spinoff_prover]
#[verifier::rlimit(30)]
proof fn lemma_placed_anywhere(
    disk: Disk,
    vol: Volume,
    home: Option<EntryModel>,
    dir: DirModel,
    name: Seq<char>,
    is_dir: bool,
    first_cluster: u32,
    data_len: u64,
    valid_len: u64,
    flags: u8,
)
    requires
        placed(vol.geo, disk.bytes.len()),
        tidy_dir(disk.bytes, vol, home),
        neat_dir(disk.bytes, vol, home),
        dir.first_cluster == dir_first(vol, home),
        1 <= utf16_of(name).len() <= 255,
        set_len(name) <= per_cluster(vol.geo),
        free_slots(disk.bytes, vol, home, set_len(name)) matches Ok(Some(_)),
        named_from(vol.upcase, children(disk.bytes, vol.geo, home)->Ok_0, name, 0) is None,
    ensures
        ({
            let (after, r) = entry_placed(
                disk,
                vol,
                dir,
                name,
                is_dir,
                first_cluster,
                data_len,
                valid_len,
                flags,
            );
            &&& r is Ok
            &&& confined(
                disk.bytes,
                after.bytes,
                vol.geo,
                Set::empty(),
                members(dir_chain(disk.bytes, vol, home)),
            )
            &&& gains(
                disk.bytes,
                after.bytes,
                vol,
                home,
                new_entry(name, is_dir, first_cluster, data_len, valid_len, flags),
            )
        }),
{
    let img = disk.bytes;
    let geo = vol.geo;
    let chain = dir_chain(img, vol, home);
    let m = members(chain);
    let rows = rows_in(img, geo, chain);
    let offsets = slots(geo, chain);
    let k = set_len(name);
    let per = per_cluster(geo);
    let s = free_slots(img, vol, home, k)->Ok_0->Some_0;
    if s <= dir_rows(img, vol, home).len() {
        placed_entry_is_listed(
            disk,
            vol,
            home,
            dir,
            name,
            is_dir,
            first_cluster,
            data_len,
            valid_len,
            flags,
        );
    } else {
        tidy_children(img, vol, home);
        new_set_is_valid(vol.upcase, name, is_dir, first_cluster, data_len, valid_len, flags);
        found_run_is_usable(img, offsets, per, k, 0, 0);
        lemma_opened_dir(disk, vol, home, offsets, s);
        let d = opened_up(disk, offsets, 0, s).0;
        let rows2 = rows_in(d.bytes, geo, chain);
        lemma_len(img, d.bytes, geo, Set::empty(), m);
        assert forall|i: int| s <= i < s + k implies usable(#[trigger] rows2[i]) by {
            slot_holds_row(img, geo, chain, i);
            assert(bytes_at(img, offsets[i] as int, 32) == Ok::<Seq<u8>, ExFault>(rows[i]));
            assert(rows2[i] == rows[i]);
        }
        assert(slot_run(disk, vol, dir, k) == (
            d,
            Ok::<Seq<u64>, ExFault>(offsets.subrange(s, s + k)),
        ));
        assert(offsets.subrange(s, s + k)[0] == offsets[s]);
        put_set_is_listed(d, vol, home, s, name, is_dir, first_cluster, data_len, valid_len, flags);
        let set = new_set(
            vol.upcase,
            utf16_of(name),
            is_dir,
            first_cluster,
            data_len,
            valid_len,
            flags,
        );
        let after = put_at(d, offsets[s] as int, flat(set)).0;
        assert(entry_placed(
            disk,
            vol,
            dir,
            name,
            is_dir,
            first_cluster,
            data_len,
            valid_len,
            flags,
        ) == (
            after.flushed(),
            Ok::<(), ExFault>(()),
        ));
        confined_trans(img, d.bytes, after.bytes, geo, Set::empty(), m, Set::empty(), m);
        assert(m.union(m) =~= m);
        assert(Set::<int>::empty().union(Set::empty()) =~= Set::empty());
    }
}

/// A file is created wherever its directory has slots side by side for its
/// set, also behind the directory's end: it is found, empty and in order, and
/// in its directory's listing, which is otherwise what it was. Nothing but
/// that directory changes.
pub proof fn a_file_takes_any_free_slots(disk: Disk, vol: Volume, path: Seq<char>)
    requires
        unclaimed(disk.bytes, vol, path),
        free_slots(
            disk.bytes,
            vol,
            home_of(disk.bytes, vol, path),
            set_len(leaf_of(path)),
        ) matches Ok(Some(_)),
    ensures
        ({
            let (after, r) = creation(disk, vol, path, false);
            let e = new_entry(leaf_of(path), false, 0, 0, 0, 0);
            let home = home_of(disk.bytes, vol, path);
            &&& r is Ok
            &&& lookup_result(after.bytes, vol, path) == Ok::<Option<EntryModel>, ExFault>(Some(e))
            &&& sound_file(after.bytes, vol, path, e)
            &&& home_of(after.bytes, vol, path) == home
            &&& gains(disk.bytes, after.bytes, vol, home, e)
            &&& confined(
                disk.bytes,
                after.bytes,
                vol.geo,
                Set::empty(),
                home_clusters(disk.bytes, vol, path),
            )
        }),
{
    let img = disk.bytes;
    let geo = vol.geo;
    let home = home_of(img, vol, path);
    let name = leaf_of(path);
    target_of_a_sound_way(img, vol, path);
    let dir = target(img, vol, path)->Ok_0.0;
    lemma_placed_anywhere(disk, vol, home, dir, name, false, 0, 0, 0, 0x00);
    let after = creation(disk, vol, path, false).0;
    let e = new_entry(name, false, 0, 0, 0, 0);
    assert(creation(disk, vol, path, false) == entry_placed(
        disk,
        vol,
        dir,
        name,
        false,
        0,
        0,
        0,
        0x00,
    ));
    lemma_home_changed(img, after.bytes, vol, path);
    target_of_a_sound_way(after.bytes, vol, path);
    lemma_need(geo, 0, 1);
    assert(file_chain(after.bytes, geo, e) == Ok::<Seq<u32>, ExFault>(seq![]));
    assert(members(Seq::<u32>::empty()) =~= Set::empty());
}

/// A chain of clusters that are all different is no longer than the heap.
proof fn lemma_chain_fits(geo: Geometry, chain: Seq<u32>)
    requires
        all_exist(geo, chain),
        chain.no_duplicates(),
    ensures
        chain.len() <= geo.cluster_count,
{
    let ints = chain.map(|i: int, c: u32| c as int);
    assert(ints.no_duplicates());
    ints.unique_seq_to_set();
    let range = vstd::set_lib::set_int_range(2, geo.cluster_count + 2);
    vstd::set_lib::lemma_int_range(2, geo.cluster_count + 2);
    assert(ints.to_set().subset_of(range)) by {
        assert forall|c: int| ints.to_set().contains(c) implies range.contains(c) by {
            let i = choose|i: int| 0 <= i < ints.len() && ints[i] == c;
            assert(geo.has_cluster(chain[i] as int));
        }
    }
    vstd::set_lib::lemma_len_subset(ints.to_set(), range);
}

/// A chain that goes one cluster further is read as such.
proof fn lemma_longer_chain(
    a: Seq<u8>,
    b: Seq<u8>,
    geo: Geometry,
    words: Set<int>,
    clusters: Set<int>,
    first: u32,
    c: u32,
)
    requires
        placed(geo, a.len()),
        placed(geo, b.len()),
        confined(a, b, geo, words, clusters),
        chain_of(a, geo, first, None) is Ok,
        all_exist(geo, chain_of(a, geo, first, None)->Ok_0),
        chain_of(a, geo, first, None)->Ok_0.len() > 0,
        geo.has_cluster(c as int),
        !members(chain_of(a, geo, first, None)->Ok_0).contains(c as int),
        forall|k: int|
            #[trigger] words.contains(k) ==> k == c || k == chain_of(
                a,
                geo,
                first,
                None,
            )->Ok_0.last(),
        fat_at(b, geo, chain_of(a, geo, first, None)->Ok_0.last() as int) == Ok::<u32, ExFault>(c),
        fat_at(b, geo, c as int) == Ok::<u32, ExFault>(END_OF_CHAIN),
    ensures
        chain_of(b, geo, first, None) == Ok::<Seq<u32>, ExFault>(
            chain_of(a, geo, first, None)->Ok_0.push(c),
        ),
{
    let count = geo.cluster_count as int;
    let chain = chain_of(a, geo, first, None)->Ok_0;
    let longer = chain.push(c);
    let n = chain.len() as int;
    ended_chain_has_no_loop(a, geo, first, 0, count);
    chain_is_linked(a, geo, first, 0, count, false);
    assert(all_exist(geo, longer)) by {
        assert forall|i: int| 0 <= i < longer.len() implies geo.has_cluster(
            #[trigger] longer[i] as int,
        ) by {
            if i < n {
                assert(longer[i] == chain[i]);
                assert(geo.has_cluster(chain[i] as int));
            }
        }
    }
    assert(longer.no_duplicates()) by {
        assert forall|i: int| 0 <= i < n implies chain[i] != c by {
            assert(members(chain).contains(chain[i] as int));
        }
    }
    lemma_chain_fits(geo, longer);
    assert(links(b, geo, longer, longer.len() - 1)) by {
        assert forall|i: int| 0 <= i < n implies fat_at(b, geo, #[trigger] longer[i] as int) == Ok::<
            u32,
            ExFault,
        >(next_of(longer, i)) by {
            assert(longer[i] == chain[i]);
            if i < n - 1 {
                assert(chain[i] != chain[n - 1]);
                assert(longer[i] != longer[n]);
                confined_links(a, b, geo, words, clusters, chain[i] as int);
                assert(fat_at(a, geo, chain[i] as int) == Ok::<u32, ExFault>(next_of(chain, i)));
                assert(longer[i + 1] == chain[i + 1]);
            }
        }
    }
    lemma_reads_back(b, geo, longer, 0, count, false);
    assert(longer.skip(0) =~= longer);
    assert(longer[0] == chain[0]);
}

/// The rows of a directory that got a cluster of zeros: those it had, then
/// free ones.
proof fn lemma_longer_rows(
    a: Seq<u8>,
    b: Seq<u8>,
    geo: Geometry,
    words: Set<int>,
    clusters: Set<int>,
    chain: Seq<u32>,
    c: u32,
)
    requires
        placed(geo, a.len()),
        confined(a, b, geo, words, clusters),
        all_exist(geo, chain),
        members(chain).disjoint(clusters),
        cluster_of(b, geo, c as int) == zeros(geo.cluster_len() as nat),
        neat_rows(rows_in(a, geo, chain)),
    ensures
        until_end(rows_in(b, geo, chain.push(c)), 0) == until_end(rows_in(a, geo, chain), 0),
        neat_rows(rows_in(b, geo, chain.push(c))),
        forall|i: int|
            chain.len() * per_cluster(geo) <= i < (chain.len() + 1) * per_cluster(geo)
                ==> (#[trigger] rows_in(b, geo, chain.push(c))[i])[0] == ENTRY_END,
{
    let per = per_cluster(geo);
    let n = chain.len() as int;
    let longer = chain.push(c);
    let rows = rows_in(a, geo, chain);
    let rows2 = rows_in(b, geo, longer);
    assert((n + 1) * per == n * per + per) by (nonlinear_arith);
    assert(longer.len() == n + 1);
    assert forall|i: int| 0 <= i < n * per implies #[trigger] rows2[i] == rows[i] by {
        lemma_row(geo, n, i);
        let q = chain[i / per];
        assert(longer[i / per] == q);
        assert(geo.has_cluster(q as int));
        assert(members(chain).contains(q as int));
        assert(cluster_of(b, geo, q as int) == cluster_of(a, geo, q as int)) by {
            reveal(confined);
        }
        assert(rows2[i] == row_in(b, geo, longer, i) && rows[i] == row_in(a, geo, chain, i));
    }
    assert forall|i: int| n * per <= i < (n + 1) * per implies (#[trigger] rows2[i])[0]
        == ENTRY_END by {
        lemma_row(geo, n + 1, i);
        let q = i / per;
        assert(q >= n) by (nonlinear_arith)
            requires
                i == per * q + i % per,
                0 <= i % per < per,
                n * per <= i,
                per > 0,
        ;
        assert(longer[q] == c);
        assert(rows2[i] == row_in(b, geo, longer, i));
    }
    lemma_until_end(rows, 0);
    lemma_until_end(rows2, 0);
    let m = until_end(rows, 0).len() as int;
    let got = until_end(rows2, 0).len() as int;
    assert(got == m) by {
        if got < m {
            assert(rows2[got] == rows[got]);
        }
        if got > m {
            if m < n * per {
                assert(rows2[m] == rows[m]);
                assert(rows[m][0] == ENTRY_END);
            } else {
                assert(rows2[m][0] == ENTRY_END);
            }
        }
    }
    assert(until_end(rows2, 0) =~= until_end(rows, 0)) by {
        assert forall|i: int| 0 <= i < m implies until_end(rows2, 0)[i] == until_end(rows, 0)[i] by {
            assert(rows2[i] == rows[i]);
        }
    }
    assert forall|i: int| m <= i < rows2.len() implies (#[trigger] rows2[i])[0] == ENTRY_END by {
        if i < n * per {
            assert(rows2[i] == rows[i]);
        }
    }
}

/// What a directory is like once a new cluster is linked to the end of its
/// chain: it has free slots for a cluster more, and the rows it had.
pub open spec fn lengthened(
    img: Seq<u8>,
    after: Seq<u8>,
    vol: Volume,
    dir: Option<EntryModel>,
    c: u32,
) -> bool {
    let geo = vol.geo;
    let bm = vol.bitmap->Some_0;
    let chain = dir_chain(img, vol, dir);
    let longer = chain.push(c);
    let one = Set::<int>::empty().insert(c as int);
    &&& geo.has_cluster(c as int)
    &&& !in_use(img, geo, bm, c as int)
    &&& chain.len() > 0
    &&& chain_of(after, geo, dir_first(vol, dir), None) == Ok::<Seq<u32>, ExFault>(longer)
    &&& until_end(rows_in(after, geo, longer), 0) == dir_rows(img, vol, dir)
    &&& neat_rows(rows_in(after, geo, longer))
    &&& forall|i: int|
        chain.len() * per_cluster(geo) <= i < (chain.len() + 1) * per_cluster(geo)
            ==> (#[trigger] rows_in(after, geo, longer)[i])[0] == ENTRY_END
    &&& confined(
        img,
        after,
        geo,
        one.insert(chain.last() as int),
        bitmap_area(geo, bm).union(one),
    )
    &&& forall|k: int|
        geo.has_cluster(k) ==> #[trigger] in_use(after, geo, bm, k) == (in_use(img, geo, bm, k)
            || k == c)
}

/// Linking a new cluster to the end of a directory fails only for want of a
/// free one.
#[verifier::spinoff_prover]
#[verifier::rlimit(30)]
pub proof fn lemma_lengthened(disk: Disk, vol: Volume, dir: Option<EntryModel>)
    requires
        placed(vol.geo, disk.bytes.len()),
        vol.bitmap is Some,
        bitmap_placed(vol.geo, vol.bitmap->Some_0),
        forall|c: int|
            bitmap_area(vol.geo, vol.bitmap->Some_0).contains(c) || members(
                dir_chain(disk.bytes, vol, dir),
            ).contains(c) ==> #[trigger] in_use(disk.bytes, vol.geo, vol.bitmap->Some_0, c),
        members(dir_chain(disk.bytes, vol, dir)).disjoint(
            bitmap_area(vol.geo, vol.bitmap->Some_0),
        ),
        tidy_dir(disk.bytes, vol, dir),
        neat_dir(disk.bytes, vol, dir),
    ensures
        match allocation(disk, vol.geo, vol.bitmap->Some_0, 1) {
            (_, Err(f)) => f == full(),
            (d, Ok(added)) => {
                let (d2, zeroed) = cluster_zeroed(d, vol.geo, added[0]);
                let tail = dir_chain(disk.bytes, vol, dir).last();
                let (d3, r) = linked(d2.flushed(), vol.geo, tail as int, added[0]);
                &&& zeroed is Ok
                &&& r is Ok
                &&& lengthened(disk.bytes, d3.bytes, vol, dir, added[0])
            },
        },
{
    let img = disk.bytes;
    let geo = vol.geo;
    let bm = vol.bitmap->Some_0;
    let area = bitmap_area(geo, bm);
    let first = dir_first(vol, dir);
    let chain = dir_chain(img, vol, dir);
    let own = members(chain);
    tidy_children(img, vol, dir);
    chain_is_linked(img, geo, first, 0, geo.cluster_count as int, false);
    lemma_dir_cluster(disk, geo, bm);
    if let Ok(added) = allocation(disk, geo, bm, 1).1 {
        let c = added[0];
        assert(chain.len() > 0) by {
            assert(geo.has_cluster(c as int));
        }
        let one = Set::<int>::empty().insert(c as int);
        let d2 = cluster_zeroed(allocation(disk, geo, bm, 1).0, geo, c).0.flushed();
        let tail = chain.last();
        let end = Set::<int>::empty().insert(tail as int);
        assert(chain[chain.len() - 1] == tail);
        assert(geo.has_cluster(tail as int) && own.contains(tail as int));
        assert(!own.contains(c as int) && !area.contains(c as int)) by {
            assert(!in_use(img, geo, bm, c as int));
        }
        lemma_len(img, d2.bytes, geo, one, area.union(one));
        linked_confined(d2, geo, tail as int, c);
        let d3 = linked(d2, geo, tail as int, c).0;
        lemma_len(d2.bytes, d3.bytes, geo, end, Set::empty());
        confined_trans(img, d2.bytes, d3.bytes, geo, one, area.union(one), end, Set::empty());
        let words = one.insert(tail as int);
        let clusters = area.union(one);
        assert(one.union(end) =~= words);
        assert(clusters.union(Set::empty()) =~= clusters);
        confined_links(d2.bytes, d3.bytes, geo, end, Set::empty(), c as int);
        assert(cluster_of(d3.bytes, geo, c as int) == cluster_of(d2.bytes, geo, c as int)) by {
            reveal(confined);
        }
        lemma_longer_chain(img, d3.bytes, geo, words, clusters, first, c);
        lemma_longer_rows(img, d3.bytes, geo, words, clusters, chain, c);
        assert forall|k: int| geo.has_cluster(k) implies #[trigger] in_use(d3.bytes, geo, bm, k)
            == (in_use(img, geo, bm, k) || k == c) by {
            confined_bits(d2.bytes, d3.bytes, geo, bm, end, Set::empty(), k);
        }
    }
}

/// The clusters of a longer chain.
pub proof fn lemma_longer_members(chain: Seq<u32>, c: u32)
    ensures
        members(chain.push(c)) == members(chain).insert(c as int),
{
    let longer = chain.push(c);
    assert forall|k: int| members(longer).contains(k) == members(chain).insert(c as int).contains(
        k,
    ) by {
        if members(longer).contains(k) {
            let i = choose|i: int| 0 <= i < longer.len() && #[trigger] longer[i] as int == k;
            if i < chain.len() {
                assert(chain[i] as int == k);
            }
        }
        if members(chain).contains(k) {
            let i = choose|i: int| 0 <= i < chain.len() && #[trigger] chain[i] as int == k;
            assert(longer[i] as int == k);
        }
        if k == c {
            assert(longer[chain.len() as int] as int == k);
        }
    }
    assert(members(longer) =~= members(chain).insert(c as int));
}

/// The clusters of a directory in order exist.
proof fn lemma_members_exist(geo: Geometry, chain: Seq<u32>, k: int)
    requires
        all_exist(geo, chain),
        members(chain).contains(k),
    ensures
        geo.has_cluster(k),
{
    let i = choose|i: int| 0 <= i < chain.len() && #[trigger] chain[i] as int == k;
    assert(geo.has_cluster(chain[i] as int));
}

/// What growing a directory by a cluster leaves, given the entry that leads to
/// it then: its listing is as it was, and it has free slots for a cluster more.
pub open spec fn grown_by(
    img: Seq<u8>,
    after: Seq<u8>,
    vol: Volume,
    was: Option<EntryModel>,
    dir: Option<EntryModel>,
    c: u32,
) -> bool {
    let geo = vol.geo;
    let chain = dir_chain(img, vol, was);
    &&& tidy_dir(after, vol, dir)
    &&& neat_dir(after, vol, dir)
    &&& dir_first(vol, dir) == dir_first(vol, was)
    &&& dir_chain(after, vol, dir) == chain.push(c)
    &&& dir_rows(after, vol, dir) == dir_rows(img, vol, was)
    &&& children(after, geo, dir) == children(img, geo, was)
    &&& forall|i: int|
        chain.len() * per_cluster(geo) <= i < (chain.len() + 1) * per_cluster(geo)
            ==> (#[trigger] rows_in(after, geo, chain.push(c))[i])[0] == ENTRY_END
}

/// Growing the root fails only for want of a free cluster.
#[verifier::spinoff_prover]
pub proof fn lemma_root_grows(disk: Disk, vol: Volume, path: Seq<char>)
    requires
        sound_way(disk.bytes, vol, path),
        neat_dir(disk.bytes, vol, None),
        components(parent_of(path)).len() == 0,
    ensures
        ({
            let dir = DirModel { first_cluster: vol.geo.root_first_cluster, entry: None };
            let tail = dir_chain(disk.bytes, vol, None).last();
            let (after, r) = dir_grown(disk, vol, dir, tail);
            &&& r is Ok == (allocation(disk, vol.geo, vol.bitmap->Some_0, 1).1 is Ok)
            &&& match r {
                Err(f) => f == full(),
                Ok(c) => {
                    &&& grown_by(disk.bytes, after.bytes, vol, None, None, c)
                    &&& sound_way(after.bytes, vol, path)
                    &&& lengthened(disk.bytes, after.bytes, vol, None, c)
                },
            }
        }),
{
    let img = disk.bytes;
    let geo = vol.geo;
    let bm = vol.bitmap->Some_0;
    let area = bitmap_area(geo, bm);
    let chain = dir_chain(img, vol, None);
    let hc = home_clusters(img, vol, path);
    assert(home_of(img, vol, path) is None);
    assert(upper_clusters(img, vol, path) =~= Set::empty());
    tidy_children(img, vol, None);
    lemma_lengthened(disk, vol, None);
    if let Ok(added) = allocation(disk, geo, bm, 1).1 {
        let c = added[0];
        let one = Set::<int>::empty().insert(c as int);
        let dir = DirModel { first_cluster: geo.root_first_cluster, entry: None };
        let after = dir_grown(disk, vol, dir, chain.last()).0.bytes;
        lemma_len(img, after, geo, one.insert(chain.last() as int), area.union(one));
        lemma_longer_members(chain, c);
        tidy_children(after, vol, None);
        assert(home_of(after, vol, path) is None);
        assert(upper_clusters(after, vol, path) =~= Set::empty());
        assert(!area.contains(c as int)) by {
            assert(!in_use(img, geo, bm, c as int));
        }
        assert forall|k: int|
            home_clusters(after, vol, path).contains(k) || area.contains(k) implies
            #[trigger] in_use(after, geo, bm, k) by {
            assert(in_use(img, geo, bm, k) || k == c);
            if hc.contains(k) {
                lemma_members_exist(geo, chain, k);
            }
        }
        assert(sound_way(after, vol, path));
    }
}

/// Finding the directory of a longer path goes through the shorter one.
proof fn lemma_dir_goes_through(
    img: Seq<u8>,
    vol: Volume,
    comps: Seq<Seq<char>>,
    name: Seq<char>,
    i: int,
    cur: DirModel,
)
    requires
        0 <= i <= comps.len(),
        dir_from(img, vol, comps, i, cur) is Ok,
        located(img, vol, dir_from(img, vol, comps, i, cur)->Ok_0.first_cluster, name) matches Ok(
            Some(loc),
        ) && loc.is_dir,
    ensures
        ({
            let d = dir_from(img, vol, comps, i, cur)->Ok_0;
            let loc = located(img, vol, d.first_cluster, name)->Ok_0->Some_0;
            dir_from(img, vol, comps.push(name), i, cur) == Ok::<DirModel, ExFault>(
                DirModel { first_cluster: loc.first_cluster, entry: Some(loc) },
            )
        }),
    decreases comps.len() - i,
{
    let longer = comps.push(name);
    if i < comps.len() {
        assert(longer[i] == comps[i]);
        let loc = located(img, vol, cur.first_cluster, comps[i])->Ok_0->Some_0;
        lemma_dir_goes_through(
            img,
            vol,
            comps,
            name,
            i + 1,
            DirModel { first_cluster: loc.first_cluster, entry: Some(loc) },
        );
    } else {
        assert(longer[i] == name);
        let loc = located(img, vol, cur.first_cluster, name)->Ok_0->Some_0;
        let d = DirModel { first_cluster: loc.first_cluster, entry: Some(loc) };
        assert(dir_from(img, vol, longer, i + 1, d) == Ok::<DirModel, ExFault>(d));
    }
}

/// What a change finds of a directory that a new name is to lie in.
pub proof fn lemma_dir_of_a_child(
    img: Seq<u8>,
    vol: Volume,
    path: Seq<char>,
    e: EntryModel,
    name: Seq<char>,
)
    requires
        sound_dir(img, vol, path, e),
        name.len() > 0,
        !name.contains('/'),
    ensures
        ({
            let loc = existing(img, vol, path)->Ok_0;
            let dir = DirModel { first_cluster: e.first_cluster, entry: Some(loc) };
            &&& existing(img, vol, path) is Ok
            &&& loc.first_cluster == e.first_cluster
            &&& loc.data_len == e.size
            &&& (loc.flags / 2 % 2 == 1) == e.no_fat_chain
            &&& target(img, vol, child_of(path, name)) matches Ok((d, _)) && d == dir
        }),
{
    let child = child_of(path, name);
    let comps = components(parent_of(path));
    let root = DirModel { first_cluster: vol.geo.root_first_cluster, entry: None };
    let home = home_of(img, vol, path);
    let raws = dir_rows(img, vol, home);
    let k = place_of(img, vol, path);
    a_path_is_its_directory_and_its_name(path);
    lookup_and_change_agree(img, vol, path, e);
    named_is_found(vol.upcase, raws, leaf_of(path), 0);
    let loc = existing(img, vol, path)->Ok_0;
    let set = set_from(raws, k);
    assert(set[0] == raws[k] && set[1] == raws[k + 1]);
    lemma_way_to_child(img, vol, path, e, name);
    a_child_lies_in_its_directory(path, name);
    target_of_a_sound_way(img, vol, child);
    assert(dir_from(img, vol, comps, 0, root) is Ok);
    lemma_dir_goes_through(img, vol, comps, leaf_of(path), 0, root);
}

/// Growing a directory fails only for want of a free cluster. Its entry then
/// says so, and the rest of the directory above stays.
#[verifier::spinoff_prover]
#[verifier::rlimit(50)]
pub proof fn lemma_directory_grows(disk: Disk, vol: Volume, path: Seq<char>, e: EntryModel)
    requires
        sound_dir(disk.bytes, vol, path, e),
        existing(disk.bytes, vol, path) is Ok,
        existing(disk.bytes, vol, path)->Ok_0.data_len == e.size,
        existing(disk.bytes, vol, path)->Ok_0.first_cluster == e.first_cluster,
        (existing(disk.bytes, vol, path)->Ok_0.flags / 2 % 2 == 1) == e.no_fat_chain,
        e.size + vol.geo.cluster_len() <= u64::MAX,
    ensures
        ({
            let loc = existing(disk.bytes, vol, path)->Ok_0;
            let dir = DirModel { first_cluster: e.first_cluster, entry: Some(loc) };
            let tail = dir_chain(disk.bytes, vol, Some(e)).last();
            let home = home_of(disk.bytes, vol, path);
            let e2 = widened(e, vol.geo);
            let (after, r) = dir_grown(disk, vol, dir, tail);
            &&& r is Ok == (allocation(disk, vol.geo, vol.bitmap->Some_0, 1).1 is Ok)
            &&& match r {
                Err(f) => f == full(),
                Ok(c) => {
                    &&& grown_by(disk.bytes, after.bytes, vol, Some(e), Some(e2), c)
                    &&& sound_dir(after.bytes, vol, path, e2)
                    &&& home_of(after.bytes, vol, path) == home
                    &&& swaps(disk.bytes, after.bytes, vol, home, e, e2)
                    &&& kept_but_for(
                        disk.bytes,
                        after.bytes,
                        vol,
                        home_clusters(disk.bytes, vol, path).union(
                            members(dir_chain(disk.bytes, vol, Some(e))),
                        ),
                    )
                    &&& confined(
                        disk.bytes,
                        after.bytes,
                        vol.geo,
                        Set::empty().insert(c as int).insert(tail as int),
                        bitmap_area(vol.geo, vol.bitmap->Some_0).union(
                            Set::empty().insert(c as int),
                        ).union(home_clusters(disk.bytes, vol, path)),
                    )
                },
            }
        }),
{
    let img = disk.bytes;
    let geo = vol.geo;
    let bm = vol.bitmap->Some_0;
    let area = bitmap_area(geo, bm);
    let chain = dir_chain(img, vol, Some(e));
    let own = members(chain);
    let hc = home_clusters(img, vol, path);
    let uc = upper_clusters(img, vol, path);
    let home = home_of(img, vol, path);
    let raws = dir_rows(img, vol, home);
    let k = place_of(img, vol, path);
    let loc = existing(img, vol, path)->Ok_0;
    let e2 = widened(e, geo);
    tidy_children(img, vol, Some(e));
    lemma_lengthened(disk, vol, Some(e));
    if let Ok(added) = allocation(disk, geo, bm, 1).1 {
        let c = added[0];
        let one = Set::<int>::empty().insert(c as int);
        let tail = chain.last();
        let words = one.insert(tail as int);
        let clusters = area.union(one);
        let d2 = cluster_zeroed(allocation(disk, geo, bm, 1).0, geo, c).0;
        let d3 = linked(d2.flushed(), geo, tail as int, c).0.flushed();
        lemma_len(img, d3.bytes, geo, words, clusters);
        assert(chain[chain.len() - 1] == tail);
        assert(own.contains(tail as int));
        assert(!own.contains(c as int) && !hc.contains(c as int) && !uc.contains(c as int)
            && !area.contains(c as int)) by {
            assert(!in_use(img, geo, bm, c as int));
        }
        lemma_longer_members(chain, c);
        let longer = chain.push(c);
        let n = chain.len() as int;
        let cl = geo.cluster_len();
        assert((n + 1) * cl == n * cl + cl) by (nonlinear_arith);
        assert(tidy_dir(d3.bytes, vol, Some(e2)));
        tidy_children(d3.bytes, vol, Some(e2));
        assert(dir_chain(d3.bytes, vol, Some(e2)) == longer);
        // The entry of the directory.
        lookup_and_change_agree(img, vol, path, e);
        dir_stays(img, d3.bytes, vol, words, clusters, home);
        let size = (e.size + cl) as u64;
        lemma_rewritten_home(
            d3,
            vol,
            home,
            leaf_of(path),
            k,
            e.first_cluster,
            size,
            size,
            loc.flags,
        );
        let d4 = restreamed(d3, loc, e.first_cluster, size, size, loc.flags).0;
        assert(restated(e, e.first_cluster, size, size, loc.flags) == e2);
        lemma_len(d3.bytes, d4.bytes, geo, Set::empty(), hc);
        confined_trans(img, d3.bytes, d4.bytes, geo, words, clusters, Set::empty(), hc);
        assert(words.union(Set::empty()) =~= words);
        assert forall|x: int| geo.has_cluster(x) implies #[trigger] in_use(d4.bytes, geo, bm, x)
            == (in_use(img, geo, bm, x) || x == c) by {
            confined_bits(d3.bytes, d4.bytes, geo, bm, Set::empty(), hc, x);
        }
        lemma_way_kept(img, d4.bytes, vol, path, words, clusters.union(hc));
        assert(members(longer).disjoint(hc));
        dir_stays(d3.bytes, d4.bytes, vol, Set::empty(), hc, Some(e2));
        assert forall|x: int| members(longer).contains(x) implies #[trigger] in_use(
            d4.bytes,
            geo,
            bm,
            x,
        ) by {
            if x != c {
                lemma_members_exist(geo, chain, x);
            }
        }
        assert(sound_dir(d4.bytes, vol, path, e2));
        lemma_kept(img, d4.bytes, vol, words, clusters.union(hc), hc.union(own));
    }
}

/// A directory's entry once the directory is a cluster longer.
pub open spec fn widened(e: EntryModel, geo: Geometry) -> EntryModel {
    let size = (e.size + geo.cluster_len()) as u64;
    EntryModel { size, valid_size: size, ..e }
}

/// Writing a new set into the cluster that a directory has just grown by.
#[verifier::spinoff_prover]
#[verifier::rlimit(40)]
pub proof fn lemma_placed_in_new_cluster(
    img: Seq<u8>,
    d: Disk,
    vol: Volume,
    was: Option<EntryModel>,
    dir: Option<EntryModel>,
    c: u32,
    name: Seq<char>,
    is_dir: bool,
    first_cluster: u32,
    data_len: u64,
    valid_len: u64,
    flags: u8,
)
    requires
        placed(vol.geo, d.bytes.len()),
        grown_by(img, d.bytes, vol, was, dir, c),
        vol.geo.has_cluster(c as int),
        dir_rows(img, vol, was).len() <= dir_chain(img, vol, was).len() * per_cluster(vol.geo),
        1 <= utf16_of(name).len() <= 255,
        set_len(name) <= per_cluster(vol.geo),
        named_from(vol.upcase, children(d.bytes, vol.geo, dir)->Ok_0, name, 0) is None,
    ensures
        ({
            let chain = dir_chain(img, vol, was);
            let offsets = slots(vol.geo, chain);
            let set = new_set(
                vol.upcase,
                utf16_of(name),
                is_dir,
                first_cluster,
                data_len,
                valid_len,
                flags,
            );
            let (d2, opened) = opened_up(d, offsets, 0, offsets.len() as int);
            let (after, r) = put_at(
                d2,
                (vol.geo.cluster_start(c as int) + 32 * 0) as u64 as int,
                flat(set),
            );
            &&& opened is Ok
            &&& r is Ok
            &&& gains(d.bytes, after.bytes, vol, dir, new_entry(
                name,
                is_dir,
                first_cluster,
                data_len,
                valid_len,
                flags,
            ))
            &&& confined(
                d.bytes,
                after.bytes,
                vol.geo,
                Set::empty(),
                members(dir_chain(d.bytes, vol, dir)),
            )
        }),
{
    let geo = vol.geo;
    let k = set_len(name);
    let per = per_cluster(geo);
    let chain = dir_chain(img, vol, was);
    let offsets = slots(geo, chain);
    let n = chain.len() as int;
    let longer = chain.push(c);
    let m = members(longer);
    let to = n * per;
    tidy_children(d.bytes, vol, dir);
    new_set_is_valid(vol.upcase, name, is_dir, first_cluster, data_len, valid_len, flags);
    assert((n + 1) * per == n * per + per) by (nonlinear_arith);
    assert(longer.len() == n + 1);
    assert forall|i: int| 0 <= i < to implies #[trigger] offsets[i] == slots(geo, longer)[i] by {
        lemma_row(geo, n, i);
        assert(longer[i / per] == chain[i / per]);
    }
    lemma_opened_dir(d, vol, dir, offsets, to);
    let d2 = opened_up(d, offsets, 0, to).0;
    lemma_len(d.bytes, d2.bytes, geo, Set::empty(), m);
    vstd::arithmetic::div_mod::lemma_fundamental_div_mod_converse(to, per, n, 0);
    assert(to % per == 0 && to / per == n);
    let rows = rows_in(d.bytes, geo, longer);
    assert forall|i: int| to <= i < to + k implies usable(
        #[trigger] rows_in(d2.bytes, geo, longer)[i],
    ) by {
        assert(rows_in(d2.bytes, geo, longer)[i] == rows[i]);
    }
    put_set_is_listed(d2, vol, dir, to, name, is_dir, first_cluster, data_len, valid_len, flags);
    assert((geo.cluster_start(c as int) + 32 * 0) as u64 == slots(geo, longer)[to]);
    let set = new_set(
        vol.upcase,
        utf16_of(name),
        is_dir,
        first_cluster,
        data_len,
        valid_len,
        flags,
    );
    let after = put_at(d2, slots(geo, longer)[to] as int, flat(set)).0;
    confined_trans(d.bytes, d2.bytes, after.bytes, geo, Set::empty(), m, Set::empty(), m);
    assert(m.union(m) =~= m);
    assert(Set::<int>::empty().union(Set::empty()) =~= Set::empty());
}

/// Placing a set in a directory that must grow for it, taken apart.
pub proof fn lemma_growth_stages(
    disk: Disk,
    vol: Volume,
    dir: DirModel,
    chain: Seq<u32>,
    name: Seq<char>,
    is_dir: bool,
    first_cluster: u32,
    data_len: u64,
    valid_len: u64,
    flags: u8,
)
    requires
        chain_of(disk.bytes, vol.geo, dir.first_cluster, None) == Ok::<Seq<u32>, ExFault>(chain),
        1 <= utf16_of(name).len() <= 255,
        set_len(name) <= per_cluster(vol.geo),
        run_from(
            disk.bytes,
            slots(vol.geo, chain),
            per_cluster(vol.geo),
            set_len(name),
            0,
            0,
        ) == Ok::<Option<int>, ExFault>(None),
    ensures
        ({
            let offsets = slots(vol.geo, chain);
            let set = new_set(
                vol.upcase,
                utf16_of(name),
                is_dir,
                first_cluster,
                data_len,
                valid_len,
                flags,
            );
            entry_placed(
                disk,
                vol,
                dir,
                name,
                is_dir,
                first_cluster,
                data_len,
                valid_len,
                flags,
            ) == (match dir_grown(
                disk,
                vol,
                dir,
                chain.last(),
            ) {
                (d, Err(f)) => (d, Err::<(), ExFault>(f)),
                (d, Ok(c)) => match opened_up(d, offsets, 0, offsets.len() as int) {
                    (d2, Err(f)) => (d2, Err(f)),
                    (d2, Ok(_)) => match put_at(
                        d2,
                        (vol.geo.cluster_start(c as int) + 32 * 0) as u64 as int,
                        flat(set),
                    ) {
                        (d3, Err(f)) => (d3, Err(f)),
                        (d3, Ok(_)) => (d3.flushed(), Ok(())),
                    },
                },
            })
        }),
{
    new_set_is_valid(vol.upcase, name, is_dir, first_cluster, data_len, valid_len, flags);
    let k = set_len(name);
    if let (d, Ok(c)) = dir_grown(disk, vol, dir, chain.last()) {
        let at = Seq::new(k as nat, |s: int| (vol.geo.cluster_start(c as int) + 32 * s) as u64);
        assert(at[0] == (vol.geo.cluster_start(c as int) + 32 * 0) as u64);
    }
}

/// Whether a cluster is in use, with the link and the contents it had.
pub open spec fn undisturbed(
    img: Seq<u8>,
    after: Seq<u8>,
    geo: Geometry,
    bm: BitmapLoc,
    x: int,
) -> bool {
    &&& in_use(after, geo, bm, x)
    &&& fat_at(after, geo, x) == fat_at(img, geo, x)
    &&& cluster_of(after, geo, x) == cluster_of(img, geo, x)
}

/// Whether every cluster in use stays as it was, with its link, but for those
/// of the bitmap and the given ones.
pub open spec fn kept_but_for(img: Seq<u8>, after: Seq<u8>, vol: Volume, but: Set<int>) -> bool {
    let geo = vol.geo;
    let bm = vol.bitmap->Some_0;
    forall|x: int|
        geo.has_cluster(x) && in_use(img, geo, bm, x) && !but.contains(x) && !bitmap_area(
            geo,
            bm,
        ).contains(x) ==> #[trigger] undisturbed(img, after, geo, bm, x)
}

/// What a confined change keeps.
proof fn lemma_kept(
    img: Seq<u8>,
    after: Seq<u8>,
    vol: Volume,
    words: Set<int>,
    clusters: Set<int>,
    but: Set<int>,
)
    requires
        placed(vol.geo, img.len()),
        confined(img, after, vol.geo, words, clusters),
        forall|x: int|
            (words.contains(x) || clusters.contains(x)) && #[trigger] in_use(
                img,
                vol.geo,
                vol.bitmap->Some_0,
                x,
            ) ==> but.contains(x) || bitmap_area(vol.geo, vol.bitmap->Some_0).contains(x),
        forall|x: int|
            vol.geo.has_cluster(x) && in_use(img, vol.geo, vol.bitmap->Some_0, x)
                ==> #[trigger] in_use(after, vol.geo, vol.bitmap->Some_0, x),
    ensures
        kept_but_for(img, after, vol, but),
{
    let geo = vol.geo;
    let bm = vol.bitmap->Some_0;
    assert forall|x: int|
        geo.has_cluster(x) && in_use(img, geo, bm, x) && !but.contains(x) && !bitmap_area(
            geo,
            bm,
        ).contains(x) implies #[trigger] undisturbed(img, after, geo, bm, x) by {
        assert(!words.contains(x) && !clusters.contains(x));
        confined_links(img, after, geo, words, clusters, x);
        assert(cluster_of(after, geo, x) == cluster_of(img, geo, x)) by {
            reveal(confined);
        }
    }
}

/// What is kept twice is kept.
proof fn lemma_kept_twice(
    img: Seq<u8>,
    mid: Seq<u8>,
    after: Seq<u8>,
    vol: Volume,
    a: Set<int>,
    b: Set<int>,
    but: Set<int>,
)
    requires
        kept_but_for(img, mid, vol, a),
        kept_but_for(mid, after, vol, b),
        a.subset_of(but),
        forall|x: int|
            b.contains(x) && #[trigger] in_use(img, vol.geo, vol.bitmap->Some_0, x)
                ==> but.contains(x),
    ensures
        kept_but_for(img, after, vol, but),
{
    let geo = vol.geo;
    let bm = vol.bitmap->Some_0;
    assert forall|x: int|
        geo.has_cluster(x) && in_use(img, geo, bm, x) && !but.contains(x) && !bitmap_area(
            geo,
            bm,
        ).contains(x) implies #[trigger] undisturbed(img, after, geo, bm, x) by {
        assert(!a.contains(x) && !b.contains(x));
        assert(undisturbed(img, mid, geo, bm, x));
        assert(undisturbed(mid, after, geo, bm, x));
    }
}

/// What a new entry leaves, given what leads to its directory before and
/// after: its path leads to it, the directory's listing has it and is
/// otherwise what it was, and clusters in use elsewhere stay.
pub open spec fn settled(
    img: Seq<u8>,
    after: Seq<u8>,
    vol: Volume,
    path: Seq<char>,
    was: Option<EntryModel>,
    now: Option<EntryModel>,
    e: EntryModel,
) -> bool {
    let before = children(img, vol.geo, was);
    &&& sound_way(after, vol, path)
    &&& home_of(after, vol, path) == now
    &&& lookup_result(after, vol, path) == Ok::<Option<EntryModel>, ExFault>(Some(e))
    &&& neat_dir(after, vol, now)
    &&& before is Ok
    &&& exists|j: int|
        0 <= j <= before->Ok_0.len() && children(after, vol.geo, now) == Ok::<
            Seq<EntryModel>,
            ExFault,
        >(#[trigger] before->Ok_0.insert(j, e))
    &&& kept_but_for(
        img,
        after,
        vol,
        home_clusters(img, vol, path).union(upper_clusters(img, vol, path)),
    )
}

/// A change of the last directory alone, by which it gains an entry, settles
/// the entry.
proof fn lemma_settled(
    img: Seq<u8>,
    d: Seq<u8>,
    after: Seq<u8>,
    vol: Volume,
    path: Seq<char>,
    was: Option<EntryModel>,
    now: Option<EntryModel>,
    e: EntryModel,
)
    requires
        sound_way(img, vol, path),
        home_of(img, vol, path) == was,
        sound_way(d, vol, path),
        home_of(d, vol, path) == now,
        children(d, vol.geo, now) == children(img, vol.geo, was),
        kept_but_for(
            img,
            d,
            vol,
            home_clusters(img, vol, path).union(upper_clusters(img, vol, path)),
        ),
        forall|x: int|
            home_clusters(d, vol, path).contains(x) && #[trigger] in_use(
                img,
                vol.geo,
                vol.bitmap->Some_0,
                x,
            ) ==> home_clusters(img, vol, path).contains(x),
        confined(d, after, vol.geo, Set::empty(), home_clusters(d, vol, path)),
        gains(d, after, vol, now, e),
        e.name == leaf_of(path),
    ensures
        settled(img, after, vol, path, was, now, e),
{
    let geo = vol.geo;
    let bm = vol.bitmap->Some_0;
    let own = home_clusters(d, vol, path);
    let but = home_clusters(img, vol, path).union(upper_clusters(img, vol, path));
    lemma_home_changed(d, after, vol, path);
    target_of_a_sound_way(after, vol, path);
    lemma_kept(d, after, vol, Set::empty(), own, own);
    lemma_kept_twice(img, d, after, vol, but, own, but);
}

/// Nothing changes where nothing is done.
proof fn lemma_kept_refl(img: Seq<u8>, vol: Volume, but: Set<int>)
    ensures
        kept_but_for(img, img, vol, but),
{
}

/// Placing a new set in the root fails only for want of a free cluster, and
/// only where the root must grow.
#[verifier::spinoff_prover]
#[verifier::rlimit(40)]
proof fn lemma_placed_in_root(
    disk: Disk,
    vol: Volume,
    path: Seq<char>,
    is_dir: bool,
    first_cluster: u32,
    data_len: u64,
    valid_len: u64,
    flags: u8,
)
    requires
        unclaimed(disk.bytes, vol, path),
        components(parent_of(path)).len() == 0,
    ensures
        ({
            let dir = DirModel { first_cluster: vol.geo.root_first_cluster, entry: None };
            let name = leaf_of(path);
            let e = new_entry(name, is_dir, first_cluster, data_len, valid_len, flags);
            let (after, r) = entry_placed(
                disk,
                vol,
                dir,
                name,
                is_dir,
                first_cluster,
                data_len,
                valid_len,
                flags,
            );
            &&& r is Ok == (free_slots(disk.bytes, vol, None, set_len(name)) matches Ok(Some(_))
                || allocation(disk, vol.geo, vol.bitmap->Some_0, 1).1 is Ok)
            &&& match r {
                Err(f) => f == full(),
                Ok(_) => settled(disk.bytes, after.bytes, vol, path, None, None, e),
            }
        }),
{
    let img = disk.bytes;
    let geo = vol.geo;
    let bm = vol.bitmap->Some_0;
    let name = leaf_of(path);
    let k = set_len(name);
    let e = new_entry(name, is_dir, first_cluster, data_len, valid_len, flags);
    let chain = dir_chain(img, vol, None);
    let hc = home_clusters(img, vol, path);
    let but = hc.union(upper_clusters(img, vol, path));
    let dir = DirModel { first_cluster: geo.root_first_cluster, entry: None };
    assert(home_of(img, vol, path) is None);
    target_of_a_sound_way(img, vol, path);
    tidy_children(img, vol, None);
    lemma_slots_are_read(img, geo, chain, k, 0, 0);
    let after = entry_placed(
        disk,
        vol,
        dir,
        name,
        is_dir,
        first_cluster,
        data_len,
        valid_len,
        flags,
    ).0;
    if free_slots(img, vol, None, k)->Ok_0 is Some {
        lemma_placed_anywhere(
            disk,
            vol,
            None,
            dir,
            name,
            is_dir,
            first_cluster,
            data_len,
            valid_len,
            flags,
        );
        lemma_kept_refl(img, vol, but);
        lemma_settled(img, img, after.bytes, vol, path, None, None, e);
    } else {
        lemma_growth_stages(
            disk,
            vol,
            dir,
            chain,
            name,
            is_dir,
            first_cluster,
            data_len,
            valid_len,
            flags,
        );
        lemma_root_grows(disk, vol, path);
        let (d, grown) = dir_grown(disk, vol, dir, chain.last());
        if let Ok(c) = grown {
            let one = Set::<int>::empty().insert(c as int);
            let words = one.insert(chain.last() as int);
            let clusters = bitmap_area(geo, bm).union(one);
            lemma_until_end(rows_in(img, geo, chain), 0);
            lemma_placed_in_new_cluster(
                img,
                d,
                vol,
                None,
                None,
                c,
                name,
                is_dir,
                first_cluster,
                data_len,
                valid_len,
                flags,
            );
            assert(home_of(d.bytes, vol, path) is None);
            lemma_longer_members(chain, c);
            assert(chain[chain.len() - 1] == chain.last());
            assert(hc.contains(chain.last() as int));
            lemma_kept(img, d.bytes, vol, words, clusters, but);
            lemma_settled(img, d.bytes, after.bytes, vol, path, None, None, e);
        }
    }
}

/// Placing a new set in a directory fails only for want of a free cluster, and
/// only where the directory must grow.
#[verifier::spinoff_prover]
#[verifier::rlimit(60)]
proof fn lemma_placed_in_dir(
    disk: Disk,
    vol: Volume,
    path: Seq<char>,
    dir: EntryModel,
    name: Seq<char>,
    is_dir: bool,
    first_cluster: u32,
    data_len: u64,
    valid_len: u64,
    flags: u8,
)
    requires
        fillable(disk.bytes, vol, path, dir, name),
    ensures
        ({
            let loc = existing(disk.bytes, vol, path)->Ok_0;
            let model = DirModel { first_cluster: dir.first_cluster, entry: Some(loc) };
            let e = new_entry(name, is_dir, first_cluster, data_len, valid_len, flags);
            let child = child_of(path, name);
            let (after, r) = entry_placed(
                disk,
                vol,
                model,
                name,
                is_dir,
                first_cluster,
                data_len,
                valid_len,
                flags,
            );
            let now = lookup_result(after.bytes, vol, path)->Ok_0;
            &&& r is Ok == (free_slots(disk.bytes, vol, Some(dir), set_len(name)) matches Ok(
                Some(_),
            ) || allocation(disk, vol.geo, vol.bitmap->Some_0, 1).1 is Ok)
            &&& match r {
                Err(f) => f == full(),
                Ok(_) => {
                    &&& lookup_result(after.bytes, vol, path) is Ok
                    &&& now == Some(dir) || now == Some(widened(dir, vol.geo))
                    &&& settled(disk.bytes, after.bytes, vol, child, Some(dir), now, e)
                },
            }
        }),
{
    let img = disk.bytes;
    let geo = vol.geo;
    let child = child_of(path, name);
    let k = set_len(name);
    let e = new_entry(name, is_dir, first_cluster, data_len, valid_len, flags);
    let chain = dir_chain(img, vol, Some(dir));
    lemma_name_is_there(name);
    lemma_way_to_child(img, vol, path, dir, name);
    lemma_dir_of_a_child(img, vol, path, dir, name);
    tidy_children(img, vol, Some(dir));
    lemma_slots_are_read(img, geo, chain, k, 0, 0);
    let loc = existing(img, vol, path)->Ok_0;
    let model = DirModel { first_cluster: dir.first_cluster, entry: Some(loc) };
    let after = entry_placed(
        disk,
        vol,
        model,
        name,
        is_dir,
        first_cluster,
        data_len,
        valid_len,
        flags,
    ).0;
    let own = home_clusters(img, vol, child);
    let but = own.union(upper_clusters(img, vol, child));
    if free_slots(img, vol, Some(dir), k)->Ok_0 is Some {
        lemma_placed_anywhere(
            disk,
            vol,
            Some(dir),
            model,
            name,
            is_dir,
            first_cluster,
            data_len,
            valid_len,
            flags,
        );
        lemma_dir_found_again(img, after.bytes, vol, path, dir);
        lemma_kept_refl(img, vol, but);
        lemma_settled(img, img, after.bytes, vol, child, Some(dir), Some(dir), e);
    } else {
        let wide = widened(dir, geo);
        lemma_growth_stages(
            disk,
            vol,
            model,
            chain,
            name,
            is_dir,
            first_cluster,
            data_len,
            valid_len,
            flags,
        );
        lemma_directory_grows(disk, vol, path, dir);
        let (d, grown) = dir_grown(disk, vol, model, chain.last());
        if let Ok(c) = grown {
            lemma_lengthened(disk, vol, Some(dir));
            lemma_until_end(rows_in(img, geo, chain), 0);
            lemma_placed_in_new_cluster(
                img,
                d,
                vol,
                Some(dir),
                Some(wide),
                c,
                name,
                is_dir,
                first_cluster,
                data_len,
                valid_len,
                flags,
            );
            lemma_way_to_child(d.bytes, vol, path, wide, name);
            lemma_dir_found_again(d.bytes, after.bytes, vol, path, wide);
            lemma_longer_members(chain, c);
            let hc = home_clusters(img, vol, path);
            assert forall|x: int| hc.union(own).contains(x) implies but.contains(x) by {
                lemma_above(img, vol, path, dir, name);
            }
            lemma_kept_wider(img, d.bytes, vol, hc.union(own), but);
            lemma_settled(img, d.bytes, after.bytes, vol, child, Some(dir), Some(wide), e);
        }
    }
}

pub proof fn lemma_name_is_there(name: Seq<char>)
    requires
        1 <= utf16_of(name).len(),
    ensures
        name.len() > 0,
{
    if name.len() == 0 {
        assert(utf16_of(name).len() == 0);
    }
}

/// What is kept but for some clusters is kept but for more.
proof fn lemma_kept_wider(img: Seq<u8>, after: Seq<u8>, vol: Volume, a: Set<int>, b: Set<int>)
    requires
        kept_but_for(img, after, vol, a),
        a.subset_of(b),
    ensures
        kept_but_for(img, after, vol, b),
{
}

/// The directory that a directory lies in is above what lies in the latter.
proof fn lemma_above(
    img: Seq<u8>,
    vol: Volume,
    path: Seq<char>,
    dir: EntryModel,
    name: Seq<char>,
)
    requires
        sound_dir(img, vol, path, dir),
        name.len() > 0,
        !name.contains('/'),
    ensures
        home_clusters(img, vol, path).subset_of(upper_clusters(img, vol, child_of(path, name))),
{
    let comps = components(parent_of(path));
    a_path_is_its_directory_and_its_name(path);
    a_child_lies_in_its_directory(path, name);
    target_of_a_sound_way(img, vol, path);
    lemma_way_goes_on(img, vol, comps, leaf_of(path), 0, None, dir);
}

/// Whether a path leads to a directory in order that has nothing of a name,
/// can be a cluster longer, and can take a set of that name in a cluster.
pub open spec fn fillable(
    img: Seq<u8>,
    vol: Volume,
    path: Seq<char>,
    dir: EntryModel,
    name: Seq<char>,
) -> bool {
    &&& sound_dir(img, vol, path, dir)
    &&& dir.size + vol.geo.cluster_len() <= u64::MAX
    &&& !name.contains('/')
    &&& 1 <= utf16_of(name).len() <= 255
    &&& set_len(name) <= per_cluster(vol.geo)
    &&& named_from(vol.upcase, children(img, vol.geo, Some(dir))->Ok_0, name, 0) is None
}

/// A new file that is settled is empty and in order.
proof fn lemma_settled_file(
    img: Seq<u8>,
    after: Seq<u8>,
    vol: Volume,
    path: Seq<char>,
    was: Option<EntryModel>,
    now: Option<EntryModel>,
)
    requires
        settled(img, after, vol, path, was, now, new_entry(leaf_of(path), false, 0, 0, 0, 0)),
    ensures
        sound_file(after, vol, path, new_entry(leaf_of(path), false, 0, 0, 0, 0)),
{
    let e = new_entry(leaf_of(path), false, 0, 0, 0, 0);
    lemma_need(vol.geo, 0, 1);
    assert(file_chain(after, vol.geo, e) == Ok::<Seq<u32>, ExFault>(seq![]));
    assert(members(Seq::<u32>::empty()) =~= Set::empty());
}

/// A file is created in the root however full the root is: where it has no
/// slots for the file's set it grows by a cluster that was free, and only
/// where there is none does creating the file fail. The file is then found,
/// empty and in order, and in the root's listing, which is otherwise what it
/// was.
pub proof fn a_full_root_grows(disk: Disk, vol: Volume, path: Seq<char>)
    requires
        unclaimed(disk.bytes, vol, path),
        components(parent_of(path)).len() == 0,
    ensures
        creation(disk, vol, path, false).1 is Ok == (free_slots(
            disk.bytes,
            vol,
            None,
            set_len(leaf_of(path)),
        ) matches Ok(Some(_)) || allocation(disk, vol.geo, vol.bitmap->Some_0, 1).1 is Ok),
        match creation(disk, vol, path, false) {
            (_, Err(f)) => f == full(),
            (after, Ok(_)) => {
                let e = new_entry(leaf_of(path), false, 0, 0, 0, 0);
                &&& settled(disk.bytes, after.bytes, vol, path, None, None, e)
                &&& sound_file(after.bytes, vol, path, e)
            },
        },
{
    let img = disk.bytes;
    target_of_a_sound_way(img, vol, path);
    let dir = DirModel { first_cluster: vol.geo.root_first_cluster, entry: None };
    assert(target(img, vol, path)->Ok_0.0 == dir);
    lemma_placed_in_root(disk, vol, path, false, 0, 0, 0, 0x00);
    if let (after, Ok(_)) = creation(disk, vol, path, false) {
        lemma_settled_file(img, after.bytes, vol, path, None, None);
    }
}

/// A file is created in a directory however full the directory is: where it
/// has no slots for the file's set it grows by a cluster that was free, and
/// only where there is none does creating the file fail. The file is then
/// found, empty and in order, and in the directory's listing, which is
/// otherwise what it was; and the directory is found as before, at its old
/// length or a cluster longer.
pub proof fn a_full_directory_grows(
    disk: Disk,
    vol: Volume,
    path: Seq<char>,
    dir: EntryModel,
    name: Seq<char>,
)
    requires
        fillable(disk.bytes, vol, path, dir, name),
    ensures
        creation(disk, vol, child_of(path, name), false).1 is Ok == (free_slots(
            disk.bytes,
            vol,
            Some(dir),
            set_len(name),
        ) matches Ok(Some(_)) || allocation(disk, vol.geo, vol.bitmap->Some_0, 1).1 is Ok),
        match creation(disk, vol, child_of(path, name), false) {
            (_, Err(f)) => f == full(),
            (after, Ok(_)) => {
                let child = child_of(path, name);
                let e = new_entry(name, false, 0, 0, 0, 0);
                let now = lookup_result(after.bytes, vol, path)->Ok_0;
                &&& lookup_result(after.bytes, vol, path) is Ok
                &&& now == Some(dir) || now == Some(widened(dir, vol.geo))
                &&& settled(disk.bytes, after.bytes, vol, child, Some(dir), now, e)
                &&& sound_file(after.bytes, vol, child, e)
            },
        },
{
    let img = disk.bytes;
    let child = child_of(path, name);
    lemma_name_is_there(name);
    lemma_way_to_child(img, vol, path, dir, name);
    lemma_dir_of_a_child(img, vol, path, dir, name);
    target_of_a_sound_way(img, vol, child);
    lemma_placed_in_dir(disk, vol, path, dir, name, false, 0, 0, 0, 0x00);
    if let (after, Ok(_)) = creation(disk, vol, child, false) {
        let now = lookup_result(after.bytes, vol, path)->Ok_0;
        lemma_settled_file(img, after.bytes, vol, child, Some(dir), now);
    }
}

/// A directory whose contents alone change is found as before.
pub proof fn lemma_dir_found_again(
    img: Seq<u8>,
    after: Seq<u8>,
    vol: Volume,
    path: Seq<char>,
    dir: EntryModel,
)
    requires
        sound_dir(img, vol, path, dir),
        confined(img, after, vol.geo, Set::empty(), members(dir_chain(img, vol, Some(dir)))),
    ensures
        lookup_result(after, vol, path) == Ok::<Option<EntryModel>, ExFault>(Some(dir)),
{
    let geo = vol.geo;
    let bm = vol.bitmap->Some_0;
    let own = members(dir_chain(img, vol, Some(dir)));
    let home = home_of(img, vol, path);
    lemma_len(img, after, geo, Set::empty(), own);
    target_of_a_sound_way(img, vol, path);
    dir_stays(img, after, vol, Set::empty(), own, home);
    assert forall|c: int| geo.has_cluster(c) implies #[trigger] in_use(after, geo, bm, c) == in_use(
        img,
        geo,
        bm,
        c,
    ) by {
        confined_bits(img, after, geo, bm, Set::empty(), own, c);
    }
    lemma_way_kept(img, after, vol, path, Set::empty(), own);
}

/// What taking and zeroing a cluster for a new directory leaves of the place
/// it is for: all of it, as the cluster was free.
#[verifier::spinoff_prover]
#[verifier::rlimit(30)]
proof fn lemma_cluster_apart(disk: Disk, vol: Volume, path: Seq<char>)
    requires
        unclaimed(disk.bytes, vol, path),
    ensures
        match allocation(disk, vol.geo, vol.bitmap->Some_0, 1) {
            (_, Err(f)) => f == full(),
            (d, Ok(added)) => {
                let img = disk.bytes;
                let geo = vol.geo;
                let bm = vol.bitmap->Some_0;
                let c = added[0] as int;
                let home = home_of(img, vol, path);
                let (d2, r) = cluster_zeroed(d, geo, added[0]);
                let k = set_len(leaf_of(path));
                let one = Set::<int>::empty().insert(c);
                &&& added.len() == 1
                &&& r is Ok
                &&& unclaimed(d2.bytes, vol, path)
                &&& home_of(d2.bytes, vol, path) == home
                &&& home_clusters(d2.bytes, vol, path) == home_clusters(img, vol, path)
                &&& upper_clusters(d2.bytes, vol, path) == upper_clusters(img, vol, path)
                &&& children(d2.bytes, geo, home) == children(img, geo, home)
                &&& free_slots(d2.bytes, vol, home, k) == free_slots(img, vol, home, k)
                &&& kept_but_for(img, d2.bytes, vol, Set::empty())
                &&& confined(img, d2.bytes, geo, one, bitmap_area(geo, bm).union(one))
                &&& geo.has_cluster(c)
                &&& !in_use(img, geo, bm, c)
                &&& in_use(d2.bytes, geo, bm, c)
                &&& forall|x: int|
                    geo.has_cluster(x) && in_use(img, geo, bm, x) ==> #[trigger] in_use(
                        d2.bytes,
                        geo,
                        bm,
                        x,
                    )
                &&& !bitmap_area(geo, bm).contains(c)
                &&& !home_clusters(img, vol, path).contains(c)
                &&& !upper_clusters(img, vol, path).contains(c)
                &&& fat_at(d2.bytes, geo, c) == Ok::<u32, ExFault>(END_OF_CHAIN)
                &&& cluster_of(d2.bytes, geo, c) == zeros(geo.cluster_len() as nat)
            },
        },
{
    let img = disk.bytes;
    let geo = vol.geo;
    let bm = vol.bitmap->Some_0;
    let area = bitmap_area(geo, bm);
    let home = home_of(img, vol, path);
    let hc = home_clusters(img, vol, path);
    let uc = upper_clusters(img, vol, path);
    let k = set_len(leaf_of(path));
    target_of_a_sound_way(img, vol, path);
    lemma_dir_cluster(disk, geo, bm);
    if let Ok(added) = allocation(disk, geo, bm, 1).1 {
        let c = added[0] as int;
        let one = Set::<int>::empty().insert(c);
        let clusters = area.union(one);
        let d2 = cluster_zeroed(allocation(disk, geo, bm, 1).0, geo, added[0]).0;
        lemma_len(img, d2.bytes, geo, one, clusters);
        assert(!hc.contains(c) && !uc.contains(c) && !area.contains(c)) by {
            assert(!in_use(img, geo, bm, c));
        }
        lemma_room_stays(img, d2.bytes, vol, one, clusters, home, k);
        dir_stays(img, d2.bytes, vol, one, clusters, home);
        tidy_children(img, vol, home);
        lemma_run_stays(img, d2.bytes, geo, dir_chain(img, vol, home), k, 0, 0);
        lemma_way_kept(img, d2.bytes, vol, path, one, clusters);
        lemma_kept(img, d2.bytes, vol, one, clusters, Set::empty());
    }
}

/// A new directory that is settled is empty and in order.
proof fn lemma_settled_dir(
    img: Seq<u8>,
    d: Seq<u8>,
    after: Seq<u8>,
    vol: Volume,
    path: Seq<char>,
    was: Option<EntryModel>,
    now: Option<EntryModel>,
    c: u32,
)
    requires
        placed(vol.geo, after.len()),
        home_clusters(d, vol, path) == home_clusters(img, vol, path),
        upper_clusters(d, vol, path) == upper_clusters(img, vol, path),
        children(d, vol.geo, was) == children(img, vol.geo, was),
        kept_but_for(img, d, vol, Set::empty()),
        settled(
            d,
            after,
            vol,
            path,
            was,
            now,
            new_entry(
                leaf_of(path),
                true,
                c,
                vol.geo.cluster_len() as u64,
                vol.geo.cluster_len() as u64,
                0x01,
            ),
        ),
        vol.geo.has_cluster(c as int),
        in_use(d, vol.geo, vol.bitmap->Some_0, c as int),
        !bitmap_area(vol.geo, vol.bitmap->Some_0).contains(c as int),
        !home_clusters(img, vol, path).contains(c as int),
        !upper_clusters(img, vol, path).contains(c as int),
        fat_at(d, vol.geo, c as int) == Ok::<u32, ExFault>(END_OF_CHAIN),
        cluster_of(d, vol.geo, c as int) == zeros(vol.geo.cluster_len() as nat),
    ensures
        ({
            let len = vol.geo.cluster_len() as u64;
            let e = new_entry(leaf_of(path), true, c, len, len, 0x01);
            &&& settled(img, after, vol, path, was, now, e)
            &&& empty_dir(after, vol, e)
        }),
{
    let geo = vol.geo;
    let bm = vol.bitmap->Some_0;
    let but = home_clusters(img, vol, path).union(upper_clusters(img, vol, path));
    let len = geo.cluster_len() as u64;
    let e = new_entry(leaf_of(path), true, c, len, len, 0x01);
    lemma_kept_twice(img, d, after, vol, Set::empty(), but, but);
    assert(undisturbed(d, after, geo, bm, c as int));
    lemma_zeroed_dir(after, vol, e);
}

/// Whether an entry stands for an empty directory of one cluster, in order.
pub open spec fn empty_dir(img: Seq<u8>, vol: Volume, e: EntryModel) -> bool {
    &&& e.is_dir
    &&& tidy_dir(img, vol, Some(e))
    &&& neat_dir(img, vol, Some(e))
    &&& dir_chain(img, vol, Some(e)) == seq![e.first_cluster]
    &&& children(img, vol.geo, Some(e)) == Ok::<Seq<EntryModel>, ExFault>(seq![])
}

/// A directory is created in the root however full the root is: it takes a
/// free cluster, and another one where the root must grow, and only for want
/// of these does creating it fail. It is then found, empty, and in the root's
/// listing, which is otherwise what it was.
#[verifier::spinoff_prover]
#[verifier::rlimit(30)]
pub proof fn a_full_root_takes_directories(disk: Disk, vol: Volume, path: Seq<char>)
    requires
        unclaimed(disk.bytes, vol, path),
        components(parent_of(path)).len() == 0,
    ensures
        match creation(disk, vol, path, true) {
            (_, Err(f)) => {
                &&& f == full()
                &&& match allocation(disk, vol.geo, vol.bitmap->Some_0, 1) {
                    (_, Err(_)) => true,
                    (d, Ok(added)) => {
                        let d2 = cluster_zeroed(d, vol.geo, added[0]).0.flushed();
                        &&& free_slots(disk.bytes, vol, None, set_len(leaf_of(path))) matches Ok(
                            None,
                        )
                        &&& allocation(d2, vol.geo, vol.bitmap->Some_0, 1).1 is Err
                    },
                }
            },
            (after, Ok(_)) => {
                let e = lookup_result(after.bytes, vol, path)->Ok_0->Some_0;
                &&& settled(disk.bytes, after.bytes, vol, path, None, None, e)
                &&& e.name == leaf_of(path)
                &&& empty_dir(after.bytes, vol, e)
                &&& !in_use(disk.bytes, vol.geo, vol.bitmap->Some_0, e.first_cluster as int)
            },
        },
{
    let img = disk.bytes;
    let geo = vol.geo;
    let bm = vol.bitmap->Some_0;
    let name = leaf_of(path);
    let dir = DirModel { first_cluster: geo.root_first_cluster, entry: None };
    assert(home_of(img, vol, path) is None);
    target_of_a_sound_way(img, vol, path);
    assert(target(img, vol, path)->Ok_0.0 == dir);
    tidy_children(img, vol, None);
    lemma_slots_are_read(img, geo, dir_chain(img, vol, None), set_len(name), 0, 0);
    lemma_mkdir_stages(disk, vol, path, dir);
    lemma_cluster_apart(disk, vol, path);
    if let Ok(added) = allocation(disk, geo, bm, 1).1 {
        let c = added[0];
        let len = geo.cluster_len() as u64;
        let d2 = cluster_zeroed(allocation(disk, geo, bm, 1).0, geo, c).0.flushed();
        lemma_placed_in_root(d2, vol, path, true, c, len, len, 0x01);
        if let (after, Ok(_)) = creation(disk, vol, path, true) {
            lemma_settled_dir(img, d2.bytes, after.bytes, vol, path, None, None, c);
        }
    }
}

/// A directory is created in a directory however full that one is: it takes a
/// free cluster, and another one where that directory must grow, and only for
/// want of these does creating it fail. It is then found, empty, and in that
/// directory's listing, which is otherwise what it was; and that directory is
/// found as before, at its old length or a cluster longer.
#[verifier::spinoff_prover]
#[verifier::rlimit(50)]
pub proof fn a_full_directory_takes_directories(
    disk: Disk,
    vol: Volume,
    path: Seq<char>,
    dir: EntryModel,
    name: Seq<char>,
)
    requires
        fillable(disk.bytes, vol, path, dir, name),
    ensures
        match creation(disk, vol, child_of(path, name), true) {
            (_, Err(f)) => {
                &&& f == full()
                &&& match allocation(disk, vol.geo, vol.bitmap->Some_0, 1) {
                    (_, Err(_)) => true,
                    (d, Ok(added)) => {
                        let d2 = cluster_zeroed(d, vol.geo, added[0]).0.flushed();
                        &&& free_slots(disk.bytes, vol, Some(dir), set_len(name)) matches Ok(None)
                        &&& allocation(d2, vol.geo, vol.bitmap->Some_0, 1).1 is Err
                    },
                }
            },
            (after, Ok(_)) => {
                let child = child_of(path, name);
                let e = lookup_result(after.bytes, vol, child)->Ok_0->Some_0;
                let now = lookup_result(after.bytes, vol, path)->Ok_0;
                &&& lookup_result(after.bytes, vol, path) is Ok
                &&& now == Some(dir) || now == Some(widened(dir, vol.geo))
                &&& settled(disk.bytes, after.bytes, vol, child, Some(dir), now, e)
                &&& e.name == name
                &&& empty_dir(after.bytes, vol, e)
                &&& !in_use(disk.bytes, vol.geo, vol.bitmap->Some_0, e.first_cluster as int)
            },
        },
{
    let img = disk.bytes;
    let geo = vol.geo;
    let bm = vol.bitmap->Some_0;
    let child = child_of(path, name);
    lemma_name_is_there(name);
    lemma_way_to_child(img, vol, path, dir, name);
    lemma_dir_of_a_child(img, vol, path, dir, name);
    target_of_a_sound_way(img, vol, child);
    tidy_children(img, vol, Some(dir));
    lemma_slots_are_read(img, geo, dir_chain(img, vol, Some(dir)), set_len(name), 0, 0);
    let model = target(img, vol, child)->Ok_0.0;
    assert(unclaimed(img, vol, child));
    lemma_mkdir_stages(disk, vol, child, model);
    lemma_cluster_apart(disk, vol, child);
    if let Ok(added) = allocation(disk, geo, bm, 1).1 {
        let c = added[0];
        let len = geo.cluster_len() as u64;
        let d2 = cluster_zeroed(allocation(disk, geo, bm, 1).0, geo, c).0.flushed();
        lemma_dir_apart(img, d2.bytes, vol, path, dir, c);
        assert(fillable(d2.bytes, vol, path, dir, name));
        lemma_placed_in_dir(d2, vol, path, dir, name, true, c, len, len, 0x01);
        assert(creation(disk, vol, child, true) == entry_placed(
            d2,
            vol,
            model,
            name,
            true,
            c,
            len,
            len,
            0x01,
        ));
        if let (after, Ok(_)) = creation(disk, vol, child, true) {
            let now = lookup_result(after.bytes, vol, path)->Ok_0;
            lemma_settled_dir(img, d2.bytes, after.bytes, vol, child, Some(dir), now, c);
        }
    }
}

/// A directory stays in order, and at its place, where a free cluster is
/// taken.
proof fn lemma_dir_apart(
    img: Seq<u8>,
    after: Seq<u8>,
    vol: Volume,
    path: Seq<char>,
    dir: EntryModel,
    c: u32,
)
    requires
        sound_dir(img, vol, path, dir),
        confined(
            img,
            after,
            vol.geo,
            Set::empty().insert(c as int),
            bitmap_area(vol.geo, vol.bitmap->Some_0).union(Set::empty().insert(c as int)),
        ),
        !in_use(img, vol.geo, vol.bitmap->Some_0, c as int),
        placed(vol.geo, after.len()),
        forall|x: int|
            vol.geo.has_cluster(x) && in_use(img, vol.geo, vol.bitmap->Some_0, x)
                ==> #[trigger] in_use(after, vol.geo, vol.bitmap->Some_0, x),
    ensures
        sound_dir(after, vol, path, dir),
        existing(after, vol, path) == existing(img, vol, path),
        children(after, vol.geo, Some(dir)) == children(img, vol.geo, Some(dir)),
{
    let geo = vol.geo;
    let bm = vol.bitmap->Some_0;
    let one = Set::<int>::empty().insert(c as int);
    let clusters = bitmap_area(geo, bm).union(one);
    let home = home_of(img, vol, path);
    let chain = dir_chain(img, vol, Some(dir));
    target_of_a_sound_way(img, vol, path);
    assert(!members(chain).contains(c as int) && !home_clusters(img, vol, path).contains(c as int)
        && !upper_clusters(img, vol, path).contains(c as int));
    dir_stays(img, after, vol, one, clusters, home);
    dir_stays(img, after, vol, one, clusters, Some(dir));
    lemma_way_kept(img, after, vol, path, one, clusters);
    tidy_children(img, vol, Some(dir));
    assert forall|x: int| members(chain).contains(x) implies #[trigger] in_use(
        after,
        geo,
        bm,
        x,
    ) by {
        assert(in_use(img, geo, bm, x));
        lemma_members_exist(geo, chain, x);
    }
    assert(sound_dir(after, vol, path, dir));
    lookup_and_change_agree(img, vol, path, dir);
    lookup_and_change_agree(after, vol, path, dir);
}

} // verus!
