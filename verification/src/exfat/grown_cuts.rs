//! What a power cut leaves while a directory grows for a new file: the old
//! listing or the new one, and every other file as it was.

use vstd::prelude::*;

use super::areas::{
    bitmap_area, bitmap_placed, cluster_place, confined, confined_refl, confined_trans,
    confined_weaker, in_use, linked_confined, members, placed,
};
use super::boot::Geometry;
use super::bystanders::cut_at;
use super::chains::{
    all_exist, allocation_is_fresh, confined_chain, ended_chain_has_no_loop, lemma_len,
};
use super::clusters::{allocation, linked};
use super::creating::{neat_dir, new_entry, set_len};
use super::cuts::{
    all_cuts, cuts_of_a_flush, cuts_of_a_write, cuts_refl, cuts_trans, lemma_allocation_cuts,
    lemma_entry_log, lemma_last_write, lemma_lookup_stays, takes_in,
};
use super::dir::{per_cluster, EntryModel, ENTRY_END};
use super::entries::{
    directory_in_a_longer_chain, lemma_row, lemma_until_end, row_in, row_put, rows_in,
    slot_holds_row, until_end,
};
use super::fat::{chain_of, fat_slot};
use super::fs::{children, lookup_result, named_from, same_name, Volume};
use super::growing::{
    a_full_directory_grows, a_full_root_grows, fillable, free_slots, grown_by,
    lemma_dir_found_again, lemma_dir_of_a_child, lemma_directory_grows, lemma_growth_stages,
    lemma_lengthened, lemma_longer_members, lemma_name_is_there, lemma_opened_listing,
    lemma_placed_in_new_cluster, lemma_root_grows, lemma_slots_are_read, lengthened, rows_opened,
    unclaimed, widened,
};
use super::io::{put_at, ExFault};
use super::neighbours::{
    apart_file_stays, bystander, bystanders_are_unharmed, file_clear, lemma_inserted, same_but_for,
    staying_keeps_all, swapping_keeps_the_rest, unharmed,
};
use super::readback::{home_clusters, home_of, swaps};
use super::tree_laws::{lemma_dir_cluster, lemma_way_to_child, sound_dir, target_of_a_sound_way};
use super::ways::{dir_chain, dir_first, dir_rows, lookup_goes_through, tidy_children, tidy_dir};
use super::write::{
    cluster_zeroed, creation, dir_grown, existing, flat, new_set, opened_up, restreamed, slots,
    target, DirModel, ENTRY_DELETED,
};
use crate::bytes::{le32_bytes, zeros};
use crate::device::Disk;
use crate::text::{
    a_child_lies_in_its_directory, child_of, components, leaf_of, parent_of, utf16_of,
};

verus! {

/// The disk once a new cluster is linked to the end of a directory.
pub open spec fn tail_linked(disk: Disk, vol: Volume, dir: Option<EntryModel>) -> Disk {
    let (d, r) = allocation(disk, vol.geo, vol.bitmap->Some_0, 1);
    linked(
        cluster_zeroed(d, vol.geo, r->Ok_0[0]).0.flushed(),
        vol.geo,
        dir_chain(disk.bytes, vol, dir).last() as int,
        r->Ok_0[0],
    ).0
}

/// Whether nothing changed yet but the bitmap and a cluster that was free.
pub open spec fn apart_yet(img: Seq<u8>, x: Seq<u8>, vol: Volume, c: u32) -> bool {
    let one = Set::<int>::empty().insert(c as int);
    confined(img, x, vol.geo, one, bitmap_area(vol.geo, vol.bitmap->Some_0).union(one))
}

/// Until the new cluster is linked, nothing of the directory changes.
#[verifier::spinoff_prover]
#[verifier::rlimit(30)]
proof fn lemma_link_cuts(disk: Disk, vol: Volume, dir: Option<EntryModel>)
    requires
        placed(vol.geo, disk.bytes.len()),
        vol.bitmap is Some,
        bitmap_placed(vol.geo, vol.bitmap->Some_0),
        forall|c: int|
            bitmap_area(vol.geo, vol.bitmap->Some_0).contains(c) || members(
                dir_chain(disk.bytes, vol, dir),
            ).contains(c) ==> #[trigger] in_use(disk.bytes, vol.geo, vol.bitmap->Some_0, c),
        members(dir_chain(disk.bytes, vol, dir)).disjoint(
            bitmap_area(vol.geo, vol.bitmap->Some_0),
        ),
        tidy_dir(disk.bytes, vol, dir),
        neat_dir(disk.bytes, vol, dir),
        allocation(disk, vol.geo, vol.bitmap->Some_0, 1).1 is Ok,
    ensures
        ({
            let c = allocation(disk, vol.geo, vol.bitmap->Some_0, 1).1->Ok_0[0];
            let d3 = tail_linked(disk, vol, dir);
            &&& all_cuts(
                disk,
                d3.flushed(),
                |x: Seq<u8>| apart_yet(disk.bytes, x, vol, c) || x == d3.bytes,
            )
            &&& lengthened(disk.bytes, d3.bytes, vol, dir, c)
        }),
{
    let img = disk.bytes;
    let geo = vol.geo;
    let bm = vol.bitmap->Some_0;
    let area = bitmap_area(geo, bm);
    let (d, r) = allocation(disk, geo, bm, 1);
    let added = r->Ok_0;
    let c = added[0] as int;
    let one = Set::<int>::empty().insert(c);
    let both = area.union(one);
    let d3 = tail_linked(disk, vol, dir);
    let p = |x: Seq<u8>| apart_yet(img, x, vol, added[0]) || x == d3.bytes;
    lemma_dir_cluster(disk, geo, bm);
    lemma_lengthened(disk, vol, dir);
    allocation_is_fresh(disk, geo, bm, 1);
    tidy_children(img, vol, dir);
    assert(members(added) =~= one) by {
        assert forall|k: int| members(added).contains(k) == one.contains(k) by {
            if k == c {
                assert(added[0] as int == k);
            }
        }
    }
    assert(takes_in(p, img, geo, one, area)) by {
        assert forall|x: Seq<u8>| #[trigger] confined(img, x, geo, one, area) implies p(x) by {
            confined_weaker(img, x, geo, one, area, one, both);
        }
    }
    lemma_allocation_cuts(disk, geo, bm, 1, p);
    let d1 = cluster_zeroed(d, geo, added[0]).0;
    confined_weaker(img, d.bytes, geo, one, area, one, both);
    lemma_len(img, d.bytes, geo, one, area);
    cluster_place(geo, d.bytes.len(), c);
    let data = zeros(geo.cluster_len() as nat);
    assert(d1 == d.written(geo.cluster_start(c), data));
    assert(p(d.bytes) && p(d1.bytes));
    cuts_of_a_write(d, geo.cluster_start(c), data, p);
    cuts_trans(disk, d, d1, p);
    let d2 = d1.flushed();
    cuts_of_a_flush(d1, p);
    cuts_trans(disk, d1, d2, p);
    let chain = dir_chain(img, vol, dir);
    let tail = chain.last() as int;
    assert(chain[chain.len() - 1] == chain.last());
    assert(geo.has_cluster(tail));
    lemma_len(img, d2.bytes, geo, one, both);
    linked_confined(d2, geo, tail, added[0]);
    cluster_place(geo, d2.bytes.len(), tail);
    assert(d3 == d2.written(fat_slot(geo, tail), le32_bytes(added[0])));
    cuts_of_a_write(d2, fat_slot(geo, tail), le32_bytes(added[0]), p);
    cuts_trans(disk, d2, d3, p);
    cuts_of_a_flush(d3, p);
    cuts_trans(disk, d3, d3.flushed(), p);
}

/// Whether some slots of a directory, from its first on, are opened up.
pub open spec fn partly_opened(
    img: Seq<u8>,
    x: Seq<u8>,
    geo: Geometry,
    chain: Seq<u32>,
    to: int,
) -> bool {
    &&& confined(img, x, geo, Set::empty(), members(chain))
    &&& exists|k: int|
        0 <= k <= to && rows_in(x, geo, chain) == #[trigger] rows_opened(
            rows_in(img, geo, chain),
            0,
            k,
        )
}

/// Every cut of opening up a directory leaves it partly opened.
proof fn lemma_opening_cuts(
    start: Seq<u8>,
    disk: Disk,
    geo: Geometry,
    chain: Seq<u32>,
    offsets: Seq<u64>,
    j: int,
    to: int,
    p: spec_fn(Seq<u8>) -> bool,
)
    requires
        placed(geo, start.len()),
        all_exist(geo, chain),
        chain.no_duplicates(),
        0 <= j <= to <= chain.len() * per_cluster(geo),
        forall|i: int| 0 <= i < to ==> #[trigger] offsets[i] == slots(geo, chain)[i],
        confined(start, disk.bytes, geo, Set::empty(), members(chain)),
        rows_in(disk.bytes, geo, chain) == rows_opened(rows_in(start, geo, chain), 0, j),
        forall|x: Seq<u8>| #[trigger] partly_opened(start, x, geo, chain, to) ==> p(x),
    ensures
        all_cuts(disk, opened_up(disk, offsets, j, to).0, p),
    decreases to - j,
{
    let m = members(chain);
    let rows0 = rows_in(start, geo, chain);
    let rows = rows_in(disk.bytes, geo, chain);
    lemma_len(start, disk.bytes, geo, Set::empty(), m);
    assert(partly_opened(start, disk.bytes, geo, chain, to));
    if j == to {
        cuts_refl(disk, p);
    } else {
        slot_holds_row(disk.bytes, geo, chain, j);
        slot_holds_row(start, geo, chain, j);
        assert(offsets[j] == slots(geo, chain)[j]);
        assert(rows[j] == row_in(disk.bytes, geo, chain, j));
        assert(rows0[j] == rows[j]);
        if rows[j][0] != ENTRY_END {
            assert(rows_opened(rows0, 0, j + 1) =~= rows_opened(rows0, 0, j));
            lemma_opening_cuts(start, disk, geo, chain, offsets, j + 1, to, p);
        } else {
            let raw = rows[j].update(0, ENTRY_DELETED);
            row_put(disk.bytes, geo, chain, j, raw);
            let mid = disk.written(offsets[j] as int, raw);
            assert(put_at(disk, offsets[j] as int, raw) == (mid, Ok::<(), ExFault>(())));
            confined_trans(
                start,
                disk.bytes,
                mid.bytes,
                geo,
                Set::empty(),
                m,
                Set::empty(),
                m,
            );
            assert(m.union(m) =~= m);
            assert(Set::<int>::empty().union(Set::empty()) =~= Set::empty());
            assert(rows.update(j, raw) =~= rows_opened(rows0, 0, j + 1));
            assert(partly_opened(start, mid.bytes, geo, chain, to));
            cuts_of_a_write(disk, offsets[j] as int, raw, p);
            lemma_opening_cuts(start, mid, geo, chain, offsets, j + 1, to, p);
            cuts_trans(disk, mid, opened_up(mid, offsets, j + 1, to).0, p);
        }
    }
}

/// A directory that is partly opened lists what it listed.
proof fn lemma_partly_opened_dir(
    img: Seq<u8>,
    x: Seq<u8>,
    vol: Volume,
    home: Option<EntryModel>,
    to: int,
)
    requires
        placed(vol.geo, img.len()),
        tidy_dir(img, vol, home),
        neat_dir(img, vol, home),
        to <= dir_chain(img, vol, home).len() * per_cluster(vol.geo),
        partly_opened(img, x, vol.geo, dir_chain(img, vol, home), to),
    ensures
        tidy_dir(x, vol, home),
        dir_chain(x, vol, home) == dir_chain(img, vol, home),
        children(x, vol.geo, home) == children(img, vol.geo, home),
{
    let geo = vol.geo;
    let chain = dir_chain(img, vol, home);
    let rows = rows_in(img, geo, chain);
    let k = choose|k: int|
        0 <= k <= to && rows_in(x, geo, chain) == #[trigger] rows_opened(rows, 0, k);
    tidy_children(img, vol, home);
    lemma_len(img, x, geo, Set::empty(), members(chain));
    confined_chain(
        img,
        x,
        geo,
        Set::empty(),
        members(chain),
        dir_first(vol, home),
        0,
        geo.cluster_count as int,
        false,
    );
    lemma_until_end(rows, 0);
    if k < until_end(rows, 0).len() {
        assert forall|i: int| 0 <= i < k implies (#[trigger] rows[i])[0] != ENTRY_END by {
            assert(until_end(rows, 0)[i] == rows[i]);
        }
        assert(rows_opened(rows, 0, k) =~= rows);
    } else {
        assert forall|i: int| 0 <= i < rows.len() implies (#[trigger] rows[i]).len() == 32 by {
            slot_holds_row(img, geo, chain, i);
        }
        lemma_opened_listing(rows, k);
    }
    tidy_children(x, vol, home);
}

/// Whether a cut falls while a root grows: nothing of the root changed yet, or
/// it has its new cluster and is being opened up.
spec fn root_growing(img: Seq<u8>, d: Seq<u8>, x: Seq<u8>, vol: Volume, c: u32, to: int) -> bool {
    apart_yet(img, x, vol, c) || partly_opened(d, x, vol.geo, dir_chain(d, vol, None), to)
}

/// Creating a file in a root that must grow, up to the set's write.
#[verifier::spinoff_prover]
#[verifier::rlimit(40)]
proof fn lemma_root_cuts(disk: Disk, vol: Volume, path: Seq<char>, cut: int)
    requires
        unclaimed(disk.bytes, vol, path),
        components(parent_of(path)).len() == 0,
        free_slots(disk.bytes, vol, None, set_len(leaf_of(path))) == Ok::<Option<int>, ExFault>(
            None,
        ),
        creation(disk, vol, path, false).1 is Ok,
        disk.log.len() <= cut <= creation(disk, vol, path, false).0.log.len(),
    ensures
        ({
            let after = creation(disk, vol, path, false).0;
            let x = cut_at(disk, after, cut);
            let c = allocation(disk, vol.geo, vol.bitmap->Some_0, 1).1->Ok_0[0];
            let d = tail_linked(disk, vol, None);
            let to = dir_chain(disk.bytes, vol, None).len() * per_cluster(vol.geo);
            &&& allocation(disk, vol.geo, vol.bitmap->Some_0, 1).1 is Ok
            &&& x == after.bytes || root_growing(disk.bytes, d.bytes, x, vol, c, to)
            &&& grown_by(disk.bytes, d.bytes, vol, None, None, c)
            &&& lengthened(disk.bytes, d.bytes, vol, None, c)
        }),
{
    let img = disk.bytes;
    let geo = vol.geo;
    let bm = vol.bitmap->Some_0;
    let name = leaf_of(path);
    let chain = dir_chain(img, vol, None);
    let to = chain.len() * per_cluster(geo);
    let dir = DirModel { first_cluster: geo.root_first_cluster, entry: None };
    assert(home_of(img, vol, path) is None);
    target_of_a_sound_way(img, vol, path);
    assert(target(img, vol, path)->Ok_0.0 == dir);
    tidy_children(img, vol, None);
    lemma_growth_stages(disk, vol, dir, chain, name, false, 0, 0, 0, 0x00);
    lemma_root_grows(disk, vol, path);
    let (d, grown) = dir_grown(disk, vol, dir, chain.last());
    let c = grown->Ok_0;
    lemma_link_cuts(disk, vol, None);
    assert(d == tail_linked(disk, vol, None).flushed());
    let longer = chain.push(c);
    let offsets = slots(geo, chain);
    assert(home_of(d.bytes, vol, path) is None);
    lemma_until_end(rows_in(img, geo, chain), 0);
    lemma_placed_in_new_cluster(img, d, vol, None, None, c, name, false, 0, 0, 0, 0x00);
    lemma_grown_slots(d.bytes, geo, chain, c);
    tidy_children(d.bytes, vol, None);
    ended_chain_has_no_loop(
        d.bytes,
        geo,
        geo.root_first_cluster,
        0,
        geo.cluster_count as int,
    );
    let p = |x: Seq<u8>| root_growing(img, d.bytes, x, vol, c, to);
    let q = |x: Seq<u8>| apart_yet(img, x, vol, c) || x == d.bytes;
    lemma_opened_none(d.bytes, geo, longer, to);
    assert(all_cuts(disk, d, q));
    assert(all_cuts(disk, d, p));
    confined_refl(d.bytes, geo);
    confined_weaker(d.bytes, d.bytes, geo, Set::empty(), Set::empty(), Set::empty(), members(longer));
    assert(rows_opened(rows_in(d.bytes, geo, longer), 0, 0) =~= rows_in(d.bytes, geo, longer));
    lemma_opening_cuts(d.bytes, d, geo, longer, offsets, 0, to, p);
    let d2 = opened_up(d, offsets, 0, offsets.len() as int).0;
    cuts_trans(disk, d, d2, p);
    let set = new_set(vol.upcase, utf16_of(name), false, 0, 0, 0, 0x00);
    let o = (geo.cluster_start(c as int) + 32 * 0) as u64 as int;
    let after = creation(disk, vol, path, false).0;
    assert(after == d2.written(o, flat(set)).flushed());
    lemma_last_write(disk, d2, o, flat(set), cut, p);
}

/// The slots that a directory had are the first of those it has once it grew.
proof fn lemma_grown_slots(img: Seq<u8>, geo: Geometry, chain: Seq<u32>, c: u32)
    requires
        geo.wf(),
    ensures
        chain.len() * per_cluster(geo) <= chain.push(c).len() * per_cluster(geo),
        slots(geo, chain).len() == chain.len() * per_cluster(geo),
        forall|i: int|
            0 <= i < chain.len() * per_cluster(geo) ==> #[trigger] slots(geo, chain)[i] == slots(
                geo,
                chain.push(c),
            )[i],
{
    let per = per_cluster(geo);
    let n = chain.len() as int;
    let longer = chain.push(c);
    assert((n + 1) * per == n * per + per) by (nonlinear_arith);
    assert(0 <= n * per) by (nonlinear_arith)
        requires
            0 <= n,
            0 <= per,
    ;
    assert forall|i: int| 0 <= i < n * per implies #[trigger] slots(geo, chain)[i] == slots(
        geo,
        longer,
    )[i] by {
        lemma_row(geo, n, i);
        assert(longer[i / per] == chain[i / per]);
    }
}

/// A directory as it is counts as one of which no slot is opened up yet.
proof fn lemma_opened_none(img: Seq<u8>, geo: Geometry, chain: Seq<u32>, to: int)
    requires
        0 <= to,
    ensures
        partly_opened(img, img, geo, chain, to),
{
    confined_refl(img, geo);
    confined_weaker(img, img, geo, Set::empty(), Set::empty(), Set::empty(), members(chain));
    assert(rows_opened(rows_in(img, geo, chain), 0, 0) =~= rows_in(img, geo, chain));
}

/// While the root grows, it lists what it listed.
#[verifier::spinoff_prover]
proof fn lemma_growing_root(
    img: Seq<u8>,
    d: Seq<u8>,
    x: Seq<u8>,
    vol: Volume,
    c: u32,
    name: Seq<char>,
)
    requires
        placed(vol.geo, img.len()),
        tidy_dir(img, vol, None),
        grown_by(img, d, vol, None, None, c),
        lengthened(img, d, vol, None, c),
        root_growing(
            img,
            d,
            x,
            vol,
            c,
            dir_chain(img, vol, None).len() * per_cluster(vol.geo),
        ),
        !members(dir_chain(img, vol, None)).contains(c as int),
        members(dir_chain(img, vol, None)).disjoint(bitmap_area(vol.geo, vol.bitmap->Some_0)),
    ensures
        ({
            let chain = dir_chain(img, vol, None);
            let one = Set::<int>::empty().insert(c as int);
            let area = bitmap_area(vol.geo, vol.bitmap->Some_0);
            &&& children(x, vol.geo, None) == children(img, vol.geo, None)
            &&& confined(
                img,
                x,
                vol.geo,
                one.insert(chain.last() as int),
                area.union(one).union(members(chain.push(c))),
            )
            &&& same_but_for(img, x, vol, None, name)
        }),
{
    let geo = vol.geo;
    let area = bitmap_area(geo, vol.bitmap->Some_0);
    let chain = dir_chain(img, vol, None);
    let to = chain.len() * per_cluster(geo);
    let one = Set::<int>::empty().insert(c as int);
    let words = one.insert(chain.last() as int);
    let clusters = area.union(one);
    let longer = members(chain.push(c));
    let all = clusters.union(longer);
    tidy_children(img, vol, None);
    if apart_yet(img, x, vol, c) {
        confined_weaker(img, x, geo, one, clusters, words, all);
        staying_keeps_all(img, x, vol, None, one, clusters, name);
    } else {
        lemma_len(img, d, geo, words, clusters);
        lemma_grown_slots(img, geo, chain, c);
        lemma_partly_opened_dir(d, x, vol, None, to);
        confined_trans(img, d, x, geo, words, clusters, Set::empty(), longer);
        assert(words.union(Set::empty()) =~= words);
    }
}

/// Every cut of a creation in a root that must grow changes the root, the
/// bitmap and a cluster that was free, and of the root's listing nothing but
/// the new name.
#[verifier::spinoff_prover]
#[verifier::rlimit(40)]
proof fn lemma_root_cut_is_local(disk: Disk, vol: Volume, path: Seq<char>, cut: int)
    requires
        unclaimed(disk.bytes, vol, path),
        components(parent_of(path)).len() == 0,
        free_slots(disk.bytes, vol, None, set_len(leaf_of(path))) == Ok::<Option<int>, ExFault>(
            None,
        ),
        creation(disk, vol, path, false).1 is Ok,
        disk.log.len() <= cut <= creation(disk, vol, path, false).0.log.len(),
    ensures
        ({
            let after = creation(disk, vol, path, false).0;
            let x = cut_at(disk, after, cut);
            let chain = dir_chain(disk.bytes, vol, None);
            let c = allocation(disk, vol.geo, vol.bitmap->Some_0, 1).1->Ok_0[0];
            let one = Set::<int>::empty().insert(c as int);
            let area = bitmap_area(vol.geo, vol.bitmap->Some_0);
            &&& children(x, vol.geo, None) == children(disk.bytes, vol.geo, None) || x
                == after.bytes
            &&& confined(
                disk.bytes,
                x,
                vol.geo,
                one.insert(chain.last() as int),
                area.union(one).union(members(chain.push(c))),
            )
            &&& same_but_for(disk.bytes, x, vol, None, leaf_of(path))
        }),
{
    let img = disk.bytes;
    let geo = vol.geo;
    let bm = vol.bitmap->Some_0;
    let after = creation(disk, vol, path, false).0;
    let x = cut_at(disk, after, cut);
    let name = leaf_of(path);
    let chain = dir_chain(img, vol, None);
    let d = tail_linked(disk, vol, None).bytes;
    let c = allocation(disk, geo, bm, 1).1->Ok_0[0];
    assert(home_of(img, vol, path) is None);
    lemma_root_cuts(disk, vol, path, cut);
    if x == after.bytes {
        lemma_root_growth_confined(disk, vol, path);
        lemma_root_after_growth(disk, vol, path);
    } else {
        assert(!in_use(img, geo, bm, c as int));
        lemma_growing_root(img, d, x, vol, c, name);
    }
}

/// Creating a file in a root that must grow changes one name.
#[verifier::spinoff_prover]
proof fn lemma_root_after_growth(disk: Disk, vol: Volume, path: Seq<char>)
    requires
        unclaimed(disk.bytes, vol, path),
        components(parent_of(path)).len() == 0,
        free_slots(disk.bytes, vol, None, set_len(leaf_of(path))) == Ok::<Option<int>, ExFault>(
            None,
        ),
        creation(disk, vol, path, false).1 is Ok,
    ensures
        same_but_for(
            disk.bytes,
            creation(disk, vol, path, false).0.bytes,
            vol,
            None,
            leaf_of(path),
        ),
{
    let name = leaf_of(path);
    let after = creation(disk, vol, path, false).0;
    assert(home_of(disk.bytes, vol, path) is None);
    tidy_children(disk.bytes, vol, None);
    a_full_root_grows(disk, vol, path);
    let e = new_entry(name, false, 0, 0, 0, 0);
    lemma_insert_keeps(disk.bytes, after.bytes, vol, None, None, e);
}

/// A power cut while the root grows for a new file leaves its old listing or
/// the file created, and harms no other file.
pub proof fn a_cut_while_the_root_grows_harms_no_other(
    disk: Disk,
    vol: Volume,
    path: Seq<char>,
    cut: int,
    other: Seq<char>,
    f: EntryModel,
)
    requires
        unclaimed(disk.bytes, vol, path),
        components(parent_of(path)).len() == 0,
        free_slots(disk.bytes, vol, None, set_len(leaf_of(path))) == Ok::<Option<int>, ExFault>(
            None,
        ),
        creation(disk, vol, path, false).1 is Ok,
        disk.log.len() <= cut <= creation(disk, vol, path, false).0.log.len(),
        bystander(
            disk.bytes,
            vol,
            None,
            leaf_of(path),
            bitmap_area(vol.geo, vol.bitmap->Some_0),
            other,
            f,
        ),
    ensures
        ({
            let after = creation(disk, vol, path, false).0;
            let x = cut_at(disk, after, cut);
            &&& children(x, vol.geo, None) == children(disk.bytes, vol.geo, None) || x
                == after.bytes
            &&& unharmed(disk.bytes, x, vol, other, f)
        }),
{
    let img = disk.bytes;
    let geo = vol.geo;
    let bm = vol.bitmap->Some_0;
    let area = bitmap_area(geo, bm);
    let x = cut_at(disk, creation(disk, vol, path, false).0, cut);
    let chain = dir_chain(img, vol, None);
    let c = allocation(disk, geo, bm, 1).1->Ok_0[0];
    let one = Set::<int>::empty().insert(c as int);
    let words = one.insert(chain.last() as int);
    let all = area.union(one).union(members(chain.push(c)));
    lemma_root_cuts(disk, vol, path, cut);
    lemma_root_cut_is_local(disk, vol, path, cut);
    lemma_dir_cluster(disk, geo, bm);
    tidy_children(img, vol, None);
    lemma_longer_members(chain, c);
    assert(chain[chain.len() - 1] == chain.last());
    assert(members(chain).contains(chain.last() as int));
    bystanders_are_unharmed(img, x, vol, None, leaf_of(path), area, words, all, other, f);
}

/// A listing with an entry more is as it was but for that entry's name.
proof fn lemma_insert_keeps(
    img: Seq<u8>,
    after: Seq<u8>,
    vol: Volume,
    was: Option<EntryModel>,
    now: Option<EntryModel>,
    e: EntryModel,
)
    requires
        children(img, vol.geo, was) is Ok,
        exists|j: int|
            0 <= j <= children(img, vol.geo, was)->Ok_0.len() && children(after, vol.geo, now)
                == Ok::<Seq<EntryModel>, ExFault>(
                #[trigger] children(img, vol.geo, was)->Ok_0.insert(j, e),
            ),
    ensures
        children(after, vol.geo, now) is Ok,
        forall|n: Seq<char>|
            !same_name(vol.upcase, n, e.name) ==> #[trigger] named_from(
                vol.upcase,
                children(after, vol.geo, now)->Ok_0,
                n,
                0,
            ) == named_from(vol.upcase, children(img, vol.geo, was)->Ok_0, n, 0),
{
    let es = children(img, vol.geo, was)->Ok_0;
    let j = choose|j: int|
        0 <= j <= es.len() && children(after, vol.geo, now) == Ok::<Seq<EntryModel>, ExFault>(
            #[trigger] es.insert(j, e),
        );
    assert forall|n: Seq<char>| !same_name(vol.upcase, n, e.name) implies #[trigger] named_from(
        vol.upcase,
        children(after, vol.geo, now)->Ok_0,
        n,
        0,
    ) == named_from(vol.upcase, es, n, 0) by {
        lemma_inserted(vol.upcase, es, e, j, n, 0);
    }
}

/// Creating a file in a root that must grow touches the root, the bitmap and a
/// cluster that was free.
#[verifier::spinoff_prover]
proof fn lemma_root_growth_confined(disk: Disk, vol: Volume, path: Seq<char>)
    requires
        unclaimed(disk.bytes, vol, path),
        components(parent_of(path)).len() == 0,
        free_slots(disk.bytes, vol, None, set_len(leaf_of(path))) == Ok::<Option<int>, ExFault>(
            None,
        ),
        creation(disk, vol, path, false).1 is Ok,
    ensures
        ({
            let chain = dir_chain(disk.bytes, vol, None);
            let c = allocation(disk, vol.geo, vol.bitmap->Some_0, 1).1->Ok_0[0];
            let one = Set::<int>::empty().insert(c as int);
            confined(
                disk.bytes,
                creation(disk, vol, path, false).0.bytes,
                vol.geo,
                one.insert(chain.last() as int),
                bitmap_area(vol.geo, vol.bitmap->Some_0).union(one).union(members(chain.push(c))),
            )
        }),
{
    let img = disk.bytes;
    let geo = vol.geo;
    let area = bitmap_area(geo, vol.bitmap->Some_0);
    let name = leaf_of(path);
    let chain = dir_chain(img, vol, None);
    let dir = DirModel { first_cluster: geo.root_first_cluster, entry: None };
    assert(home_of(img, vol, path) is None);
    target_of_a_sound_way(img, vol, path);
    assert(target(img, vol, path)->Ok_0.0 == dir);
    tidy_children(img, vol, None);
    lemma_growth_stages(disk, vol, dir, chain, name, false, 0, 0, 0, 0x00);
    lemma_root_grows(disk, vol, path);
    let (d, grown) = dir_grown(disk, vol, dir, chain.last());
    let c = grown->Ok_0;
    lemma_until_end(rows_in(img, geo, chain), 0);
    lemma_placed_in_new_cluster(img, d, vol, None, None, c, name, false, 0, 0, 0, 0x00);
    let one = Set::<int>::empty().insert(c as int);
    let words = one.insert(chain.last() as int);
    let after = creation(disk, vol, path, false).0.bytes;
    confined_trans(
        img,
        d.bytes,
        after,
        geo,
        words,
        area.union(one),
        Set::empty(),
        members(chain.push(c)),
    );
    assert(words.union(Set::empty()) =~= words);
}

/// Whether a cut falls while a directory grows: nothing of it changed yet, or
/// it has a cluster more than its entry says, or that entry is in place and
/// the directory is being opened up.
spec fn dir_growing(
    img: Seq<u8>,
    linked: Seq<u8>,
    d: Seq<u8>,
    x: Seq<u8>,
    vol: Volume,
    dir: EntryModel,
    c: u32,
) -> bool {
    let wide = widened(dir, vol.geo);
    let to = dir_chain(img, vol, Some(dir)).len() * per_cluster(vol.geo);
    ||| apart_yet(img, x, vol, c)
    ||| x == linked
    ||| partly_opened(d, x, vol.geo, dir_chain(d, vol, Some(wide)), to)
}

/// The directory that a file is to be created in, as it is changed.
spec fn model_of(img: Seq<u8>, vol: Volume, path: Seq<char>, dir: EntryModel) -> DirModel {
    DirModel {
        first_cluster: dir.first_cluster,
        entry: Some(existing(img, vol, path)->Ok_0),
    }
}

/// The disk once a directory has grown and its entry says so.
spec fn dir_widened(disk: Disk, vol: Volume, path: Seq<char>, dir: EntryModel) -> Disk {
    dir_grown(
        disk,
        vol,
        model_of(disk.bytes, vol, path, dir),
        dir_chain(disk.bytes, vol, Some(dir)).last(),
    ).0
}

/// Whether a file is to be created in a directory that has no slots for it and
/// whose own entry is rewritten by one write.
pub open spec fn must_grow(
    disk: Disk,
    vol: Volume,
    path: Seq<char>,
    dir: EntryModel,
    name: Seq<char>,
) -> bool {
    let loc = existing(disk.bytes, vol, path)->Ok_0;
    &&& fillable(disk.bytes, vol, path, dir, name)
    &&& free_slots(disk.bytes, vol, Some(dir), set_len(name)) == Ok::<Option<int>, ExFault>(None)
    &&& creation(disk, vol, child_of(path, name), false).1 is Ok
    &&& loc.offsets[1] == loc.offsets[0] + 32
}

/// The growth of a directory, up to its entry's write.
#[verifier::spinoff_prover]
#[verifier::rlimit(40)]
proof fn lemma_widening_cuts(
    disk: Disk,
    vol: Volume,
    path: Seq<char>,
    dir: EntryModel,
    name: Seq<char>,
)
    requires
        must_grow(disk, vol, path, dir, name),
        allocation(disk, vol.geo, vol.bitmap->Some_0, 1).1 is Ok,
    ensures
        ({
            let c = allocation(disk, vol.geo, vol.bitmap->Some_0, 1).1->Ok_0[0];
            let d3 = tail_linked(disk, vol, Some(dir));
            let d = dir_widened(disk, vol, path, dir);
            &&& all_cuts(
                disk,
                d,
                |x: Seq<u8>| apart_yet(disk.bytes, x, vol, c) || x == d3.bytes || x == d.bytes,
            )
            &&& lengthened(disk.bytes, d3.bytes, vol, Some(dir), c)
            &&& grown_by(disk.bytes, d.bytes, vol, Some(dir), Some(widened(dir, vol.geo)), c)
            &&& sound_dir(d.bytes, vol, path, widened(dir, vol.geo))
            &&& dir_grown(
                disk,
                vol,
                model_of(disk.bytes, vol, path, dir),
                dir_chain(disk.bytes, vol, Some(dir)).last(),
            ).1 == Ok::<u32, ExFault>(c)
        }),
{
    let img = disk.bytes;
    let geo = vol.geo;
    let bm = vol.bitmap->Some_0;
    let chain = dir_chain(img, vol, Some(dir));
    let c = allocation(disk, geo, bm, 1).1->Ok_0[0];
    lemma_name_is_there(name);
    lemma_dir_of_a_child(img, vol, path, dir, name);
    lemma_directory_grows(disk, vol, path, dir);
    lemma_link_cuts(disk, vol, Some(dir));
    let loc = existing(img, vol, path)->Ok_0;
    let d3 = tail_linked(disk, vol, Some(dir));
    let d = dir_widened(disk, vol, path, dir);
    let size = (dir.size + geo.cluster_len()) as u64;
    let d4 = restreamed(d3.flushed(), loc, loc.first_cluster, size, size, loc.flags);
    assert(d4.1 is Ok);
    assert(d == d4.0.flushed());
    let w = lemma_entry_log(d3.flushed(), loc, loc.first_cluster, size, size, loc.flags);
    let q = |x: Seq<u8>| apart_yet(img, x, vol, c) || x == d3.bytes;
    let p = |x: Seq<u8>| apart_yet(img, x, vol, c) || x == d3.bytes || x == d.bytes;
    assert(all_cuts(disk, d3.flushed(), q));
    assert(all_cuts(disk, d3.flushed(), p));
    cuts_of_a_write(d3.flushed(), w.0, w.1, p);
    cuts_trans(disk, d3.flushed(), d4.0, p);
    cuts_of_a_flush(d4.0, p);
    cuts_trans(disk, d4.0, d, p);
}

/// Creating a file in a directory that must grow, up to the set's write.
#[verifier::spinoff_prover]
#[verifier::rlimit(40)]
proof fn lemma_dir_cuts(
    disk: Disk,
    vol: Volume,
    path: Seq<char>,
    dir: EntryModel,
    name: Seq<char>,
    cut: int,
)
    requires
        must_grow(disk, vol, path, dir, name),
        disk.log.len() <= cut <= creation(disk, vol, child_of(path, name), false).0.log.len(),
    ensures
        ({
            let after = creation(disk, vol, child_of(path, name), false).0;
            let x = cut_at(disk, after, cut);
            let c = allocation(disk, vol.geo, vol.bitmap->Some_0, 1).1->Ok_0[0];
            let d3 = tail_linked(disk, vol, Some(dir));
            let d = dir_widened(disk, vol, path, dir);
            let wide = widened(dir, vol.geo);
            &&& allocation(disk, vol.geo, vol.bitmap->Some_0, 1).1 is Ok
            &&& x == after.bytes || dir_growing(
                disk.bytes,
                d3.bytes,
                d.bytes,
                x,
                vol,
                dir,
                c,
            )
            &&& confined(
                d.bytes,
                after.bytes,
                vol.geo,
                Set::empty(),
                members(dir_chain(d.bytes, vol, Some(wide))),
            )
        }),
{
    let img = disk.bytes;
    let geo = vol.geo;
    let child = child_of(path, name);
    let wide = widened(dir, geo);
    let chain = dir_chain(img, vol, Some(dir));
    let to = chain.len() * per_cluster(geo);
    let model = model_of(img, vol, path, dir);
    lemma_name_is_there(name);
    lemma_way_to_child(img, vol, path, dir, name);
    lemma_dir_of_a_child(img, vol, path, dir, name);
    a_child_lies_in_its_directory(path, name);
    tidy_children(img, vol, Some(dir));
    lemma_slots_are_read(img, geo, chain, set_len(name), 0, 0);
    lemma_growth_stages(disk, vol, model, chain, name, false, 0, 0, 0, 0x00);
    lemma_directory_grows(disk, vol, path, dir);
    lemma_widening_cuts(disk, vol, path, dir, name);
    let c = allocation(disk, geo, vol.bitmap->Some_0, 1).1->Ok_0[0];
    let d3 = tail_linked(disk, vol, Some(dir));
    let d = dir_widened(disk, vol, path, dir);
    let longer = chain.push(c);
    let offsets = slots(geo, chain);
    lemma_until_end(rows_in(img, geo, chain), 0);
    lemma_placed_in_new_cluster(
        img,
        d,
        vol,
        Some(dir),
        Some(wide),
        c,
        name,
        false,
        0,
        0,
        0,
        0x00,
    );
    lemma_grown_slots(d.bytes, geo, chain, c);
    tidy_children(d.bytes, vol, Some(wide));
    ended_chain_has_no_loop(
        d.bytes,
        geo,
        wide.first_cluster,
        0,
        geo.cluster_count as int,
    );
    let p = |x: Seq<u8>| dir_growing(img, d3.bytes, d.bytes, x, vol, dir, c);
    let q = |x: Seq<u8>| apart_yet(img, x, vol, c) || x == d3.bytes || x == d.bytes;
    lemma_opened_none(d.bytes, geo, longer, to);
    assert(all_cuts(disk, d, q));
    assert(all_cuts(disk, d, p));
    confined_refl(d.bytes, geo);
    confined_weaker(d.bytes, d.bytes, geo, Set::empty(), Set::empty(), Set::empty(), members(longer));
    assert(rows_opened(rows_in(d.bytes, geo, longer), 0, 0) =~= rows_in(d.bytes, geo, longer));
    lemma_opening_cuts(d.bytes, d, geo, longer, offsets, 0, to, p);
    let d2 = opened_up(d, offsets, 0, offsets.len() as int).0;
    cuts_trans(disk, d, d2, p);
    let set = new_set(vol.upcase, utf16_of(name), false, 0, 0, 0, 0x00);
    let o = (geo.cluster_start(c as int) + 32 * 0) as u64 as int;
    let after = creation(disk, vol, child, false).0;
    assert(after == d2.written(o, flat(set)).flushed());
    lemma_last_write(disk, d2, o, flat(set), cut, p);
}

/// Where a directory may change while it grows: links of its last cluster and
/// of the new one, and clusters that hold the bitmap, the directory's entry,
/// the directory, or nothing.
spec fn growth_reach(
    img: Seq<u8>,
    vol: Volume,
    path: Seq<char>,
    dir: EntryModel,
    c: u32,
) -> (Set<int>, Set<int>) {
    let chain = dir_chain(img, vol, Some(dir));
    let one = Set::<int>::empty().insert(c as int);
    (
        one.insert(chain.last() as int),
        bitmap_area(vol.geo, vol.bitmap->Some_0).union(one).union(
            home_clusters(img, vol, path),
        ).union(members(chain.push(c))),
    )
}

/// What holds at every cut of a creation in a directory that must grow.
spec fn growing_well(
    img: Seq<u8>,
    x: Seq<u8>,
    vol: Volume,
    path: Seq<char>,
    dir: EntryModel,
    name: Seq<char>,
    c: u32,
) -> bool {
    let (words, clusters) = growth_reach(img, vol, path, dir, c);
    let now = lookup_result(x, vol, path)->Ok_0;
    &&& confined(img, x, vol.geo, words, clusters)
    &&& same_but_for(img, x, vol, home_of(img, vol, path), dir.name)
    &&& lookup_result(x, vol, path) is Ok
    &&& now == Some(dir) || now == Some(widened(dir, vol.geo))
    &&& children(x, vol.geo, now) is Ok
    &&& forall|n: Seq<char>|
        !same_name(vol.upcase, n, name) ==> #[trigger] named_from(
            vol.upcase,
            children(x, vol.geo, now)->Ok_0,
            n,
            0,
        ) == named_from(vol.upcase, children(img, vol.geo, Some(dir))->Ok_0, n, 0)
}

/// While nothing of the directory changed, it is found and listed as before.
#[verifier::spinoff_prover]
proof fn lemma_not_grown_yet(
    img: Seq<u8>,
    x: Seq<u8>,
    vol: Volume,
    path: Seq<char>,
    dir: EntryModel,
    name: Seq<char>,
    c: u32,
)
    requires
        sound_dir(img, vol, path, dir),
        !in_use(img, vol.geo, vol.bitmap->Some_0, c as int),
        apart_yet(img, x, vol, c),
    ensures
        growing_well(img, x, vol, path, dir, name, c),
        lookup_result(x, vol, path) == Ok::<Option<EntryModel>, ExFault>(Some(dir)),
        children(x, vol.geo, Some(dir)) == children(img, vol.geo, Some(dir)),
{
    let geo = vol.geo;
    let area = bitmap_area(geo, vol.bitmap->Some_0);
    let one = Set::<int>::empty().insert(c as int);
    let both = area.union(one);
    let (words, clusters) = growth_reach(img, vol, path, dir, c);
    let home = home_of(img, vol, path);
    target_of_a_sound_way(img, vol, path);
    tidy_children(img, vol, Some(dir));
    tidy_children(img, vol, home);
    confined_weaker(img, x, geo, one, both, words, clusters);
    staying_keeps_all(img, x, vol, home, one, both, dir.name);
    staying_keeps_all(img, x, vol, Some(dir), one, both, name);
    lemma_lookup_stays(img, x, vol, path, one, both);
}

proof fn lemma_scaled(n: int, per: int, cl: int)
    requires
        0 <= n,
        0 <= per,
        cl == 32 * per,
    ensures
        0 <= n * per,
        32 * (n * per) == n * cl,
{
    assert(0 <= n * per) by (nonlinear_arith)
        requires
            0 <= n,
            0 <= per,
    ;
    assert(32 * (n * per) == n * (32 * per)) by (nonlinear_arith);
}

/// The raw entries of a directory lie within its chain.
#[verifier::spinoff_prover]
proof fn lemma_rows_fit(img: Seq<u8>, geo: Geometry, chain: Seq<u32>)
    requires
        geo.wf(),
    ensures
        32 * until_end(rows_in(img, geo, chain), 0).len() <= chain.len() * geo.cluster_len(),
{
    assert(geo.cluster_len() == 32 * per_cluster(geo));
    lemma_scaled(chain.len() as int, per_cluster(geo), geo.cluster_len());
    let rows = rows_in(img, geo, chain);
    lemma_until_end(rows, 0);
    assert(rows.len() == chain.len() * per_cluster(geo));
}

/// A directory whose chain is a cluster longer than its entry says lists what
/// it listed.
#[verifier::spinoff_prover]
proof fn lemma_longer_listing(
    img: Seq<u8>,
    x: Seq<u8>,
    vol: Volume,
    dir: EntryModel,
    longer: Seq<u32>,
)
    requires
        placed(vol.geo, img.len()),
        placed(vol.geo, x.len()),
        tidy_dir(img, vol, Some(dir)),
        chain_of(x, vol.geo, dir.first_cluster, None) == Ok::<Seq<u32>, ExFault>(longer),
        until_end(rows_in(x, vol.geo, longer), 0) == dir_rows(img, vol, Some(dir)),
    ensures
        children(x, vol.geo, Some(dir)) == children(img, vol.geo, Some(dir)),
{
    let geo = vol.geo;
    let chain = dir_chain(img, vol, Some(dir));
    tidy_children(img, vol, Some(dir));
    lemma_rows_fit(img, geo, chain);
    directory_in_a_longer_chain(x, geo, dir.first_cluster, dir.size);
}

/// A directory whose chain is a cluster longer than its entry says is found
/// and listed as before.
#[verifier::spinoff_prover]
proof fn lemma_grown_unsaid(
    img: Seq<u8>,
    x: Seq<u8>,
    vol: Volume,
    path: Seq<char>,
    dir: EntryModel,
    name: Seq<char>,
    c: u32,
)
    requires
        sound_dir(img, vol, path, dir),
        lengthened(img, x, vol, Some(dir), c),
    ensures
        growing_well(img, x, vol, path, dir, name, c),
        lookup_result(x, vol, path) == Ok::<Option<EntryModel>, ExFault>(Some(dir)),
        children(x, vol.geo, Some(dir)) == children(img, vol.geo, Some(dir)),
{
    let geo = vol.geo;
    let area = bitmap_area(geo, vol.bitmap->Some_0);
    let chain = dir_chain(img, vol, Some(dir));
    let one = Set::<int>::empty().insert(c as int);
    let both = area.union(one);
    let (words, clusters) = growth_reach(img, vol, path, dir, c);
    let home = home_of(img, vol, path);
    target_of_a_sound_way(img, vol, path);
    tidy_children(img, vol, Some(dir));
    tidy_children(img, vol, home);
    lemma_len(img, x, geo, words, both);
    assert(chain[chain.len() - 1] == chain.last());
    assert(members(chain).contains(chain.last() as int));
    confined_weaker(img, x, geo, words, both, words, clusters);
    staying_keeps_all(img, x, vol, home, words, both, dir.name);
    lemma_lookup_stays(img, x, vol, path, words, both);
    lemma_longer_listing(img, x, vol, dir, chain.push(c));
}

/// Once the directory's entry says its new length, a change of the directory
/// alone leaves it found.
#[verifier::spinoff_prover]
proof fn lemma_grown_and_said(
    img: Seq<u8>,
    d: Seq<u8>,
    x: Seq<u8>,
    vol: Volume,
    path: Seq<char>,
    dir: EntryModel,
    c: u32,
)
    requires
        sound_dir(img, vol, path, dir),
        grown_by(img, d, vol, Some(dir), Some(widened(dir, vol.geo)), c),
        sound_dir(d, vol, path, widened(dir, vol.geo)),
        home_of(d, vol, path) == home_of(img, vol, path),
        swaps(
            img,
            d,
            vol,
            home_of(img, vol, path),
            dir,
            widened(dir, vol.geo),
        ),
        confined(
            img,
            d,
            vol.geo,
            growth_reach(img, vol, path, dir, c).0,
            bitmap_area(vol.geo, vol.bitmap->Some_0).union(
                Set::empty().insert(c as int),
            ).union(home_clusters(img, vol, path)),
        ),
        confined(
            d,
            x,
            vol.geo,
            Set::empty(),
            members(dir_chain(d, vol, Some(widened(dir, vol.geo)))),
        ),
    ensures
        ({
            let (words, clusters) = growth_reach(img, vol, path, dir, c);
            &&& confined(img, x, vol.geo, words, clusters)
            &&& same_but_for(img, x, vol, home_of(img, vol, path), dir.name)
            &&& lookup_result(x, vol, path) == Ok::<Option<EntryModel>, ExFault>(
                Some(widened(dir, vol.geo)),
            )
        }),
{
    let geo = vol.geo;
    let wide = widened(dir, geo);
    let area = bitmap_area(geo, vol.bitmap->Some_0);
    let longer = dir_chain(d, vol, Some(wide));
    let one = Set::<int>::empty().insert(c as int);
    let (words, clusters) = growth_reach(img, vol, path, dir, c);
    let home = home_of(img, vol, path);
    let first = area.union(one).union(home_clusters(img, vol, path));
    target_of_a_sound_way(d, vol, path);
    confined_trans(img, d, x, geo, words, first, Set::empty(), members(longer));
    assert(words.union(Set::empty()) =~= words);
    swapping_keeps_the_rest(img, d, vol, home, dir, wide);
    staying_keeps_all(d, x, vol, home, Set::empty(), members(longer), dir.name);
    lemma_dir_found_again(d, x, vol, path, wide);
}

/// Every cut of a creation in a directory that must grow.
#[verifier::spinoff_prover]
#[verifier::rlimit(40)]
proof fn lemma_dir_cut_state(
    disk: Disk,
    vol: Volume,
    path: Seq<char>,
    dir: EntryModel,
    name: Seq<char>,
    cut: int,
)
    requires
        must_grow(disk, vol, path, dir, name),
        disk.log.len() <= cut <= creation(disk, vol, child_of(path, name), false).0.log.len(),
    ensures
        ({
            let after = creation(disk, vol, child_of(path, name), false).0;
            let x = cut_at(disk, after, cut);
            let c = allocation(disk, vol.geo, vol.bitmap->Some_0, 1).1->Ok_0[0];
            &&& !in_use(disk.bytes, vol.geo, vol.bitmap->Some_0, c as int)
            &&& growing_well(disk.bytes, x, vol, path, dir, name, c)
            &&& x == after.bytes || children(x, vol.geo, lookup_result(x, vol, path)->Ok_0)
                == children(disk.bytes, vol.geo, Some(dir))
        }),
{
    let img = disk.bytes;
    let geo = vol.geo;
    let bm = vol.bitmap->Some_0;
    let after = creation(disk, vol, child_of(path, name), false).0;
    let x = cut_at(disk, after, cut);
    let c = allocation(disk, geo, bm, 1).1->Ok_0[0];
    let wide = widened(dir, geo);
    let d3 = tail_linked(disk, vol, Some(dir)).bytes;
    let d = dir_widened(disk, vol, path, dir).bytes;
    let chain = dir_chain(img, vol, Some(dir));
    lemma_name_is_there(name);
    lemma_dir_of_a_child(img, vol, path, dir, name);
    lemma_dir_cuts(disk, vol, path, dir, name, cut);
    lemma_widening_cuts(disk, vol, path, dir, name);
    lemma_directory_grows(disk, vol, path, dir);
    tidy_children(img, vol, Some(dir));
    if x == after.bytes {
        lemma_grown_and_said(img, d, x, vol, path, dir, c);
        a_full_directory_grows(disk, vol, path, dir, name);
        let e = new_entry(name, false, 0, 0, 0, 0);
        lemma_insert_keeps(img, x, vol, Some(dir), Some(wide), e);
    } else if apart_yet(img, x, vol, c) {
        lemma_not_grown_yet(img, x, vol, path, dir, name, c);
    } else if x == d3 {
        lemma_grown_unsaid(img, x, vol, path, dir, name, c);
    } else {
        let to = chain.len() * per_cluster(geo);
        lemma_grown_and_said(img, d, x, vol, path, dir, c);
        lemma_grown_slots(img, geo, chain, c);
        lemma_partly_opened_dir(d, x, vol, Some(wide), to);
    }
}

/// A power cut while a directory grows for a new file leaves the directory
/// found, at its old length or a cluster longer, with its old listing or with
/// the file created; and it harms no file elsewhere.
pub proof fn a_cut_while_a_directory_grows_harms_no_other(
    disk: Disk,
    vol: Volume,
    path: Seq<char>,
    dir: EntryModel,
    name: Seq<char>,
    cut: int,
    other: Seq<char>,
    f: EntryModel,
)
    requires
        must_grow(disk, vol, path, dir, name),
        disk.log.len() <= cut <= creation(disk, vol, child_of(path, name), false).0.log.len(),
        bystander(
            disk.bytes,
            vol,
            home_of(disk.bytes, vol, path),
            dir.name,
            members(dir_chain(disk.bytes, vol, Some(dir))).union(
                bitmap_area(vol.geo, vol.bitmap->Some_0),
            ),
            other,
            f,
        ),
    ensures
        ({
            let after = creation(disk, vol, child_of(path, name), false).0;
            let x = cut_at(disk, after, cut);
            let now = lookup_result(x, vol, path)->Ok_0;
            &&& lookup_result(x, vol, path) is Ok
            &&& now == Some(dir) || now == Some(widened(dir, vol.geo))
            &&& x == after.bytes || children(x, vol.geo, now) == children(
                disk.bytes,
                vol.geo,
                Some(dir),
            )
            &&& unharmed(disk.bytes, x, vol, other, f)
        }),
{
    let img = disk.bytes;
    let geo = vol.geo;
    let bm = vol.bitmap->Some_0;
    let x = cut_at(disk, creation(disk, vol, child_of(path, name), false).0, cut);
    let c = allocation(disk, geo, bm, 1).1->Ok_0[0];
    let chain = dir_chain(img, vol, Some(dir));
    let mine = members(chain).union(bitmap_area(geo, bm));
    let home = home_of(img, vol, path);
    let (words, clusters) = growth_reach(img, vol, path, dir, c);
    lemma_dir_cut_state(disk, vol, path, dir, name, cut);
    lemma_dir_cuts(disk, vol, path, dir, name, cut);
    lemma_widening_cuts(disk, vol, path, dir, name);
    lemma_longer_members(chain, c);
    assert(chain[chain.len() - 1] == chain.last());
    assert(members(chain).contains(chain.last() as int));
    bystanders_are_unharmed(img, x, vol, home, dir.name, mine, words, clusters, other, f);
}

/// A power cut while a directory grows for a new file harms no file in that
/// directory.
pub proof fn a_cut_while_a_directory_grows_keeps_its_files(
    disk: Disk,
    vol: Volume,
    path: Seq<char>,
    dir: EntryModel,
    name: Seq<char>,
    cut: int,
    sibling: Seq<char>,
    f: EntryModel,
)
    requires
        must_grow(disk, vol, path, dir, name),
        disk.log.len() <= cut <= creation(disk, vol, child_of(path, name), false).0.log.len(),
        sibling.len() > 0,
        !sibling.contains('/'),
        !same_name(vol.upcase, sibling, name),
        lookup_result(disk.bytes, vol, child_of(path, sibling)) == Ok::<
            Option<EntryModel>,
            ExFault,
        >(Some(f)),
        file_clear(
            disk.bytes,
            vol,
            f,
            members(dir_chain(disk.bytes, vol, Some(dir))).union(
                bitmap_area(vol.geo, vol.bitmap->Some_0),
            ).union(home_clusters(disk.bytes, vol, path)),
        ),
    ensures
        unharmed(
            disk.bytes,
            cut_at(disk, creation(disk, vol, child_of(path, name), false).0, cut),
            vol,
            child_of(path, sibling),
            f,
        ),
{
    let img = disk.bytes;
    let geo = vol.geo;
    let bm = vol.bitmap->Some_0;
    let x = cut_at(disk, creation(disk, vol, child_of(path, name), false).0, cut);
    let c = allocation(disk, geo, bm, 1).1->Ok_0[0];
    let chain = dir_chain(img, vol, Some(dir));
    let (words, clusters) = growth_reach(img, vol, path, dir, c);
    lemma_dir_cut_state(disk, vol, path, dir, name, cut);
    lemma_dir_cuts(disk, vol, path, dir, name, cut);
    lemma_widening_cuts(disk, vol, path, dir, name);
    lemma_longer_members(chain, c);
    assert(chain[chain.len() - 1] == chain.last());
    assert(members(chain).contains(chain.last() as int));
    a_child_lies_in_its_directory(path, sibling);
    lookup_goes_through(img, vol, components(path), sibling, 0, None);
    lookup_goes_through(x, vol, components(path), sibling, 0, None);
    apart_file_stays(img, x, vol, f, words, clusters);
}

} // verus!
