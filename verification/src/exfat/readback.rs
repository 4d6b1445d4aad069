//! What a read gives back of a write.

use vstd::prelude::*;

use super::areas::{
    bitmap_area, bitmap_placed, confined, confined_bits, confined_trans, in_use, members, placed,
};
use super::boot::Geometry;
use super::chains::{
    all_exist, chain_fits, confined_chain, ended_chain_has_no_loop, full, grown_chain_is_read,
    lemma_len, lemma_need,
};
use super::creating::{neat_dir, neat_rows};
use super::contents::{
    byte_in, confined_bytes, file_bytes_are_the_chains, lemma_index, payload_reads_back,
};
use super::dir::{parsed_from, set_entry, EntryModel, ENTRY_END, ENTRY_FILE};
use super::entries::{
    found_at, lemma_parsed_tail, lemma_same_end, lemma_until_end, loc_at, named_is_found,
    raws_are_the_set, reissued, reissued_set_is_valid, replaced_names_are_sound,
    replaced_set_is_found, row_put, rows_in, set_from, slot_holds_row, slots_hold_rows, until_end,
};
use super::fat::chain_of;
use super::fs::{
    children, file_chain, file_read, lookup_from, lookup_result, named_from, BitmapLoc, Volume,
};
use super::io::{put_at, ExFault};
use super::listing::{
    found_splits, listing_splits, whole_joins, whole_sets, whole_splits, whole_tail,
};
use super::upcase::{lesser, parts};
use super::ways::{
    dir_chain, dir_first, dir_rows, dir_stays, lookup_goes_through, tidy_children, tidy_dir,
    tidy_located, tidy_way, way_clusters, way_stays, ways_agree,
};
use super::write::{
    chain_grown, cluster_need, contiguous_len, existing, file_written, loc_chain, payload_written, raws_from,
    restreamed, size_after, slots, valid_of, DirModel, LocModel,
};
use crate::bytes::zeros;
use crate::device::Disk;
use crate::text::{a_path_is_its_directory_and_its_name, components, leaf_of, parent_of};

verus! {

/// The directory that a path's own name lies in.
pub open spec fn home_of(img: Seq<u8>, vol: Volume, path: Seq<char>) -> Option<EntryModel> {
    lookup_from(img, vol, components(parent_of(path)), 0, None)->Ok_0
}

/// The clusters of the directory that a path's own name lies in.
pub open spec fn home_clusters(img: Seq<u8>, vol: Volume, path: Seq<char>) -> Set<int> {
    members(dir_chain(img, vol, home_of(img, vol, path)))
}

/// The clusters of the directories above that one.
pub open spec fn upper_clusters(img: Seq<u8>, vol: Volume, path: Seq<char>) -> Set<int> {
    way_clusters(img, vol, components(parent_of(path)), 0, None)
}

/// Whether the way to a path is in order: the volume's areas have room, the
/// directories are tidy, in use, and apart from each other and the bitmap.
pub open spec fn sound_way(img: Seq<u8>, vol: Volume, path: Seq<char>) -> bool {
    let geo = vol.geo;
    let bm = vol.bitmap->Some_0;
    let home = home_clusters(img, vol, path);
    let upper = upper_clusters(img, vol, path);
    &&& placed(geo, img.len())
    &&& vol.bitmap is Some
    &&& bitmap_placed(geo, bm)
    &&& leaf_of(path).len() > 0
    &&& tidy_way(img, vol, components(parent_of(path)), 0, None)
    &&& home.disjoint(upper)
    &&& home.disjoint(bitmap_area(geo, bm))
    &&& upper.disjoint(bitmap_area(geo, bm))
    &&& forall|c: int|
        home.contains(c) || upper.contains(c) || bitmap_area(geo, bm).contains(c)
            ==> #[trigger] in_use(img, geo, bm, c)
}

/// Whether a path leads to a file that is in order: it is chained, its chain
/// fits its size, and lies apart from the directories on the way and from the
/// bitmap.
pub open spec fn sound_file(img: Seq<u8>, vol: Volume, path: Seq<char>, e: EntryModel) -> bool {
    let geo = vol.geo;
    let bm = vol.bitmap->Some_0;
    &&& sound_way(img, vol, path)
    &&& lookup_result(img, vol, path) == Ok::<Option<EntryModel>, ExFault>(Some(e))
    &&& !e.is_dir
    &&& !e.no_fat_chain
    &&& file_chain(img, geo, e) is Ok
    &&& chain_fits(img, geo, bm, file_chain(img, geo, e)->Ok_0, e.size as int)
    &&& members(file_chain(img, geo, e)->Ok_0).disjoint(home_clusters(img, vol, path))
    &&& members(file_chain(img, geo, e)->Ok_0).disjoint(upper_clusters(img, vol, path))
    &&& members(file_chain(img, geo, e)->Ok_0).disjoint(bitmap_area(geo, bm))
}

/// Where the set of a path's own name starts in its directory.
pub open spec fn place_of(img: Seq<u8>, vol: Volume, path: Seq<char>) -> int {
    found_at(vol.upcase, dir_rows(img, vol, home_of(img, vol, path)), leaf_of(path), 0)->Some_0
}

/// A lookup and a change find the same entry set at a path.
pub proof fn lookup_and_change_agree(img: Seq<u8>, vol: Volume, path: Seq<char>, e: EntryModel)
    requires
        sound_way(img, vol, path),
        lookup_result(img, vol, path) == Ok::<Option<EntryModel>, ExFault>(Some(e)),
    ensures
        ({
            let home = home_of(img, vol, path);
            let raws = dir_rows(img, vol, home);
            let k = place_of(img, vol, path);
            &&& tidy_dir(img, vol, home)
            &&& found_at(vol.upcase, raws, leaf_of(path), 0) == Some(k)
            &&& set_entry(set_from(raws, k)) == Ok::<EntryModel, ExFault>(e)
            &&& existing(img, vol, path) == Ok::<LocModel, ExFault>(
                loc_at(raws, slots(vol.geo, dir_chain(img, vol, home)), k),
            )
        }),
{
    let comps = components(parent_of(path));
    let root = DirModel { first_cluster: vol.geo.root_first_cluster, entry: None };
    a_path_is_its_directory_and_its_name(path);
    lookup_goes_through(img, vol, comps, leaf_of(path), 0, None);
    ways_agree(img, vol, comps, 0, None, root);
    let home = home_of(img, vol, path);
    lemma_way_end(img, vol, comps, 0, None);
    tidy_children(img, vol, home);
    tidy_located(img, vol, home, leaf_of(path));
    named_is_found(vol.upcase, dir_rows(img, vol, home), leaf_of(path), 0);
}

pub proof fn lemma_way_end(
    img: Seq<u8>,
    vol: Volume,
    comps: Seq<Seq<char>>,
    i: int,
    cur: Option<EntryModel>,
)
    requires
        placed(vol.geo, img.len()),
        0 <= i <= comps.len(),
        tidy_way(img, vol, comps, i, cur),
    ensures
        lookup_from(img, vol, comps, i, cur) matches Ok(d) && tidy_dir(img, vol, d),
    decreases comps.len() - i,
{
    super::areas::confined_refl(img, vol.geo);
    way_stays(img, img, vol, Set::empty(), Set::empty(), comps, i, cur);
}

/// What a directory is like once the facts of an entry in it are rewritten: as
/// before, with the entry replaced in its listing.
pub open spec fn swaps(
    img: Seq<u8>,
    after: Seq<u8>,
    vol: Volume,
    dir: Option<EntryModel>,
    e: EntryModel,
    e2: EntryModel,
) -> bool {
    &&& tidy_dir(after, vol, dir)
    &&& neat_dir(img, vol, dir) ==> neat_dir(after, vol, dir)
    &&& dir_chain(after, vol, dir) == dir_chain(img, vol, dir)
    &&& children(img, vol.geo, dir) is Ok
    &&& exists|j: int|
        0 <= j < children(img, vol.geo, dir)->Ok_0.len() && children(img, vol.geo, dir)->Ok_0[j]
            == e && children(after, vol.geo, dir) == Ok::<Seq<EntryModel>, ExFault>(
            #[trigger] children(img, vol.geo, dir)->Ok_0.update(j, e2),
        )
}

/// Replacing a set in place by a valid one with the same name and as many
/// entries, all in use, replaces its entry in the listing.
#[verifier::spinoff_prover]
proof fn lemma_replaced_listing(
    upcase: Seq<u16>,
    rows: Seq<Seq<u8>>,
    name: Seq<char>,
    k: int,
    file: Seq<u8>,
    stream: Seq<u8>,
)
    requires
        parsed_from(until_end(rows, 0), 0) is Ok,
        found_at(upcase, until_end(rows, 0), name, 0) == Some(k),
        file[0] == rows[k][0],
        file[1] == rows[k][1],
        stream[0] == rows[k + 1][0],
        ({
            let raws2 = until_end(rows, 0).update(k, file).update(k + 1, stream);
            set_entry(set_from(raws2, k)) is Ok
        }),
    ensures
        ({
            let raws = until_end(rows, 0);
            let rows2 = rows.update(k, file).update(k + 1, stream);
            let raws2 = raws.update(k, file).update(k + 1, stream);
            let e = set_entry(set_from(raws, k))->Ok_0;
            let e2 = set_entry(set_from(raws2, k))->Ok_0;
            let p = parsed_from(raws.take(k), 0)->Ok_0;
            let q = parsed_from(raws, k + 1 + raws[k][1])->Ok_0;
            &&& until_end(rows2, 0) == raws2
            &&& parsed_from(raws, 0) == Ok::<Seq<EntryModel>, ExFault>(p + (seq![e] + q))
            &&& parsed_from(raws2, 0) == Ok::<Seq<EntryModel>, ExFault>(p + (seq![e2] + q))
            &&& neat_rows(rows) ==> neat_rows(rows2)
        }),
{
    let raws = until_end(rows, 0);
    let rows2 = rows.update(k, file).update(k + 1, stream);
    let raws2 = raws.update(k, file).update(k + 1, stream);
    lemma_until_end(rows, 0);
    lemma_until_end(rows2, 0);
    named_is_found(upcase, raws, name, 0);
    found_splits(upcase, raws, name, 0);
    listing_splits(raws, 0, k);
    assert(raws[k] == rows[k] && raws[k + 1] == rows[k + 1]);
    let next = k + 1 + raws[k][1];
    assert forall|i: int| 0 <= i < rows.len() implies (#[trigger] rows[i])[0] == rows2[i][0] by {}
    lemma_same_end(rows, rows2, 0);
    assert(until_end(rows2, 0) =~= raws2);
    assert(raws2.take(k) =~= raws.take(k));
    assert(raws2[k] == file);
    assert forall|j: int| next <= j < raws.len() implies #[trigger] raws[j] == raws2[j] by {}
    lemma_parsed_tail(raws, raws2, next);
    listing_splits(raws2, 0, k);
    if neat_rows(rows) {
        whole_splits(raws, 0, k);
        assert(whole_sets(raws, next));
        whole_tail(raws, raws2, next);
        assert forall|j: int| k <= j < next implies (#[trigger] raws2[j])[0] > 0x80 by {
            assert(raws[j][0] > 0x80);
        }
        assert(whole_sets(raws2, k));
        whole_joins(raws2, 0, k);
        assert forall|i: int| raws2.len() <= i < rows2.len() implies (#[trigger] rows2[i])[0]
            == ENTRY_END by {
            assert(rows2[i] == rows[i]);
        }
    }
}

/// What becomes of a directory when the facts of one of its sets are
/// rewritten.
proof fn lemma_restreamed(
    disk: Disk,
    geo: Geometry,
    chain: Seq<u32>,
    k: int,
    first_cluster: u32,
    data_len: u64,
    valid_len: u64,
    flags: u8,
)
    requires
        placed(geo, disk.bytes.len()),
        all_exist(geo, chain),
        chain.no_duplicates(),
        ({
            let raws = until_end(rows_in(disk.bytes, geo, chain), 0);
            &&& 0 <= k < raws.len()
            &&& raws[k][0] == ENTRY_FILE
            &&& 2 <= raws[k][1]
            &&& k + 1 + raws[k][1] <= raws.len()
            &&& set_entry(set_from(raws, k)) is Ok
        }),
    ensures
        ({
            let raws = until_end(rows_in(disk.bytes, geo, chain), 0);
            let set = set_from(raws, k);
            let next = reissued(set, first_cluster, data_len, valid_len, flags);
            let loc = loc_at(raws, slots(geo, chain), k);
            let (after, r) = restreamed(disk, loc, first_cluster, data_len, valid_len, flags);
            &&& r is Ok
            &&& after.fixed == disk.fixed
            &&& confined(disk.bytes, after.bytes, geo, Set::empty(), members(chain))
            &&& until_end(rows_in(after.bytes, geo, chain), 0) == raws.update(k, next[0]).update(
                k + 1,
                next[1],
            )
            &&& rows_in(after.bytes, geo, chain) == rows_in(disk.bytes, geo, chain).update(
                k,
                next[0],
            ).update(k + 1, next[1])
        }),
{
    let img = disk.bytes;
    let rows = rows_in(img, geo, chain);
    let raws = until_end(rows, 0);
    let offsets = slots(geo, chain);
    let n = 1 + raws[k][1];
    let set = set_from(raws, k);
    let next = reissued(set, first_cluster, data_len, valid_len, flags);
    let loc = loc_at(raws, offsets, k);
    lemma_until_end(rows, 0);
    slots_hold_rows(img, geo, chain);
    raws_are_the_set(img, offsets, raws, k, n as int, 0);
    assert(raws_from(img, loc.offsets, 0) == Ok::<Seq<Seq<u8>>, ExFault>(set));
    assert forall|i: int| 0 <= i < set.len() implies (#[trigger] set[i]).len() == 32 by {
        slot_holds_row(img, geo, chain, k + i);
        assert(set[i] == rows[k + i]);
    }
    reissued_set_is_valid(set, first_cluster, data_len, valid_len, flags);
    assert(next[0].len() == 32 && next[1].len() == 32);
    assert(loc.offsets[0] == offsets[k] && loc.offsets[1] == offsets[k + 1]);
    row_put(img, geo, chain, k, next[0]);
    let mid = disk.written(offsets[k] as int, next[0]);
    assert(put_at(disk, offsets[k] as int, next[0]) == (mid, Ok::<(), ExFault>(())));
    lemma_len(img, mid.bytes, geo, Set::empty(), members(chain));
    row_put(mid.bytes, geo, chain, k + 1, next[1]);
    let in_turn = mid.written(offsets[k + 1] as int, next[1]);
    let after = if offsets[k + 1] == offsets[k] + 32 {
        disk.written(offsets[k] as int, next[0] + next[1])
    } else {
        in_turn
    };
    assert(after.bytes =~= in_turn.bytes);
    assert(restreamed(disk, loc, first_cluster, data_len, valid_len, flags) == (
        after,
        Ok::<(), ExFault>(()),
    ));
    confined_trans(
        img,
        mid.bytes,
        after.bytes,
        geo,
        Set::empty(),
        members(chain),
        Set::empty(),
        members(chain),
    );
    assert(members(chain).union(members(chain)) =~= members(chain));
    assert(Set::<int>::empty().union(Set::empty()) =~= Set::empty());
    let rows2 = rows_in(after.bytes, geo, chain);
    assert(rows2 == rows.update(k, next[0]).update(k + 1, next[1]));
    assert(set[0] == rows[k] && set[1] == rows[k + 1]);
    assert forall|i: int| 0 <= i < rows.len() implies (#[trigger] rows[i])[0] == rows2[i][0] by {}
    lemma_same_end(rows, rows2, 0);
    lemma_until_end(rows2, 0);
    assert(until_end(rows2, 0) =~= raws.update(k, next[0]).update(k + 1, next[1]));
}

/// An entry with new facts.
pub open spec fn restated(
    e: EntryModel,
    first_cluster: u32,
    size: u64,
    valid_size: u64,
    flags: u8,
) -> EntryModel {
    EntryModel {
        name: e.name,
        is_dir: e.is_dir,
        size,
        valid_size,
        first_cluster,
        no_fat_chain: flags / 2 % 2 == 1,
        mtime_ms: e.mtime_ms,
    }
}

/// What a rewritten set does to the directory it lies in: the directory stays
/// in order, and the name leads to the new facts.
pub proof fn lemma_rewritten_home(
    disk: Disk,
    vol: Volume,
    home: Option<EntryModel>,
    name: Seq<char>,
    k: int,
    first_cluster: u32,
    data_len: u64,
    valid_len: u64,
    flags: u8,
)
    requires
        placed(vol.geo, disk.bytes.len()),
        tidy_dir(disk.bytes, vol, home),
        found_at(vol.upcase, dir_rows(disk.bytes, vol, home), name, 0) == Some(k),
    ensures
        ({
            let raws = dir_rows(disk.bytes, vol, home);
            let chain = dir_chain(disk.bytes, vol, home);
            let loc = loc_at(raws, slots(vol.geo, chain), k);
            let e = set_entry(set_from(raws, k))->Ok_0;
            let (after, r) = restreamed(disk, loc, first_cluster, data_len, valid_len, flags);
            &&& r is Ok
            &&& after.fixed == disk.fixed
            &&& confined(disk.bytes, after.bytes, vol.geo, Set::empty(), members(chain))
            &&& tidy_dir(after.bytes, vol, home)
            &&& dir_chain(after.bytes, vol, home) == chain
            &&& children(after.bytes, vol.geo, home) is Ok
            &&& named_from(
                vol.upcase,
                children(after.bytes, vol.geo, home)->Ok_0,
                name,
                0,
            ) == Some(restated(e, first_cluster, data_len, valid_len, flags))
            &&& swaps(
                disk.bytes,
                after.bytes,
                vol,
                home,
                e,
                restated(e, first_cluster, data_len, valid_len, flags),
            )
        }),
{
    let img = disk.bytes;
    let geo = vol.geo;
    let raws = dir_rows(img, vol, home);
    let chain = dir_chain(img, vol, home);
    let loc = loc_at(raws, slots(geo, chain), k);
    tidy_children(img, vol, home);
    ended_chain_has_no_loop(img, geo, dir_first(vol, home), 0, geo.cluster_count as int);
    named_is_found(vol.upcase, raws, name, 0);
    lemma_restreamed(disk, geo, chain, k, first_cluster, data_len, valid_len, flags);
    let after = restreamed(disk, loc, first_cluster, data_len, valid_len, flags).0;
    let set = set_from(raws, k);
    let next = reissued(set, first_cluster, data_len, valid_len, flags);
    let raws2 = raws.update(k, next[0]).update(k + 1, next[1]);
    let rows = rows_in(img, geo, chain);
    lemma_until_end(rows, 0);
    assert forall|i: int| 0 <= i < set.len() implies (#[trigger] set[i]).len() == 32 by {
        slot_holds_row(img, geo, chain, k + i);
        assert(set[i] == rows[k + i]);
    }
    reissued_set_is_valid(set, first_cluster, data_len, valid_len, flags);
    assert(set[0] == raws[k]);
    assert(raws2[k] == next[0]);
    assert(set_from(raws2, k) =~= next) by {
        assert forall|i: int| 0 <= i < next.len() implies set_from(raws2, k)[i] == next[i] by {
            if i >= 2 {
                assert(next[i] == set[i]);
            }
        }
    }
    assert forall|j: int| 0 <= j < raws.len() && !(k <= j < k + 1 + raws[k][1]) implies #[trigger] raws[j]
        == raws2[j] by {}
    replaced_set_is_found(vol.upcase, raws, raws2, name, 0, k);
    replaced_names_are_sound(vol.upcase, raws, raws2, name, 0, k);
    lemma_len(img, after.bytes, geo, Set::empty(), members(chain));
    confined_chain(
        img,
        after.bytes,
        geo,
        Set::empty(),
        members(chain),
        dir_first(vol, home),
        0,
        geo.cluster_count as int,
        false,
    );
    assert(dir_rows(after.bytes, vol, home) == raws2);
    tidy_children(after.bytes, vol, home);
    named_is_found(vol.upcase, raws2, name, 0);
    assert(rows[k] == raws[k] && rows[k + 1] == raws[k + 1]);
    assert(set[1] == raws[k + 1]);
    lemma_replaced_listing(vol.upcase, rows, name, k, next[0], next[1]);
    let e = set_entry(set)->Ok_0;
    let e2 = restated(e, first_cluster, data_len, valid_len, flags);
    let p = parsed_from(raws.take(k), 0)->Ok_0;
    let q = parsed_from(raws, k + 1 + raws[k][1])->Ok_0;
    let es = p + (seq![e] + q);
    assert(p + (seq![e2] + q) =~= es.update(p.len() as int, e2));
    assert(es[p.len() as int] == e);
}

/// What a file holds at `pos` once `data` is written at `offset`: the data,
/// what it held before, or zeros in the gap between the two.
pub open spec fn overlaid(old: Seq<u8>, offset: int, data: Seq<u8>, pos: int) -> u8 {
    if offset <= pos < offset + data.len() {
        data[pos - offset]
    } else if pos < old.len() {
        old[pos]
    } else {
        0
    }
}

/// Reading a file in order gives as much of its contents as there is.
pub proof fn reads_are_pieces(
    img: Seq<u8>,
    vol: Volume,
    path: Seq<char>,
    e: EntryModel,
    from: int,
    len: int,
)
    requires
        sound_file(img, vol, path, e),
        0 <= from,
        0 <= len,
    ensures
        file_read(img, vol.geo, e, 0, e.size as int) matches Ok(s) && s.len() == e.size && file_read(
            img,
            vol.geo,
            e,
            from,
            len,
        ) == Ok::<Seq<u8>, ExFault>(
            if from >= e.size {
                seq![]
            } else {
                s.subrange(from, lesser(from + len, e.size as int))
            },
        ),
{
    let geo = vol.geo;
    let chain = file_chain(img, geo, e)->Ok_0;
    lemma_room(geo, chain.len() as int, e.size as int);
    if e.size > 0 {
        file_bytes_are_the_chains(img, geo, e, chain, 0, e.size as int);
        let s = file_read(img, geo, e, 0, e.size as int)->Ok_0;
        if from < e.size {
            let n = lesser(len, e.size - from);
            file_bytes_are_the_chains(img, geo, e, chain, from, n);
            assert(file_read(img, geo, e, from, len)->Ok_0 =~= s.subrange(from, from + n));
        }
    }
}

pub proof fn lemma_room(geo: Geometry, n: int, size: int)
    requires
        geo.wf(),
        0 <= size,
        n == cluster_need(geo, size),
    ensures
        size <= n * geo.cluster_len(),
{
    super::format::lemma_parts(size, geo.cluster_len());
}

/// The disk once a file's chain is grown and its data written, before its
/// entry says so; and the chain.
pub open spec fn data_stage(
    disk: Disk,
    geo: Geometry,
    bm: BitmapLoc,
    loc: LocModel,
    offset: u64,
    data: Seq<u8>,
) -> (Disk, Result<(u32, Seq<u32>), ExFault>) {
    let size = size_after(loc.data_len, offset, data.len());
    match chain_grown(disk, geo, bm, loc, loc_chain(disk.bytes, geo, loc)->Ok_0, size) {
        (d, Err(f)) => (d, Err(f)),
        (d, Ok((first, whole))) => match payload_written(
            d,
            geo,
            whole,
            valid_of(loc),
            offset,
            data,
        ) {
            (d2, Err(f)) => (d2, Err(f)),
            (d2, Ok(_)) => (d2, Ok((first, whole))),
        },
    }
}

/// What the disk is like at that point: the chain is grown by clusters that
/// were free, nothing but it and the bitmap changed, and it holds the data.
pub open spec fn data_stored(
    img: Seq<u8>,
    after: Seq<u8>,
    geo: Geometry,
    bm: BitmapLoc,
    loc: LocModel,
    offset: u64,
    data: Seq<u8>,
    first: u32,
    whole: Seq<u32>,
) -> bool {
    let chain = loc_chain(img, geo, loc)->Ok_0;
    let size = size_after(loc.data_len, offset, data.len());
    &&& confined(
        img,
        after,
        geo,
        members(whole),
        bitmap_area(geo, bm).union(members(whole)),
    )
    &&& members(whole).disjoint(bitmap_area(geo, bm))
    &&& forall|c: int| #[trigger]
        members(whole).contains(c) ==> members(chain).contains(c) || !in_use(img, geo, bm, c)
    &&& chain_of(after, geo, first, Some(whole.len() as u64)) == Ok::<Seq<u32>, ExFault>(whole)
    &&& chain_fits(after, geo, bm, whole, size)
    &&& forall|c: int|
        geo.has_cluster(c) && in_use(img, geo, bm, c) ==> #[trigger] in_use(after, geo, bm, c)
    &&& forall|p: int|
        0 <= p < size_after(valid_of(loc), offset, data.len()) ==> #[trigger] byte_in(
            after,
            geo,
            whole,
            p,
        ) == (if offset <= p < offset + data.len() {
            data[p - offset]
        } else if p < valid_of(loc) {
            byte_in(img, geo, chain, p)
        } else {
            0
        })
}

/// Growing a file's chain and writing its data fails only on a full volume.
#[verifier::spinoff_prover]
#[verifier::rlimit(40)]
pub proof fn data_is_stored(
    disk: Disk,
    geo: Geometry,
    bm: BitmapLoc,
    loc: LocModel,
    offset: u64,
    data: Seq<u8>,
)
    requires
        placed(geo, disk.bytes.len()),
        bitmap_placed(geo, bm),
        contiguous_len(geo, loc) is None,
        loc_chain(disk.bytes, geo, loc) is Ok,
        chain_fits(
            disk.bytes,
            geo,
            bm,
            loc_chain(disk.bytes, geo, loc)->Ok_0,
            loc.data_len as int,
        ),
        members(loc_chain(disk.bytes, geo, loc)->Ok_0).disjoint(bitmap_area(geo, bm)),
        forall|c: int|
            bitmap_area(geo, bm).contains(c) ==> #[trigger] in_use(disk.bytes, geo, bm, c),
        data.len() > 0,
        offset + data.len() <= u64::MAX,
    ensures
        match data_stage(disk, geo, bm, loc, offset, data) {
            (d, Ok((first, whole))) => d.fixed == disk.fixed && data_stored(
                disk.bytes,
                d.bytes,
                geo,
                bm,
                loc,
                offset,
                data,
                first,
                whole,
            ),
            (d, Err(f)) => f == full(),
        },
        chain_grown(
            disk,
            geo,
            bm,
            loc,
            loc_chain(disk.bytes, geo, loc)->Ok_0,
            size_after(loc.data_len, offset, data.len()),
        ).1 is Ok ==> data_stage(disk, geo, bm, loc, offset, data).1 is Ok,
{
    let img = disk.bytes;
    let area = bitmap_area(geo, bm);
    let size = size_after(loc.data_len, offset, data.len()) as u64;
    let chain = loc_chain(img, geo, loc)->Ok_0;
    grown_chain_is_read(disk, geo, bm, loc, size);
    let (d, grown) = chain_grown(disk, geo, bm, loc, chain, size as int);
    if let Ok((first, whole)) = grown {
        let m = members(whole);
        lemma_len(img, d.bytes, geo, m, area);
        lemma_need(geo, 0, size as int);
        lemma_room(geo, whole.len() as int, size as int);
        payload_reads_back(d, geo, whole, valid_of(loc), offset, data);
        let d2 = payload_written(d, geo, whole, valid_of(loc), offset, data).0;
        lemma_len(d.bytes, d2.bytes, geo, Set::empty(), m);
        assert forall|c: int| #[trigger] m.contains(c) implies members(chain).contains(c)
            || !in_use(img, geo, bm, c) by {
            let i = choose|i: int| 0 <= i < whole.len() && #[trigger] whole[i] as int == c;
            if i < chain.len() {
                assert(whole.take(chain.len() as int)[i] == chain[i]);
            }
        }
        assert(m.disjoint(area)) by {
            assert forall|c: int| m.contains(c) implies !area.contains(c) by {
                if area.contains(c) {
                    assert(in_use(img, geo, bm, c));
                }
            }
        }
        confined_trans(img, d.bytes, d2.bytes, geo, m, area, Set::empty(), m);
        assert(m.union(Set::empty()) =~= m);
        confined_chain(
            d.bytes,
            d2.bytes,
            geo,
            Set::empty(),
            m,
            first,
            0,
            whole.len() as int,
            true,
        );
        assert forall|c: int| geo.has_cluster(c) implies in_use(d.bytes, geo, bm, c)
            == #[trigger] in_use(d2.bytes, geo, bm, c) by {
            confined_bits(d.bytes, d2.bytes, geo, bm, Set::empty(), m, c);
        }
        assert forall|i: int| 0 <= i < whole.len() implies in_use(
            d2.bytes,
            geo,
            bm,
            #[trigger] whole[i] as int,
        ) by {
            assert(in_use(d.bytes, geo, bm, whole[i] as int));
        }
        assert forall|p: int|
            0 <= p < size_after(valid_of(loc), offset, data.len()) implies #[trigger] byte_in(
            d2.bytes,
            geo,
            whole,
            p,
        ) == (if offset <= p < offset + data.len() {
            data[p - offset]
        } else if p < valid_of(loc) {
            byte_in(img, geo, chain, p)
        } else {
            0
        }) by {
            lemma_index(p, geo.cluster_len(), whole.len() as int);
            let idx = p / geo.cluster_len();
            assert(m.contains(whole[idx] as int));
            if p < valid_of(loc) {
                lemma_room(geo, chain.len() as int, loc.data_len as int);
                lemma_index(p, geo.cluster_len(), chain.len() as int);
                assert(whole.take(chain.len() as int)[idx] == chain[idx]);
                confined_bytes(img, d.bytes, geo, m, area, whole, p);
            }
        }
    }
}

/// How much of a file is valid; the rest of it reads as zeros.
pub open spec fn valid_in(e: EntryModel) -> u64 {
    if e.valid_size <= e.size {
        e.valid_size
    } else {
        e.size
    }
}

/// How much of a file is valid once `len` bytes are written at `offset`.
pub open spec fn valid_after(e: EntryModel, offset: u64, len: nat) -> u64 {
    size_after(valid_in(e), offset, len) as u64
}

/// An entry with a new start and size.
pub open spec fn resized(
    e: EntryModel,
    first_cluster: u32,
    size: u64,
    valid_size: u64,
) -> EntryModel {
    EntryModel {
        name: e.name,
        is_dir: e.is_dir,
        size,
        valid_size,
        first_cluster,
        no_fat_chain: false,
        mtime_ms: e.mtime_ms,
    }
}

/// The way to a path is in order after a change that leaves the directories
/// above the last alone, and the last one in order where it was.
pub proof fn lemma_way_kept(
    img: Seq<u8>,
    after: Seq<u8>,
    vol: Volume,
    path: Seq<char>,
    words: Set<int>,
    clusters: Set<int>,
)
    requires
        sound_way(img, vol, path),
        confined(img, after, vol.geo, words, clusters),
        upper_clusters(img, vol, path).disjoint(words),
        upper_clusters(img, vol, path).disjoint(clusters),
        tidy_dir(after, vol, home_of(img, vol, path)),
        dir_chain(after, vol, home_of(img, vol, path)) == dir_chain(
            img,
            vol,
            home_of(img, vol, path),
        ),
        forall|c: int|
            vol.geo.has_cluster(c) && (home_clusters(img, vol, path).contains(c) || upper_clusters(
                img,
                vol,
                path,
            ).contains(c) || bitmap_area(vol.geo, vol.bitmap->Some_0).contains(c)) && in_use(
                img,
                vol.geo,
                vol.bitmap->Some_0,
                c,
            ) ==> #[trigger] in_use(after, vol.geo, vol.bitmap->Some_0, c),
    ensures
        sound_way(after, vol, path),
        home_of(after, vol, path) == home_of(img, vol, path),
        home_clusters(after, vol, path) == home_clusters(img, vol, path),
        upper_clusters(after, vol, path) == upper_clusters(img, vol, path),
        lookup_result(after, vol, path) == (match children(
            after,
            vol.geo,
            home_of(img, vol, path),
        ) {
            Err(f) => Err(f),
            Ok(entries) => match named_from(vol.upcase, entries, leaf_of(path), 0) {
                None => Err(ExFault::NotFound),
                Some(e) => Ok(Some(e)),
            },
        }),
{
    let comps = components(parent_of(path));
    let geo = vol.geo;
    let bm = vol.bitmap->Some_0;
    lemma_len(img, after, geo, words, clusters);
    way_stays(img, after, vol, words, clusters, comps, 0, None);
    a_path_is_its_directory_and_its_name(path);
    lookup_goes_through(after, vol, comps, leaf_of(path), 0, None);
    lemma_claimed_exist(img, vol, path);
    let home = home_clusters(img, vol, path);
    let upper = upper_clusters(img, vol, path);
    assert forall|c: int|
        home.contains(c) || upper.contains(c) || bitmap_area(geo, bm).contains(
            c,
        ) implies #[trigger] in_use(after, geo, bm, c) by {
        assert(in_use(img, geo, bm, c));
        assert(geo.has_cluster(c));
    }
}

/// The file at a path is in order once its data is stored and its entry says
/// so.
proof fn lemma_published(
    img: Seq<u8>,
    mid: Seq<u8>,
    after: Seq<u8>,
    vol: Volume,
    path: Seq<char>,
    e: EntryModel,
    loc: LocModel,
    offset: u64,
    data: Seq<u8>,
    first: u32,
    whole: Seq<u32>,
)
    requires
        sound_file(img, vol, path, e),
        loc.data_len == e.size,
        data.len() > 0,
        offset + data.len() <= u64::MAX,
        loc_chain(img, vol.geo, loc) == file_chain(img, vol.geo, e),
        data_stored(img, mid, vol.geo, vol.bitmap->Some_0, loc, offset, data, first, whole),
        confined(mid, after, vol.geo, Set::empty(), home_clusters(img, vol, path)),
        tidy_dir(after, vol, home_of(img, vol, path)),
        dir_chain(after, vol, home_of(img, vol, path)) == dir_chain(
            img,
            vol,
            home_of(img, vol, path),
        ),
        children(after, vol.geo, home_of(img, vol, path)) is Ok,
        named_from(
            vol.upcase,
            children(after, vol.geo, home_of(img, vol, path))->Ok_0,
            leaf_of(path),
            0,
        ) == Some(
            resized(
                e,
                first,
                size_after(e.size, offset, data.len()) as u64,
                valid_after(e, offset, data.len()),
            ),
        ),
    ensures
        ({
            let size = size_after(e.size, offset, data.len()) as u64;
            let e2 = resized(e, first, size, valid_after(e, offset, data.len()));
            &&& sound_file(after, vol, path, e2)
            &&& file_chain(after, vol.geo, e2) == Ok::<Seq<u32>, ExFault>(whole)
            &&& forall|p: int|
                0 <= p < size ==> #[trigger] byte_in(after, vol.geo, whole, p) == byte_in(
                    mid,
                    vol.geo,
                    whole,
                    p,
                )
        }),
{
    let geo = vol.geo;
    let bm = vol.bitmap->Some_0;
    let area = bitmap_area(geo, bm);
    let hc = home_clusters(img, vol, path);
    let uc = upper_clusters(img, vol, path);
    let size = size_after(e.size, offset, data.len()) as u64;
    let m = members(whole);
    let touched = area.union(m);
    let e2 = resized(e, first, size, valid_after(e, offset, data.len()));
    lemma_fresh_apart(img, vol, path, e, whole);
    lemma_len(img, mid, geo, m, touched);
    confined_trans(img, mid, after, geo, m, touched, Set::empty(), hc);
    assert(m.union(Set::empty()) =~= m);
    assert forall|c: int| geo.has_cluster(c) && in_use(mid, geo, bm, c) implies #[trigger] in_use(
        after,
        geo,
        bm,
        c,
    ) by {
        confined_bits(mid, after, geo, bm, Set::empty(), hc, c);
    }
    lemma_way_kept(img, after, vol, path, m, touched.union(hc));
    lemma_need(geo, 0, size as int);
    confined_chain(mid, after, geo, Set::empty(), hc, first, 0, whole.len() as int, true);
    assert(file_chain(after, geo, e2) == Ok::<Seq<u32>, ExFault>(whole));
    assert forall|i: int| 0 <= i < whole.len() implies in_use(
        after,
        geo,
        bm,
        #[trigger] whole[i] as int,
    ) by {
        assert(in_use(mid, geo, bm, whole[i] as int));
    }
    lemma_room(geo, whole.len() as int, size as int);
    assert forall|p: int| 0 <= p < size implies #[trigger] byte_in(after, geo, whole, p)
        == byte_in(mid, geo, whole, p) by {
        lemma_index(p, geo.cluster_len(), whole.len() as int);
        assert(m.contains(whole[p / geo.cluster_len()] as int));
        confined_bytes(mid, after, geo, Set::empty(), hc, whole, p);
    }
}

/// Clusters that were the file's or were free are none of those on the way.
pub proof fn lemma_fresh_apart(
    img: Seq<u8>,
    vol: Volume,
    path: Seq<char>,
    e: EntryModel,
    whole: Seq<u32>,
)
    requires
        sound_file(img, vol, path, e),
        forall|c: int| #[trigger]
            members(whole).contains(c) ==> members(file_chain(img, vol.geo, e)->Ok_0).contains(c)
                || !in_use(img, vol.geo, vol.bitmap->Some_0, c),
    ensures
        members(whole).disjoint(home_clusters(img, vol, path)),
        members(whole).disjoint(upper_clusters(img, vol, path)),
{
    let hc = home_clusters(img, vol, path);
    let uc = upper_clusters(img, vol, path);
    assert forall|c: int| members(whole).contains(c) implies !hc.contains(c) && !uc.contains(c) by {
        if hc.contains(c) || uc.contains(c) {
            assert(in_use(img, vol.geo, vol.bitmap->Some_0, c));
        }
    }
}

/// The clusters on the way to a path, and the bitmap's, exist.
pub proof fn lemma_claimed_exist(img: Seq<u8>, vol: Volume, path: Seq<char>)
    requires
        sound_way(img, vol, path),
    ensures
        forall|c: int|
            home_clusters(img, vol, path).contains(c) || upper_clusters(img, vol, path).contains(c)
                || bitmap_area(vol.geo, vol.bitmap->Some_0).contains(c) ==> #[trigger] vol.geo.has_cluster(c),
{
    let comps = components(parent_of(path));
    lemma_way_end(img, vol, comps, 0, None);
    let home = home_of(img, vol, path);
    tidy_children(img, vol, home);
    lemma_way_exists(img, vol, comps, 0, None);
}

proof fn lemma_way_exists(
    img: Seq<u8>,
    vol: Volume,
    comps: Seq<Seq<char>>,
    i: int,
    cur: Option<EntryModel>,
)
    requires
        placed(vol.geo, img.len()),
        0 <= i <= comps.len(),
        tidy_way(img, vol, comps, i, cur),
    ensures
        forall|c: int|
            way_clusters(img, vol, comps, i, cur).contains(c) ==> #[trigger] vol.geo.has_cluster(c),
    decreases comps.len() - i,
{
    if i < comps.len() {
        let e = named_from(
            vol.upcase,
            parsed_from(dir_rows(img, vol, cur), 0)->Ok_0,
            comps[i],
            0,
        )->Some_0;
        tidy_children(img, vol, cur);
        lemma_way_exists(img, vol, comps, i + 1, Some(e));
    }
}

/// What a write finds at a path to a file in order.
pub proof fn lemma_target(img: Seq<u8>, vol: Volume, path: Seq<char>, e: EntryModel)
    requires
        sound_file(img, vol, path, e),
    ensures
        existing(img, vol, path) matches Ok(loc) && loc.data_len == e.size && loc.first_cluster
            == e.first_cluster && !loc.is_dir && loc.valid_len == e.valid_size && contiguous_len(
            vol.geo,
            loc,
        ) is None && loc_chain(img, vol.geo, loc) == file_chain(img, vol.geo, e),
{
    let raws = dir_rows(img, vol, home_of(img, vol, path));
    let k = place_of(img, vol, path);
    lookup_and_change_agree(img, vol, path, e);
    named_is_found(vol.upcase, raws, leaf_of(path), 0);
    let loc = existing(img, vol, path)->Ok_0;
    let set = set_from(raws, k);
    assert(set[0] == raws[k] && set[1] == raws[k + 1]);
    if e.size == 0 {
        assert(parts(0, vol.geo.cluster_len()) == 0) by {
            lemma_need(vol.geo, 0, 1);
        }
        assert(file_chain(img, vol.geo, e)->Ok_0 =~= seq![]);
    }
}

/// What publishing a write does, once its data is stored.
pub proof fn lemma_entry_rewritten(
    disk: Disk,
    mid: Disk,
    vol: Volume,
    path: Seq<char>,
    e: EntryModel,
    loc: LocModel,
    offset: u64,
    data: Seq<u8>,
    first: u32,
    whole: Seq<u32>,
)
    requires
        sound_file(disk.bytes, vol, path, e),
        existing(disk.bytes, vol, path) == Ok::<LocModel, ExFault>(loc),
        loc.data_len == e.size,
        loc_chain(disk.bytes, vol.geo, loc) == file_chain(disk.bytes, vol.geo, e),
        data_stored(
            disk.bytes,
            mid.bytes,
            vol.geo,
            vol.bitmap->Some_0,
            loc,
            offset,
            data,
            first,
            whole,
        ),
    ensures
        ({
            let img = disk.bytes;
            let home = home_of(img, vol, path);
            let size = size_after(e.size, offset, data.len()) as u64;
            let valid = valid_after(e, offset, data.len());
            let (after, r) = restreamed(mid, loc, first, size, valid, 0x01);
            &&& r is Ok
            &&& after.fixed == mid.fixed
            &&& confined(mid.bytes, after.bytes, vol.geo, Set::empty(), home_clusters(img, vol, path))
            &&& tidy_dir(after.bytes, vol, home)
            &&& dir_chain(after.bytes, vol, home) == dir_chain(img, vol, home)
            &&& children(after.bytes, vol.geo, home) is Ok
            &&& named_from(
                vol.upcase,
                children(after.bytes, vol.geo, home)->Ok_0,
                leaf_of(path),
                0,
            ) == Some(resized(e, first, size, valid))
            &&& swaps(img, after.bytes, vol, home, e, resized(e, first, size, valid))
        }),
{
    let img = disk.bytes;
    let geo = vol.geo;
    let area = bitmap_area(geo, vol.bitmap->Some_0);
    let home = home_of(img, vol, path);
    let size = size_after(e.size, offset, data.len()) as u64;
    let m = members(whole);
    lookup_and_change_agree(img, vol, path, e);
    lemma_fresh_apart(img, vol, path, e, whole);
    lemma_len(img, mid.bytes, geo, m, area.union(m));
    dir_stays(img, mid.bytes, vol, m, area.union(m), home);
    lemma_rewritten_home(
        mid,
        vol,
        home,
        leaf_of(path),
        place_of(img, vol, path),
        first,
        size,
        valid_after(e, offset, data.len()),
        0x01,
    );
}

/// A write, taken apart.
pub proof fn lemma_write_stages(
    disk: Disk,
    vol: Volume,
    path: Seq<char>,
    loc: LocModel,
    offset: u64,
    data: Seq<u8>,
)
    requires
        existing(disk.bytes, vol, path) == Ok::<LocModel, ExFault>(loc),
        vol.bitmap is Some,
        !loc.is_dir,
        contiguous_len(vol.geo, loc) is None,
        loc_chain(disk.bytes, vol.geo, loc) is Ok,
        data.len() > 0,
    ensures
        file_written(disk, vol, path, offset, data) == (match data_stage(
            disk,
            vol.geo,
            vol.bitmap->Some_0,
            loc,
            offset,
            data,
        ) {
            (d, Err(f)) => (d, Err::<usize, ExFault>(f)),
            (d, Ok((first, _))) => {
                let size = size_after(loc.data_len, offset, data.len()) as u64;
                let valid = size_after(valid_of(loc), offset, data.len()) as u64;
                match restreamed(d.flushed(), loc, first, size, valid, 0x01) {
                    (d3, Err(f)) => (d3, Err(f)),
                    (d3, Ok(_)) => (d3.flushed(), Ok(data.len() as usize)),
                }
            },
        }),
{
}

/// A read gives back what a write wrote. On a file in order a write fails only
/// for want of free clusters. Where it succeeds, the path leads to the same
/// name, as long as the write made it; every byte written is read back, zeros
/// lie between the old end and the data, and every other byte that the file
/// held is as it was, also where it was not valid and read as zero. Every
/// cluster that the file gained was free. The listing of its directory is
/// otherwise as it was. And the file is in order for the next write.
pub proof fn a_write_is_read_back(
    disk: Disk,
    vol: Volume,
    path: Seq<char>,
    e: EntryModel,
    offset: u64,
    data: Seq<u8>,
)
    requires
        sound_file(disk.bytes, vol, path, e),
        data.len() > 0,
        offset + data.len() <= u64::MAX,
    ensures
        file_read(disk.bytes, vol.geo, e, 0, e.size as int) is Ok,
        match file_written(disk, vol, path, offset, data) {
            (_, Err(f)) => f == full(),
            (after, Ok(n)) => {
                let old = file_read(disk.bytes, vol.geo, e, 0, e.size as int)->Ok_0;
                let e2 = lookup_result(after.bytes, vol, path)->Ok_0->Some_0;
                &&& n == data.len() as usize
                &&& sound_file(after.bytes, vol, path, e2)
                &&& swaps(disk.bytes, after.bytes, vol, home_of(disk.bytes, vol, path), e, e2)
                &&& e2.name == e.name
                &&& e2.size == size_after(e.size, offset, data.len())
                &&& e2.valid_size == valid_after(e, offset, data.len())
                &&& file_read(after.bytes, vol.geo, e2, 0, e2.size as int) == Ok::<
                    Seq<u8>,
                    ExFault,
                >(Seq::new(e2.size as nat, |p: int| overlaid(old, offset as int, data, p)))
                &&& forall|c: int| #[trigger]
                    members(file_chain(after.bytes, vol.geo, e2)->Ok_0).contains(c) ==> members(
                        file_chain(disk.bytes, vol.geo, e)->Ok_0,
                    ).contains(c) || !in_use(disk.bytes, vol.geo, vol.bitmap->Some_0, c)
            },
        },
{
    let img = disk.bytes;
    let geo = vol.geo;
    let bm = vol.bitmap->Some_0;
    let chain = file_chain(img, geo, e)->Ok_0;
    lemma_target(img, vol, path, e);
    let loc = existing(img, vol, path)->Ok_0;
    reads_are_pieces(img, vol, path, e, 0, e.size as int);
    data_is_stored(disk, geo, bm, loc, offset, data);
    lemma_write_stages(disk, vol, path, loc, offset, data);
    let (mid, r) = data_stage(disk, geo, bm, loc, offset, data);
    if let Ok((first, whole)) = r {
        let size = size_after(e.size, offset, data.len()) as u64;
        let d3 = mid.flushed();
        lemma_entry_rewritten(disk, d3, vol, path, e, loc, offset, data, first, whole);
        let valid = valid_after(e, offset, data.len());
        let after = restreamed(d3, loc, first, size, valid, 0x01).0.flushed();
        lemma_published(
            img,
            mid.bytes,
            after.bytes,
            vol,
            path,
            e,
            loc,
            offset,
            data,
            first,
            whole,
        );
        lemma_new_contents(
            img,
            mid.bytes,
            after.bytes,
            geo,
            bm,
            e,
            loc,
            offset,
            data,
            first,
            whole,
        );
    }
}

/// What a file reads as once its data is stored and its entry says so.
proof fn lemma_new_contents(
    img: Seq<u8>,
    mid: Seq<u8>,
    after: Seq<u8>,
    geo: Geometry,
    bm: BitmapLoc,
    e: EntryModel,
    loc: LocModel,
    offset: u64,
    data: Seq<u8>,
    first: u32,
    whole: Seq<u32>,
)
    requires
        placed(geo, img.len()),
        placed(geo, after.len()),
        !e.is_dir,
        !e.no_fat_chain,
        loc.data_len == e.size,
        loc.valid_len == e.valid_size,
        file_chain(img, geo, e) is Ok,
        chain_fits(img, geo, bm, file_chain(img, geo, e)->Ok_0, e.size as int),
        loc_chain(img, geo, loc) == file_chain(img, geo, e),
        data.len() > 0,
        offset + data.len() <= u64::MAX,
        data_stored(img, mid, geo, bm, loc, offset, data, first, whole),
        ({
            let size = size_after(e.size, offset, data.len()) as u64;
            &&& file_chain(after, geo, resized(e, first, size, valid_after(e, offset, data.len()))) == Ok::<Seq<u32>, ExFault>(whole)
            &&& forall|p: int|
                0 <= p < size ==> #[trigger] byte_in(after, geo, whole, p) == byte_in(
                    mid,
                    geo,
                    whole,
                    p,
                )
        }),
    ensures
        ({
            let size = size_after(e.size, offset, data.len()) as u64;
            let old = file_read(img, geo, e, 0, e.size as int)->Ok_0;
            file_read(after, geo, resized(e, first, size, valid_after(e, offset, data.len())), 0, size as int) == Ok::<
                Seq<u8>,
                ExFault,
            >(Seq::new(size as nat, |p: int| overlaid(old, offset as int, data, p)))
        }),
{
    let size = size_after(e.size, offset, data.len()) as u64;
    let e2 = resized(e, first, size, valid_after(e, offset, data.len()));
    let chain = file_chain(img, geo, e)->Ok_0;
    let old = file_read(img, geo, e, 0, e.size as int)->Ok_0;
    lemma_room(geo, whole.len() as int, size as int);
    lemma_room(geo, chain.len() as int, e.size as int);
    file_bytes_are_the_chains(after, geo, e2, whole, 0, size as int);
    file_bytes_are_the_chains(img, geo, e, chain, 0, e.size as int);
    let new = file_read(after, geo, e2, 0, size as int)->Ok_0;
    assert forall|p: int| 0 <= p < size implies new[p] == overlaid(old, offset as int, data, p) by {
        assert(byte_in(after, geo, whole, p) == byte_in(mid, geo, whole, p));
        if p < e.size {
            assert(old[p] == if p < e.valid_size {
                byte_in(img, geo, chain, p)
            } else {
                0
            });
        }
    }
    assert(new =~= Seq::new(size as nat, |p: int| overlaid(old, offset as int, data, p)));
}

} // verus!
