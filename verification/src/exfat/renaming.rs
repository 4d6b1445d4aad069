//! What moving an entry does: it is found at its new path and no longer at its
//! old one.

use vstd::prelude::*;

use super::areas::{
    bitmap_area, confined, confined_bits, confined_trans, in_use, members, placed,
};
use super::boot::Geometry;
use super::chains::{lemma_len, lemma_need};
use super::creating::{
    added_set_is_listed, gains, has_room, neat_dir, neat_rows, new_entry, placed_entry_is_listed,
    found_run_is_usable, new_set_is_valid, room_in, rows_with, set_len,
};
use super::dir::{parsed_from, per_cluster, set_entry, EntryModel, ENTRY_FILE};
use super::entries::{
    found_at, lemma_until_end, loc_at, named_is_found, rows_in, set_from, slot_holds_row,
    sound_names, until_end,
};
use super::fat::{chain_clusters_exist, chain_from};
use super::fs::{
    children, file_bytes, file_chain, file_read, lookup_result, named_from, same_name, Volume,
};
use super::io::{bytes_at, ExFault};
use super::listing::{
    found_splits, lemma_none, names_split, unnamed, whole_splits,
};
use super::neighbours::{
    apart_file_stays, bystander, bystanders_are_unharmed, clear_lookup_stays, file_clear,
    gaining_keeps_the_rest, keeps_clear, local_change, losing_keeps_the_rest, unharmed,
};
use super::readback::{
    home_clusters, home_of, lemma_way_end, lookup_and_change_agree, place_of, sound_way,
};
use super::removing::{cleared_entry_is_gone, loses, named_once};
use super::tree_laws::{lemma_room_stays, target_of_a_sound_way, vacant};
use super::ways::{
    dir_chain, dir_first, dir_rows, dir_stays, lookup_goes_through, tidy_children, tidy_dir,
    tidy_way, way_clusters,
};
use super::write::{
    adjoining, cleared, entry_placed, existing, new_set, renaming, slots, target, usable, DirModel,
    LocModel,
};
use crate::device::Disk;
use crate::text::{
    a_path_is_its_directory_and_its_name, components, leaf_of, parent_of, utf16_of,
    utf16_round_trip,
};

verus! {

/// A name is found where no set straddles, none before has it, and a set there
/// does.
proof fn lemma_found_there(
    upcase: Seq<u16>,
    raws: Seq<Seq<u8>>,
    name: Seq<char>,
    i: int,
    k: int,
)
    requires
        0 <= i <= k < raws.len(),
        parsed_from(raws.take(k), i) is Ok,
        unnamed(upcase, parsed_from(raws.take(k), i)->Ok_0, name),
        raws[k][0] == ENTRY_FILE,
        2 <= raws[k][1],
        k + 1 + raws[k][1] <= raws.len(),
        set_entry(set_from(raws, k)) is Ok,
        same_name(upcase, set_entry(set_from(raws, k))->Ok_0.name, name),
    ensures
        found_at(upcase, raws, name, i) == Some(k),
    decreases k - i,
{
    let head = raws.take(k);
    if i < k {
        assert(head[i] == raws[i]);
        if raws[i][0] != ENTRY_FILE {
            lemma_found_there(upcase, raws, name, i + 1, k);
        } else {
            let next = i + 1 + raws[i][1];
            assert(head.subrange(i, next) =~= raws.subrange(i, next));
            let e = set_entry(set_from(raws, i))->Ok_0;
            let p = parsed_from(head, next)->Ok_0;
            let all = parsed_from(head, i)->Ok_0;
            assert(all == seq![e] + p);
            assert(!same_name(upcase, all[0].name, name));
            assert forall|j: int| 0 <= j < p.len() implies !same_name(
                upcase,
                (#[trigger] p[j]).name,
                name,
            ) by {
                assert(all[j + 1] == p[j]);
            }
            lemma_found_there(upcase, raws, name, next, k);
        }
    }
}

/// A set that was found is found at the same place after another one, of
/// another name, is added.
#[verifier::spinoff_prover]
proof fn lemma_found_beside(
    upcase: Seq<u16>,
    rows: Seq<Seq<u8>>,
    name: Seq<char>,
    k: int,
    s: int,
    set: Seq<Seq<u8>>,
    e: EntryModel,
)
    requires
        parsed_from(until_end(rows, 0), 0) is Ok,
        sound_names(until_end(rows, 0), 0),
        neat_rows(rows),
        found_at(upcase, until_end(rows, 0), name, 0) == Some(k),
        0 <= s <= until_end(rows, 0).len(),
        s + set.len() <= rows.len(),
        3 <= set.len(),
        set[0][0] == ENTRY_FILE,
        set[0][1] == set.len() - 1,
        forall|i: int| 0 <= i < set.len() ==> (#[trigger] set[i])[0] > 0x80,
        set_entry(set) == Ok::<EntryModel, ExFault>(e),
        crate::text::utf16_of(crate::text::text_of_utf16(super::dir::name_units(set)))
            == super::dir::name_units(set),
        forall|i: int| s <= i < s + set.len() ==> usable(#[trigger] rows[i]),
        !same_name(upcase, e.name, name),
    ensures
        ({
            let raws = until_end(rows, 0);
            let raws2 = until_end(rows_with(rows, s, set), 0);
            &&& found_at(upcase, raws2, name, 0) == Some(k)
            &&& raws2[k] == raws[k]
            &&& set_from(raws2, k) == set_from(raws, k)
        }),
{
    let raws = until_end(rows, 0);
    let rows2 = rows_with(rows, s, set);
    let raws2 = until_end(rows2, 0);
    let n = set.len() as int;
    lemma_until_end(rows, 0);
    lemma_until_end(rows2, 0);
    named_is_found(upcase, raws, name, 0);
    found_splits(upcase, raws, name, 0);
    whole_splits(raws, 0, k);
    names_split(raws, 0, k);
    added_set_is_listed(rows, s, set, e);
    let end = k + 1 + raws[k][1];
    let p = parsed_from(raws.take(k), 0)->Ok_0;
    lemma_none(upcase, p, name, 0);
    // The set lies before or behind the slots that were taken.
    assert forall|j: int| k <= j < end implies !usable(#[trigger] rows[j]) by {
        assert(raws[j] == rows[j]);
        assert(raws[j][0] > 0x80);
    }
    assert(s + n <= k || end <= s) by {
        if s < end && k < s + n {
            let j = if s <= k {
                k
            } else {
                s
            };
            assert(usable(rows[j]));
        }
    }
    let m2 = raws2.len() as int;
    assert(end <= m2) by {
        if m2 < end {
            if s <= m2 < s + n {
                assert(rows2[m2] == set[m2 - s]);
            } else {
                assert(rows2[m2] == rows[m2]);
                assert(raws[m2] == rows[m2]);
            }
        }
    }
    assert forall|j: int| k <= j < end implies #[trigger] raws2[j] == raws[j] by {
        assert(raws2[j] == rows2[j]);
        assert(raws[j] == rows[j]);
    }
    assert(raws2[k] == raws[k]);
    assert(set_from(raws2, k) =~= set_from(raws, k));
    if end <= s {
        assert(raws2.take(k) =~= raws.take(k)) by {
            assert forall|j: int| 0 <= j < k implies raws2[j] == raws[j] by {
                assert(raws2[j] == rows2[j]);
                assert(raws[j] == rows[j]);
            }
        }
    } else {
        let head = rows.take(k);
        lemma_until_end(head, 0);
        assert(until_end(head, 0) =~= raws.take(k)) by {
            let got = until_end(head, 0).len() as int;
            if got < k {
                assert(head[got] == rows[got]);
            }
        }
        assert forall|i: int| s <= i < s + n implies usable(#[trigger] head[i]) by {
            assert(head[i] == rows[i]);
        }
        added_set_is_listed(head, s, set, e);
        let head2 = rows_with(head, s, set);
        lemma_until_end(head2, 0);
        assert(until_end(head2, 0) =~= raws2.take(k)) by {
            let got = until_end(head2, 0).len() as int;
            if got < k {
                assert(head2[got] == rows2[got]);
            }
            assert forall|j: int| 0 <= j < k implies head2[j] == raws2[j] by {
                assert(raws2[j] == rows2[j]);
            }
        }
        let a = parsed_from(raws.take(k).take(s), 0)->Ok_0;
        let b = parsed_from(raws.take(k), s)->Ok_0;
        assert(p == a + b);
        let p2 = a + (seq![e] + b);
        assert forall|j: int| 0 <= j < p2.len() implies !same_name(
            upcase,
            (#[trigger] p2[j]).name,
            name,
        ) by {
            if j < a.len() {
                assert(p2[j] == p[j]);
            } else if j > a.len() {
                assert(p2[j] == p[j - 1]);
            }
        }
    }
    lemma_found_there(upcase, raws2, name, 0, k);
}

/// Adding an entry to a directory leaves every set of another name where it
/// is.
proof fn lemma_places_kept(
    disk: Disk,
    vol: Volume,
    home: Option<EntryModel>,
    dir: DirModel,
    name: Seq<char>,
    is_dir: bool,
    first_cluster: u32,
    data_len: u64,
    valid_len: u64,
    flags: u8,
    other: Seq<char>,
    k: int,
)
    requires
        placed(vol.geo, disk.bytes.len()),
        tidy_dir(disk.bytes, vol, home),
        neat_dir(disk.bytes, vol, home),
        dir.first_cluster == dir_first(vol, home),
        1 <= utf16_of(name).len() <= 255,
        has_room(disk.bytes, vol, home, set_len(name)),
        named_from(vol.upcase, children(disk.bytes, vol.geo, home)->Ok_0, name, 0) is None,
        found_at(vol.upcase, dir_rows(disk.bytes, vol, home), other, 0) == Some(k),
        !same_name(vol.upcase, name, other),
    ensures
        ({
            let after = entry_placed(
                disk,
                vol,
                dir,
                name,
                is_dir,
                first_cluster,
                data_len,
                valid_len,
                flags,
            ).0;
            let raws = dir_rows(disk.bytes, vol, home);
            let raws2 = dir_rows(after.bytes, vol, home);
            &&& found_at(vol.upcase, raws2, other, 0) == Some(k)
            &&& raws2[k] == raws[k]
            &&& set_from(raws2, k) == set_from(raws, k)
        }),
{
    let img = disk.bytes;
    let geo = vol.geo;
    let chain = dir_chain(img, vol, home);
    let rows = rows_in(img, geo, chain);
    let offsets = slots(geo, chain);
    let n = set_len(name);
    let s = room_in(img, vol, home, n);
    let set = new_set(
        vol.upcase,
        utf16_of(name),
        is_dir,
        first_cluster,
        data_len,
        valid_len,
        flags,
    );
    placed_entry_is_listed(
        disk,
        vol,
        home,
        dir,
        name,
        is_dir,
        first_cluster,
        data_len,
        valid_len,
        flags,
    );
    tidy_children(img, vol, home);
    new_set_is_valid(vol.upcase, name, is_dir, first_cluster, data_len, valid_len, flags);
    utf16_round_trip(name);
    found_run_is_usable(img, offsets, per_cluster(geo), n, 0, 0);
    assert forall|i: int| s <= i < s + set.len() implies usable(#[trigger] rows[i]) by {
        slot_holds_row(img, geo, chain, i);
        assert(bytes_at(img, offsets[i] as int, 32) == Ok::<Seq<u8>, ExFault>(rows[i]));
    }
    lemma_found_beside(
        vol.upcase,
        rows,
        other,
        k,
        s,
        set,
        new_entry(name, is_dir, first_cluster, data_len, valid_len, flags),
    );
}

/// The way to a path keeps clear of any change to the path's own directory.
proof fn lemma_own_way_clear(
    img: Seq<u8>,
    vol: Volume,
    comps: Seq<Seq<char>>,
    i: int,
    cur: Option<EntryModel>,
    home: Option<EntryModel>,
    name: Seq<char>,
)
    requires
        placed(vol.geo, img.len()),
        0 <= i <= comps.len(),
        tidy_way(img, vol, comps, i, cur),
        way_clusters(img, vol, comps, i, cur).disjoint(members(dir_chain(img, vol, home))),
        forall|c: int| #[trigger]
            way_clusters(img, vol, comps, i, cur).contains(c) ==> in_use(
                img,
                vol.geo,
                vol.bitmap->Some_0,
                c,
            ),
    ensures
        keeps_clear(img, vol, comps, i, cur, home, name, Set::empty()),
    decreases comps.len() - i,
{
    if i < comps.len() {
        let here = members(dir_chain(img, vol, cur));
        let there = members(dir_chain(img, vol, home));
        tidy_children(img, vol, cur);
        let e = named_from(
            vol.upcase,
            parsed_from(dir_rows(img, vol, cur), 0)->Ok_0,
            comps[i],
            0,
        )->Some_0;
        let rest = way_clusters(img, vol, comps, i + 1, Some(e));
        let all = way_clusters(img, vol, comps, i, cur);
        assert(all == here.union(rest));
        assert forall|c: int| here.contains(c) implies in_use(
            img,
            vol.geo,
            vol.bitmap->Some_0,
            c,
        ) && !there.contains(c) by {
            assert(all.contains(c));
        }
        assert forall|c: int| #[trigger] rest.contains(c) implies in_use(
            img,
            vol.geo,
            vol.bitmap->Some_0,
            c,
        ) && !there.contains(c) by {
            assert(all.contains(c));
        }
        assert(cur != home) by {
            let chain = dir_chain(img, vol, cur);
            assert(chain.len() > 0) by {
                assert(chain_from(
                    img,
                    vol.geo,
                    dir_first(vol, cur),
                    0,
                    vol.geo.cluster_count as int,
                    false,
                ) is Ok);
            }
            assert(here.contains(chain[0] as int));
        }
        lemma_own_way_clear(img, vol, comps, i + 1, Some(e), home, name);
    }
}

/// A way that keeps clear of one change still keeps clear of another after it.
proof fn lemma_still_clear(
    img: Seq<u8>,
    after: Seq<u8>,
    vol: Volume,
    comps: Seq<Seq<char>>,
    i: int,
    cur: Option<EntryModel>,
    home: Option<EntryModel>,
    name: Seq<char>,
    home2: Option<EntryModel>,
    name2: Seq<char>,
)
    requires
        0 <= i <= comps.len(),
        local_change(
            img,
            after,
            vol,
            home,
            name,
            Set::empty(),
            Set::empty(),
            members(dir_chain(img, vol, home)),
        ),
        keeps_clear(img, vol, comps, i, cur, home, name, Set::empty()),
        keeps_clear(img, vol, comps, i, cur, home2, name2, Set::empty()),
        tidy_dir(after, vol, home),
        dir_chain(after, vol, home) == dir_chain(img, vol, home),
        dir_chain(after, vol, home2) == dir_chain(img, vol, home2),
        forall|c: int|
            vol.geo.has_cluster(c) ==> #[trigger] in_use(after, vol.geo, vol.bitmap->Some_0, c)
                == in_use(img, vol.geo, vol.bitmap->Some_0, c),
    ensures
        keeps_clear(after, vol, comps, i, cur, home2, name2, Set::empty()),
    decreases comps.len() - i,
{
    if i < comps.len() {
        let here = members(dir_chain(img, vol, cur));
        tidy_children(img, vol, cur);
        if cur != home {
            dir_stays(
                img,
                after,
                vol,
                Set::empty(),
                members(dir_chain(img, vol, home)),
                cur,
            );
        }
        assert(dir_chain(after, vol, cur) == dir_chain(img, vol, cur));
        assert forall|c: int| #[trigger] here.contains(c) implies in_use(
            after,
            vol.geo,
            vol.bitmap->Some_0,
            c,
        ) by {
            let chain = dir_chain(img, vol, cur);
            let j = choose|j: int| 0 <= j < chain.len() && #[trigger] chain[j] as int == c;
            assert(vol.geo.has_cluster(chain[j] as int));
        }
        if let Some(e) = named_from(vol.upcase, children(img, vol.geo, cur)->Ok_0, comps[i], 0) {
            lemma_still_clear(
                img,
                after,
                vol,
                comps,
                i + 1,
                Some(e),
                home,
                name,
                home2,
                name2,
            );
        }
    }
}

/// Whether an entry can be moved from one path to another: there is one, the
/// only one of its name, and room for it where it goes; the two directories
/// are the same or apart, and neither way goes through the entry itself or
/// shares clusters with the other's directory.
pub open spec fn movable(
    img: Seq<u8>,
    vol: Volume,
    from: Seq<char>,
    to: Seq<char>,
    e: EntryModel,
) -> bool {
    let hf = home_of(img, vol, from);
    let ht = home_of(img, vol, to);
    &&& sound_way(img, vol, from)
    &&& neat_dir(img, vol, hf)
    &&& lookup_result(img, vol, from) == Ok::<Option<EntryModel>, ExFault>(Some(e))
    &&& named_once(vol.upcase, children(img, vol.geo, hf)->Ok_0, leaf_of(from))
    &&& vacant(img, vol, to)
    &&& hf == ht || home_clusters(img, vol, from).disjoint(home_clusters(img, vol, to))
    &&& keeps_clear(
        img,
        vol,
        components(parent_of(to)),
        0,
        None,
        hf,
        e.name,
        Set::empty(),
    )
    &&& keeps_clear(
        img,
        vol,
        components(parent_of(from)),
        0,
        None,
        ht,
        leaf_of(to),
        Set::empty(),
    )
}

/// Moving, taken apart.
pub proof fn lemma_rename_stages(
    disk: Disk,
    vol: Volume,
    from: Seq<char>,
    to: Seq<char>,
    src: LocModel,
    dir: DirModel,
)
    requires
        existing(disk.bytes, vol, from) == Ok::<LocModel, ExFault>(src),
        target(disk.bytes, vol, to) == Ok::<(DirModel, Option<LocModel>), ExFault>((dir, None)),
    ensures
        renaming(disk, vol, from, to) == (match entry_placed(
            disk,
            vol,
            dir,
            leaf_of(to),
            src.is_dir,
            src.first_cluster,
            src.data_len,
            src.valid_len,
            src.flags,
        ) {
            (d, Err(f)) => (d, Err::<(), ExFault>(f)),
            (d, Ok(_)) => match cleared(d, src.offsets) {
                (d2, Err(f)) => (d2, Err(f)),
                (d2, Ok(_)) => (d2.flushed(), Ok(())),
            },
        }),
{
}

/// The second half of a move: in the directory that the entry leaves, its set
/// still lies where it was found, and clearing it takes the entry out.
#[verifier::spinoff_prover]
pub proof fn lemma_left_behind(
    disk: Disk,
    vol: Volume,
    from: Seq<char>,
    to: Seq<char>,
    e: EntryModel,
    src: LocModel,
    dir: DirModel,
)
    requires
        movable(disk.bytes, vol, from, to, e),
        existing(disk.bytes, vol, from) == Ok::<LocModel, ExFault>(src),
        dir.first_cluster == dir_first(vol, home_of(disk.bytes, vol, to)),
    ensures
        ({
            let img = disk.bytes;
            let hf = home_of(img, vol, from);
            let ht = home_of(img, vol, to);
            let e2 = new_entry(
                leaf_of(to),
                e.is_dir,
                e.first_cluster,
                e.size,
                e.valid_size,
                src.flags,
            );
            let (d, r) = entry_placed(
                disk,
                vol,
                dir,
                leaf_of(to),
                src.is_dir,
                src.first_cluster,
                src.data_len,
                src.valid_len,
                src.flags,
            );
            let (d2, r2) = cleared(d, src.offsets);
            &&& r is Ok
            &&& r2 is Ok
            &&& exists|o: int, bytes: Seq<u8>| d == (#[trigger] disk.written(o, bytes)).flushed()
            &&& adjoining(src.offsets) ==> exists|data: Seq<u8>|
                d2 == #[trigger] d.written(src.offsets[0] as int, data)
            &&& !same_name(vol.upcase, leaf_of(to), e.name) || hf != ht
            &&& confined(img, d.bytes, vol.geo, Set::empty(), home_clusters(img, vol, to))
            &&& gains(img, d.bytes, vol, ht, e2)
            &&& tidy_dir(d.bytes, vol, hf)
            &&& dir_chain(d.bytes, vol, hf) == dir_chain(img, vol, hf)
            &&& confined(d.bytes, d2.bytes, vol.geo, Set::empty(), home_clusters(img, vol, from))
            &&& loses(d.bytes, d2.bytes, vol, hf, e)
            &&& named_from(
                vol.upcase,
                children(d2.bytes, vol.geo, hf)->Ok_0,
                leaf_of(from),
                0,
            ) is None
            &&& e2.no_fat_chain == e.no_fat_chain
        }),
{
    let img = disk.bytes;
    let geo = vol.geo;
    let hf = home_of(img, vol, from);
    let ht = home_of(img, vol, to);
    let hct = home_clusters(img, vol, to);
    let name = leaf_of(to);
    let old = leaf_of(from);
    let raws = dir_rows(img, vol, hf);
    let k = place_of(img, vol, from);
    lookup_and_change_agree(img, vol, from, e);
    named_is_found(vol.upcase, raws, old, 0);
    let set = set_from(raws, k);
    assert(set[0] == raws[k] && set[1] == raws[k + 1]);
    assert(src.first_cluster == e.first_cluster && src.data_len == e.size && src.valid_len
        == e.valid_size && src.is_dir == e.is_dir);
    assert((src.flags / 2 % 2 == 1) == e.no_fat_chain);
    target_of_a_sound_way(img, vol, to);
    target_of_a_sound_way(img, vol, from);
    placed_entry_is_listed(
        disk,
        vol,
        ht,
        dir,
        name,
        src.is_dir,
        src.first_cluster,
        src.data_len,
        src.valid_len,
        src.flags,
    );
    let d = entry_placed(
        disk,
        vol,
        dir,
        name,
        src.is_dir,
        src.first_cluster,
        src.data_len,
        src.valid_len,
        src.flags,
    ).0;
    let e2 = new_entry(name, e.is_dir, e.first_cluster, e.size, e.valid_size, src.flags);
    lemma_len(img, d.bytes, geo, Set::empty(), hct);
    let es = children(img, geo, hf)->Ok_0;
    if hf == ht {
        assert(!same_name(vol.upcase, name, old)) by {
            if same_name(vol.upcase, name, old) {
                lemma_none(vol.upcase, es, name, 0);
                lemma_some(vol.upcase, es, old, 0);
            }
        }
        lemma_places_kept(
            disk,
            vol,
            ht,
            dir,
            name,
            src.is_dir,
            src.first_cluster,
            src.data_len,
            src.valid_len,
            src.flags,
            old,
            k,
        );
        lemma_once_kept(img, d.bytes, vol, hf, e2, old);
    } else {
        lemma_room_stays(img, d.bytes, vol, Set::empty(), hct, hf, 3);
        dir_stays(img, d.bytes, vol, Set::empty(), hct, hf);
    }
    let raws2 = dir_rows(d.bytes, vol, hf);
    assert(src.offsets == loc_at(raws2, slots(geo, dir_chain(d.bytes, vol, hf)), k).offsets);
    cleared_entry_is_gone(d, vol, hf, old, k);
}

proof fn lemma_some(upcase: Seq<u16>, es: Seq<EntryModel>, name: Seq<char>, j: int)
    requires
        0 <= j,
        named_from(upcase, es, name, j) is Some,
    ensures
        exists|i: int|
            j <= i < es.len() && same_name(upcase, (#[trigger] es[i]).name, name) && named_from(
                upcase,
                es,
                name,
                j,
            ) == Some(es[i]),
    decreases es.len() - j,
{
    if !same_name(upcase, es[j].name, name) {
        lemma_some(upcase, es, name, j + 1);
    }
}

/// A name that one entry had is still that entry's alone after another name is
/// added.
proof fn lemma_once_kept(
    img: Seq<u8>,
    after: Seq<u8>,
    vol: Volume,
    dir: Option<EntryModel>,
    e: EntryModel,
    name: Seq<char>,
)
    requires
        gains(img, after, vol, dir, e),
        named_once(vol.upcase, children(img, vol.geo, dir)->Ok_0, name),
        !same_name(vol.upcase, e.name, name),
    ensures
        named_once(vol.upcase, children(after, vol.geo, dir)->Ok_0, name),
{
    let es = children(img, vol.geo, dir)->Ok_0;
    let es2 = children(after, vol.geo, dir)->Ok_0;
    let at = choose|j: int|
        0 <= j <= es.len() && children(after, vol.geo, dir) == Ok::<Seq<EntryModel>, ExFault>(
            #[trigger] es.insert(j, e),
        );
    assert forall|i: int, j: int|
        0 <= i < es2.len() && 0 <= j < es2.len() && same_name(
            vol.upcase,
            (#[trigger] es2[i]).name,
            name,
        ) && same_name(vol.upcase, (#[trigger] es2[j]).name, name) implies i == j by {
        let a = if i < at {
            i
        } else {
            i - 1
        };
        let b = if j < at {
            j
        } else {
            j - 1
        };
        assert(es2[at] == e);
        assert(i != at && j != at);
        assert(es2[i] == es[a]);
        assert(es2[j] == es[b]);
    }
}

/// A moved entry is found at its new path, with the clusters and size it had,
/// and no longer at its old one.
#[verifier::spinoff_prover]
#[verifier::rlimit(40)]
pub proof fn a_moved_entry_is_found(
    disk: Disk,
    vol: Volume,
    from: Seq<char>,
    to: Seq<char>,
    e: EntryModel,
)
    requires
        movable(disk.bytes, vol, from, to, e),
    ensures
        ({
            let (after, r) = renaming(disk, vol, from, to);
            let e2 = lookup_result(after.bytes, vol, to)->Ok_0->Some_0;
            &&& r is Ok
            &&& lookup_result(after.bytes, vol, to) == Ok::<Option<EntryModel>, ExFault>(Some(e2))
            &&& e2.name == leaf_of(to)
            &&& e2.is_dir == e.is_dir
            &&& e2.size == e.size
            &&& e2.valid_size == e.valid_size
            &&& e2.first_cluster == e.first_cluster
            &&& e2.no_fat_chain == e.no_fat_chain
            &&& lookup_result(after.bytes, vol, from) == Err::<Option<EntryModel>, ExFault>(
                ExFault::NotFound,
            )
            &&& confined(
                disk.bytes,
                after.bytes,
                vol.geo,
                Set::empty(),
                home_clusters(disk.bytes, vol, to).union(home_clusters(disk.bytes, vol, from)),
            )
        }),
{
    let img = disk.bytes;
    let geo = vol.geo;
    let bm = vol.bitmap->Some_0;
    let hf = home_of(img, vol, from);
    let ht = home_of(img, vol, to);
    let hcf = home_clusters(img, vol, from);
    let hct = home_clusters(img, vol, to);
    let pf = components(parent_of(from));
    let pt = components(parent_of(to));
    lookup_and_change_agree(img, vol, from, e);
    let src = existing(img, vol, from)->Ok_0;
    target_of_a_sound_way(img, vol, to);
    let dir = target(img, vol, to)->Ok_0.0;
    lemma_rename_stages(disk, vol, from, to, src, dir);
    lemma_left_behind(disk, vol, from, to, e, src, dir);
    let d = entry_placed(
        disk,
        vol,
        dir,
        leaf_of(to),
        src.is_dir,
        src.first_cluster,
        src.data_len,
        src.valid_len,
        src.flags,
    ).0;
    let d2 = cleared(d, src.offsets).0;
    let e2 = new_entry(leaf_of(to), e.is_dir, e.first_cluster, e.size, e.valid_size, src.flags);
    let none = Set::<int>::empty();
    lemma_len(img, d.bytes, geo, none, hct);
    lemma_len(d.bytes, d2.bytes, geo, none, hcf);
    gaining_keeps_the_rest(img, d.bytes, vol, ht, e2);
    losing_keeps_the_rest(d.bytes, d2.bytes, vol, hf, e);
    lemma_way_end(img, vol, pf, 0, None);
    lemma_way_end(img, vol, pt, 0, None);
    assert forall|c: int| geo.has_cluster(c) implies #[trigger] in_use(d.bytes, geo, bm, c)
        == in_use(img, geo, bm, c) by {
        confined_bits(img, d.bytes, geo, bm, none, hct, c);
    }
    assert(local_change(img, d.bytes, vol, ht, leaf_of(to), none, none, hct));
    assert(local_change(d.bytes, d2.bytes, vol, hf, e.name, none, none, hcf));
    // Both ways stay through the first half of the move ...
    lemma_own_way_clear(img, vol, pf, 0, None, hf, e.name);
    lemma_own_way_clear(img, vol, pt, 0, None, ht, leaf_of(to));
    clear_lookup_stays(img, d.bytes, vol, pf, 0, None, ht, leaf_of(to), none, none, hct);
    clear_lookup_stays(img, d.bytes, vol, pt, 0, None, ht, leaf_of(to), none, none, hct);
    // ... and through the second.
    lemma_still_clear(img, d.bytes, vol, pf, 0, None, ht, leaf_of(to), hf, e.name);
    lemma_still_clear(img, d.bytes, vol, pt, 0, None, ht, leaf_of(to), hf, e.name);
    clear_lookup_stays(d.bytes, d2.bytes, vol, pf, 0, None, hf, e.name, none, none, hcf);
    clear_lookup_stays(d.bytes, d2.bytes, vol, pt, 0, None, hf, e.name, none, none, hcf);
    a_path_is_its_directory_and_its_name(from);
    a_path_is_its_directory_and_its_name(to);
    lookup_goes_through(d2.bytes, vol, pf, leaf_of(from), 0, None);
    lookup_goes_through(d2.bytes, vol, pt, leaf_of(to), 0, None);
    tidy_children(d2.bytes, vol, hf);
    if hf != ht {
        dir_stays(d.bytes, d2.bytes, vol, none, hcf, ht);
    }
    confined_trans(img, d.bytes, d2.bytes, geo, none, hct, none, hcf);
    assert(none.union(none) =~= none);
}

proof fn lemma_same_bytes(
    img: Seq<u8>,
    geo: Geometry,
    e: EntryModel,
    e2: EntryModel,
    chain: Seq<u32>,
    offset: int,
    n: int,
)
    requires
        e2.size == e.size,
        e2.valid_size == e.valid_size,
        e2.first_cluster == e.first_cluster,
        e2.no_fat_chain == e.no_fat_chain,
    ensures
        file_bytes(img, geo, e2, chain, offset, n) == file_bytes(img, geo, e, chain, offset, n),
    decreases n,
{
    if n > 0 {
        lemma_same_bytes(img, geo, e, e2, chain, offset, n - 1);
    }
}

/// A moved file reads as it read before, and no cluster is taken or given up
/// for the move.
pub proof fn a_moved_file_reads_as_before(
    disk: Disk,
    vol: Volume,
    from: Seq<char>,
    to: Seq<char>,
    e: EntryModel,
)
    requires
        movable(disk.bytes, vol, from, to, e),
        file_clear(
            disk.bytes,
            vol,
            e,
            home_clusters(disk.bytes, vol, to).union(home_clusters(disk.bytes, vol, from)),
        ),
    ensures
        ({
            let after = renaming(disk, vol, from, to).0;
            let e2 = lookup_result(after.bytes, vol, to)->Ok_0->Some_0;
            &&& file_read(after.bytes, vol.geo, e2, 0, e2.size as int) == file_read(
                disk.bytes,
                vol.geo,
                e,
                0,
                e.size as int,
            )
            &&& forall|c: int|
                vol.geo.has_cluster(c) ==> #[trigger] in_use(
                    after.bytes,
                    vol.geo,
                    vol.bitmap->Some_0,
                    c,
                ) == in_use(disk.bytes, vol.geo, vol.bitmap->Some_0, c)
        }),
{
    let img = disk.bytes;
    let geo = vol.geo;
    let bm = vol.bitmap->Some_0;
    let none = Set::<int>::empty();
    let both = home_clusters(img, vol, to).union(home_clusters(img, vol, from));
    a_moved_entry_is_found(disk, vol, from, to, e);
    let after = renaming(disk, vol, from, to).0.bytes;
    let e2 = lookup_result(after, vol, to)->Ok_0->Some_0;
    lemma_len(img, after, geo, none, both);
    assert forall|c: int| both.contains(c) || bitmap_area(geo, bm).contains(c) implies #[trigger]
        in_use(img, geo, bm, c) by {}
    assert forall|c: int| geo.has_cluster(c) implies #[trigger] in_use(after, geo, bm, c) == in_use(
        img,
        geo,
        bm,
        c,
    ) by {
        confined_bits(img, after, geo, bm, none, both, c);
    }
    apart_file_stays(img, after, vol, e, none, both);
    if e.size > 0 {
        let chain = file_chain(after, geo, e)->Ok_0;
        assert(file_chain(after, geo, e2) == file_chain(after, geo, e));
        lemma_same_bytes(after, geo, e, e2, chain, 0, e.size as int);
    }
}

/// A path that leads somewhere is not moved to: nothing is written.
pub proof fn a_taken_path_is_not_moved_to(
    disk: Disk,
    vol: Volume,
    from: Seq<char>,
    to: Seq<char>,
)
    requires
        existing(disk.bytes, vol, from) is Ok,
        sound_way(disk.bytes, vol, to),
        lookup_result(disk.bytes, vol, to) is Ok,
    ensures
        renaming(disk, vol, from, to) == (
            disk,
            Err::<(), ExFault>(ExFault::Invalid("destination exists"@)),
        ),
{
    target_of_a_sound_way(disk.bytes, vol, to);
}

/// Moving an entry leaves every other path alone.
#[verifier::spinoff_prover]
#[verifier::rlimit(40)]
pub proof fn a_move_leaves_others_alone(
    disk: Disk,
    vol: Volume,
    from: Seq<char>,
    to: Seq<char>,
    e: EntryModel,
    other: Seq<char>,
    f: EntryModel,
)
    requires
        movable(disk.bytes, vol, from, to, e),
        bystander(
            disk.bytes,
            vol,
            home_of(disk.bytes, vol, from),
            e.name,
            Set::empty(),
            other,
            f,
        ),
        bystander(
            disk.bytes,
            vol,
            home_of(disk.bytes, vol, to),
            leaf_of(to),
            Set::empty(),
            other,
            f,
        ),
    ensures
        unharmed(disk.bytes, renaming(disk, vol, from, to).0.bytes, vol, other, f),
{
    let img = disk.bytes;
    let geo = vol.geo;
    let bm = vol.bitmap->Some_0;
    let hf = home_of(img, vol, from);
    let ht = home_of(img, vol, to);
    let hcf = home_clusters(img, vol, from);
    let hct = home_clusters(img, vol, to);
    let none = Set::<int>::empty();
    lookup_and_change_agree(img, vol, from, e);
    let src = existing(img, vol, from)->Ok_0;
    target_of_a_sound_way(img, vol, to);
    let dir = target(img, vol, to)->Ok_0.0;
    lemma_rename_stages(disk, vol, from, to, src, dir);
    lemma_left_behind(disk, vol, from, to, e, src, dir);
    let d = entry_placed(
        disk,
        vol,
        dir,
        leaf_of(to),
        src.is_dir,
        src.first_cluster,
        src.data_len,
        src.valid_len,
        src.flags,
    ).0;
    let d2 = cleared(d, src.offsets).0;
    let e2 = new_entry(leaf_of(to), e.is_dir, e.first_cluster, e.size, e.valid_size, src.flags);
    lemma_len(img, d.bytes, geo, none, hct);
    gaining_keeps_the_rest(img, d.bytes, vol, ht, e2);
    losing_keeps_the_rest(d.bytes, d2.bytes, vol, hf, e);
    assert forall|c: int| geo.has_cluster(c) implies #[trigger] in_use(d.bytes, geo, bm, c)
        == in_use(img, geo, bm, c) by {
        confined_bits(img, d.bytes, geo, bm, none, hct, c);
    }
    assert(local_change(img, d.bytes, vol, ht, leaf_of(to), none, none, hct));
    assert(local_change(d.bytes, d2.bytes, vol, hf, e.name, none, none, hcf));
    lemma_two_changes(
        img,
        d.bytes,
        d2.bytes,
        vol,
        ht,
        leaf_of(to),
        hf,
        e.name,
        other,
        f,
    );
}

/// A file that keeps clear of some clusters still does after a change elsewhere.
#[verifier::spinoff_prover]
proof fn lemma_still_file_clear(
    img: Seq<u8>,
    d: Seq<u8>,
    vol: Volume,
    f: EntryModel,
    clusters: Set<int>,
    others: Set<int>,
    others2: Set<int>,
)
    requires
        placed(vol.geo, img.len()),
        confined(img, d, vol.geo, Set::empty(), clusters),
        clusters.subset_of(others),
        file_clear(img, vol, f, others),
        file_clear(img, vol, f, others2),
        forall|c: int|
            vol.geo.has_cluster(c) ==> #[trigger] in_use(d, vol.geo, vol.bitmap->Some_0, c)
                == in_use(img, vol.geo, vol.bitmap->Some_0, c),
    ensures
        file_clear(d, vol, f, others2),
{
    let geo = vol.geo;
    let bm = vol.bitmap->Some_0;
    let chain = file_chain(img, geo, f)->Ok_0;
    apart_file_stays(img, d, vol, f, Set::empty(), clusters);
    if f.size == 0 {
        lemma_need(geo, 0, 1);
        assert(chain =~= seq![]);
        assert(file_chain(d, geo, f) == Ok::<Seq<u32>, ExFault>(chain));
    } else {
        lemma_need(geo, 0, f.size as int);
        chain_clusters_exist(img, geo, f.first_cluster, 0, chain.len() as int, true);
    }
    assert forall|c: int| #[trigger] members(chain).contains(c) implies in_use(d, geo, bm, c) by {
        let j = choose|j: int| 0 <= j < chain.len() && #[trigger] chain[j] as int == c;
        assert(in_use(img, geo, bm, c));
        assert(geo.has_cluster(chain[j] as int));
    }
}

/// What has nothing to do with either of two changes is not harmed by both.
#[verifier::spinoff_prover]
#[verifier::rlimit(40)]
proof fn lemma_two_changes(
    img: Seq<u8>,
    d: Seq<u8>,
    after: Seq<u8>,
    vol: Volume,
    home: Option<EntryModel>,
    name: Seq<char>,
    home2: Option<EntryModel>,
    name2: Seq<char>,
    other: Seq<char>,
    f: EntryModel,
)
    requires
        local_change(
            img,
            d,
            vol,
            home,
            name,
            Set::empty(),
            Set::empty(),
            members(dir_chain(img, vol, home)),
        ),
        local_change(
            d,
            after,
            vol,
            home2,
            name2,
            Set::empty(),
            Set::empty(),
            members(dir_chain(img, vol, home2)),
        ),
        tidy_dir(d, vol, home),
        dir_chain(d, vol, home) == dir_chain(img, vol, home),
        dir_chain(d, vol, home2) == dir_chain(img, vol, home2),
        forall|c: int|
            vol.geo.has_cluster(c) ==> #[trigger] in_use(d, vol.geo, vol.bitmap->Some_0, c)
                == in_use(img, vol.geo, vol.bitmap->Some_0, c),
        bystander(img, vol, home, name, Set::empty(), other, f),
        bystander(img, vol, home2, name2, Set::empty(), other, f),
    ensures
        unharmed(img, after, vol, other, f),
{
    let geo = vol.geo;
    let bm = vol.bitmap->Some_0;
    let none = Set::<int>::empty();
    let h1 = members(dir_chain(img, vol, home));
    let h2 = members(dir_chain(img, vol, home2));
    bystanders_are_unharmed(img, d, vol, home, name, none, none, h1, other, f);
    lemma_still_clear(img, d, vol, components(other), 0, None, home, name, home2, name2);
    lemma_still_file_clear(img, d, vol, f, h1, none.union(h1), none.union(h2));
    assert(bystander(d, vol, home2, name2, none, other, f));
    bystanders_are_unharmed(d, after, vol, home2, name2, none, none, h2, other, f);
}

} // verus!
