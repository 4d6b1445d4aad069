//! What clearing an entry set does to its directory.

use vstd::prelude::*;

use super::areas::{confined, confined_refl, confined_trans, confined_weaker, members, placed};
use super::boot::Geometry;
use super::chains::{all_exist, confined_chain, ended_chain_has_no_loop, lemma_len};
use super::creating::{neat_dir, neat_rows, rows_with};
use super::dir::{parsed_from, per_cluster, set_entry, EntryModel, ENTRY_END, ENTRY_FILE};
use super::entries::{
    found_at, lemma_names_tail, lemma_parsed_tail, lemma_until_end, loc_at, named_is_found, row_put,
    rows_in, set_from, slot_holds_row, sound_names, until_end,
};
use super::fs::{children, named_from, same_name, Volume};
use super::io::{bytes_at, put_at, ExFault};
use super::listing::{
    found_splits, lemma_all, listing_splits, names_join, names_passed_over, names_split,
    passed_over, whole_joins, whole_sets, whole_splits, whole_tail,
};
use super::ways::{dir_chain, dir_first, dir_rows, tidy_children, tidy_dir};
use super::write::{adjoining, cleared, cleared_from, flat, raws_from, slots, unused};
use crate::bytes::splice;
use crate::device::Disk;

verus! {

/// A raw entry with its in-use bit cleared.
pub open spec fn cleared_row(raw: Seq<u8>) -> Seq<u8> {
    raw.update(0, (raw[0] % 0x80) as u8)
}

/// Some rows of a directory, cleared.
pub open spec fn cleared_rows(rows: Seq<Seq<u8>>, s: int, n: int) -> Seq<Seq<u8>> {
    Seq::new(n as nat, |i: int| cleared_row(rows[s + i]))
}

/// Clearing slots of a directory succeeds, touches its clusters alone, and
/// clears the raw entries there.
proof fn lemma_cleared(disk: Disk, geo: Geometry, chain: Seq<u32>, s: int, n: int, j: int)
    requires
        placed(geo, disk.bytes.len()),
        all_exist(geo, chain),
        chain.no_duplicates(),
        0 <= s,
        0 <= j <= n,
        s + n <= chain.len() * per_cluster(geo),
    ensures
        ({
            let offsets = slots(geo, chain).subrange(s, s + n);
            let rows = rows_in(disk.bytes, geo, chain);
            let (after, r) = cleared_from(disk, offsets, j);
            &&& r is Ok
            &&& after.fixed == disk.fixed
            &&& confined(disk.bytes, after.bytes, geo, Set::empty(), members(chain))
            &&& rows_in(after.bytes, geo, chain) == rows_with(
                rows,
                s + j,
                cleared_rows(rows, s + j, n - j),
            )
        }),
    decreases n - j,
{
    let offsets = slots(geo, chain).subrange(s, s + n);
    let rows = rows_in(disk.bytes, geo, chain);
    let m = members(chain);
    if j == n {
        confined_refl(disk.bytes, geo);
        confined_weaker(disk.bytes, disk.bytes, geo, Set::empty(), Set::empty(), Set::empty(), m);
        assert(rows_with(rows, s + j, cleared_rows(rows, s + j, 0)) =~= rows);
    } else {
        assert(offsets[j] == slots(geo, chain)[s + j]);
        slot_holds_row(disk.bytes, geo, chain, s + j);
        let next = cleared_row(rows[s + j]);
        row_put(disk.bytes, geo, chain, s + j, next);
        let mid = disk.written(offsets[j] as int, next);
        assert(put_at(disk, offsets[j] as int, next) == (mid, Ok::<(), ExFault>(())));
        lemma_len(disk.bytes, mid.bytes, geo, Set::empty(), m);
        lemma_cleared(mid, geo, chain, s, n, j + 1);
        let after = cleared_from(mid, offsets, j + 1).0;
        confined_trans(
            disk.bytes,
            mid.bytes,
            after.bytes,
            geo,
            Set::empty(),
            m,
            Set::empty(),
            m,
        );
        assert(m.union(m) =~= m);
        assert(Set::<int>::empty().union(Set::empty()) =~= Set::empty());
        let mid_rows = rows.update(s + j, next);
        assert(rows_with(
            mid_rows,
            s + j + 1,
            cleared_rows(mid_rows, s + j + 1, n - j - 1),
        ) =~= rows_with(rows, s + j, cleared_rows(rows, s + j, n - j)));
    }
}

/// Cleared one by one or at once, an entry set comes to be the same.
proof fn lemma_cleared_at_once(
    disk: Disk,
    offsets: Seq<u64>,
    raws: Seq<Seq<u8>>,
    o: int,
    j: int,
)
    requires
        0 <= j <= raws.len() == offsets.len(),
        forall|i: int| 0 <= i < raws.len() ==> #[trigger] offsets[i] == o + 32 * i,
        forall|i: int|
            j <= i < raws.len() ==> bytes_at(disk.bytes, #[trigger] offsets[i] as int, 32) == Ok::<
                Seq<u8>,
                ExFault,
            >(raws[i]),
        0 <= o,
        o + 32 * raws.len() <= disk.bytes.len(),
    ensures
        cleared_from(disk, offsets, j).0.bytes == splice(
            disk.bytes,
            o + 32 * j,
            flat(unused(raws).skip(j)),
        ),
    decreases raws.len() - j,
{
    let set = unused(raws);
    let rest = set.skip(j);
    if j == raws.len() {
        assert(splice(disk.bytes, o + 32 * j, flat(rest)) =~= disk.bytes);
    } else {
        assert(offsets[j] == o + 32 * j);
        assert(bytes_at(disk.bytes, offsets[j] as int, 32) == Ok::<Seq<u8>, ExFault>(raws[j]));
        assert(raws[j].len() == 32);
        let mid = disk.written(o + 32 * j, set[j]);
        assert(put_at(disk, offsets[j] as int, set[j]) == (mid, Ok::<(), ExFault>(())));
        assert forall|i: int| j + 1 <= i < raws.len() implies bytes_at(
            mid.bytes,
            #[trigger] offsets[i] as int,
            32,
        ) == Ok::<Seq<u8>, ExFault>(raws[i]) by {
            assert(offsets[i] == o + 32 * i);
            assert(mid.bytes.subrange(o + 32 * i, o + 32 * i + 32) =~= disk.bytes.subrange(
                o + 32 * i,
                o + 32 * i + 32,
            ));
        }
        lemma_cleared_at_once(mid, offsets, raws, o, j + 1);
        let next = set.skip(j + 1);
        let a = splice(mid.bytes, o + 32 * (j + 1), flat(next));
        let b = splice(disk.bytes, o + 32 * j, flat(rest));
        assert forall|x: int| 0 <= x < a.len() implies a[x] == b[x] by {
            let y = x - (o + 32 * j);
            if 0 <= y < 32 * rest.len() {
                assert(flat(rest)[y] == rest[y / 32][y % 32]);
                if y >= 32 {
                    assert(next[(y - 32) / 32] == rest[y / 32]);
                    assert(flat(next)[y - 32] == next[(y - 32) / 32][(y - 32) % 32]);
                }
            }
        }
        assert(a =~= b);
    }
}

/// The raw entries at slots of a directory are its rows.
proof fn raws_are_rows(img: Seq<u8>, geo: Geometry, chain: Seq<u32>, s: int, n: int, j: int)
    requires
        placed(geo, img.len()),
        all_exist(geo, chain),
        0 <= s,
        0 <= j <= n,
        s + n <= chain.len() * per_cluster(geo),
    ensures
        raws_from(img, slots(geo, chain).subrange(s, s + n), j) == Ok::<Seq<Seq<u8>>, ExFault>(
            rows_in(img, geo, chain).subrange(s, s + n).skip(j),
        ),
    decreases n - j,
{
    let raws = rows_in(img, geo, chain).subrange(s, s + n);
    let offsets = slots(geo, chain).subrange(s, s + n);
    if j < n {
        raws_are_rows(img, geo, chain, s, n, j + 1);
        slot_holds_row(img, geo, chain, s + j);
        assert(offsets[j] == slots(geo, chain)[s + j]);
        assert(seq![raws[j]] + raws.skip(j + 1) =~= raws.skip(j));
    } else {
        assert(raws.skip(n) =~= seq![]);
    }
}

/// Clearing a set of a directory does what clearing its entries does.
proof fn lemma_cleared_set(disk: Disk, geo: Geometry, chain: Seq<u32>, s: int, n: int)
    requires
        placed(geo, disk.bytes.len()),
        all_exist(geo, chain),
        chain.no_duplicates(),
        0 <= s,
        0 < n,
        s + n <= chain.len() * per_cluster(geo),
    ensures
        ({
            let offsets = slots(geo, chain).subrange(s, s + n);
            let (after, r) = cleared(disk, offsets);
            &&& r is Ok
            &&& after.fixed == disk.fixed
            &&& after.bytes == cleared_from(disk, offsets, 0).0.bytes
            &&& adjoining(offsets) ==> exists|data: Seq<u8>|
                after == #[trigger] disk.written(offsets[0] as int, data)
        }),
{
    let offsets = slots(geo, chain).subrange(s, s + n);
    lemma_cleared(disk, geo, chain, s, n, 0);
    if adjoining(offsets) {
        let rows = rows_in(disk.bytes, geo, chain);
        let raws = rows.subrange(s, s + n);
        raws_are_rows(disk.bytes, geo, chain, s, n, 0);
        assert(raws.skip(0) =~= raws);
        let o = offsets[0] as int;
        assert forall|i: int| 0 <= i < n implies bytes_at(
            disk.bytes,
            #[trigger] offsets[i] as int,
            32,
        ) == Ok::<Seq<u8>, ExFault>(raws[i]) by {
            slot_holds_row(disk.bytes, geo, chain, s + i);
            assert(offsets[i] == slots(geo, chain)[s + i]);
        }
        assert(offsets[n - 1] == o + 32 * (n - 1));
        lemma_cleared_at_once(disk, offsets, raws, o, 0);
        assert(unused(raws).skip(0) =~= unused(raws));
        assert(cleared(disk, offsets) == (
            disk.written(o, flat(unused(raws))),
            Ok::<(), ExFault>(()),
        ));
    }
}

/// Clearing a whole set takes its entry out of the listing and changes nothing
/// else of it.
#[verifier::spinoff_prover]
pub proof fn cleared_set_is_gone(upcase: Seq<u16>, rows: Seq<Seq<u8>>, name: Seq<char>, k: int)
    requires
        parsed_from(until_end(rows, 0), 0) is Ok,
        sound_names(until_end(rows, 0), 0),
        neat_rows(rows),
        found_at(upcase, until_end(rows, 0), name, 0) == Some(k),
        forall|i: int| 0 <= i < rows.len() ==> (#[trigger] rows[i]).len() == 32,
    ensures
        ({
            let raws = until_end(rows, 0);
            let n = 1 + raws[k][1];
            let rows2 = rows_with(rows, k, cleared_rows(rows, k, n));
            let raws2 = until_end(rows2, 0);
            let e = set_entry(set_from(raws, k))->Ok_0;
            let p = parsed_from(raws.take(k), 0)->Ok_0;
            let q = parsed_from(raws, k + n)->Ok_0;
            &&& parsed_from(raws, 0) == Ok::<Seq<EntryModel>, ExFault>(p + (seq![e] + q))
            &&& parsed_from(raws2, 0) == Ok::<Seq<EntryModel>, ExFault>(p + q)
            &&& named_from(upcase, p, name, 0) is None
            &&& sound_names(raws2, 0)
            &&& neat_rows(rows2)
        }),
{
    let raws = until_end(rows, 0);
    let n = 1 + raws[k][1];
    let gone = cleared_rows(rows, k, n);
    let rows2 = rows_with(rows, k, gone);
    let raws2 = until_end(rows2, 0);
    let m = raws.len() as int;
    lemma_until_end(rows, 0);
    lemma_until_end(rows2, 0);
    named_is_found(upcase, raws, name, 0);
    found_splits(upcase, raws, name, 0);
    listing_splits(raws, 0, k);
    whole_splits(raws, 0, k);
    names_split(raws, 0, k);
    assert forall|j: int| k <= j < k + n implies 0 < (#[trigger] rows2[j])[0] < 0x80 by {
        assert(raws[j] == rows[j]);
        assert(raws[j][0] > 0x80);
        assert(rows[j].len() == 32);
        assert(rows2[j] == cleared_row(rows[j]));
    }
    assert(raws2.len() == m) by {
        let got = raws2.len() as int;
        if got < m {
            if k <= got < k + n {
                assert(0 < rows2[got][0]);
            } else {
                assert(rows2[got] == rows[got]);
            }
        }
        if got > m {
            assert(rows2[m] == rows[m]);
            assert(rows[m][0] == ENTRY_END);
        }
    }
    assert(raws2.take(k) =~= raws.take(k));
    assert forall|j: int| k <= j < k + n implies (#[trigger] raws2[j])[0] != ENTRY_FILE by {
        assert(raws2[j] == rows2[j]);
    }
    assert forall|j: int| k + n <= j < raws.len() implies #[trigger] raws[j] == raws2[j] by {
        assert(raws[j] == rows[j] && raws2[j] == rows2[j]);
    }
    passed_over(raws2, k, k + n);
    names_passed_over(raws2, k, k + n);
    assert(sound_names(raws, k + n));
    assert(whole_sets(raws, k + n));
    lemma_parsed_tail(raws, raws2, k + n);
    whole_tail(raws, raws2, k + n);
    lemma_names_tail(raws, raws2, k + n);
    listing_splits(raws2, 0, k);
    whole_joins(raws2, 0, k);
    names_join(raws2, 0, k);
    assert forall|i: int| raws2.len() <= i < rows2.len() implies (#[trigger] rows2[i])[0]
        == ENTRY_END by {
        assert(rows2[i] == rows[i]);
    }
}

/// Whether no two entries of a listing have a name.
pub open spec fn named_once(upcase: Seq<u16>, es: Seq<EntryModel>, name: Seq<char>) -> bool {
    forall|i: int, j: int|
        0 <= i < es.len() && 0 <= j < es.len() && same_name(upcase, (#[trigger] es[i]).name, name)
            && same_name(upcase, (#[trigger] es[j]).name, name) ==> i == j
}

/// What a directory is like once an entry is taken out of it: as before,
/// without it.
pub open spec fn loses(
    img: Seq<u8>,
    after: Seq<u8>,
    vol: Volume,
    dir: Option<EntryModel>,
    e: EntryModel,
) -> bool {
    &&& tidy_dir(after, vol, dir)
    &&& neat_dir(after, vol, dir)
    &&& dir_chain(after, vol, dir) == dir_chain(img, vol, dir)
    &&& children(img, vol.geo, dir) is Ok
    &&& exists|j: int|
        0 <= j < children(img, vol.geo, dir)->Ok_0.len() && children(img, vol.geo, dir)->Ok_0[j]
            == e && children(after, vol.geo, dir) == Ok::<Seq<EntryModel>, ExFault>(
            #[trigger] children(img, vol.geo, dir)->Ok_0.remove(j),
        )
}

/// Clearing the set of a name succeeds, touches the directory alone, and takes
/// the entry out; the name is gone if no other entry has it.
#[verifier::spinoff_prover]
pub proof fn cleared_entry_is_gone(
    disk: Disk,
    vol: Volume,
    home: Option<EntryModel>,
    name: Seq<char>,
    k: int,
)
    requires
        placed(vol.geo, disk.bytes.len()),
        tidy_dir(disk.bytes, vol, home),
        neat_dir(disk.bytes, vol, home),
        found_at(vol.upcase, dir_rows(disk.bytes, vol, home), name, 0) == Some(k),
    ensures
        ({
            let img = disk.bytes;
            let raws = dir_rows(img, vol, home);
            let chain = dir_chain(img, vol, home);
            let loc = loc_at(raws, slots(vol.geo, chain), k);
            let e = set_entry(set_from(raws, k))->Ok_0;
            let (after, r) = cleared(disk, loc.offsets);
            &&& r is Ok
            &&& after.fixed == disk.fixed
            &&& adjoining(loc.offsets) ==> exists|data: Seq<u8>|
                after == #[trigger] disk.written(loc.offsets[0] as int, data)
            &&& confined(img, after.bytes, vol.geo, Set::empty(), members(chain))
            &&& loses(img, after.bytes, vol, home, e)
            &&& named_once(vol.upcase, children(img, vol.geo, home)->Ok_0, name) ==> named_from(
                vol.upcase,
                children(after.bytes, vol.geo, home)->Ok_0,
                name,
                0,
            ) is None
        }),
{
    let img = disk.bytes;
    let geo = vol.geo;
    let chain = dir_chain(img, vol, home);
    let rows = rows_in(img, geo, chain);
    let raws = until_end(rows, 0);
    let n = 1 + raws[k][1];
    let loc = loc_at(raws, slots(geo, chain), k);
    tidy_children(img, vol, home);
    ended_chain_has_no_loop(img, geo, dir_first(vol, home), 0, geo.cluster_count as int);
    named_is_found(vol.upcase, raws, name, 0);
    lemma_until_end(rows, 0);
    assert forall|i: int| 0 <= i < rows.len() implies (#[trigger] rows[i]).len() == 32 by {
        slot_holds_row(img, geo, chain, i);
    }
    lemma_cleared(disk, geo, chain, k, n as int, 0);
    lemma_cleared_set(disk, geo, chain, k, n as int);
    assert(loc.offsets == slots(geo, chain).subrange(k, k + n));
    let after = cleared(disk, loc.offsets).0;
    cleared_set_is_gone(vol.upcase, rows, name, k);
    lemma_len(img, after.bytes, geo, Set::empty(), members(chain));
    confined_chain(
        img,
        after.bytes,
        geo,
        Set::empty(),
        members(chain),
        dir_first(vol, home),
        0,
        geo.cluster_count as int,
        false,
    );
    tidy_children(after.bytes, vol, home);
    let e = set_entry(set_from(raws, k))->Ok_0;
    let p = parsed_from(raws.take(k), 0)->Ok_0;
    let q = parsed_from(raws, k + n)->Ok_0;
    let es = p + (seq![e] + q);
    let at = p.len() as int;
    assert(es[at] == e);
    assert(p + q =~= es.remove(at));
    if named_once(vol.upcase, es, name) {
        assert forall|i: int| 0 <= i < (p + q).len() implies !same_name(
            vol.upcase,
            (#[trigger] (p + q)[i]).name,
            name,
        ) by {
            let j = if i < at {
                i
            } else {
                i + 1
            };
            assert((p + q)[i] == es[j]);
            if same_name(vol.upcase, es[j].name, name) {
                assert(same_name(vol.upcase, es[at].name, name));
            }
        }
        lemma_all(vol.upcase, p + q, name, 0);
    }
}

} // verus!
