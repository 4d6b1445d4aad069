//! What a new entry set says, and what writing it does to its directory.

use vstd::prelude::*;

use super::areas::{cluster_place, confined, confined_refl, confined_trans, confined_weaker, members, placed};
use super::boot::Geometry;
use super::chains::{all_exist, confined_chain, ended_chain_has_no_loop, lemma_len};
use super::dir::{
    checksum_skips_its_field, name_piece, name_pieces, name_units, parsed_from, per_cluster,
    set_entry, set_sum, stamp_ms, EntryModel, ENTRY_END, ENTRY_FILE, ENTRY_NAME, ENTRY_STREAM,
};
use super::entries::{
    lemma_names_tail, lemma_parsed_tail, lemma_until_end, row_in, row_put, rows_in, set_from,
    slot_holds_row, sound_names, until_end,
};
use super::format::lemma_parts;
use super::fs::{children, named_from, same_name, Volume};
use super::io::{bytes_at, put_at, ExFault};
use super::listing::{
    gap_splits, lemma_first, lemma_none, listing_splits, names_join, names_passed_over,
    names_split, passed_over, whole_joins, whole_sets, whole_splits, whole_tail,
};
use super::upcase::parts;
use super::ways::{dir_chain, dir_first, dir_rows, tidy_children, tidy_dir};
use super::write::{
    entry_placed, file_entry, flat, hash_of, name_entry, name_part, new_set, opened_up, run_from,
    set_with, slot_run, slots, stream_entry, usable, DirModel, FIXED_TS,
};
use crate::bytes::{
    le16, le16_bytes, le32, le32_bytes, le64, le64_bytes, read_16, read_32, read_64, slice_of,
    splice,
};
use crate::device::Disk;
use crate::text::{text_of_utf16, utf16_of, utf16_round_trip};

verus! {

broadcast use crate::bytes::group_widths;

/// The entry that a new set stands for.
pub open spec fn new_entry(
    name: Seq<char>,
    is_dir: bool,
    first_cluster: u32,
    data_len: u64,
    valid_len: u64,
    flags: u8,
) -> EntryModel {
    EntryModel {
        name,
        is_dir,
        size: data_len,
        valid_size: valid_len,
        first_cluster,
        no_fat_chain: flags / 2 % 2 == 1,
        mtime_ms: match stamp_ms(FIXED_TS, 0, 0) {
            Some(ms) => Some(ms as i64),
            None => None,
        },
    }
}

proof fn lemma_file_entry(secondary: int, checksum: u16, is_dir: bool)
    requires
        0 <= secondary <= 255,
    ensures
        ({
            let f = file_entry(secondary, checksum, is_dir);
            &&& f.len() == 32
            &&& f[0] == ENTRY_FILE
            &&& f[1] == secondary
            &&& le16(f, 2) == checksum
            &&& (le16(f, 4) / 16 % 2 == 1) == is_dir
            &&& le32(f, 12) == FIXED_TS
            &&& f[22] == 0
            &&& f[24] == 0
            &&& forall|c: u16, j: int|
                0 <= j < 32 && j != 2 && j != 3 ==> f[j] == #[trigger] file_entry(
                    secondary,
                    c,
                    is_dir,
                )[j]
        }),
{
    let f = file_entry(secondary, checksum, is_dir);
    let attr: u16 = if is_dir {
        0x10
    } else {
        0x20
    };
    assert(slice_of(f, 2, 2) =~= le16_bytes(checksum));
    assert(slice_of(f, 4, 2) =~= le16_bytes(attr));
    assert(slice_of(f, 12, 4) =~= le32_bytes(FIXED_TS));
    read_16(f, 2, checksum);
    read_16(f, 4, attr);
    read_32(f, 12, FIXED_TS);
}

proof fn lemma_stream_entry(
    flags: u8,
    name_len: int,
    hash: u16,
    first_cluster: u32,
    data_len: u64,
    valid_len: u64,
)
    requires
        0 <= name_len <= 255,
    ensures
        ({
            let s = stream_entry(flags, name_len, hash, first_cluster, data_len, valid_len);
            &&& s.len() == 32
            &&& s[0] == ENTRY_STREAM
            &&& s[1] == flags
            &&& s[3] == name_len
            &&& le64(s, 8) == valid_len
            &&& le32(s, 20) == first_cluster
            &&& le64(s, 24) == data_len
        }),
{
    let s = stream_entry(flags, name_len, hash, first_cluster, data_len, valid_len);
    assert(slice_of(s, 8, 8) =~= le64_bytes(valid_len));
    assert(slice_of(s, 20, 4) =~= le32_bytes(first_cluster));
    assert(slice_of(s, 24, 8) =~= le64_bytes(data_len));
    read_64(s, 8, valid_len);
    read_32(s, 20, first_cluster);
    read_64(s, 24, data_len);
}

proof fn lemma_name_entry(units: Seq<u16>, k: int)
    requires
        units.len() <= 15,
        0 <= k < 15,
    ensures
        name_entry(units).len() == 32,
        name_entry(units)[0] == ENTRY_NAME,
        k < units.len() ==> name_piece(name_entry(units))[k] == units[k],
{
    let e = name_entry(units);
    if k < units.len() {
        assert(slice_of(e, 2 + 2 * k, 2) =~= le16_bytes(units[k])) by {
            assert forall|j: int| 0 <= j < 2 implies e[2 + 2 * k + j] == le16_bytes(
                units[k],
            )[j] by {
                assert((2 * k + j) / 2 == k && (2 * k + j) % 2 == j);
            }
        }
        read_16(e, 2 + 2 * k, units[k]);
    }
}

proof fn lemma_pieces(set: Seq<Seq<u8>>, units: Seq<u16>, j: int)
    requires
        set.len() == 2 + parts(units.len() as int, 15),
        0 <= j <= parts(units.len() as int, 15),
        forall|i: int|
            2 <= i < set.len() ==> #[trigger] set[i] == name_entry(name_part(units, i - 2)),
    ensures
        name_pieces(set, 2 + j).len() == 15 * (parts(units.len() as int, 15) - j),
        forall|x: int|
            0 <= x && 15 * j + x < units.len() ==> #[trigger] name_pieces(set, 2 + j)[x]
                == units[15 * j + x],
    decreases parts(units.len() as int, 15) - j,
{
    let n = parts(units.len() as int, 15);
    lemma_parts(units.len() as int, 15);
    if j < n {
        lemma_pieces(set, units, j + 1);
        let part = name_part(units, j);
        assert(set[2 + j] == name_entry(part));
        assert(15 * j < units.len());
        lemma_name_entry(part, 0);
        let all = name_pieces(set, 2 + j);
        let rest = name_pieces(set, 2 + j + 1);
        assert(all == name_piece(set[2 + j]) + rest);
        assert forall|x: int| 0 <= x && 15 * j + x < units.len() implies #[trigger] all[x]
            == units[15 * j + x] by {
            if x < 15 {
                lemma_name_entry(part, x);
                assert(part[x] == units[15 * j + x]);
            } else {
                assert(all[x] == rest[x - 15]);
                assert(rest[x - 15] == units[15 * (j + 1) + (x - 15)]);
            }
        }
    }
}

/// A new set is valid and says what it was made to say; all of it is in use.
#[verifier::spinoff_prover]
pub proof fn new_set_is_valid(
    upcase: Seq<u16>,
    name: Seq<char>,
    is_dir: bool,
    first_cluster: u32,
    data_len: u64,
    valid_len: u64,
    flags: u8,
)
    requires
        1 <= utf16_of(name).len() <= 255,
    ensures
        ({
            let set = new_set(
                upcase,
                utf16_of(name),
                is_dir,
                first_cluster,
                data_len,
                valid_len,
                flags,
            );
            &&& 3 <= set.len() <= 19
            &&& set.len() == 2 + parts(utf16_of(name).len() as int, 15)
            &&& set[0][0] == ENTRY_FILE
            &&& set[0][1] == set.len() - 1
            &&& forall|i: int|
                0 <= i < set.len() ==> (#[trigger] set[i]).len() == 32 && set[i][0] > 0x80
            &&& name_units(set) == utf16_of(name)
            &&& set_entry(set) == Ok::<EntryModel, ExFault>(
                new_entry(name, is_dir, first_cluster, data_len, valid_len, flags),
            )
        }),
{
    let units = utf16_of(name);
    let names = parts(units.len() as int, 15);
    lemma_parts(units.len() as int, 15);
    let blank = set_with(upcase, units, 0, is_dir, first_cluster, data_len, valid_len, flags);
    let sum = set_sum(blank, (32 * blank.len()) as nat);
    let set = new_set(upcase, units, is_dir, first_cluster, data_len, valid_len, flags);
    let stream = stream_entry(
        flags,
        units.len() as int,
        hash_of(upcase, units),
        first_cluster,
        data_len,
        valid_len,
    );
    assert(set == set_with(upcase, units, sum, is_dir, first_cluster, data_len, valid_len, flags));
    lemma_file_entry(1 + names, sum, is_dir);
    lemma_file_entry(1 + names, 0, is_dir);
    lemma_stream_entry(
        flags,
        units.len() as int,
        hash_of(upcase, units),
        first_cluster,
        data_len,
        valid_len,
    );
    assert(set[0] == file_entry(1 + names, sum, is_dir));
    assert(blank[0] == file_entry(1 + names, 0, is_dir));
    assert(set[1] == stream && blank[1] == stream);
    assert forall|i: int| 2 <= i < set.len() implies #[trigger] set[i] == name_entry(
        name_part(units, i - 2),
    ) && blank[i] == set[i] by {}
    assert forall|i: int| 0 <= i < set.len() implies (#[trigger] set[i]).len() == 32 && set[i][0]
        > 0x80 by {
        if i >= 2 {
            lemma_name_entry(name_part(units, i - 2), 0);
        }
    }
    assert forall|i: int| 0 <= i < blank.len() implies (#[trigger] blank[i]).len() == 32
        && set[i].len() == 32 by {
        assert(set[i].len() == 32);
        if i >= 2 {
            assert(blank[i] == set[i]);
        }
    }
    assert forall|i: int, j: int|
        0 <= i < blank.len() && 0 <= j < 32 && !(i == 0 && (j == 2 || j == 3)) implies blank[i][j]
        == set[i][j] by {
        if i >= 2 {
            assert(blank[i] == set[i]);
        } else if i == 0 {
            assert(set[0][j] == file_entry(1 + names, 0, is_dir)[j]);
        }
    }
    checksum_skips_its_field(blank, set, (32 * blank.len()) as nat);
    lemma_pieces(set, units, 0);
    let all = name_pieces(set, 2);
    assert(all.take(units.len() as int) =~= units) by {
        assert forall|x: int| 0 <= x < units.len() implies all[x] == units[x] by {
            assert(all[x] == units[15 * 0 + x]);
        }
    }
    assert(name_units(set) =~= units);
    utf16_round_trip(name);
}

proof fn lemma_next_in_cluster(s: int, per: int, before: int)
    requires
        0 < per,
        0 <= before <= s % per,
        0 <= s,
    ensures
        0 <= s % per < per,
        (s + 1) % per == 0 || (s + 1) % per == s % per + 1,
        (s - before) % per == s % per - before,
{
    let q = s / per;
    let w = s % per;
    vstd::arithmetic::div_mod::lemma_fundamental_div_mod(s, per);
    assert(0 <= w < per) by (nonlinear_arith)
        requires
            w == s % per,
            per > 0,
    ;
    assert(per * q == q * per) by (nonlinear_arith);
    vstd::arithmetic::div_mod::lemma_fundamental_div_mod_converse(s - before, per, q, w - before);
    if w + 1 < per {
        vstd::arithmetic::div_mod::lemma_fundamental_div_mod_converse(s + 1, per, q, w + 1);
    } else {
        assert(per * (q + 1) == per * q + per) by (nonlinear_arith);
        assert((q + 1) * per == per * (q + 1)) by (nonlinear_arith);
        vstd::arithmetic::div_mod::lemma_fundamental_div_mod_converse(s + 1, per, q + 1, 0);
    }
}

/// A run of slots that was found is long enough, lies in one cluster, and none
/// of it is in use.
pub proof fn found_run_is_usable(
    img: Seq<u8>,
    offsets: Seq<u64>,
    per: int,
    k: int,
    s: int,
    run: int,
)
    requires
        0 < k,
        0 < per,
        0 <= run <= s,
        run < k,
        s % per == 0 || run <= s % per,
        forall|j: int|
            s - run <= j < s ==> (bytes_at(img, #[trigger] offsets[j] as int, 32) matches Ok(raw)
                && usable(raw)),
    ensures
        run_from(img, offsets, per, k, s, run) matches Ok(Some(r)) ==> {
            &&& 0 <= r
            &&& r + k <= offsets.len()
            &&& r % per + k <= per
            &&& forall|j: int|
                r <= j < r + k ==> (bytes_at(img, #[trigger] offsets[j] as int, 32) matches Ok(raw)
                    && usable(raw))
        },
    decreases offsets.len() - s,
{
    if s < offsets.len() {
        let before = if s % per == 0 {
            0
        } else {
            run
        };
        lemma_next_in_cluster(s, per, before);
        if let Ok(raw) = bytes_at(img, offsets[s] as int, 32) {
            if !usable(raw) {
                found_run_is_usable(img, offsets, per, k, s + 1, 0);
            } else if before + 1 < k {
                found_run_is_usable(img, offsets, per, k, s + 1, before + 1);
            }
        }
    }
}

/// The rows of a directory with some replaced, from the `s`-th on.
pub open spec fn rows_with(rows: Seq<Seq<u8>>, s: int, set: Seq<Seq<u8>>) -> Seq<Seq<u8>> {
    Seq::new(
        rows.len(),
        |i: int|
            if s <= i < s + set.len() {
                set[i - s]
            } else {
                rows[i]
            },
    )
}

/// Writing raw entries into slots one by one, from the `j`-th on.
spec fn placed_from(disk: Disk, offsets: Seq<u64>, set: Seq<Seq<u8>>, j: int) -> (
    Disk,
    Result<(), ExFault>,
)
    decreases set.len() - j,
{
    if j < 0 || j >= set.len() {
        (disk, Ok(()))
    } else {
        match put_at(disk, offsets[j] as int, set[j]) {
            (d, Err(f)) => (d, Err(f)),
            (d, Ok(_)) => placed_from(d, offsets, set, j + 1),
        }
    }
}

/// Side by side, raw entries written one by one are what they are written at
/// once.
proof fn lemma_placed_at_once(disk: Disk, offsets: Seq<u64>, set: Seq<Seq<u8>>, o: int, j: int)
    requires
        0 <= j <= set.len() == offsets.len(),
        forall|i: int| 0 <= i < set.len() ==> (#[trigger] set[i]).len() == 32,
        forall|i: int| 0 <= i < set.len() ==> #[trigger] offsets[i] == o + 32 * i,
        0 <= o,
        o + 32 * set.len() <= disk.bytes.len(),
    ensures
        placed_from(disk, offsets, set, j).0.bytes == splice(
            disk.bytes,
            o + 32 * j,
            flat(set.skip(j)),
        ),
    decreases set.len() - j,
{
    let rest = set.skip(j);
    if j == set.len() {
        assert(splice(disk.bytes, o + 32 * j, flat(rest)) =~= disk.bytes);
    } else {
        assert(offsets[j] == o + 32 * j);
        assert(set[j].len() == 32);
        let mid = disk.written(o + 32 * j, set[j]);
        assert(put_at(disk, offsets[j] as int, set[j]) == (mid, Ok::<(), ExFault>(())));
        lemma_placed_at_once(mid, offsets, set, o, j + 1);
        let next = set.skip(j + 1);
        let a = splice(mid.bytes, o + 32 * (j + 1), flat(next));
        let b = splice(disk.bytes, o + 32 * j, flat(rest));
        assert forall|x: int| 0 <= x < a.len() implies a[x] == b[x] by {
            let y = x - (o + 32 * j);
            if 0 <= y < 32 * rest.len() {
                assert(flat(rest)[y] == rest[y / 32][y % 32]);
                if y >= 32 {
                    assert(next[(y - 32) / 32] == rest[y / 32]);
                    assert(flat(next)[y - 32] == next[(y - 32) / 32][(y - 32) % 32]);
                }
            }
        }
        assert(a =~= b);
    }
}

/// Where no slot ends the directory, none need be marked.
pub proof fn nothing_to_open_up(disk: Disk, offsets: Seq<u64>, j: int, to: int)
    requires
        0 <= j,
        forall|i: int|
            j <= i < to ==> (bytes_at(disk.bytes, #[trigger] offsets[i] as int, 32) matches Ok(raw)
                && raw[0] != ENTRY_END),
    ensures
        opened_up(disk, offsets, j, to) == (disk, Ok::<(), ExFault>(())),
    decreases to - j,
{
    if j < to {
        assert(bytes_at(disk.bytes, offsets[j] as int, 32) is Ok);
        nothing_to_open_up(disk, offsets, j + 1, to);
    }
}

/// Placing raw entries in slots of a directory succeeds, touches its clusters
/// alone, and puts them there.
proof fn lemma_placed_rows(
    disk: Disk,
    geo: Geometry,
    chain: Seq<u32>,
    s: int,
    set: Seq<Seq<u8>>,
    j: int,
)
    requires
        placed(geo, disk.bytes.len()),
        all_exist(geo, chain),
        chain.no_duplicates(),
        0 <= s,
        s + set.len() <= chain.len() * per_cluster(geo),
        0 <= j <= set.len(),
        forall|i: int| 0 <= i < set.len() ==> (#[trigger] set[i]).len() == 32,
    ensures
        ({
            let offsets = slots(geo, chain).subrange(s, s + set.len());
            let (after, r) = placed_from(disk, offsets, set, j);
            &&& r is Ok
            &&& after.fixed == disk.fixed
            &&& confined(disk.bytes, after.bytes, geo, Set::empty(), members(chain))
            &&& rows_in(after.bytes, geo, chain) == rows_with(
                rows_in(disk.bytes, geo, chain),
                s + j,
                set.skip(j),
            )
        }),
    decreases set.len() - j,
{
    let offsets = slots(geo, chain).subrange(s, s + set.len());
    let rows = rows_in(disk.bytes, geo, chain);
    let m = members(chain);
    if j == set.len() {
        confined_refl(disk.bytes, geo);
        confined_weaker(disk.bytes, disk.bytes, geo, Set::empty(), Set::empty(), Set::empty(), m);
        assert(rows_with(rows, s + j, set.skip(j)) =~= rows);
    } else {
        assert(offsets[j] == slots(geo, chain)[s + j]);
        row_put(disk.bytes, geo, chain, s + j, set[j]);
        let mid = disk.written(offsets[j] as int, set[j]);
        assert(put_at(disk, offsets[j] as int, set[j]) == (mid, Ok::<(), ExFault>(())));
        lemma_len(disk.bytes, mid.bytes, geo, Set::empty(), m);
        lemma_placed_rows(mid, geo, chain, s, set, j + 1);
        let after = placed_from(mid, offsets, set, j + 1).0;
        confined_trans(
            disk.bytes,
            mid.bytes,
            after.bytes,
            geo,
            Set::empty(),
            m,
            Set::empty(),
            m,
        );
        assert(m.union(m) =~= m);
        assert(Set::<int>::empty().union(Set::empty()) =~= Set::empty());
        let mid_rows = rows.update(s + j, set[j]);
        assert(rows_with(mid_rows, s + j + 1, set.skip(j + 1)) =~= rows_with(
            rows,
            s + j,
            set.skip(j),
        ));
    }
}

/// Whether nothing follows the end of a directory, and all its sets are whole.
pub open spec fn neat_rows(rows: Seq<Seq<u8>>) -> bool {
    &&& whole_sets(until_end(rows, 0), 0)
    &&& forall|i: int|
        until_end(rows, 0).len() <= i < rows.len() ==> (#[trigger] rows[i])[0] == ENTRY_END
}

/// Adding a valid set where no raw entry was in use, at or before the end of a
/// directory, adds its entry to the listing and changes nothing else of it.
#[verifier::spinoff_prover]
pub proof fn added_set_is_listed(rows: Seq<Seq<u8>>, s: int, set: Seq<Seq<u8>>, e: EntryModel)
    requires
        parsed_from(until_end(rows, 0), 0) is Ok,
        sound_names(until_end(rows, 0), 0),
        neat_rows(rows),
        0 <= s <= until_end(rows, 0).len(),
        s + set.len() <= rows.len(),
        3 <= set.len(),
        set[0][0] == ENTRY_FILE,
        set[0][1] == set.len() - 1,
        forall|i: int| 0 <= i < set.len() ==> (#[trigger] set[i])[0] > 0x80,
        set_entry(set) == Ok::<EntryModel, ExFault>(e),
        utf16_of(text_of_utf16(name_units(set))) == name_units(set),
        forall|i: int| s <= i < s + set.len() ==> usable(#[trigger] rows[i]),
    ensures
        ({
            let raws = until_end(rows, 0);
            let raws2 = until_end(rows_with(rows, s, set), 0);
            let p = parsed_from(raws.take(s), 0);
            let q = parsed_from(raws, s);
            &&& p is Ok
            &&& q is Ok
            &&& parsed_from(raws, 0) == Ok::<Seq<EntryModel>, ExFault>(p->Ok_0 + q->Ok_0)
            &&& parsed_from(raws2, 0) == Ok::<Seq<EntryModel>, ExFault>(
                p->Ok_0 + (seq![e] + q->Ok_0),
            )
            &&& sound_names(raws2, 0)
            &&& neat_rows(rows_with(rows, s, set))
        }),
{
    let rows2 = rows_with(rows, s, set);
    let raws = until_end(rows, 0);
    let raws2 = until_end(rows2, 0);
    let m = raws.len() as int;
    let n = set.len() as int;
    lemma_until_end(rows, 0);
    lemma_until_end(rows2, 0);
    if s < m {
        assert(raws[s] == rows[s]);
    }
    gap_splits(raws, 0, s);
    listing_splits(raws, 0, s);
    whole_splits(raws, 0, s);
    names_split(raws, 0, s);
    let m2 = if s + n > m {
        s + n
    } else {
        m
    };
    // Where the new listing ends.
    assert(raws2.len() == m2) by {
        let got = raws2.len() as int;
        if got < m2 {
            if got < s {
                assert(rows2[got] == rows[got]);
            } else if got < s + n {
                assert(rows2[got] == set[got - s]);
            } else {
                assert(rows2[got] == rows[got]);
            }
        }
        if got > m2 {
            assert(rows2[m2] == rows[m2]);
            assert(rows[m2][0] == ENTRY_END);
        }
    }
    assert(raws2.take(s) =~= raws.take(s));
    assert(raws2.len() >= s + n);
    assert(set_from(raws2, s) =~= set) by {
        assert(raws2[s] == rows2[s]);
        assert(rows2[s] == set[0]);
        assert forall|i: int| 0 <= i < n implies raws2[s + i] == set[i] by {
            assert(raws2[s + i] == rows2[s + i]);
        }
    }
    assert(raws2[s] == set[0]);
    let q = parsed_from(raws, s)->Ok_0;
    // What follows the new set is what followed the slots it took.
    if s + n <= m {
        assert forall|j: int| s <= j < s + n implies (#[trigger] raws[j])[0] != ENTRY_FILE by {
            assert(raws[j] == rows[j]);
            assert(usable(rows[j]));
        }
        passed_over(raws, s, s + n);
        names_passed_over(raws, s, s + n);
        assert forall|j: int| s + n <= j < raws.len() implies #[trigger] raws[j] == raws2[j] by {
            assert(raws[j] == rows[j] && raws2[j] == rows2[j]);
        }
        lemma_parsed_tail(raws, raws2, s + n);
        whole_tail(raws, raws2, s + n);
        lemma_names_tail(raws, raws2, s + n);
    } else {
        assert forall|j: int| s <= j < m implies (#[trigger] raws[j])[0] != ENTRY_FILE by {
            assert(raws[j] == rows[j]);
            assert(usable(rows[j]));
        }
        passed_over(raws, s, m);
        assert(parsed_from(raws, m) == Ok::<Seq<EntryModel>, ExFault>(seq![]));
        assert(parsed_from(raws2, s + n) == Ok::<Seq<EntryModel>, ExFault>(seq![]));
    }
    assert(parsed_from(raws2, s + n) == Ok::<Seq<EntryModel>, ExFault>(q));
    assert(whole_sets(raws2, s + n));
    assert(sound_names(raws2, s + n));
    assert(s + 1 + raws2[s][1] == s + n);
    assert(parsed_from(raws2, s) == Ok::<Seq<EntryModel>, ExFault>(seq![e] + q));
    listing_splits(raws2, 0, s);
    assert(whole_sets(raws2, s)) by {
        assert forall|j: int| s <= j < s + n implies (#[trigger] raws2[j])[0] > 0x80 by {
            assert(raws2[j] == rows2[j]);
            assert(rows2[j] == set[j - s]);
        }
    }
    whole_joins(raws2, 0, s);
    assert(sound_names(raws2, s));
    names_join(raws2, 0, s);
    assert forall|i: int| raws2.len() <= i < rows2.len() implies (#[trigger] rows2[i])[0]
        == ENTRY_END by {
        assert(rows2[i] == rows[i]);
    }
}

/// How many raw entries the set of a name has.
pub open spec fn set_len(name: Seq<char>) -> int {
    2 + parts(utf16_of(name).len() as int, 15)
}

/// Whether a directory has slots for a set of `k` raw entries, not behind its
/// end: slots there would not be seen.
pub open spec fn has_room(img: Seq<u8>, vol: Volume, dir: Option<EntryModel>, k: int) -> bool {
    let per = per_cluster(vol.geo);
    &&& k <= per
    &&& run_from(img, slots(vol.geo, dir_chain(img, vol, dir)), per, k, 0, 0) matches Ok(
        Some(s),
    ) && s <= dir_rows(img, vol, dir).len()
}

/// Where those slots start.
pub open spec fn room_in(img: Seq<u8>, vol: Volume, dir: Option<EntryModel>, k: int) -> int {
    run_from(
        img,
        slots(vol.geo, dir_chain(img, vol, dir)),
        per_cluster(vol.geo),
        k,
        0,
        0,
    )->Ok_0->Some_0
}

/// Whether nothing follows a directory's end, and all its sets are whole.
pub open spec fn neat_dir(img: Seq<u8>, vol: Volume, dir: Option<EntryModel>) -> bool {
    neat_rows(rows_in(img, vol.geo, dir_chain(img, vol, dir)))
}

/// What a directory is like once a new entry is in it: as before, with the
/// entry somewhere in its listing, where its name leads to it.
pub open spec fn gains(
    img: Seq<u8>,
    after: Seq<u8>,
    vol: Volume,
    dir: Option<EntryModel>,
    e: EntryModel,
) -> bool {
    &&& tidy_dir(after, vol, dir)
    &&& neat_dir(after, vol, dir)
    &&& dir_chain(after, vol, dir) == dir_chain(img, vol, dir)
    &&& children(img, vol.geo, dir) is Ok
    &&& exists|j: int|
        0 <= j <= children(img, vol.geo, dir)->Ok_0.len() && children(after, vol.geo, dir) == Ok::<
            Seq<EntryModel>,
            ExFault,
        >(#[trigger] children(img, vol.geo, dir)->Ok_0.insert(j, e))
    &&& named_from(vol.upcase, children(after, vol.geo, dir)->Ok_0, e.name, 0) == Some(e)
}

/// Slots of one cluster lie side by side.
proof fn lemma_slots_adjoin(len: nat, geo: Geometry, chain: Seq<u32>, s: int, k: int)
    requires
        placed(geo, len),
        all_exist(geo, chain),
        0 <= s,
        0 < k,
        s % per_cluster(geo) + k <= per_cluster(geo),
        s + k <= chain.len() * per_cluster(geo),
    ensures
        forall|i: int|
            0 <= i < k ==> #[trigger] slots(geo, chain)[s + i] == slots(geo, chain)[s] + 32 * i,
{
    let per = per_cluster(geo);
    let q = s / per;
    let w = s % per;
    vstd::arithmetic::div_mod::lemma_fundamental_div_mod(s, per);
    assert(0 <= w < per) by (nonlinear_arith)
        requires
            w == s % per,
            per > 0,
    ;
    assert(0 <= q < chain.len()) by (nonlinear_arith)
        requires
            s == per * q + w,
            0 <= s < chain.len() * per,
            0 <= w < per,
    ;
    assert(geo.has_cluster(chain[q] as int));
    cluster_place(geo, len, chain[q] as int);
    assert(per * q == q * per) by (nonlinear_arith);
    assert forall|i: int| 0 <= i < k implies #[trigger] slots(geo, chain)[s + i] == slots(
        geo,
        chain,
    )[s] + 32 * i by {
        vstd::arithmetic::div_mod::lemma_fundamental_div_mod_converse(s + i, per, q, w + i);
        assert(slots(geo, chain)[s + i] == (geo.cluster_start(chain[q] as int) + 32 * (w
            + i)) as u64);
        assert(slots(geo, chain)[s] == (geo.cluster_start(chain[q] as int) + 32 * w) as u64);
    }
}

/// Writing a new set into slots of a directory that are not in use and not
/// behind its end, where no entry has its name, touches the directory alone,
/// and adds the entry.
#[verifier::spinoff_prover]
#[verifier::rlimit(30)]
pub proof fn put_set_is_listed(
    disk: Disk,
    vol: Volume,
    home: Option<EntryModel>,
    s: int,
    name: Seq<char>,
    is_dir: bool,
    first_cluster: u32,
    data_len: u64,
    valid_len: u64,
    flags: u8,
)
    requires
        placed(vol.geo, disk.bytes.len()),
        tidy_dir(disk.bytes, vol, home),
        neat_dir(disk.bytes, vol, home),
        1 <= utf16_of(name).len() <= 255,
        0 <= s <= dir_rows(disk.bytes, vol, home).len(),
        s % per_cluster(vol.geo) + set_len(name) <= per_cluster(vol.geo),
        s + set_len(name) <= dir_chain(disk.bytes, vol, home).len() * per_cluster(vol.geo),
        forall|i: int|
            s <= i < s + set_len(name) ==> usable(
                #[trigger] rows_in(disk.bytes, vol.geo, dir_chain(disk.bytes, vol, home))[i],
            ),
        named_from(vol.upcase, children(disk.bytes, vol.geo, home)->Ok_0, name, 0) is None,
    ensures
        ({
            let chain = dir_chain(disk.bytes, vol, home);
            let set = new_set(
                vol.upcase,
                utf16_of(name),
                is_dir,
                first_cluster,
                data_len,
                valid_len,
                flags,
            );
            let (after, r) = put_at(disk, slots(vol.geo, chain)[s] as int, flat(set));
            &&& r is Ok
            &&& after.fixed == disk.fixed
            &&& confined(disk.bytes, after.bytes, vol.geo, Set::empty(), members(chain))
            &&& gains(
                disk.bytes,
                after.bytes,
                vol,
                home,
                new_entry(name, is_dir, first_cluster, data_len, valid_len, flags),
            )
            &&& rows_in(after.bytes, vol.geo, chain) == rows_with(
                rows_in(disk.bytes, vol.geo, chain),
                s,
                set,
            )
        }),
{
    let img = disk.bytes;
    let geo = vol.geo;
    let chain = dir_chain(img, vol, home);
    let rows = rows_in(img, geo, chain);
    let raws = until_end(rows, 0);
    let offsets = slots(geo, chain);
    let set = new_set(
        vol.upcase,
        utf16_of(name),
        is_dir,
        first_cluster,
        data_len,
        valid_len,
        flags,
    );
    let e = new_entry(name, is_dir, first_cluster, data_len, valid_len, flags);
    let k = set_len(name);
    tidy_children(img, vol, home);
    ended_chain_has_no_loop(img, geo, dir_first(vol, home), 0, geo.cluster_count as int);
    new_set_is_valid(vol.upcase, name, is_dir, first_cluster, data_len, valid_len, flags);
    utf16_round_trip(name);
    lemma_placed_rows(disk, geo, chain, s, set, 0);
    assert(set.skip(0) =~= set);
    lemma_slots_adjoin(img.len(), geo, chain, s, k);
    slot_holds_row(img, geo, chain, s);
    slot_holds_row(img, geo, chain, s + k - 1);
    let part = offsets.subrange(s, s + k);
    let o = offsets[s] as int;
    assert forall|i: int| 0 <= i < set.len() implies #[trigger] part[i] == o + 32 * i by {
        assert(part[i] == offsets[s + i]);
    }
    assert(offsets[s + (k - 1)] == o + 32 * (k - 1));
    assert(o + 32 * k <= img.len()) by {
        assert(bytes_at(img, offsets[s + k - 1] as int, 32) is Ok);
    }
    lemma_placed_at_once(disk, part, set, o, 0);
    let mid = placed_from(disk, part, set, 0).0;
    let after = disk.written(o, flat(set));
    assert(after.bytes == mid.bytes);
    assert(put_at(disk, o, flat(set)) == (after, Ok::<(), ExFault>(())));
    let rows2 = rows_with(rows, s, set);
    added_set_is_listed(rows, s, set, e);
    lemma_len(img, after.bytes, geo, Set::empty(), members(chain));
    confined_chain(
        img,
        after.bytes,
        geo,
        Set::empty(),
        members(chain),
        dir_first(vol, home),
        0,
        geo.cluster_count as int,
        false,
    );
    assert(dir_rows(after.bytes, vol, home) == until_end(rows2, 0));
    tidy_children(after.bytes, vol, home);
    let p = parsed_from(raws.take(s), 0)->Ok_0;
    let q = parsed_from(raws, s)->Ok_0;
    let es = p + q;
    let es2 = p + (seq![e] + q);
    assert(es2 =~= es.insert(p.len() as int, e));
    lemma_none(vol.upcase, es, name, 0);
    assert forall|i: int| 0 <= i < p.len() implies !same_name(
        vol.upcase,
        (#[trigger] es2[i]).name,
        name,
    ) by {
        assert(es2[i] == es[i]);
    }
    lemma_first(vol.upcase, es2, name, 0, p.len() as int);
}

/// Writing a new set into a directory that has room for it, and no entry of
/// its name, succeeds, touches the directory alone, and adds the entry.
#[verifier::spinoff_prover]
pub proof fn placed_entry_is_listed(
    disk: Disk,
    vol: Volume,
    home: Option<EntryModel>,
    dir: DirModel,
    name: Seq<char>,
    is_dir: bool,
    first_cluster: u32,
    data_len: u64,
    valid_len: u64,
    flags: u8,
)
    requires
        placed(vol.geo, disk.bytes.len()),
        tidy_dir(disk.bytes, vol, home),
        neat_dir(disk.bytes, vol, home),
        dir.first_cluster == dir_first(vol, home),
        1 <= utf16_of(name).len() <= 255,
        has_room(disk.bytes, vol, home, set_len(name)),
        named_from(vol.upcase, children(disk.bytes, vol.geo, home)->Ok_0, name, 0) is None,
    ensures
        ({
            let (after, r) = entry_placed(
                disk,
                vol,
                dir,
                name,
                is_dir,
                first_cluster,
                data_len,
                valid_len,
                flags,
            );
            let set = new_set(
                vol.upcase,
                utf16_of(name),
                is_dir,
                first_cluster,
                data_len,
                valid_len,
                flags,
            );
            &&& r is Ok
            &&& after.fixed == disk.fixed
            &&& confined(
                disk.bytes,
                after.bytes,
                vol.geo,
                Set::empty(),
                members(dir_chain(disk.bytes, vol, home)),
            )
            &&& gains(
                disk.bytes,
                after.bytes,
                vol,
                home,
                new_entry(name, is_dir, first_cluster, data_len, valid_len, flags),
            )
            &&& rows_in(after.bytes, vol.geo, dir_chain(disk.bytes, vol, home)) == rows_with(
                rows_in(disk.bytes, vol.geo, dir_chain(disk.bytes, vol, home)),
                room_in(disk.bytes, vol, home, set_len(name)),
                set,
            )
            &&& after == disk.written(
                slots(vol.geo, dir_chain(disk.bytes, vol, home))[room_in(
                    disk.bytes,
                    vol,
                    home,
                    set_len(name),
                )] as int,
                flat(set),
            ).flushed()
        }),
{
    let img = disk.bytes;
    let geo = vol.geo;
    let chain = dir_chain(img, vol, home);
    let rows = rows_in(img, geo, chain);
    let offsets = slots(geo, chain);
    let k = set_len(name);
    tidy_children(img, vol, home);
    ended_chain_has_no_loop(img, geo, dir_first(vol, home), 0, geo.cluster_count as int);
    new_set_is_valid(vol.upcase, name, is_dir, first_cluster, data_len, valid_len, flags);
    let s = run_from(img, offsets, per_cluster(geo), k, 0, 0)->Ok_0->Some_0;
    found_run_is_usable(img, offsets, per_cluster(geo), k, 0, 0);
    assert forall|i: int| s <= i < s + k implies usable(#[trigger] rows[i]) by {
        slot_holds_row(img, geo, chain, i);
        assert(bytes_at(img, offsets[i] as int, 32) == Ok::<Seq<u8>, ExFault>(rows[i]));
    }
    lemma_until_end(rows, 0);
    assert forall|i: int| 0 <= i < s implies (bytes_at(
        img,
        #[trigger] offsets[i] as int,
        32,
    ) matches Ok(raw) && raw[0] != ENTRY_END) by {
        slot_holds_row(img, geo, chain, i);
        assert(bytes_at(img, offsets[i] as int, 32) == Ok::<Seq<u8>, ExFault>(rows[i]));
        assert(until_end(rows, 0)[i] == rows[i]);
    }
    nothing_to_open_up(disk, offsets, 0, s);
    assert(slot_run(disk, vol, dir, k) == (
        disk,
        Ok::<Seq<u64>, ExFault>(offsets.subrange(s, s + k)),
    ));
    assert(offsets.subrange(s, s + k)[0] == offsets[s]);
    put_set_is_listed(
        disk,
        vol,
        home,
        s,
        name,
        is_dir,
        first_cluster,
        data_len,
        valid_len,
        flags,
    );
}

/// A directory has room for a set where the cluster in which it ends has.
pub proof fn room_at_the_end(img: Seq<u8>, vol: Volume, dir: Option<EntryModel>, k: int)
    requires
        placed(vol.geo, img.len()),
        tidy_dir(img, vol, dir),
        neat_dir(img, vol, dir),
        0 < k,
        dir_rows(img, vol, dir).len() % (per_cluster(vol.geo) as nat) + k <= per_cluster(vol.geo),
        dir_rows(img, vol, dir).len() < dir_chain(img, vol, dir).len() * per_cluster(vol.geo),
    ensures
        has_room(img, vol, dir, k),
{
    tidy_children(img, vol, dir);
    let per = per_cluster(vol.geo);
    let m = dir_rows(img, vol, dir).len() as int;
    assert(0 <= m % per) by (nonlinear_arith)
        requires
            per > 0,
    ;
    lemma_room(img, vol, dir, k, 0, 0);
}

proof fn lemma_room(
    img: Seq<u8>,
    vol: Volume,
    dir: Option<EntryModel>,
    k: int,
    s: int,
    run: int,
)
    requires
        placed(vol.geo, img.len()),
        neat_dir(img, vol, dir),
        all_exist(vol.geo, dir_chain(img, vol, dir)),
        0 < k,
        0 <= run < k,
        run <= s,
        ({
            let per = per_cluster(vol.geo);
            let m = dir_rows(img, vol, dir).len() as int;
            &&& m % per + k <= per
            &&& m < dir_chain(img, vol, dir).len() * per
            &&& s <= m || (s - run <= m && s < m + k)
        }),
    ensures
        run_from(
            img,
            slots(vol.geo, dir_chain(img, vol, dir)),
            per_cluster(vol.geo),
            k,
            s,
            run,
        ) matches Ok(Some(r)) && r <= dir_rows(img, vol, dir).len(),
    decreases dir_rows(img, vol, dir).len() + k - s,
{
    let geo = vol.geo;
    let chain = dir_chain(img, vol, dir);
    let rows = rows_in(img, geo, chain);
    let per = per_cluster(geo);
    let m = dir_rows(img, vol, dir).len() as int;
    let n = chain.len() as int;
    assert(s < n * per && (m < s ==> s % per != 0)) by {
        lemma_end_cluster(m, per, n, k, s);
    }
    slot_holds_row(img, geo, chain, s);
    lemma_until_end(rows, 0);
    assert(rows[s] == row_in(img, geo, chain, s));
    let before = if s % per == 0 {
        0
    } else {
        run
    };
    if s >= m {
        assert(rows[s][0] == ENTRY_END);
        if before + 1 < k {
            lemma_room(img, vol, dir, k, s + 1, before + 1);
        }
    } else if !usable(rows[s]) {
        lemma_room(img, vol, dir, k, s + 1, 0);
    } else if before + 1 < k {
        lemma_room(img, vol, dir, k, s + 1, before + 1);
    }
}

proof fn lemma_end_cluster(m: int, per: int, n: int, k: int, s: int)
    requires
        0 < per,
        0 <= m < n * per,
        0 <= s < m + k,
        m % per + k <= per,
    ensures
        s < n * per,
        m < s ==> s % per != 0,
{
    vstd::arithmetic::div_mod::lemma_fundamental_div_mod(m, per);
    let q = m / per;
    let w = m % per;
    assert(0 <= w < per) by (nonlinear_arith)
        requires
            w == m % per,
            per > 0,
    ;
    assert(q < n) by (nonlinear_arith)
        requires
            m == per * q + w,
            m < n * per,
            0 <= w,
            per > 0,
    ;
    assert(per * q + per <= n * per) by (nonlinear_arith)
        requires
            q + 1 <= n,
            per > 0,
    ;
    if m < s {
        assert(per * q == q * per) by (nonlinear_arith);
        vstd::arithmetic::div_mod::lemma_fundamental_div_mod_converse(s, per, q, s - per * q);
    }
}

} // verus!
