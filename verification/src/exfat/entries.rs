//! The raw entries of a directory: what a lookup and a change find in them,
//! and what a rewritten set says.

use vstd::prelude::*;

use super::areas::{
    cluster_of, cluster_place, cluster_put, confined, confined_weaker, members, placed,
};
use super::boot::Geometry;
use super::chains::all_exist;
use super::dir::{
    checksum_skips_its_field, directory, name_pieces, name_units, parsed_from, per_cluster, raw_at,
    set_entry, set_sum, walk_from, EntryModel, ENTRY_END, ENTRY_FILE, ENTRY_NAME,
};
use super::fat::{chain_clusters_exist, chain_of};
use super::fs::{named_from, same_name};
use super::io::{bytes_at, ExFault};
use super::upcase::upcased_all;
use super::write::{
    located_from, raws_from, set_at, slots, stored_name, stream_with, LocModel,
};
use crate::bytes::{
    le16, le16_bytes, le32, le32_bytes, le64, le64_bytes, read_16, read_32, read_64, slice_of,
    splice,
};
use crate::text::{text_of_utf16, utf16_of};

verus! {

broadcast use crate::bytes::group_widths;

/// The `k`-th raw entry of a directory that lies in the given chain.
pub open spec fn row_in(img: Seq<u8>, geo: Geometry, chain: Seq<u32>, k: int) -> Seq<u8> {
    slice_of(
        cluster_of(img, geo, chain[k / per_cluster(geo)] as int),
        32 * (k % per_cluster(geo)),
        32,
    )
}

/// All raw entries of a directory that lies in the given chain.
pub open spec fn rows_in(img: Seq<u8>, geo: Geometry, chain: Seq<u32>) -> Seq<Seq<u8>> {
    Seq::new((chain.len() * per_cluster(geo)) as nat, |k: int| row_in(img, geo, chain, k))
}

/// The raw entries from the `k`-th up to the end of the directory.
pub open spec fn until_end(rows: Seq<Seq<u8>>, k: int) -> Seq<Seq<u8>>
    decreases rows.len() - k,
{
    if k < 0 || k >= rows.len() || rows[k][0] == ENTRY_END {
        seq![]
    } else {
        seq![rows[k]] + until_end(rows, k + 1)
    }
}

pub proof fn lemma_row(geo: Geometry, n: int, k: int)
    requires
        geo.wf(),
        0 <= k < n * per_cluster(geo),
    ensures
        0 <= k / per_cluster(geo) < n,
        0 <= k % per_cluster(geo) < per_cluster(geo),
        32 * (k % per_cluster(geo)) + 32 <= geo.cluster_len(),
        k == per_cluster(geo) * (k / per_cluster(geo)) + k % per_cluster(geo),
        per_cluster(geo) >= 16,
{
    let p = per_cluster(geo);
    let q = k / p;
    let m = k % p;
    assert(p >= 16 && 32 * p <= geo.cluster_len());
    vstd::arithmetic::div_mod::lemma_fundamental_div_mod(k, p);
    assert(0 <= m < p) by (nonlinear_arith)
        requires
            m == k % p,
            p > 0,
    ;
    assert(0 <= q < n) by (nonlinear_arith)
        requires
            k == p * q + m,
            0 <= m < p,
            0 <= k < n * p,
    ;
}

/// A slot of a directory holds its raw entry.
pub proof fn slot_holds_row(img: Seq<u8>, geo: Geometry, chain: Seq<u32>, k: int)
    requires
        placed(geo, img.len()),
        all_exist(geo, chain),
        0 <= k < chain.len() * per_cluster(geo),
    ensures
        slots(geo, chain)[k] == geo.cluster_start(chain[k / per_cluster(geo)] as int) + 32 * (k
            % per_cluster(geo)),
        bytes_at(img, slots(geo, chain)[k] as int, 32) == Ok::<Seq<u8>, ExFault>(
            row_in(img, geo, chain, k),
        ),
        row_in(img, geo, chain, k).len() == 32,
{
    lemma_row(geo, chain.len() as int, k);
    let c = chain[k / per_cluster(geo)] as int;
    assert(geo.has_cluster(c));
    cluster_place(geo, img.len(), c);
    let at = geo.cluster_start(c) + 32 * (k % per_cluster(geo));
    assert(img.subrange(at, at + 32) =~= row_in(img, geo, chain, k));
}

proof fn lemma_raw(img: Seq<u8>, geo: Geometry, chain: Seq<u32>, data_len: int, k: int)
    requires
        placed(geo, img.len()),
        all_exist(geo, chain),
        0 <= k < chain.len() * per_cluster(geo),
        32 * k < data_len,
    ensures
        raw_at(img, geo, chain.map_values(|c: u32| c as int), data_len, k) == Ok::<
            Option<Seq<u8>>,
            ExFault,
        >(Some(row_in(img, geo, chain, k))),
{
    slot_holds_row(img, geo, chain, k);
    lemma_row(geo, chain.len() as int, k);
    let c = chain[k / per_cluster(geo)] as int;
    assert(geo.has_cluster(c));
    cluster_place(geo, img.len(), c);
    let at = geo.cluster_start(c) + 32 * (k % per_cluster(geo));
    assert(slice_of(img, at, 32) =~= row_in(img, geo, chain, k));
}

proof fn lemma_walk(
    img: Seq<u8>,
    geo: Geometry,
    chain: Seq<u32>,
    data_len: int,
    k: int,
    stops: spec_fn(Seq<u8>) -> bool,
)
    requires
        placed(geo, img.len()),
        all_exist(geo, chain),
        0 <= k <= chain.len() * per_cluster(geo),
        32 * (k + until_end(rows_in(img, geo, chain), k).len()) <= data_len,
        forall|raw: Seq<u8>| !#[trigger] stops(raw),
    ensures
        walk_from(img, geo, chain.map_values(|c: u32| c as int), data_len, k, stops) == Ok::<
            Seq<Seq<u8>>,
            ExFault,
        >(until_end(rows_in(img, geo, chain), k)),
    decreases chain.len() * per_cluster(geo) - k,
{
    if k < chain.len() * per_cluster(geo) {
        let rows = rows_in(img, geo, chain);
        assert(rows[k] == row_in(img, geo, chain, k));
        if 32 * k < data_len {
            lemma_raw(img, geo, chain, data_len, k);
        }
        if rows[k][0] != ENTRY_END {
            assert(until_end(rows, k).len() == 1 + until_end(rows, k + 1).len());
            lemma_walk(img, geo, chain, data_len, k + 1, stops);
        }
    }
}

/// The raw entries up to the end are the first ones, and the end follows.
pub proof fn lemma_until_end(rows: Seq<Seq<u8>>, k: int)
    requires
        0 <= k <= rows.len(),
    ensures
        ({
            let n = k + until_end(rows, k).len();
            &&& n <= rows.len()
            &&& until_end(rows, k) == rows.subrange(k, n)
            &&& n < rows.len() ==> rows[n][0] == ENTRY_END
            &&& forall|i: int| k <= i < n ==> (#[trigger] rows[i])[0] != ENTRY_END
        }),
    decreases rows.len() - k,
{
    if k < rows.len() && rows[k][0] != ENTRY_END {
        lemma_until_end(rows, k + 1);
        let n = k + until_end(rows, k).len();
        assert(seq![rows[k]] + rows.subrange(k + 1, n) =~= rows.subrange(k, n));
    } else {
        assert(rows.subrange(k, k) =~= seq![]);
    }
}

/// The first raw entries, up to the end, decide what a directory's are.
pub proof fn lemma_same_end(a: Seq<Seq<u8>>, b: Seq<Seq<u8>>, k: int)
    requires
        a.len() == b.len(),
        0 <= k <= a.len(),
        forall|i: int| 0 <= i < a.len() ==> (#[trigger] a[i])[0] == b[i][0],
    ensures
        until_end(a, k).len() == until_end(b, k).len(),
    decreases a.len() - k,
{
    if k < a.len() {
        assert(a[k][0] == b[k][0]);
        if a[k][0] != ENTRY_END {
            lemma_same_end(a, b, k + 1);
        }
    }
}

/// A chained directory, whose recorded length covers its chain, holds what its
/// raw entries up to the end say.
pub proof fn directory_of_rows(img: Seq<u8>, geo: Geometry, first: u32, data_len: u64)
    requires
        placed(geo, img.len()),
        first != 0,
        chain_of(img, geo, first, None) is Ok,
        chain_of(img, geo, first, None)->Ok_0.len() * geo.cluster_len() <= data_len,
    ensures
        directory(img, geo, first, false, data_len) == parsed_from(
            until_end(rows_in(img, geo, chain_of(img, geo, first, None)->Ok_0), 0),
            0,
        ),
{
    let chain = chain_of(img, geo, first, None)->Ok_0;
    chain_clusters_exist(img, geo, first, 0, geo.cluster_count as int, false);
    let p = per_cluster(geo);
    assert(32 * p == geo.cluster_len());
    assert(32 * (chain.len() * p) == chain.len() * (32 * p)) by (nonlinear_arith);
    assert(0 <= chain.len() * p) by (nonlinear_arith)
        requires
            p >= 0,
    ;
    lemma_until_end(rows_in(img, geo, chain), 0);
    lemma_walk(img, geo, chain, data_len as int, 0, |raw: Seq<u8>| false);
}

/// The entries of a directory whose chain is longer than its recorded length:
/// its raw entries up to its end, where these lie within that length.
pub proof fn directory_in_a_longer_chain(img: Seq<u8>, geo: Geometry, first: u32, data_len: u64)
    requires
        placed(geo, img.len()),
        first != 0,
        chain_of(img, geo, first, None) is Ok,
        32 * until_end(rows_in(img, geo, chain_of(img, geo, first, None)->Ok_0), 0).len()
            <= data_len,
    ensures
        directory(img, geo, first, false, data_len) == parsed_from(
            until_end(rows_in(img, geo, chain_of(img, geo, first, None)->Ok_0), 0),
            0,
        ),
{
    let chain = chain_of(img, geo, first, None)->Ok_0;
    let p = per_cluster(geo);
    chain_clusters_exist(img, geo, first, 0, geo.cluster_count as int, false);
    assert(0 <= chain.len() * p) by (nonlinear_arith)
        requires
            p >= 0,
    ;
    lemma_walk(img, geo, chain, data_len as int, 0, |raw: Seq<u8>| false);
}

/// The entry set that starts at the `k`-th of a sequence of raw entries.
pub open spec fn set_from(raws: Seq<Seq<u8>>, k: int) -> Seq<Seq<u8>> {
    raws.subrange(k, k + 1 + raws[k][1])
}

/// Where the first entry set with a name starts, from the `i`-th raw entry on.
pub open spec fn found_at(
    upcase: Seq<u16>,
    raws: Seq<Seq<u8>>,
    name: Seq<char>,
    i: int,
) -> Option<int>
    decreases raws.len() - i,
{
    if i < 0 || i >= raws.len() {
        None
    } else if raws[i][0] != ENTRY_FILE {
        found_at(upcase, raws, name, i + 1)
    } else if raws[i][1] < 2 || i + 1 + raws[i][1] > raws.len() {
        None
    } else if same_name(upcase, text_of_utf16(name_units(set_from(raws, i))), name) {
        Some(i)
    } else {
        found_at(upcase, raws, name, i + 1 + raws[i][1])
    }
}

proof fn lemma_named_shift(
    upcase: Seq<u16>,
    e: EntryModel,
    rest: Seq<EntryModel>,
    name: Seq<char>,
    j: int,
)
    requires
        0 <= j <= rest.len(),
    ensures
        named_from(upcase, seq![e] + rest, name, j + 1) == named_from(upcase, rest, name, j),
    decreases rest.len() - j,
{
    if j < rest.len() {
        assert((seq![e] + rest)[j + 1] == rest[j]);
        lemma_named_shift(upcase, e, rest, name, j + 1);
    }
}

/// In a directory that parses, a lookup gives the set that starts where the
/// first one with the name does.
pub proof fn named_is_found(upcase: Seq<u16>, raws: Seq<Seq<u8>>, name: Seq<char>, i: int)
    requires
        0 <= i,
        parsed_from(raws, i) is Ok,
    ensures
        match found_at(upcase, raws, name, i) {
            Some(k) => {
                &&& i <= k < raws.len()
                &&& raws[k][0] == ENTRY_FILE
                &&& 2 <= raws[k][1]
                &&& k + 1 + raws[k][1] <= raws.len()
                &&& set_entry(set_from(raws, k)) is Ok
                &&& same_name(upcase, set_entry(set_from(raws, k))->Ok_0.name, name)
                &&& parsed_from(raws, k + 1 + raws[k][1]) is Ok
                &&& named_from(upcase, parsed_from(raws, i)->Ok_0, name, 0) == Some(
                    set_entry(set_from(raws, k))->Ok_0,
                )
            },
            None => named_from(upcase, parsed_from(raws, i)->Ok_0, name, 0) is None,
        },
    decreases raws.len() - i,
{
    if i < raws.len() {
        if raws[i][0] != ENTRY_FILE {
            named_is_found(upcase, raws, name, i + 1);
        } else {
            let next = i + 1 + raws[i][1];
            let e = set_entry(set_from(raws, i))->Ok_0;
            let rest = parsed_from(raws, next)->Ok_0;
            assert(parsed_from(raws, i)->Ok_0 == seq![e] + rest);
            assert((seq![e] + rest)[0] == e);
            if !same_name(upcase, e.name, name) {
                named_is_found(upcase, raws, name, next);
                lemma_named_shift(upcase, e, rest, name, 0);
            }
        }
    }
}

/// Whether every name that a sequence of raw entries holds from the `i`-th on
/// is well-formed UTF-16.
pub open spec fn sound_names(raws: Seq<Seq<u8>>, i: int) -> bool
    decreases raws.len() - i,
{
    if i < 0 || i >= raws.len() {
        true
    } else if raws[i][0] != ENTRY_FILE {
        sound_names(raws, i + 1)
    } else if raws[i][1] < 2 || i + 1 + raws[i][1] > raws.len() {
        false
    } else {
        let units = name_units(set_from(raws, i));
        utf16_of(text_of_utf16(units)) == units && sound_names(raws, i + 1 + raws[i][1])
    }
}

/// What a change finds for the set that starts at the `k`-th raw entry.
pub open spec fn loc_at(raws: Seq<Seq<u8>>, offsets: Seq<u64>, k: int) -> LocModel {
    let stream = raws[k + 1];
    LocModel {
        offsets: offsets.subrange(k, k + 1 + raws[k][1]),
        first_cluster: le32(stream, 20),
        data_len: le64(stream, 24),
        valid_len: le64(stream, 8),
        is_dir: le16(raws[k], 4) / 16 % 2 == 1,
        flags: stream[1],
    }
}

/// Whether the given slots hold the given raw entries, at least as far as
/// those go, and the directory ends there.
pub open spec fn slots_hold(img: Seq<u8>, offsets: Seq<u64>, raws: Seq<Seq<u8>>) -> bool {
    &&& raws.len() <= offsets.len()
    &&& forall|k: int|
        0 <= k < raws.len() ==> bytes_at(img, #[trigger] offsets[k] as int, 32) == Ok::<
            Seq<u8>,
            ExFault,
        >(raws[k])
    &&& forall|k: int| 0 <= k < raws.len() ==> (#[trigger] raws[k])[0] != ENTRY_END
    &&& raws.len() < offsets.len() ==> (bytes_at(img, offsets[raws.len() as int] as int, 32)
        matches Ok(e) && e[0] == ENTRY_END)
}

proof fn lemma_stored_name(
    img: Seq<u8>,
    offsets: Seq<u64>,
    raws: Seq<Seq<u8>>,
    k: int,
    n: int,
    j: int,
)
    requires
        slots_hold(img, offsets, raws),
        0 <= k,
        k + n <= raws.len(),
        0 <= j <= n,
    ensures
        stored_name(img, offsets.subrange(k, k + n), j) == Ok::<Seq<u16>, ExFault>(
            name_pieces(raws.subrange(k, k + n), j),
        ),
    decreases n - j,
{
    let o = offsets.subrange(k, k + n);
    let s = raws.subrange(k, k + n);
    if j < n {
        assert(o[j] == offsets[k + j]);
        assert(s[j] == raws[k + j]);
        if s[j][0] == ENTRY_NAME {
            lemma_stored_name(img, offsets, raws, k, n, j + 1);
        }
    }
}

/// In a directory that parses and whose names are sound, a change finds the
/// set that a lookup finds.
pub proof fn located_is_found(
    img: Seq<u8>,
    upcase: Seq<u16>,
    offsets: Seq<u64>,
    raws: Seq<Seq<u8>>,
    name: Seq<char>,
    i: int,
)
    requires
        0 <= i <= raws.len(),
        slots_hold(img, offsets, raws),
        parsed_from(raws, i) is Ok,
        sound_names(raws, i),
    ensures
        located_from(img, upcase, offsets, utf16_of(name), i) == Ok::<Option<LocModel>, ExFault>(
            match found_at(upcase, raws, name, i) {
                Some(k) => Some(loc_at(raws, offsets, k)),
                None => None,
            },
        ),
    decreases raws.len() - i,
{
    if i < raws.len() {
        assert(bytes_at(img, offsets[i] as int, 32) == Ok::<Seq<u8>, ExFault>(raws[i]));
        assert(raws[i][0] != ENTRY_END);
        if raws[i][0] != ENTRY_FILE {
            located_is_found(img, upcase, offsets, raws, name, i + 1);
        } else {
            let n = 1 + raws[i][1];
            let o = offsets.subrange(i, i + n);
            assert(o[1] == offsets[i + 1]);
            assert(bytes_at(img, offsets[i + 1] as int, 32) == Ok::<Seq<u8>, ExFault>(
                raws[i + 1],
            ));
            lemma_stored_name(img, offsets, raws, i, n, 2);
            let set = set_from(raws, i);
            assert(set[1] == raws[i + 1]);
            let units = name_units(set);
            assert(set_at(img, o, raws[i]) == Ok::<(LocModel, Seq<u16>), ExFault>(
                (loc_at(raws, offsets, i), units),
            ));
            assert(utf16_of(text_of_utf16(units)) == units);
            if upcased_all(upcase, units) != upcased_all(upcase, utf16_of(name)) {
                located_is_found(img, upcase, offsets, raws, name, i + n);
            }
        }
    }
}

/// The raw entries of a directory's chain stand in its slots.
pub proof fn slots_hold_rows(img: Seq<u8>, geo: Geometry, chain: Seq<u32>)
    requires
        placed(geo, img.len()),
        all_exist(geo, chain),
    ensures
        slots_hold(img, slots(geo, chain), until_end(rows_in(img, geo, chain), 0)),
{
    let rows = rows_in(img, geo, chain);
    let raws = until_end(rows, 0);
    let offsets = slots(geo, chain);
    lemma_until_end(rows, 0);
    assert forall|k: int| 0 <= k < raws.len() implies bytes_at(
        img,
        #[trigger] offsets[k] as int,
        32,
    ) == Ok::<Seq<u8>, ExFault>(raws[k]) by {
        slot_holds_row(img, geo, chain, k);
        assert(raws[k] == rows[k]);
    }
    assert forall|k: int| 0 <= k < raws.len() implies (#[trigger] raws[k])[0] != ENTRY_END by {
        assert(raws[k] == rows[k]);
    }
    if raws.len() < offsets.len() {
        slot_holds_row(img, geo, chain, raws.len() as int);
        assert(rows[raws.len() as int][0] == ENTRY_END);
    }
}

/// A set with new facts in its stream entry and its checksum made good.
pub open spec fn reissued(
    set: Seq<Seq<u8>>,
    first_cluster: u32,
    data_len: u64,
    valid_len: u64,
    flags: u8,
) -> Seq<Seq<u8>> {
    let next = set.update(1, stream_with(set[1], first_cluster, data_len, valid_len, flags));
    next.update(0, splice(set[0], 2, le16_bytes(set_sum(next, (32 * next.len()) as nat))))
}

pub proof fn lemma_stream_with(
    stream: Seq<u8>,
    first_cluster: u32,
    data_len: u64,
    valid_len: u64,
    flags: u8,
)
    requires
        stream.len() == 32,
    ensures
        ({
            let s = stream_with(stream, first_cluster, data_len, valid_len, flags);
            &&& s.len() == 32
            &&& s[0] == stream[0]
            &&& s[1] == flags
            &&& s[3] == stream[3]
            &&& le64(s, 8) == valid_len
            &&& le32(s, 20) == first_cluster
            &&& le64(s, 24) == data_len
        }),
{
    let s = stream_with(stream, first_cluster, data_len, valid_len, flags);
    assert(slice_of(s, 8, 8) =~= le64_bytes(valid_len));
    assert(slice_of(s, 20, 4) =~= le32_bytes(first_cluster));
    assert(slice_of(s, 24, 8) =~= le64_bytes(data_len));
    read_64(s, 8, valid_len);
    read_32(s, 20, first_cluster);
    read_64(s, 24, data_len);
}

proof fn lemma_same_pieces(a: Seq<Seq<u8>>, b: Seq<Seq<u8>>, j: int)
    requires
        a.len() == b.len(),
        2 <= j,
        forall|i: int| 2 <= i < a.len() ==> #[trigger] a[i] == b[i],
    ensures
        name_pieces(a, j) == name_pieces(b, j),
    decreases a.len() - j,
{
    if j < a.len() {
        assert(a[j] == b[j]);
        lemma_same_pieces(a, b, j + 1);
    }
}

proof fn lemma_words_apart(a: Seq<u8>, b: Seq<u8>, off: int)
    requires
        a.len() == 32,
        b.len() == 32,
        0 <= off,
        off + 4 <= 32,
        forall|i: int| off <= i < off + 4 ==> a[i] == b[i],
    ensures
        le16(a, off) == le16(b, off),
        le32(a, off) == le32(b, off),
{
    reveal(le16);
    reveal(le32);
}

/// A reissued set is valid and says the new facts, and otherwise what it said
/// before.
pub proof fn reissued_set_is_valid(
    set: Seq<Seq<u8>>,
    first_cluster: u32,
    data_len: u64,
    valid_len: u64,
    flags: u8,
)
    requires
        2 <= set.len(),
        forall|i: int| 0 <= i < set.len() ==> (#[trigger] set[i]).len() == 32,
        set_entry(set) is Ok,
    ensures
        ({
            let next = reissued(set, first_cluster, data_len, valid_len, flags);
            let e = set_entry(set)->Ok_0;
            &&& set_entry(next) == Ok::<EntryModel, ExFault>(
                EntryModel {
                    name: e.name,
                    is_dir: e.is_dir,
                    size: data_len,
                    valid_size: valid_len,
                    first_cluster,
                    no_fat_chain: flags / 2 % 2 == 1,
                    mtime_ms: e.mtime_ms,
                },
            )
            &&& next.len() == set.len()
            &&& next[0][0] == set[0][0]
            &&& next[0][1] == set[0][1]
            &&& next[1][0] == set[1][0]
            &&& name_units(next) == name_units(set)
            &&& forall|i: int| 0 <= i < next.len() ==> (#[trigger] next[i]).len() == 32
        }),
{
    let next = reissued(set, first_cluster, data_len, valid_len, flags);
    let mid = set.update(1, stream_with(set[1], first_cluster, data_len, valid_len, flags));
    let sum = set_sum(mid, (32 * mid.len()) as nat);
    lemma_stream_with(set[1], first_cluster, data_len, valid_len, flags);
    let file = next[0];
    assert(file == splice(set[0], 2, le16_bytes(sum)));
    assert(set[0].len() == 32 && set[1].len() == 32);
    assert(file.len() == 32);
    assert forall|i: int| 0 <= i < next.len() implies (#[trigger] next[i]).len() == 32 by {
        if i >= 2 {
            assert(next[i] == set[i]);
        }
    }
    assert forall|i: int| 0 <= i < mid.len() implies (#[trigger] mid[i]).len() == 32
        && next[i].len() == 32 by {
        if i != 1 {
            assert(mid[i] == set[i]);
        }
        assert(next[i].len() == 32);
    }
    checksum_skips_its_field(mid, next, (32 * mid.len()) as nat);
    assert(slice_of(file, 2, 2) =~= le16_bytes(sum));
    read_16(file, 2, sum);
    assert(next[1] == mid[1]);
    lemma_same_pieces(set, next, 2);
    assert forall|i: int| 4 <= i < 32 implies file[i] == set[0][i] by {}
    lemma_words_apart(file, set[0], 4);
    lemma_words_apart(file, set[0], 12);
}

/// What comes from the `i`-th raw entry on decides what is parsed there.
pub proof fn lemma_parsed_tail(a: Seq<Seq<u8>>, b: Seq<Seq<u8>>, i: int)
    requires
        a.len() == b.len(),
        0 <= i,
        forall|j: int| i <= j < a.len() ==> #[trigger] a[j] == b[j],
    ensures
        parsed_from(a, i) == parsed_from(b, i),
    decreases a.len() - i,
{
    if i < a.len() {
        assert(a[i] == b[i]);
        if a[i][0] != ENTRY_FILE {
            lemma_parsed_tail(a, b, i + 1);
        } else {
            let next = i + 1 + a[i][1];
            if 2 <= a[i][1] && next <= a.len() {
                assert(a.subrange(i, next) =~= b.subrange(i, next));
                lemma_parsed_tail(a, b, next);
            }
        }
    }
}

/// Replacing a set in place by a valid one with the same name and as many
/// entries leaves the directory parsing, and the name at its place.
pub proof fn replaced_set_is_found(
    upcase: Seq<u16>,
    a: Seq<Seq<u8>>,
    b: Seq<Seq<u8>>,
    name: Seq<char>,
    i: int,
    k: int,
)
    requires
        a.len() == b.len(),
        0 <= i <= k,
        parsed_from(a, i) is Ok,
        found_at(upcase, a, name, i) == Some(k),
        b[k][0] == ENTRY_FILE,
        b[k][1] == a[k][1],
        set_entry(set_from(b, k)) is Ok,
        name_units(set_from(b, k)) == name_units(set_from(a, k)),
        forall|j: int| 0 <= j < a.len() && !(k <= j < k + 1 + a[k][1]) ==> #[trigger] a[j] == b[j],
    ensures
        parsed_from(b, i) is Ok,
        found_at(upcase, b, name, i) == Some(k),
    decreases k - i,
{
    named_is_found(upcase, a, name, i);
    if i == k {
        lemma_parsed_tail(a, b, k + 1 + a[k][1]);
    } else {
        assert(a[i] == b[i]);
        if a[i][0] != ENTRY_FILE {
            replaced_set_is_found(upcase, a, b, name, i + 1, k);
        } else {
            let next = i + 1 + a[i][1];
            named_is_found(upcase, a, name, next);
            assert(next <= k);
            assert(set_from(a, i) =~= set_from(b, i));
            replaced_set_is_found(upcase, a, b, name, next, k);
        }
    }
}

/// The raw entries at a set's slots are the set.
pub proof fn raws_are_the_set(
    img: Seq<u8>,
    offsets: Seq<u64>,
    raws: Seq<Seq<u8>>,
    k: int,
    n: int,
    j: int,
)
    requires
        slots_hold(img, offsets, raws),
        0 <= k,
        k + n <= raws.len(),
        0 <= j <= n,
    ensures
        raws_from(img, offsets.subrange(k, k + n), j) == Ok::<Seq<Seq<u8>>, ExFault>(
            raws.subrange(k + j, k + n),
        ),
    decreases n - j,
{
    if j < n {
        raws_are_the_set(img, offsets, raws, k, n, j + 1);
        assert(offsets.subrange(k, k + n)[j] == offsets[k + j]);
        assert(seq![raws[k + j]] + raws.subrange(k + j + 1, k + n) =~= raws.subrange(k + j, k + n));
    } else {
        assert(raws.subrange(k + n, k + n) =~= seq![]);
    }
}

/// Writing a raw entry into a slot of a directory touches the directory's
/// clusters alone, and changes that raw entry alone.
pub proof fn row_put(img: Seq<u8>, geo: Geometry, chain: Seq<u32>, k: int, data: Seq<u8>)
    requires
        placed(geo, img.len()),
        all_exist(geo, chain),
        chain.no_duplicates(),
        0 <= k < chain.len() * per_cluster(geo),
        data.len() == 32,
    ensures
        ({
            let after = splice(img, slots(geo, chain)[k] as int, data);
            &&& slots(geo, chain)[k] + 32 <= img.len()
            &&& confined(img, after, geo, Set::empty(), members(chain))
            &&& rows_in(after, geo, chain) == rows_in(img, geo, chain).update(k, data)
        }),
{
    let p = per_cluster(geo);
    let c = chain[k / p] as int;
    lemma_row(geo, chain.len() as int, k);
    slot_holds_row(img, geo, chain, k);
    assert(geo.has_cluster(c));
    cluster_place(geo, img.len(), c);
    let within = 32 * (k % p);
    let after = splice(img, slots(geo, chain)[k] as int, data);
    cluster_put(img, geo, c, within, data);
    let one = Set::<int>::empty().insert(c);
    assert(members(chain).contains(c));
    confined_weaker(img, after, geo, Set::empty(), one, Set::empty(), members(chain));
    let want = rows_in(img, geo, chain).update(k, data);
    assert forall|j: int| 0 <= j < chain.len() * p implies row_in(after, geo, chain, j)
        == want[j] by {
        lemma_row(geo, chain.len() as int, j);
        let c2 = chain[j / p] as int;
        assert(geo.has_cluster(c2));
        if j / p == k / p {
            assert(cluster_of(img, geo, c).len() == geo.cluster_len());
            assert(row_in(after, geo, chain, j) =~= want[j]);
        } else {
            assert(chain[j / p] != chain[k / p]);
            reveal(confined);
            assert(cluster_of(after, geo, c2) == cluster_of(img, geo, c2));
        }
    }
    assert(rows_in(after, geo, chain) =~= want);
}

/// Names stay sound where a set is replaced by one with the same name.
pub proof fn replaced_names_are_sound(
    upcase: Seq<u16>,
    a: Seq<Seq<u8>>,
    b: Seq<Seq<u8>>,
    name: Seq<char>,
    i: int,
    k: int,
)
    requires
        a.len() == b.len(),
        0 <= i <= k,
        found_at(upcase, a, name, i) == Some(k),
        sound_names(a, i),
        b[k][0] == ENTRY_FILE,
        b[k][1] == a[k][1],
        name_units(set_from(b, k)) == name_units(set_from(a, k)),
        forall|j: int| 0 <= j < a.len() && !(k <= j < k + 1 + a[k][1]) ==> #[trigger] a[j] == b[j],
    ensures
        sound_names(b, i),
    decreases k - i,
{
    lemma_found_after(upcase, a, name, i);
    if i == k {
        lemma_names_tail(a, b, k + 1 + a[k][1]);
    } else {
        assert(a[i] == b[i]);
        if a[i][0] != ENTRY_FILE {
            replaced_names_are_sound(upcase, a, b, name, i + 1, k);
        } else {
            let next = i + 1 + a[i][1];
            lemma_found_after(upcase, a, name, next);
            assert(set_from(a, i) =~= set_from(b, i));
            replaced_names_are_sound(upcase, a, b, name, next, k);
        }
    }
}

proof fn lemma_found_after(upcase: Seq<u16>, raws: Seq<Seq<u8>>, name: Seq<char>, i: int)
    ensures
        found_at(upcase, raws, name, i) matches Some(k) ==> i <= k < raws.len() && raws[k][0]
            == ENTRY_FILE && 2 <= raws[k][1] && k + 1 + raws[k][1] <= raws.len(),
    decreases raws.len() - i,
{
    if 0 <= i < raws.len() {
        if raws[i][0] != ENTRY_FILE {
            lemma_found_after(upcase, raws, name, i + 1);
        } else if 2 <= raws[i][1] && i + 1 + raws[i][1] <= raws.len() {
            lemma_found_after(upcase, raws, name, i + 1 + raws[i][1]);
        }
    }
}

pub proof fn lemma_names_tail(a: Seq<Seq<u8>>, b: Seq<Seq<u8>>, i: int)
    requires
        a.len() == b.len(),
        0 <= i,
        sound_names(a, i),
        forall|j: int| i <= j < a.len() ==> #[trigger] a[j] == b[j],
    ensures
        sound_names(b, i),
    decreases a.len() - i,
{
    if i < a.len() {
        assert(a[i] == b[i]);
        if a[i][0] != ENTRY_FILE {
            lemma_names_tail(a, b, i + 1);
        } else {
            let next = i + 1 + a[i][1];
            assert(set_from(a, i) =~= set_from(b, i));
            lemma_names_tail(a, b, next);
        }
    }
}

} // verus!
