//! The write side. Everything written is chained in the table, so allocation
//! and growth are uniform.
//!
//! Ordering discipline: allocate in the bitmap, write cluster data, flush,
//! publish or update the directory entry, flush. Data reaches the disk before
//! an entry refers to it, so a power cut leaves at worst lost clusters, never
//! a directory that points at garbage.

use vstd::prelude::*;

use super::boot::Geometry;
use super::clusters::{
    alloc_chain, allocation, chain_freed, extend_chain, extension, free_chain, free_clusters,
    freed, link_chain, linked, run_clusters, run_of, set_fat, strung,
};
use super::dir::{
    chain_len_bound, directory, name_piece, per_cluster, read_directory, roll16, roll_u16, rows,
    set_checksum, set_sum, Entry, ENTRY_END, ENTRY_FILE, ENTRY_NAME, ENTRY_STREAM,
};
use super::fat::{chain_clusters_exist, chain_of, read_chain, END_OF_CHAIN};
use super::fs::{units_match, BitmapLoc, ExfatFs, Volume};
use super::io::{
    barrier, bytes_at, carries, due, fetch, put_at, seen, seen_view, store, sure, trust, unmoved, wrote, ExFault, ExfatError, ExfatResult, ReadAt, WriteAt,
};
use super::upcase::{div_ceil, lesser, parts, upcased, upcased_all, UpcaseTable};
use crate::bytes::{
    le16, le16_bytes, le32, le32_bytes, le64, le64_bytes, put, put_le16, put_le32, put_le64, read_le16,
    read_le32, read_le64, splice, zeroed, zeros,
};
use crate::device::Disk;
use crate::text::{
    components, encode_utf16, leaf_of, parent_of, path_components, split_parent, texts, utf16_of,
};

verus! {

broadcast use crate::bytes::group_widths;

/// A fixed, valid timestamp, 2024-01-01 00:00:00, so that writes depend on
/// nothing but their arguments.
pub const FIXED_TS: u32 = 0x5821_0000;

/// The hash of a name that its stream entry stores: a rotate-right sum over
/// the bytes of its up-cased code units.
pub open spec fn hash_of(upcase: Seq<u16>, units: Seq<u16>) -> u16
    decreases units.len(),
{
    if units.len() == 0 {
        0
    } else {
        let up = upcased(upcase, units.last());
        roll16(
            roll16(hash_of(upcase, units.drop_last()), (up % 0x100) as u8),
            (up / 0x100) as u8,
        )
    }
}

fn name_hash(upcase: &UpcaseTable, name: &[u16]) -> (r: u16)
    ensures
        r == hash_of(upcase@, name@),
{
    let n: usize = name.len();
    let mut hash: u16 = 0;
    let mut i: usize = 0;
    while i < n
        invariant
            i <= n == name@.len(),
            hash == hash_of(upcase@, name@.take(i as int)),
        decreases n - i,
    {
        assert(name@.take(i + 1).drop_last() =~= name@.take(i as int));
        let up: u16 = upcase.map(name[i]);
        hash = roll_u16(roll_u16(hash, (up % 0x100) as u8), (up / 0x100) as u8);
        i = i + 1;
    }
    assert(name@.take(n as int) =~= name@);
    hash
}

/// The offsets of every 32-byte slot of a directory, in chain order.
pub open spec fn slots(geo: Geometry, chain: Seq<u32>) -> Seq<u64> {
    Seq::new(
        (chain.len() * per_cluster(geo)) as nat,
        |k: int|
            (geo.cluster_start(chain[k / per_cluster(geo)] as int) + 32 * (k % per_cluster(
                geo,
            ))) as u64,
    )
}

struct DirSlots {
    chain: Vec<u32>,
    offsets: Vec<u64>,
}

proof fn lemma_chain_nonempty(img: Seq<u8>, geo: Geometry, first: u32)
    ensures
        chain_of(img, geo, first, None) matches Ok(c) ==> c.len() >= 1,
{
}

fn dir_slots<D: ReadAt>(disk: &mut D, geo: &Geometry, first: u32) -> (r: ExfatResult<DirSlots>)
    requires
        geo.wf(),
    ensures
        unmoved(*old(disk), *final(disk)),
        match r {
            Ok(s) => {
                &&& chain_of(old(disk).disk().bytes, *geo, first, None) == Ok::<Seq<u32>, ExFault>(
                    s.chain@,
                )
                &&& s.offsets@ == slots(*geo, s.chain@)
                &&& s.chain@.len() >= 1
                &&& s.chain@.len() <= geo.cluster_count
                &&& forall|i: int|
                    0 <= i < s.chain@.len() ==> geo.has_cluster(#[trigger] s.chain@[i] as int)
            },
            Err(e) => due(
                sure(*old(disk)),
                Err::<Seq<u32>, ExFault>(e@),
                chain_of(old(disk).disk().bytes, *geo, first, None),
            ),
        },
{
    let ghost img = disk.disk().bytes;
    let chain: Vec<u32> = read_chain(disk, geo, first, None)?;
    proof {
        chain_clusters_exist(img, *geo, first, 0, geo.cluster_count as int, false);
        chain_len_bound(img, *geo, first, 0, geo.cluster_count as int, false);
        lemma_chain_nonempty(img, *geo, first);
    }
    let per: usize = (geo.cluster_bytes() / 32) as usize;
    let ghost all = slots(*geo, chain@);
    let mut offsets: Vec<u64> = Vec::new();
    let mut c: usize = 0;
    assert(0 * per == 0);
    while c < chain.len()
        invariant
            geo.wf(),
            per == per_cluster(*geo),
            16 <= per,
            c <= chain@.len(),
            all == slots(*geo, chain@),
            forall|i: int|
                0 <= i < chain@.len() ==> geo.has_cluster(#[trigger] chain@[i] as int),
            offsets@.len() == c * per,
            c * per <= all.len(),
            forall|k: int| 0 <= k < offsets@.len() ==> offsets@[k] == #[trigger] all[k],
        decreases chain@.len() - c,
    {
        let base: u64 = match geo.cluster_offset(chain[c]) {
            Ok(o) => o,
            Err(e) => {
                assert(false);
                return Err(e);
            },
        };
        proof {
            assert(c * per + per == (c + 1) * per) by (nonlinear_arith);
            assert((c + 1) * per <= chain@.len() * per) by (nonlinear_arith)
                requires
                    c + 1 <= chain@.len(),
                    per >= 0,
            ;
        }
        let mut s: usize = 0;
        while s < per
            invariant
                geo.wf(),
                per == per_cluster(*geo),
                per <= 0x10_0000,
                s <= per,
                c < chain@.len(),
                all == slots(*geo, chain@),
                base == geo.cluster_start(chain@[c as int] as int),
                base < 0x400_0000_0000_0000,
                c * per + per <= all.len(),
                offsets@.len() == c * per + s,
                forall|k: int| 0 <= k < offsets@.len() ==> offsets@[k] == #[trigger] all[k],
            decreases per - s,
        {
            let ghost k = c * per + s;
            assert(k / per as int == c && k % per as int == s) by (nonlinear_arith)
                requires
                    k == c * per + s,
                    0 <= s < per,
            ;
            offsets.push(base + 32 * s as u64);
            s = s + 1;
        }
        c = c + 1;
    }
    assert(offsets@ =~= all);
    Ok(DirSlots { chain, offsets })
}

fn read_slot<D: ReadAt>(disk: &mut D, off: u64) -> (r: ExfatResult<[u8; 32]>)
    ensures
        unmoved(*old(disk), *final(disk)),
        due(
            sure(*old(disk)),
            seen_view(r),
            bytes_at(old(disk).disk().bytes, off as int, 32),
        ),
{
    let mut raw: [u8; 32] = [0u8; 32];
    fetch(disk, off, &mut raw)?;
    Ok(raw)
}

/// A located, in-use entry set.
pub struct EntryLoc {
    /// Disk offset of each entry of the set.
    pub offsets: Vec<u64>,
    pub first_cluster: u32,
    pub data_len: u64,
    /// How much of the data has been written; the rest reads as zeros.
    pub valid_len: u64,
    pub is_dir: bool,
    pub flags: u8,
}

/// A located entry set as a value.
#[verifier::ext_equal]
pub struct LocModel {
    pub offsets: Seq<u64>,
    pub first_cluster: u32,
    pub data_len: u64,
    /// How much of the data has been written; the rest reads as zeros.
    pub valid_len: u64,
    pub is_dir: bool,
    pub flags: u8,
}

impl View for EntryLoc {
    type V = LocModel;

    open spec fn view(&self) -> LocModel {
        LocModel {
            offsets: self.offsets@,
            first_cluster: self.first_cluster,
            data_len: self.data_len,
            valid_len: self.valid_len,
            is_dir: self.is_dir,
            flags: self.flags,
        }
    }
}

pub open spec fn opt_loc(l: Option<EntryLoc>) -> Option<LocModel> {
    match l {
        Some(l) => Some(l@),
        None => None,
    }
}

pub open spec fn seen_loc(r: ExfatResult<Option<EntryLoc>>) -> Result<Option<LocModel>, ExFault> {
    match r {
        Ok(l) => Ok(opt_loc(l)),
        Err(e) => Err(e@),
    }
}

/// The code units in the name entries at the given offsets from the `j`-th on,
/// up to the first entry of another type.
pub open spec fn stored_name(img: Seq<u8>, offsets: Seq<u64>, j: int) -> Result<Seq<u16>, ExFault>
    decreases offsets.len() - j,
{
    if j < 0 || j >= offsets.len() {
        Ok(seq![])
    } else {
        match bytes_at(img, offsets[j] as int, 32) {
            Err(f) => Err(f),
            Ok(e) => if e[0] != ENTRY_NAME {
                Ok(seq![])
            } else {
                match stored_name(img, offsets, j + 1) {
                    Err(f) => Err(f),
                    Ok(rest) => Ok(name_piece(e) + rest),
                }
            },
        }
    }
}

/// The entry set whose File entry lies at the first of the given offsets, and
/// the code units of its name.
pub open spec fn set_at(img: Seq<u8>, offsets: Seq<u64>, file: Seq<u8>) -> Result<
    (LocModel, Seq<u16>),
    ExFault,
> {
    match bytes_at(img, offsets[1] as int, 32) {
        Err(f) => Err(f),
        Ok(stream) => match stored_name(img, offsets, 2) {
            Err(f) => Err(f),
            Ok(all) => Ok(
                (
                    LocModel {
                        offsets,
                        first_cluster: le32(stream, 20),
                        data_len: le64(stream, 24),
                        valid_len: le64(stream, 8),
                        is_dir: le16(file, 4) / 16 % 2 == 1,
                        flags: stream[1],
                    },
                    all.take(lesser(stream[3] as int, all.len() as int)),
                ),
            ),
        },
    }
}

/// The first in-use entry set with the given up-cased name among the slots
/// from the `i`-th on. A set cut off by the end of the directory ends the
/// search.
pub open spec fn located_from(
    img: Seq<u8>,
    upcase: Seq<u16>,
    offsets: Seq<u64>,
    want: Seq<u16>,
    i: int,
) -> Result<Option<LocModel>, ExFault>
    decreases offsets.len() - i,
{
    if i < 0 || i >= offsets.len() {
        Ok(None)
    } else {
        match bytes_at(img, offsets[i] as int, 32) {
            Err(f) => Err(f),
            Ok(raw) => if raw[0] == ENTRY_END {
                Ok(None)
            } else if raw[0] != ENTRY_FILE {
                located_from(img, upcase, offsets, want, i + 1)
            } else if i + raw[1] >= offsets.len() {
                Ok(None)
            } else if raw[1] == 0 {
                Err(ExFault::Invalid("file entry set truncated"@))
            } else {
                match set_at(img, offsets.subrange(i, i + raw[1] + 1), raw) {
                    Err(f) => Err(f),
                    Ok((loc, units)) => if upcased_all(upcase, units) == upcased_all(upcase, want) {
                        Ok(Some(loc))
                    } else {
                        located_from(img, upcase, offsets, want, i + 1 + raw[1])
                    },
                }
            },
        }
    }
}

/// The entry set of a name in the directory that starts at `dir_first`.
pub open spec fn located(img: Seq<u8>, vol: Volume, dir_first: u32, name: Seq<char>) -> Result<
    Option<LocModel>,
    ExFault,
> {
    match chain_of(img, vol.geo, dir_first, None) {
        Err(f) => Err(f),
        Ok(chain) => located_from(img, vol.upcase, slots(vol.geo, chain), utf16_of(name), 0),
    }
}

fn copy_offsets(v: &Vec<u64>, from: usize, to: usize) -> (r: Vec<u64>)
    requires
        from <= to <= v@.len(),
    ensures
        r@ == v@.subrange(from as int, to as int),
{
    let mut out: Vec<u64> = Vec::new();
    let mut i: usize = from;
    while i < to
        invariant
            from <= i <= to <= v@.len(),
            out@ =~= v@.subrange(from as int, i as int),
        decreases to - i,
    {
        out.push(v[i]);
        i = i + 1;
    }
    out
}

fn read_stored_name<D: ReadAt>(disk: &mut D, offsets: &Vec<u64>, want: usize) -> (r: ExfatResult<
    Vec<u16>,
>)
    requires
        want <= 255,
    ensures
        unmoved(*old(disk), *final(disk)),
        due(
            sure(*old(disk)),
            seen_view(r),
            match stored_name(old(disk).disk().bytes, offsets@, 2) {
                Ok(all) => Ok(all.take(lesser(want as int, all.len() as int))),
                Err(f) => Err(f),
            },
        ),
{
    let ghost img = disk.disk().bytes;
    let mut units: Vec<u16> = Vec::new();
    let ghost mut all: Seq<u16> = seq![];
    let mut j: usize = 2;
    proof {
        match stored_name(img, offsets@, 2) {
            Ok(rest) => {
                assert(all + rest =~= rest);
            },
            Err(_) => {},
        }
        assert(units@ =~= all.take(lesser(want as int, all.len() as int)));
    }
    while j < offsets.len()
        invariant
            2 <= j,
            want <= 255,
            img == disk.disk().bytes,
            unmoved(*old(disk), *disk),
            stored_name(img, offsets@, 2) == match stored_name(img, offsets@, j as int) {
                Ok(rest) => Ok(all + rest),
                Err(f) => Err(f),
            },
            units@ == all.take(lesser(want as int, all.len() as int)),
        decreases offsets@.len() - j,
    {
        let e: [u8; 32] = read_slot(disk, offsets[j])?;
        if e[0] != ENTRY_NAME {
            assert(all + Seq::<u16>::empty() =~= all);
            return Ok(units);
        }
        let ghost was = all;
        let mut k: usize = 0;
        while k < 15
            invariant
                k <= 15,
                e@.len() == 32,
                all =~= was + name_piece(e@).take(k as int),
                units@ == all.take(lesser(want as int, all.len() as int)),
            decreases 15 - k,
        {
            let u: u16 = read_le16(e.as_slice(), 2 + 2 * k);
            proof {
                all = all.push(u);
            }
            if units.len() < want {
                units.push(u);
            }
            assert(units@ =~= all.take(lesser(want as int, all.len() as int)));
            k = k + 1;
        }
        proof {
            assert(name_piece(e@).take(15) =~= name_piece(e@));
            match stored_name(img, offsets@, j + 1) {
                Ok(rest) => {
                    assert(was + (name_piece(e@) + rest) =~= all + rest);
                },
                Err(_) => {},
            }
        }
        j = j + 1;
    }
    assert(all + Seq::<u16>::empty() =~= all);
    Ok(units)
}

/// Locate an in-use file or directory entry set by name, case-insensitively.
pub(crate) fn locate<D: ReadAt>(
    disk: &mut D,
    geo: &Geometry,
    upcase: &UpcaseTable,
    dir_first: u32,
    name: &str,
) -> (r: ExfatResult<Option<EntryLoc>>)
    requires
        geo.wf(),
    ensures
        unmoved(*old(disk), *final(disk)),
        due(
            sure(*old(disk)),
            seen_loc(r),
            located(
                old(disk).disk().bytes,
                Volume { geo: *geo, upcase: upcase@, bitmap: None },
                dir_first,
                name@,
            ),
        ),
        r matches Ok(Some(l)) ==> l.offsets@.len() >= 2 && l.offsets@.len() <= 256,
{
    let ghost img = disk.disk().bytes;
    let found: DirSlots = dir_slots(disk, geo, dir_first)?;
    let want: Vec<u16> = encode_utf16(name);
    let offsets: Vec<u64> = found.offsets;
    let n: usize = offsets.len();
    let mut i: usize = 0;
    while i < n
        invariant
            geo.wf(),
            i <= n == offsets@.len(),
            want@ == utf16_of(name@),
            img == disk.disk().bytes,
            unmoved(*old(disk), *disk),
            located(
                img,
                Volume { geo: *geo, upcase: upcase@, bitmap: None },
                dir_first,
                name@,
            ) == located_from(img, upcase@, offsets@, want@, i as int),
        decreases n - i,
    {
        let raw: [u8; 32] = read_slot(disk, offsets[i])?;
        if raw[0] == ENTRY_END {
            return Ok(None);
        }
        if raw[0] != ENTRY_FILE {
            i = i + 1;
            continue ;
        }
        let secondary: usize = raw[1] as usize;
        if secondary >= n - i {
            return Ok(None);
        }
        if secondary == 0 {
            return Err(ExfatError::Invalid("file entry set truncated"));
        }
        let set: Vec<u64> = copy_offsets(&offsets, i, i + secondary + 1);
        let stream: [u8; 32] = read_slot(disk, set[1])?;
        let units: Vec<u16> = read_stored_name(disk, &set, stream[3] as usize)?;
        if units_match(upcase, units.as_slice(), want.as_slice()) {
            return Ok(
                Some(
                    EntryLoc {
                        offsets: set,
                        first_cluster: read_le32(stream.as_slice(), 20),
                        data_len: read_le64(stream.as_slice(), 24),
                        valid_len: read_le64(stream.as_slice(), 8),
                        is_dir: read_le16(raw.as_slice(), 4) / 16 % 2 == 1,
                        flags: stream[1],
                    },
                ),
            );
        }
        i = i + 1 + secondary;
    }
    Ok(None)
}

/// A directory that can be written into: its first cluster and, for a
/// subdirectory, its own entry set, so that growth can update its size.
#[verifier::ext_equal]
pub struct DirModel {
    pub first_cluster: u32,
    pub entry: Option<LocModel>,
}

struct DirHandle {
    first_cluster: u32,
    entry: Option<EntryLoc>,
}

impl View for DirHandle {
    type V = DirModel;

    closed spec fn view(&self) -> DirModel {
        DirModel { first_cluster: self.first_cluster, entry: opt_loc(self.entry) }
    }
}

impl DirHandle {
    /// The entry of a subdirectory is a whole set.
    spec fn wf(&self) -> bool {
        self.entry matches Some(l) ==> l.offsets@.len() >= 2 && l.offsets@.len() <= 256
    }
}

/// The directory reached from `cur` by the components from the `i`-th on.
pub open spec fn dir_from(
    img: Seq<u8>,
    vol: Volume,
    comps: Seq<Seq<char>>,
    i: int,
    cur: DirModel,
) -> Result<DirModel, ExFault>
    decreases comps.len() - i,
{
    if i < 0 || i >= comps.len() {
        Ok(cur)
    } else {
        match located(img, vol, cur.first_cluster, comps[i]) {
            Err(f) => Err(f),
            Ok(None) => Err(ExFault::NotFound),
            Ok(Some(loc)) => if !loc.is_dir {
                Err(ExFault::Invalid("path component is not a directory"@))
            } else {
                dir_from(
                    img,
                    vol,
                    comps,
                    i + 1,
                    DirModel { first_cluster: loc.first_cluster, entry: Some(loc) },
                )
            },
        }
    }
}

/// The directory in which a path's own name lies.
pub open spec fn parent_dir(img: Seq<u8>, vol: Volume, path: Seq<char>) -> Result<
    DirModel,
    ExFault,
> {
    if leaf_of(path).len() == 0 {
        Err(ExFault::Invalid("empty file name"@))
    } else {
        dir_from(
            img,
            vol,
            components(parent_of(path)),
            0,
            DirModel { first_cluster: vol.geo.root_first_cluster, entry: None },
        )
    }
}

/// The directory of a path and, where there is one, the entry set of its name.
pub open spec fn target(img: Seq<u8>, vol: Volume, path: Seq<char>) -> Result<
    (DirModel, Option<LocModel>),
    ExFault,
> {
    match parent_dir(img, vol, path) {
        Err(f) => Err(f),
        Ok(dir) => match located(img, vol, dir.first_cluster, leaf_of(path)) {
            Err(f) => Err(f),
            Ok(loc) => Ok((dir, loc)),
        },
    }
}

/// The entry set at a path that must exist.
pub open spec fn existing(img: Seq<u8>, vol: Volume, path: Seq<char>) -> Result<
    LocModel,
    ExFault,
> {
    match target(img, vol, path) {
        Err(f) => Err(f),
        Ok((_, None)) => Err(ExFault::NotFound),
        Ok((_, Some(loc))) => Ok(loc),
    }
}

/// Filling a cluster with zeros, which end a directory.
pub open spec fn cluster_zeroed(disk: Disk, geo: Geometry, cluster: u32) -> (
    Disk,
    Result<(), ExFault>,
) {
    match geo.cluster_at(cluster as int) {
        Err(f) => (disk, Err(f)),
        Ok(off) => put_at(disk, off, zeros(geo.cluster_len() as nat)),
    }
}

/// The raw entries at the given offsets from the `j`-th on.
pub open spec fn raws_from(img: Seq<u8>, offsets: Seq<u64>, j: int) -> Result<
    Seq<Seq<u8>>,
    ExFault,
>
    decreases offsets.len() - j,
{
    if j < 0 || j >= offsets.len() {
        Ok(seq![])
    } else {
        match bytes_at(img, offsets[j] as int, 32) {
            Err(f) => Err(f),
            Ok(raw) => match raws_from(img, offsets, j + 1) {
                Err(f) => Err(f),
                Ok(rest) => Ok(seq![raw] + rest),
            },
        }
    }
}

/// A stream entry with new facts in it.
pub open spec fn stream_with(
    stream: Seq<u8>,
    first_cluster: u32,
    data_len: u64,
    valid_len: u64,
    flags: u8,
) -> Seq<u8> {
    splice(
        splice(
            splice(stream.update(1, flags), 8, le64_bytes(valid_len)),
            20,
            le32_bytes(first_cluster),
        ),
        24,
        le64_bytes(data_len),
    )
}

/// Rewriting the facts of an entry set in place: its stream entry, and the
/// checksum in its File entry. The rest of the set stays. Where the two lie
/// side by side they are one write, so that the checksum never disagrees.
pub open spec fn restreamed(
    disk: Disk,
    loc: LocModel,
    first_cluster: u32,
    data_len: u64,
    valid_len: u64,
    flags: u8,
) -> (Disk, Result<(), ExFault>) {
    match raws_from(disk.bytes, loc.offsets, 0) {
        Err(f) => (disk, Err(f)),
        Ok(raws) => {
            let stream = stream_with(raws[1], first_cluster, data_len, valid_len, flags);
            let set = raws.update(1, stream);
            let file = splice(raws[0], 2, le16_bytes(set_sum(set, (32 * set.len()) as nat)));
            if loc.offsets[1] == loc.offsets[0] + 32 {
                put_at(disk, loc.offsets[0] as int, file + stream)
            } else {
                match put_at(disk, loc.offsets[0] as int, file) {
                    (d, Err(f)) => (d, Err(f)),
                    (d, Ok(_)) => put_at(d, loc.offsets[1] as int, stream),
                }
            }
        },
    }
}

/// Whether a slot can take a new entry: it ends the directory or is deleted.
pub open spec fn usable(raw: Seq<u8>) -> bool {
    raw[0] < 0x80
}

/// Where the first `k` consecutive usable slots within one cluster start, from
/// slot `s` on, `run` usable ones of the cluster coming directly before it.
pub open spec fn run_from(
    img: Seq<u8>,
    offsets: Seq<u64>,
    per: int,
    k: int,
    s: int,
    run: int,
) -> Result<Option<int>, ExFault>
    decreases offsets.len() - s,
{
    if s < 0 || s >= offsets.len() {
        Ok(None)
    } else {
        let before = if s % per == 0 {
            0
        } else {
            run
        };
        match bytes_at(img, offsets[s] as int, 32) {
            Err(f) => Err(f),
            Ok(raw) => if !usable(raw) {
                run_from(img, offsets, per, k, s + 1, 0)
            } else if before + 1 >= k {
                Ok(Some(s - before))
            } else {
                run_from(img, offsets, per, k, s + 1, before + 1)
            },
        }
    }
}

/// Growing a directory by one cluster, all of it free: the cluster is
/// allocated, zeroed and flushed before the directory's chain leads to it, and
/// the chain before a subdirectory's size is updated.
pub open spec fn dir_grown(disk: Disk, vol: Volume, dir: DirModel, tail: u32) -> (
    Disk,
    Result<u32, ExFault>,
) {
    match vol.bitmap {
        None => (disk, Err(ExFault::Invalid("no allocation bitmap"@))),
        Some(bm) => match allocation(disk, vol.geo, bm, 1) {
            (d, Err(f)) => (d, Err(f)),
            (d, Ok(added)) => match cluster_zeroed(d, vol.geo, added[0]) {
                (d2, Err(f)) => (d2, Err(f)),
                (d2, Ok(_)) => match linked(d2.flushed(), vol.geo, tail as int, added[0]) {
                    (d3, Err(f)) => (d3, Err(f)),
                    (d3, Ok(_)) => match dir.entry {
                        None => (d3.flushed(), Ok(added[0])),
                        Some(e) => {
                            let new_len = e.data_len + vol.geo.cluster_len();
                            if new_len > u64::MAX {
                                (
                                    d3.flushed(),
                                    Err(ExFault::Invalid("directory length out of range"@)),
                                )
                            } else {
                                match restreamed(
                                    d3.flushed(),
                                    e,
                                    e.first_cluster,
                                    new_len as u64,
                                    new_len as u64,
                                    e.flags,
                                ) {
                                    (d4, Err(f)) => (d4, Err(f)),
                                    (d4, Ok(_)) => (d4.flushed(), Ok(added[0])),
                                }
                            }
                        },
                    },
                },
            },
        },
    }
}

/// The type of a slot that is not in use and does not end its directory.
pub const ENTRY_DELETED: u8 = 0x05;

/// Marking the slots from the `j`-th to the `to`-th that end their directory
/// as merely not in use, so that what comes behind them is seen.
pub open spec fn opened_up(disk: Disk, offsets: Seq<u64>, j: int, to: int) -> (
    Disk,
    Result<(), ExFault>,
)
    decreases to - j,
{
    if j < 0 || j >= to {
        (disk, Ok(()))
    } else {
        match bytes_at(disk.bytes, offsets[j] as int, 32) {
            Err(f) => (disk, Err(f)),
            Ok(raw) => if raw[0] != ENTRY_END {
                opened_up(disk, offsets, j + 1, to)
            } else {
                match put_at(disk, offsets[j] as int, raw.update(0, ENTRY_DELETED)) {
                    (d, Err(f)) => (d, Err(f)),
                    (d, Ok(_)) => opened_up(d, offsets, j + 1, to),
                }
            },
        }
    }
}

/// Finding `k` consecutive usable slots within one cluster of a directory,
/// which grows by a cluster where it has none. No slot before them ends the
/// directory any more.
pub open spec fn slot_run(disk: Disk, vol: Volume, dir: DirModel, k: int) -> (
    Disk,
    Result<Seq<u64>, ExFault>,
) {
    let per = per_cluster(vol.geo);
    match chain_of(disk.bytes, vol.geo, dir.first_cluster, None) {
        Err(f) => (disk, Err(f)),
        Ok(chain) => if k > per {
            (disk, Err(ExFault::Invalid("entry set does not fit a cluster"@)))
        } else {
            let offsets = slots(vol.geo, chain);
            match run_from(disk.bytes, offsets, per, k, 0, 0) {
                Err(f) => (disk, Err(f)),
                Ok(Some(s)) => match opened_up(disk, offsets, 0, s) {
                    (d, Err(f)) => (d, Err(f)),
                    (d, Ok(_)) => (d, Ok(offsets.subrange(s, s + k))),
                },
                Ok(None) => match dir_grown(disk, vol, dir, chain.last()) {
                    (d, Err(f)) => (d, Err(f)),
                    (d, Ok(cluster)) => match opened_up(d, offsets, 0, offsets.len() as int) {
                        (d2, Err(f)) => (d2, Err(f)),
                        (d2, Ok(_)) => (
                            d2,
                            Ok(
                                Seq::new(
                                    k as nat,
                                    |s: int|
                                        (vol.geo.cluster_start(cluster as int) + 32 * s) as u64,
                                ),
                            ),
                        ),
                    },
                },
            }
        },
    }
}

impl<D: WriteAt> ExfatFs<D> {
    fn bitmap_loc(&self) -> (r: ExfatResult<BitmapLoc>)
        ensures
            match self.volume().bitmap {
                Some(b) => r matches Ok(v) && v == b,
                None => r matches Err(e) && e@ == ExFault::Invalid("no allocation bitmap"@),
            },
    {
        match self.bitmap {
            Some(b) => Ok(b),
            None => Err(ExfatError::Invalid("no allocation bitmap")),
        }
    }

    fn locate_in(&mut self, dir_first: u32, name: &str) -> (r: ExfatResult<Option<EntryLoc>>)
        requires
            old(self).wf(),
        ensures
            final(self).volume() == old(self).volume(),
            unmoved(old(self).device(), final(self).device()),
            due(
                sure(old(self).device()),
                seen_loc(r),
                located(
                    old(self).device().disk().bytes,
                    old(self).volume(),
                    dir_first,
                    name@,
                ),
            ),
            r matches Ok(Some(l)) ==> l.offsets@.len() >= 2 && l.offsets@.len() <= 256,
    {
        locate(&mut self.disk, &self.geo, &self.upcase, dir_first, name)
    }

    fn resolve_dir(&mut self, path: &str) -> (r: ExfatResult<DirHandle>)
        requires
            old(self).wf(),
        ensures
            final(self).volume() == old(self).volume(),
            unmoved(old(self).device(), final(self).device()),
            due(
                sure(old(self).device()),
                seen_view(r),
                dir_from(
                    old(self).device().disk().bytes,
                    old(self).volume(),
                    components(path@),
                    0,
                    DirModel {
                        first_cluster: old(self).volume().geo.root_first_cluster,
                        entry: None,
                    },
                ),
            ),
            r matches Ok(h) ==> h.wf(),
    {
        let comps: Vec<String> = path_components(path);
        let ghost cv = components(path@);
        let ghost img = self.disk.disk().bytes;
        let ghost vol = self.volume();
        let ghost root = DirModel { first_cluster: vol.geo.root_first_cluster, entry: None };
        let mut handle = DirHandle { first_cluster: self.geo.root_first_cluster, entry: None };
        let mut i: usize = 0;
        assert(texts(comps@).len() == comps@.len());
        while i < comps.len()
            invariant
                i <= comps@.len(),
                cv == components(path@),
                texts(comps@) == cv,
                self.wf(),
                vol == self.volume(),
                vol == old(self).volume(),
                img == self.disk.disk().bytes,
                unmoved(old(self).device(), self.device()),
                handle.wf(),
                root == (DirModel { first_cluster: vol.geo.root_first_cluster, entry: None }),
                dir_from(img, vol, cv, 0, root) == dir_from(img, vol, cv, i as int, handle@),
            decreases comps@.len() - i,
        {
            assert(cv[i as int] == texts(comps@)[i as int]);
            let found: Option<EntryLoc> = self.locate_in(handle.first_cluster, comps[i].as_str())?;
            match found {
                None => {
                    return Err(ExfatError::NotFound);
                },
                Some(loc) => {
                    if !loc.is_dir {
                        return Err(ExfatError::Invalid("path component is not a directory"));
                    }
                    handle = DirHandle { first_cluster: loc.first_cluster, entry: Some(loc) };
                },
            }
            i = i + 1;
        }
        Ok(handle)
    }

    fn resolve_parent(&mut self, path: &str) -> (r: ExfatResult<(DirHandle, String)>)
        requires
            old(self).wf(),
        ensures
            final(self).volume() == old(self).volume(),
            unmoved(old(self).device(), final(self).device()),
            match r {
                Ok((h, leaf)) => {
                    &&& h.wf()
                    &&& leaf@ == leaf_of(path@)
                    &&& parent_dir(old(self).device().disk().bytes, old(self).volume(), path@)
                        == Ok::<DirModel, ExFault>(h@)
                },
                Err(e) => due(
                    sure(old(self).device()),
                    Err::<DirModel, ExFault>(e@),
                    parent_dir(old(self).device().disk().bytes, old(self).volume(), path@),
                ),
            },
    {
        let (parent, leaf): (String, String) = split_parent(path);
        if leaf.as_str().is_empty() {
            return Err(ExfatError::Invalid("empty file name"));
        }
        let handle: DirHandle = self.resolve_dir(parent.as_str())?;
        Ok((handle, leaf))
    }

    /// The directory of a path, its own name, and its entry set if it has one.
    fn resolve_target(&mut self, path: &str) -> (r: ExfatResult<
        (DirHandle, String, Option<EntryLoc>),
    >)
        requires
            old(self).wf(),
        ensures
            final(self).volume() == old(self).volume(),
            unmoved(old(self).device(), final(self).device()),
            match r {
                Ok((h, leaf, loc)) => {
                    &&& h.wf()
                    &&& leaf@ == leaf_of(path@)
                    &&& target(old(self).device().disk().bytes, old(self).volume(), path@) == Ok::<
                        (DirModel, Option<LocModel>),
                        ExFault,
                    >((h@, opt_loc(loc)))
                    &&& loc matches Some(l) ==> l.offsets@.len() >= 2 && l.offsets@.len() <= 256
                },
                Err(e) => due(
                    sure(old(self).device()),
                    Err::<(DirModel, Option<LocModel>), ExFault>(e@),
                    target(old(self).device().disk().bytes, old(self).volume(), path@),
                ),
            },
    {
        let (dir, leaf): (DirHandle, String) = self.resolve_parent(path)?;
        let loc: Option<EntryLoc> = self.locate_in(dir.first_cluster, leaf.as_str())?;
        Ok((dir, leaf, loc))
    }

    /// The entry set at a path that must exist.
    fn resolve_existing(&mut self, path: &str) -> (r: ExfatResult<EntryLoc>)
        requires
            old(self).wf(),
        ensures
            final(self).volume() == old(self).volume(),
            unmoved(old(self).device(), final(self).device()),
            due(
                sure(old(self).device()),
                seen_view(r),
                existing(old(self).device().disk().bytes, old(self).volume(), path@),
            ),
            r matches Ok(l) ==> l.offsets@.len() >= 2 && l.offsets@.len() <= 256,
    {
        let (_dir, _leaf, loc): (DirHandle, String, Option<EntryLoc>) = self.resolve_target(path)?;
        match loc {
            Some(l) => Ok(l),
            None => Err(ExfatError::NotFound),
        }
    }

    /// Zero a freshly allocated directory cluster.
    fn zero_cluster(&mut self, cluster: u32) -> (r: ExfatResult<()>)
        requires
            old(self).wf(),
        ensures
            final(self).volume() == old(self).volume(),
            carries(old(self).device(), final(self).device()),
            old(self).device().stuck() ==> r is Err,
            wrote(
                trust(old(self).device(), final(self).device()),
                seen(r),
                final(self).device().disk(),
                cluster_zeroed(old(self).device().disk(), old(self).volume().geo, cluster),
            ),
    {
        let zero: Vec<u8> = zeroed(self.geo.cluster_bytes() as usize);
        let off: u64 = self.geo.cluster_offset(cluster)?;
        store(&mut self.disk, off, zero.as_slice())
    }

    /// Rewrite a set's stream entry (cluster, sizes, flags) and its File
    /// entry's checksum in place.
    fn rewrite_stream(
        &mut self,
        entry: &EntryLoc,
        first_cluster: u32,
        data_len: u64,
        valid_len: u64,
        flags: u8,
    ) -> (r: ExfatResult<()>)
        requires
            old(self).wf(),
            2 <= entry.offsets@.len() <= 256,
        ensures
            final(self).volume() == old(self).volume(),
            carries(old(self).device(), final(self).device()),
            old(self).device().stuck() ==> r is Err,
            wrote(
                trust(old(self).device(), final(self).device()),
                seen(r),
                final(self).device().disk(),
                restreamed(
                    old(self).device().disk(),
                    entry@,
                    first_cluster,
                    data_len,
                    valid_len,
                    flags,
                ),
            ),
    {
        let ghost img = self.disk.disk().bytes;
        let offs: &Vec<u64> = &entry.offsets;
        let mut set: Vec<[u8; 32]> = read_raws(&mut self.disk, offs)?;
        assert(rows(set@).len() == set@.len());
        let ghost raws = rows(set@);
        assert(raws[0] == set@[0]@ && raws[1] == set@[1]@);
        let mut stream: [u8; 32] = set[1];
        stream[1] = flags;
        put_le64(&mut stream, 8, valid_len);
        put_le32(&mut stream, 20, first_cluster);
        put_le64(&mut stream, 24, data_len);
        assert(stream@ == stream_with(raws[1], first_cluster, data_len, valid_len, flags));
        let mut file: [u8; 32] = set[0];
        set[1] = stream;
        assert(rows(set@) =~= raws.update(1, stream@));
        let cs: u16 = set_checksum(set.as_slice());
        put_le16(&mut file, 2, cs);
        if offs[1] > offs[0] && offs[1] - offs[0] == 32 {
            let mut both: Vec<u8> = zeroed(64);
            put(both.as_mut_slice(), 0, file.as_slice());
            put(both.as_mut_slice(), 32, stream.as_slice());
            assert(both@ =~= file@ + stream@);
            return store(&mut self.disk, offs[0], both.as_slice());
        }
        store(&mut self.disk, offs[0], file.as_slice())?;
        store(&mut self.disk, offs[1], stream.as_slice())
    }
}

fn read_raws<D: ReadAt>(disk: &mut D, offsets: &Vec<u64>) -> (r: ExfatResult<Vec<[u8; 32]>>)
    ensures
        unmoved(*old(disk), *final(disk)),
        due(
            sure(*old(disk)),
            super::dir::seen_rows(r),
            raws_from(old(disk).disk().bytes, offsets@, 0),
        ),
        r matches Ok(v) ==> v@.len() == offsets@.len(),
{
    let ghost img = disk.disk().bytes;
    let mut out: Vec<[u8; 32]> = Vec::new();
    let mut j: usize = 0;
    proof {
        match raws_from(img, offsets@, 0) {
            Ok(rest) => {
                assert(rows(out@) + rest =~= rest);
            },
            Err(_) => {},
        }
    }
    while j < offsets.len()
        invariant
            j <= offsets@.len(),
            out@.len() == j,
            img == disk.disk().bytes,
            unmoved(*old(disk), *disk),
            raws_from(img, offsets@, 0) == match raws_from(img, offsets@, j as int) {
                Ok(rest) => Ok(rows(out@) + rest),
                Err(f) => Err(f),
            },
        decreases offsets@.len() - j,
    {
        let raw: [u8; 32] = read_slot(disk, offsets[j])?;
        let ghost before = rows(out@);
        out.push(raw);
        proof {
            assert(rows(out@) =~= before.push(raw@));
            match raws_from(img, offsets@, j + 1) {
                Ok(rest) => {
                    assert(before + (seq![raw@] + rest) =~= rows(out@) + rest);
                },
                Err(_) => {},
            }
        }
        j = j + 1;
    }
    assert(rows(out@) + Seq::<Seq<u8>>::empty() =~= rows(out@));
    Ok(out)
}

/// A File entry.
pub open spec fn file_entry(secondary: int, checksum: u16, is_dir: bool) -> Seq<u8> {
    seq![ENTRY_FILE, secondary as u8] + le16_bytes(checksum) + le16_bytes(
        if is_dir {
            0x10
        } else {
            0x20
        },
    ) + zeros(2) + le32_bytes(FIXED_TS) + le32_bytes(FIXED_TS) + le32_bytes(FIXED_TS) + zeros(12)
}

/// A Stream Extension entry.
pub open spec fn stream_entry(
    flags: u8,
    name_len: int,
    hash: u16,
    first_cluster: u32,
    data_len: u64,
    valid_len: u64,
) -> Seq<u8> {
    seq![ENTRY_STREAM, flags, 0, name_len as u8] + le16_bytes(hash) + zeros(2) + le64_bytes(
        valid_len,
    ) + zeros(4) + le32_bytes(first_cluster) + le64_bytes(data_len)
}

/// A File Name entry for up to fifteen code units.
pub open spec fn name_entry(units: Seq<u16>) -> Seq<u8> {
    Seq::new(
        32,
        |i: int|
            if i == 0 {
                ENTRY_NAME
            } else if i == 1 || (i - 2) / 2 >= units.len() {
                0
            } else {
                le16_bytes(units[(i - 2) / 2])[(i - 2) % 2]
            },
    )
}

/// The `j`-th piece of fifteen code units of a name; the last may be shorter.
pub open spec fn name_part(units: Seq<u16>, j: int) -> Seq<u16> {
    units.subrange(15 * j, lesser(15 * j + 15, units.len() as int))
}

/// An entry set, its checksum as given.
pub open spec fn set_with(
    upcase: Seq<u16>,
    units: Seq<u16>,
    checksum: u16,
    is_dir: bool,
    first_cluster: u32,
    data_len: u64,
    valid_len: u64,
    flags: u8,
) -> Seq<Seq<u8>> {
    let names = parts(units.len() as int, 15);
    Seq::new(
        (2 + names) as nat,
        |i: int|
            if i == 0 {
                file_entry(1 + names, checksum, is_dir)
            } else if i == 1 {
                stream_entry(
                    flags,
                    units.len() as int,
                    hash_of(upcase, units),
                    first_cluster,
                    data_len,
                    valid_len,
                )
            } else {
                name_entry(name_part(units, i - 2))
            },
    )
}

/// The entry set for a name, with its checksum.
pub open spec fn new_set(
    upcase: Seq<u16>,
    units: Seq<u16>,
    is_dir: bool,
    first_cluster: u32,
    data_len: u64,
    valid_len: u64,
    flags: u8,
) -> Seq<Seq<u8>> {
    let blank = set_with(upcase, units, 0, is_dir, first_cluster, data_len, valid_len, flags);
    set_with(
        upcase,
        units,
        set_sum(blank, (32 * blank.len()) as nat),
        is_dir,
        first_cluster,
        data_len,
        valid_len,
        flags,
    )
}

/// Raw entries one behind the other.
pub open spec fn flat(set: Seq<Seq<u8>>) -> Seq<u8> {
    Seq::new((32 * set.len()) as nat, |i: int| set[i / 32][i % 32])
}

/// Writing a fresh entry set for a name into a directory, pointing at clusters
/// that exist already, and flushing it. The set is one write, so a power cut
/// leaves all of it or nothing.
pub open spec fn entry_placed(
    disk: Disk,
    vol: Volume,
    dir: DirModel,
    leaf: Seq<char>,
    is_dir: bool,
    first_cluster: u32,
    data_len: u64,
    valid_len: u64,
    flags: u8,
) -> (Disk, Result<(), ExFault>) {
    let units = utf16_of(leaf);
    if units.len() == 0 || units.len() > 255 {
        (disk, Err(ExFault::Invalid("bad name length"@)))
    } else {
        let set = new_set(vol.upcase, units, is_dir, first_cluster, data_len, valid_len, flags);
        match slot_run(disk, vol, dir, set.len() as int) {
            (d, Err(f)) => (d, Err(f)),
            (d, Ok(offsets)) => match put_at(d, offsets[0] as int, flat(set)) {
                (d2, Err(f)) => (d2, Err(f)),
                (d2, Ok(_)) => (d2.flushed(), Ok(())),
            },
        }
    }
}

/// Creating an entry set for a new name in a directory. A new directory gets
/// its first cluster, zeroed and flushed, before its entry is written.
pub open spec fn entry_created(
    disk: Disk,
    vol: Volume,
    dir: DirModel,
    found: Option<LocModel>,
    leaf: Seq<char>,
    is_dir: bool,
) -> (Disk, Result<(), ExFault>) {
    if found is Some {
        (disk, Err(ExFault::Invalid("already exists"@)))
    } else if !is_dir {
        entry_placed(disk, vol, dir, leaf, false, 0, 0, 0, 0x00)
    } else {
        match vol.bitmap {
            None => (disk, Err(ExFault::Invalid("no allocation bitmap"@))),
            Some(bm) => match allocation(disk, vol.geo, bm, 1) {
                (d, Err(f)) => (d, Err(f)),
                (d, Ok(chain)) => match cluster_zeroed(d, vol.geo, chain[0]) {
                    (d2, Err(f)) => (d2, Err(f)),
                    (d2, Ok(_)) => entry_placed(
                        d2.flushed(),
                        vol,
                        dir,
                        leaf,
                        true,
                        chain[0],
                        vol.geo.cluster_len() as u64,
                        vol.geo.cluster_len() as u64,
                        0x01,
                    ),
                },
            },
        }
    }
}

/// Creating an empty file or directory at a path.
pub open spec fn creation(disk: Disk, vol: Volume, path: Seq<char>, is_dir: bool) -> (
    Disk,
    Result<(), ExFault>,
) {
    match target(disk.bytes, vol, path) {
        Err(f) => (disk, Err(f)),
        Ok((dir, found)) => entry_created(disk, vol, dir, found, leaf_of(path), is_dir),
    }
}

/// Clearing the in-use bit of the entries at the given offsets from the `j`-th
/// on.
pub open spec fn cleared_from(disk: Disk, offsets: Seq<u64>, j: int) -> (Disk, Result<(), ExFault>)
    decreases offsets.len() - j,
{
    if j < 0 || j >= offsets.len() {
        (disk, Ok(()))
    } else {
        match bytes_at(disk.bytes, offsets[j] as int, 32) {
            Err(f) => (disk, Err(f)),
            Ok(raw) => match put_at(
                disk,
                offsets[j] as int,
                raw.update(0, (raw[0] % 0x80) as u8),
            ) {
                (d, Err(f)) => (d, Err(f)),
                (d, Ok(_)) => cleared_from(d, offsets, j + 1),
            },
        }
    }
}

/// Whether slots lie side by side.
pub open spec fn adjoining(offsets: Seq<u64>) -> bool {
    forall|i: int| 0 <= i < offsets.len() ==> #[trigger] offsets[i] == offsets[0] + 32 * i
}

/// Raw entries with their in-use bits cleared.
pub open spec fn unused(raws: Seq<Seq<u8>>) -> Seq<Seq<u8>> {
    Seq::new(raws.len(), |i: int| raws[i].update(0, (raws[i][0] % 0x80) as u8))
}

/// Clearing the in-use bits of an entry set: one write where it lies side by
/// side, so that a power cut leaves all of it or nothing; else one write for
/// each entry, the File entry first, without which the others stand for
/// nothing.
pub open spec fn cleared(disk: Disk, offsets: Seq<u64>) -> (Disk, Result<(), ExFault>) {
    if adjoining(offsets) {
        match raws_from(disk.bytes, offsets, 0) {
            Err(f) => (disk, Err(f)),
            Ok(raws) => put_at(disk, offsets[0] as int, flat(unused(raws))),
        }
    } else {
        cleared_from(disk, offsets, 0)
    }
}

/// Moving an entry: a fresh set at the new path points at the same clusters
/// and is flushed, then the old set is cleared and that flushed.
pub open spec fn renaming(disk: Disk, vol: Volume, from: Seq<char>, to: Seq<char>) -> (
    Disk,
    Result<(), ExFault>,
) {
    match existing(disk.bytes, vol, from) {
        Err(f) => (disk, Err(f)),
        Ok(src) => match target(disk.bytes, vol, to) {
            Err(f) => (disk, Err(f)),
            Ok((_, Some(_))) => (disk, Err(ExFault::Invalid("destination exists"@))),
            Ok((dir, None)) => match entry_placed(
                disk,
                vol,
                dir,
                leaf_of(to),
                src.is_dir,
                src.first_cluster,
                src.data_len,
                src.valid_len,
                src.flags,
            ) {
                (d, Err(f)) => (d, Err(f)),
                (d, Ok(_)) => match cleared(d, src.offsets) {
                    (d2, Err(f)) => (d2, Err(f)),
                    (d2, Ok(_)) => (d2.flushed(), Ok(())),
                },
            },
        },
    }
}

/// Where `n` usable slots in one cluster start among the slots of a directory.
fn find_run<D: ReadAt>(disk: &mut D, offsets: &Vec<u64>, per: usize, k: usize) -> (r: ExfatResult<
    Option<usize>,
>)
    requires
        1 <= k <= per,
    ensures
        unmoved(*old(disk), *final(disk)),
        match r {
            Ok(Some(s)) => s + k <= offsets@.len() && run_from(
                old(disk).disk().bytes,
                offsets@,
                per as int,
                k as int,
                0,
                0,
            ) == Ok::<Option<int>, ExFault>(Some(s as int)),
            Ok(None) => run_from(
                old(disk).disk().bytes,
                offsets@,
                per as int,
                k as int,
                0,
                0,
            ) == Ok::<Option<int>, ExFault>(None),
            Err(e) => due(
                sure(*old(disk)),
                Err::<Option<int>, ExFault>(e@),
                run_from(old(disk).disk().bytes, offsets@, per as int, k as int, 0, 0),
            ),
        },
{
    let ghost img = disk.disk().bytes;
    let n: usize = offsets.len();
    let mut s: usize = 0;
    let mut run: usize = 0;
    while s < n
        invariant
            1 <= k <= per,
            s <= n == offsets@.len(),
            run <= s,
            run < k,
            img == disk.disk().bytes,
            unmoved(*old(disk), *disk),
            run_from(img, offsets@, per as int, k as int, 0, 0) == run_from(
                img,
                offsets@,
                per as int,
                k as int,
                s as int,
                run as int,
            ),
        decreases n - s,
    {
        if s % per == 0 {
            run = 0;
        }
        let raw: [u8; 32] = read_slot(disk, offsets[s])?;
        if raw[0] < 0x80 {
            run = run + 1;
            if run >= k {
                return Ok(Some(s + 1 - run));
            }
        } else {
            run = 0;
        }
        s = s + 1;
    }
    Ok(None)
}

/// The bytes of raw entries, one behind the other.
fn flatten(set: &Vec<[u8; 32]>) -> (r: Vec<u8>)
    requires
        set@.len() <= 256,
    ensures
        r@ == flat(rows(set@)),
{
    let n: usize = set.len();
    let mut out: Vec<u8> = zeroed(32 * n);
    let mut j: usize = 0;
    while j < n
        invariant
            j <= n == set@.len(),
            n <= 256,
            out@.len() == 32 * n,
            forall|i: int| 0 <= i < 32 * j ==> out@[i] == set@[i / 32]@[i % 32],
        decreases n - j,
    {
        put(out.as_mut_slice(), 32 * j, set[j].as_slice());
        j = j + 1;
    }
    assert(out@ =~= flat(rows(set@)));
    out
}

fn open_up<D: WriteAt>(disk: &mut D, offsets: &Vec<u64>, to: usize) -> (r: ExfatResult<()>)
    requires
        to <= offsets@.len(),
    ensures
        carries(*old(disk), *final(disk)),
        wrote(
            trust(*old(disk), *final(disk)),
            seen(r),
            final(disk).disk(),
            opened_up(old(disk).disk(), offsets@, 0, to as int),
        ),
{
    let ghost start = disk.disk();
    let mut j: usize = 0;
    while j < to
        invariant
            j <= to <= offsets@.len(),
            start == old(disk).disk(),
            carries(*old(disk), *disk),
            opened_up(start, offsets@, 0, to as int) == opened_up(
                disk.disk(),
                offsets@,
                j as int,
                to as int,
            ),
        decreases to - j,
    {
        let mut raw: [u8; 32] = read_slot(disk, offsets[j])?;
        let ghost was = raw@;
        if raw[0] == ENTRY_END {
            raw[0] = ENTRY_DELETED;
            assert(raw@ =~= was.update(0, ENTRY_DELETED));
            store(disk, offsets[j], raw.as_slice())?;
        }
        j = j + 1;
    }
    Ok(())
}

fn clear_raws<D: WriteAt>(disk: &mut D, offsets: &Vec<u64>) -> (r: ExfatResult<()>)
    ensures
        carries(*old(disk), *final(disk)),
        old(disk).stuck() && offsets@.len() > 0 ==> r is Err,
        wrote(
            trust(*old(disk), *final(disk)),
            seen(r),
            final(disk).disk(),
            cleared_from(old(disk).disk(), offsets@, 0),
        ),
{
    let ghost start = disk.disk();
    let mut j: usize = 0;
    while j < offsets.len()
        invariant
            j <= offsets@.len(),
            start == old(disk).disk(),
            carries(*old(disk), *disk),
            old(disk).stuck() ==> j == 0,
            cleared_from(start, offsets@, 0) == cleared_from(disk.disk(), offsets@, j as int),
        decreases offsets@.len() - j,
    {
        let mut raw: [u8; 32] = read_slot(disk, offsets[j])?;
        let ghost was = raw@;
        raw[0] = raw[0] % 0x80;
        assert(raw@ =~= was.update(0, (was[0] % 0x80) as u8));
        store(disk, offsets[j], raw.as_slice())?;
        j = j + 1;
    }
    Ok(())
}

fn adjoin(offsets: &Vec<u64>) -> (r: bool)
    ensures
        r == adjoining(offsets@),
{
    let n: usize = offsets.len();
    let mut i: usize = 1;
    while i < n
        invariant
            1 <= i,
            n == offsets@.len(),
            n > 0 ==> i <= n,
            forall|j: int| 0 <= j < i && j < n ==> #[trigger] offsets@[j] == offsets@[0] + 32 * j,
        decreases n - i,
    {
        let before: u64 = offsets[i - 1];
        let here: u64 = offsets[i];
        assert(offsets@[i - 1] == offsets@[0] + 32 * (i - 1));
        if here < before || here - before != 32 {
            assert(offsets@[i as int] != offsets@[0] + 32 * i);
            return false;
        }
        i = i + 1;
    }
    true
}

fn clear_set<D: WriteAt>(disk: &mut D, offsets: &Vec<u64>) -> (r: ExfatResult<()>)
    requires
        2 <= offsets@.len() <= 256,
    ensures
        carries(*old(disk), *final(disk)),
        old(disk).stuck() ==> r is Err,
        wrote(
            trust(*old(disk), *final(disk)),
            seen(r),
            final(disk).disk(),
            cleared(old(disk).disk(), offsets@),
        ),
{
    if !adjoin(offsets) {
        return clear_raws(disk, offsets);
    }
    let mut set: Vec<[u8; 32]> = read_raws(disk, offsets)?;
    let ghost raws = rows(set@);
    let n: usize = set.len();
    let mut i: usize = 0;
    while i < n
        invariant
            i <= n == set@.len() == raws.len(),
            forall|j: int| 0 <= j < i ==> (#[trigger] set@[j])@ == unused(raws)[j],
            forall|j: int| i <= j < n ==> (#[trigger] set@[j])@ == raws[j],
        decreases n - i,
    {
        let mut raw: [u8; 32] = set[i];
        let ghost was = raw@;
        raw[0] = raw[0] % 0x80;
        assert(raw@ =~= was.update(0, (was[0] % 0x80) as u8));
        set[i] = raw;
        i = i + 1;
    }
    assert(rows(set@) =~= unused(raws));
    let bytes: Vec<u8> = flatten(&set);
    store(disk, offsets[0], bytes.as_slice())
}

/// An entry of zeros.
fn blank_entry() -> (r: [u8; 32])
    ensures
        r@ == zeros(32),
{
    let mut e: [u8; 32] = [0u8; 32];
    let mut i: usize = 0;
    while i < 32
        invariant
            i <= 32,
            forall|j: int| 0 <= j < i ==> e@[j] == 0,
        decreases 32 - i,
    {
        e[i] = 0;
        i = i + 1;
    }
    assert(e@ =~= zeros(32));
    e
}

fn build_file_entry(secondary: u8, checksum: u16, is_dir: bool) -> (r: [u8; 32])
    ensures
        r@ == file_entry(secondary as int, checksum, is_dir),
{
    let mut e: [u8; 32] = blank_entry();
    e[0] = ENTRY_FILE;
    e[1] = secondary;
    put_le16(&mut e, 2, checksum);
    let attrs: u16 = if is_dir {
        0x10
    } else {
        0x20
    };
    put_le16(&mut e, 4, attrs);
    put_le32(&mut e, 8, FIXED_TS);
    put_le32(&mut e, 12, FIXED_TS);
    put_le32(&mut e, 16, FIXED_TS);
    assert(e@ =~= file_entry(secondary as int, checksum, is_dir));
    e
}

fn build_stream_entry(
    flags: u8,
    name_len: u8,
    hash: u16,
    first_cluster: u32,
    data_len: u64,
    valid_len: u64,
) -> (r: [u8; 32])
    ensures
        r@ == stream_entry(flags, name_len as int, hash, first_cluster, data_len, valid_len),
{
    let mut e: [u8; 32] = blank_entry();
    e[0] = ENTRY_STREAM;
    e[1] = flags;
    e[3] = name_len;
    put_le16(&mut e, 4, hash);
    put_le64(&mut e, 8, valid_len);
    put_le32(&mut e, 20, first_cluster);
    put_le64(&mut e, 24, data_len);
    assert(e@ =~= stream_entry(flags, name_len as int, hash, first_cluster, data_len, valid_len));
    e
}

fn build_name_entry(units: &[u16], from: usize, to: usize) -> (r: [u8; 32])
    requires
        from <= to <= units@.len(),
        to - from <= 15,
    ensures
        r@ == name_entry(units@.subrange(from as int, to as int)),
{
    let mut e: [u8; 32] = blank_entry();
    e[0] = ENTRY_NAME;
    let ghost part = units@.subrange(from as int, to as int);
    let n: usize = to - from;
    let mut k: usize = 0;
    assert(e@ =~= name_entry(part.take(0)));
    while k < n
        invariant
            k <= n <= 15,
            n == to - from,
            from <= to <= units@.len(),
            part == units@.subrange(from as int, to as int),
            e@ == name_entry(part.take(k as int)),
        decreases n - k,
    {
        let ghost was = e@;
        put_le16(&mut e, 2 + 2 * k, units[from + k]);
        assert(e@ =~= name_entry(part.take(k + 1))) by {
            assert(part.take(k + 1)[k as int] == units@[from + k]);
            assert forall|i: int| 0 <= i < 32 implies e@[i] == name_entry(part.take(k + 1))[i] by {
                if i >= 2 && (i - 2) / 2 < k {
                    assert(part.take(k as int)[(i - 2) / 2] == part.take(k + 1)[(i - 2) / 2]);
                }
            }
        }
        k = k + 1;
    }
    assert(part.take(n as int) =~= part);
    e
}

/// The raw entries for a new name.
fn build_set(
    upcase: &UpcaseTable,
    units: &[u16],
    is_dir: bool,
    first_cluster: u32,
    data_len: u64,
    valid_len: u64,
    flags: u8,
) -> (r: Vec<[u8; 32]>)
    requires
        1 <= units@.len() <= 255,
    ensures
        rows(r@) == new_set(upcase@, units@, is_dir, first_cluster, data_len, valid_len, flags),
        r@.len() == 2 + parts(units@.len() as int, 15),
        3 <= r@.len() <= 19,
{
    let len: usize = units.len();
    let names: usize = (len + 14) / 15;
    let hash: u16 = name_hash(upcase, units);
    let mut set: Vec<[u8; 32]> = Vec::new();
    set.push(build_file_entry((1 + names) as u8, 0, is_dir));
    set.push(build_stream_entry(flags, len as u8, hash, first_cluster, data_len, valid_len));
    let ghost blank = set_with(upcase@, units@, 0, is_dir, first_cluster, data_len, valid_len, flags);
    let mut j: usize = 0;
    while j < names
        invariant
            1 <= len <= 255,
            len == units@.len(),
            names == parts(len as int, 15),
            j <= names <= 17,
            set@.len() == 2 + j,
            blank == set_with(upcase@, units@, 0, is_dir, first_cluster, data_len, valid_len, flags),
            forall|i: int| 0 <= i < set@.len() ==> (#[trigger] set@[i])@ == blank[i],
        decreases names - j,
    {
        let from: usize = 15 * j;
        let to: usize = if from + 15 <= len {
            from + 15
        } else {
            len
        };
        set.push(build_name_entry(units, from, to));
        assert(blank[2 + j as int] == name_entry(name_part(units@, j as int)));
        j = j + 1;
    }
    assert(rows(set@) =~= blank);
    let cs: u16 = set_checksum(set.as_slice());
    let first: [u8; 32] = build_file_entry((1 + names) as u8, cs, is_dir);
    set[0] = first;
    assert(rows(set@) =~= new_set(
        upcase@,
        units@,
        is_dir,
        first_cluster,
        data_len,
        valid_len,
        flags,
    )) by {
        let done = new_set(upcase@, units@, is_dir, first_cluster, data_len, valid_len, flags);
        assert forall|i: int| 0 <= i < set@.len() implies rows(set@)[i] == done[i] by {
            if i > 0 {
                assert(set@[i]@ == blank[i]);
            }
        }
    }
    set
}

impl<D: WriteAt> ExfatFs<D> {
    /// Grow a directory by one zeroed cluster.
    fn grow_dir(&mut self, dir: &DirHandle, tail: u32) -> (r: ExfatResult<u32>)
        requires
            old(self).wf(),
            dir.wf(),
        ensures
            final(self).volume() == old(self).volume(),
            carries(old(self).device(), final(self).device()),
            wrote(
                trust(old(self).device(), final(self).device()),
                seen(r),
                final(self).device().disk(),
                dir_grown(old(self).device().disk(), old(self).volume(), dir@, tail),
            ),
            r matches Ok(c) ==> old(self).volume().geo.has_cluster(c as int),
    {
        let bm: BitmapLoc = self.bitmap_loc()?;
        let added: Vec<u32> = alloc_chain(&mut self.disk, &self.geo, &bm, 1)?;
        let cluster: u32 = added[0];
        self.zero_cluster(cluster)?;
        barrier(&mut self.disk)?;
        set_fat(&mut self.disk, &self.geo, tail, cluster)?;
        barrier(&mut self.disk)?;
        if let Some(entry) = &dir.entry {
            let new_len: u64 = match entry.data_len.checked_add(self.geo.cluster_bytes()) {
                Some(n) => n,
                None => {
                    return Err(ExfatError::Invalid("directory length out of range"));
                },
            };
            self.rewrite_stream(entry, entry.first_cluster, new_len, new_len, entry.flags)?;
            barrier(&mut self.disk)?;
        }
        Ok(cluster)
    }

    /// Find `k` consecutive usable slots within a single cluster of `dir`,
    /// growing the directory by a cluster if there are none. Returns their
    /// disk offsets.
    fn find_or_make_slot_run(&mut self, dir: &DirHandle, k: usize) -> (r: ExfatResult<Vec<u64>>)
        requires
            old(self).wf(),
            dir.wf(),
            1 <= k <= 19,
        ensures
            final(self).volume() == old(self).volume(),
            carries(old(self).device(), final(self).device()),
            wrote(
                trust(old(self).device(), final(self).device()),
                seen_view(r),
                final(self).device().disk(),
                slot_run(old(self).device().disk(), old(self).volume(), dir@, k as int),
            ),
            r matches Ok(v) ==> v@.len() == k,
    {
        let found: DirSlots = dir_slots(&mut self.disk, &self.geo, dir.first_cluster)?;
        let per: usize = (self.geo.cluster_bytes() / 32) as usize;
        if k > per {
            return Err(ExfatError::Invalid("entry set does not fit a cluster"));
        }
        let n: usize = found.offsets.len();
        match find_run(&mut self.disk, &found.offsets, per, k)? {
            Some(s) => {
                assert(s + k <= n);
                open_up(&mut self.disk, &found.offsets, s)?;
                Ok(copy_offsets(&found.offsets, s, s + k))
            },
            None => {
                let tail: u32 = found.chain[found.chain.len() - 1];
                let cluster: u32 = self.grow_dir(dir, tail)?;
                open_up(&mut self.disk, &found.offsets, n)?;
                let base: u64 = match self.geo.cluster_offset(cluster) {
                    Ok(o) => o,
                    Err(e) => {
                        assert(false);
                        return Err(e);
                    },
                };
                let ghost want = Seq::new(
                    k as nat,
                    |s: int| (self.geo.cluster_start(cluster as int) + 32 * s) as u64,
                );
                let mut out: Vec<u64> = Vec::new();
                let mut s: usize = 0;
                while s < k
                    invariant
                        s <= k <= 19,
                        base < 0x400_0000_0000_0000,
                        out@.len() == s,
                        forall|i: int| 0 <= i < s ==> out@[i] == (base + 32 * i) as u64,
                    decreases k - s,
                {
                    out.push(base + 32 * s as u64);
                    s = s + 1;
                }
                assert(out@ =~= want);
                Ok(out)
            },
        }
    }

    /// Write an entry set for `leaf` into `dir`, pointing at existing clusters.
    /// Allocates nothing for it but directory space.
    fn place_entry_set(
        &mut self,
        dir: &DirHandle,
        leaf: &str,
        is_dir: bool,
        first_cluster: u32,
        data_len: u64,
        valid_len: u64,
        flags: u8,
    ) -> (r: ExfatResult<()>)
        requires
            old(self).wf(),
            dir.wf(),
        ensures
            final(self).volume() == old(self).volume(),
            carries(old(self).device(), final(self).device()),
            old(self).device().stuck() ==> r is Err,
            wrote(
                trust(old(self).device(), final(self).device()),
                seen(r),
                final(self).device().disk(),
                entry_placed(
                    old(self).device().disk(),
                    old(self).volume(),
                    dir@,
                    leaf@,
                    is_dir,
                    first_cluster,
                    data_len,
                    valid_len,
                    flags,
                ),
            ),
    {
        let units: Vec<u16> = encode_utf16(leaf);
        if units.len() == 0 || units.len() > 255 {
            return Err(ExfatError::Invalid("bad name length"));
        }
        let set: Vec<[u8; 32]> = build_set(
            &self.upcase,
            units.as_slice(),
            is_dir,
            first_cluster,
            data_len,
            valid_len,
            flags,
        );
        assert(rows(set@).len() == set@.len());
        let offsets: Vec<u64> = self.find_or_make_slot_run(dir, set.len())?;
        let bytes: Vec<u8> = flatten(&set);
        store(&mut self.disk, offsets[0], bytes.as_slice())?;
        barrier(&mut self.disk)
    }

    /// Create an entry set named `leaf` in `dir`. A directory gets one zeroed
    /// cluster first.
    fn create_entry(&mut self, path: &str, is_dir: bool) -> (r: ExfatResult<()>)
        requires
            old(self).wf(),
        ensures
            final(self).volume() == old(self).volume(),
            carries(old(self).device(), final(self).device()),
            old(self).device().stuck() ==> r is Err,
            wrote(
                trust(old(self).device(), final(self).device()),
                seen(r),
                final(self).device().disk(),
                creation(old(self).device().disk(), old(self).volume(), path@, is_dir),
            ),
    {
        let (dir, leaf, found): (DirHandle, String, Option<EntryLoc>) = self.resolve_target(path)?;
        if found.is_some() {
            return Err(ExfatError::Invalid("already exists"));
        }
        if !is_dir {
            return self.place_entry_set(&dir, leaf.as_str(), false, 0, 0, 0, 0x00);
        }
        let bm: BitmapLoc = self.bitmap_loc()?;
        let chain: Vec<u32> = alloc_chain(&mut self.disk, &self.geo, &bm, 1)?;
        let first: u32 = chain[0];
        self.zero_cluster(first)?;
        barrier(&mut self.disk)?;
        let len: u64 = self.geo.cluster_bytes();
        self.place_entry_set(&dir, leaf.as_str(), true, first, len, len, 0x01)
    }

    /// Create an empty file at `path`.
    pub fn create_file(&mut self, path: &str) -> (r: ExfatResult<()>)
        requires
            old(self).wf(),
        ensures
            final(self).volume() == old(self).volume(),
            carries(old(self).device(), final(self).device()),
            old(self).device().stuck() ==> r is Err,
            wrote(
                trust(old(self).device(), final(self).device()),
                seen(r),
                final(self).device().disk(),
                creation(old(self).device().disk(), old(self).volume(), path@, false),
            ),
    {
        self.create_entry(path, false)
    }

    /// Create a directory at `path`.
    pub fn make_dir(&mut self, path: &str) -> (r: ExfatResult<()>)
        requires
            old(self).wf(),
        ensures
            final(self).volume() == old(self).volume(),
            carries(old(self).device(), final(self).device()),
            old(self).device().stuck() ==> r is Err,
            wrote(
                trust(old(self).device(), final(self).device()),
                seen(r),
                final(self).device().disk(),
                creation(old(self).device().disk(), old(self).volume(), path@, true),
            ),
    {
        self.create_entry(path, true)
    }

    /// Move `from` to `to`: a fresh entry set points at the same clusters, then
    /// the old one is cleared.
    pub fn rename(&mut self, from: &str, to: &str) -> (r: ExfatResult<()>)
        requires
            old(self).wf(),
        ensures
            final(self).volume() == old(self).volume(),
            carries(old(self).device(), final(self).device()),
            old(self).device().stuck() ==> r is Err,
            wrote(
                trust(old(self).device(), final(self).device()),
                seen(r),
                final(self).device().disk(),
                renaming(old(self).device().disk(), old(self).volume(), from@, to@),
            ),
    {
        let src: EntryLoc = self.resolve_existing(from)?;
        let (dir, leaf, found): (DirHandle, String, Option<EntryLoc>) = self.resolve_target(to)?;
        if found.is_some() {
            return Err(ExfatError::Invalid("destination exists"));
        }
        self.place_entry_set(
            &dir,
            leaf.as_str(),
            src.is_dir,
            src.first_cluster,
            src.data_len,
            src.valid_len,
            src.flags,
        )?;
        clear_set(&mut self.disk, &src.offsets)?;
        barrier(&mut self.disk)
    }
}

/// Writing `data` from its `done`-th byte on into a file's clusters, where the
/// whole of it starts at `offset`; each piece lies within one cluster. `what`
/// is said where the chain is too short.
pub open spec fn range_from(
    disk: Disk,
    geo: Geometry,
    chain: Seq<u32>,
    offset: int,
    data: Seq<u8>,
    done: int,
    what: Seq<char>,
) -> (Disk, Result<(), ExFault>)
    decreases data.len() - done,
{
    let pos = offset + done;
    let within = pos % geo.cluster_len();
    let n = lesser(geo.cluster_len() - within, data.len() - done);
    let index = pos / geo.cluster_len();
    if done < 0 || n <= 0 {
        (disk, Ok(()))
    } else if index >= chain.len() {
        (disk, Err(ExFault::Invalid(what)))
    } else {
        match geo.cluster_at(chain[index] as int) {
            Err(f) => (disk, Err(f)),
            Ok(off) => match put_at(disk, off + within, data.subrange(done, done + n)) {
                (d, Err(f)) => (d, Err(f)),
                (d, Ok(_)) => range_from(d, geo, chain, offset, data, done + n, what),
            },
        }
    }
}

/// How many clusters hold `len` bytes.
pub open spec fn cluster_need(geo: Geometry, len: int) -> int {
    parts(len, geo.cluster_len())
}

/// The size of a file once `len` bytes are written at `offset`.
pub open spec fn size_after(data_len: u64, offset: u64, len: nat) -> int {
    if offset + len >= data_len {
        offset + len
    } else {
        data_len as int
    }
}

/// So many clusters in a row, all of which must exist.
pub open spec fn run_at(geo: Geometry, first: u32, n: u64) -> Result<Seq<u32>, ExFault> {
    if 2 <= first && first + n <= geo.cluster_count + 2 {
        Ok(run_of(geo, first, n))
    } else {
        Err(ExFault::Invalid("cluster run out of range"@))
    }
}

/// The clusters of a located file: a run or a chain; an empty file has none.
pub open spec fn loc_chain(img: Seq<u8>, geo: Geometry, loc: LocModel) -> Result<
    Seq<u32>,
    ExFault,
> {
    if loc.data_len == 0 {
        Ok(seq![])
    } else {
        match contiguous_len(geo, loc) {
            Some(n) => run_at(geo, loc.first_cluster, n),
            None => chain_of(
                img,
                geo,
                loc.first_cluster,
                Some(cluster_need(geo, loc.data_len as int) as u64),
            ),
        }
    }
}

/// How much of a located file is valid; the rest reads as zeros.
pub open spec fn valid_of(loc: LocModel) -> u64 {
    if loc.valid_len <= loc.data_len {
        loc.valid_len
    } else {
        loc.data_len
    }
}

/// Linking the clusters of a contiguous file in the table, which it did without
/// until now, so that it can be chained from here on.
pub open spec fn run_tied(disk: Disk, geo: Geometry, loc: LocModel, chain: Seq<u32>) -> (
    Disk,
    Result<(), ExFault>,
) {
    match contiguous_len(geo, loc) {
        Some(_) => strung(disk, geo, chain, chain.len() as int),
        None => (disk, Ok(())),
    }
}

/// Making a file's chain long enough for `size` bytes: nothing where it is,
/// else a fresh chain for an empty file and an extension for another.
pub open spec fn chain_grown(
    disk: Disk,
    geo: Geometry,
    bm: BitmapLoc,
    loc: LocModel,
    chain: Seq<u32>,
    size: int,
) -> (Disk, Result<(u32, Seq<u32>), ExFault>) {
    let need = cluster_need(geo, size) - cluster_need(geo, loc.data_len as int);
    if need <= 0 {
        (disk, Ok((loc.first_cluster, chain)))
    } else if chain.len() == 0 {
        match allocation(disk, geo, bm, need) {
            (d, Err(f)) => (d, Err(f)),
            (d, Ok(added)) => (d, Ok((added[0], added))),
        }
    } else {
        match extension(disk, geo, bm, chain.last(), need) {
            (d, Err(f)) => (d, Err(f)),
            (d, Ok(added)) => (d, Ok((loc.first_cluster, chain + added))),
        }
    }
}

/// Writing a file's data into its chain: zeros between the end of what was
/// valid and the offset, then the data.
pub open spec fn payload_written(
    disk: Disk,
    geo: Geometry,
    chain: Seq<u32>,
    valid: u64,
    offset: u64,
    data: Seq<u8>,
) -> (Disk, Result<(), ExFault>) {
    let gap = if offset > valid {
        offset - valid
    } else {
        0
    };
    match range_from(disk, geo, chain, valid as int, zeros(gap as nat), 0, "zero past chain"@) {
        (d, Err(f)) => (d, Err(f)),
        (d, Ok(_)) => range_from(d, geo, chain, offset as int, data, 0, "write past chain"@),
    }
}

/// Writing `data` at `offset` into a located file: allocation, data, flush,
/// entry, flush. What was valid stays so, up to the end of the data at least;
/// a contiguous file becomes a chained one.
pub open spec fn loc_written(
    disk: Disk,
    vol: Volume,
    loc: LocModel,
    offset: u64,
    data: Seq<u8>,
) -> (Disk, Result<usize, ExFault>) {
    let size = size_after(loc.data_len, offset, data.len());
    if loc.is_dir {
        (disk, Err(ExFault::Invalid("write to a directory"@)))
    } else {
        match vol.bitmap {
            None => (disk, Err(ExFault::Invalid("no allocation bitmap"@))),
            Some(bm) => match loc_chain(disk.bytes, vol.geo, loc) {
                Err(f) => (disk, Err(f)),
                Ok(chain) => match run_tied(disk, vol.geo, loc, chain) {
                    (d, Err(f)) => (d, Err(f)),
                    (d, Ok(_)) => match chain_grown(d, vol.geo, bm, loc, chain, size) {
                        (d, Err(f)) => (d, Err(f)),
                        (d, Ok((first, chain))) => match payload_written(
                            d,
                            vol.geo,
                            chain,
                            valid_of(loc),
                            offset,
                            data,
                        ) {
                            (d2, Err(f)) => (d2, Err(f)),
                            (d2, Ok(_)) => match restreamed(
                                d2.flushed(),
                                loc,
                                first,
                                size as u64,
                                size_after(valid_of(loc), offset, data.len()) as u64,
                                0x01,
                            ) {
                                (d3, Err(f)) => (d3, Err(f)),
                                (d3, Ok(_)) => (d3.flushed(), Ok(data.len() as usize)),
                            },
                        },
                    },
                },
            },
        }
    }
}

/// Writing `data` at `offset` into the file at a path. No data changes nothing
/// and asks for no file.
pub open spec fn file_written(
    disk: Disk,
    vol: Volume,
    path: Seq<char>,
    offset: u64,
    data: Seq<u8>,
) -> (Disk, Result<usize, ExFault>) {
    if data.len() == 0 {
        (disk, Ok(0))
    } else {
        match existing(disk.bytes, vol, path) {
            Err(f) => (disk, Err(f)),
            Ok(loc) => loc_written(disk, vol, loc, offset, data),
        }
    }
}

/// Shrinking a located file to `len` bytes: its entry is rewritten and flushed,
/// then the clusters that are still needed become the whole chain, and the rest
/// are freed.
pub open spec fn loc_shrunk(disk: Disk, vol: Volume, loc: LocModel, len: u64) -> (
    Disk,
    Result<(), ExFault>,
) {
    let keep = cluster_need(vol.geo, len as int);
    match vol.bitmap {
        None => (disk, Err(ExFault::Invalid("no allocation bitmap"@))),
        Some(bm) => if loc.data_len == 0 {
            (disk, Ok(()))
        } else {
            match loc_chain(disk.bytes, vol.geo, loc) {
                Err(f) => (disk, Err(f)),
                Ok(chain) => if keep > chain.len() {
                    (disk, Err(ExFault::Invalid("cluster chain shorter than file"@)))
                } else {
                    match restreamed(
                        disk,
                        loc,
                        shrunk_first(loc, keep),
                        len,
                        shrunk_valid(loc, len),
                        shrunk_flags(vol.geo, loc, keep),
                    ) {
                        (d, Err(f)) => (d, Err(f)),
                        (d, Ok(_)) => match rest_freed(d.flushed(), vol.geo, bm, loc, chain, keep) {
                            (d2, Err(f)) => (d2, Err(f)),
                            (d2, Ok(_)) => (d2.flushed(), Ok(())),
                        },
                    }
                },
            }
        },
    }
}

/// Where a file starts once `keep` clusters of it are left.
pub open spec fn shrunk_first(loc: LocModel, keep: int) -> u32 {
    if keep == 0 {
        0
    } else {
        loc.first_cluster
    }
}

/// How much of a file is valid once it is `len` bytes long.
pub open spec fn shrunk_valid(loc: LocModel, len: u64) -> u64 {
    if valid_of(loc) <= len {
        valid_of(loc)
    } else {
        len
    }
}

/// The flags of a file once `keep` clusters of it are left: a contiguous one
/// stays so.
pub open spec fn shrunk_flags(geo: Geometry, loc: LocModel, keep: int) -> u8 {
    if keep == 0 {
        0x00
    } else if contiguous_len(geo, loc) is Some {
        0x03
    } else {
        0x01
    }
}

/// Giving up all clusters of a file but the first `keep`. Where they are
/// chained, the last one kept ends the chain first.
pub open spec fn rest_freed(
    disk: Disk,
    geo: Geometry,
    bm: BitmapLoc,
    loc: LocModel,
    chain: Seq<u32>,
    keep: int,
) -> (Disk, Result<(), ExFault>) {
    let rest = chain.skip(keep);
    let cut = if contiguous_len(geo, loc) is Some {
        (disk, Ok(()))
    } else {
        tail_cut(disk, geo, chain, keep)
    };
    match cut {
        (d, Err(f)) => (d, Err(f)),
        (d, Ok(_)) => freed(d, geo, bm, rest, rest.len() as int),
    }
}

/// Ending a chain after its first `keep` clusters; a chain of none has no end
/// to write.
pub open spec fn tail_cut(disk: Disk, geo: Geometry, chain: Seq<u32>, keep: int) -> (
    Disk,
    Result<(), ExFault>,
) {
    if keep <= 0 {
        (disk, Ok(()))
    } else {
        linked(disk, geo, chain[keep - 1] as int, END_OF_CHAIN)
    }
}

/// Setting the length of the file at a path: growing it with zeros, or
/// shrinking it.
pub open spec fn truncation(disk: Disk, vol: Volume, path: Seq<char>, len: u64) -> (
    Disk,
    Result<(), ExFault>,
) {
    match existing(disk.bytes, vol, path) {
        Err(f) => (disk, Err(f)),
        Ok(loc) => if loc.is_dir {
            (disk, Err(ExFault::Invalid("truncate a directory"@)))
        } else if len > loc.data_len {
            let pad = lesser(len - loc.data_len, vol.geo.cluster_len());
            match file_written(disk, vol, path, (len - pad) as u64, zeros(pad as nat)) {
                (d, Err(f)) => (d, Err(f)),
                (d, Ok(_)) => (d, Ok(())),
            }
        } else {
            loc_shrunk(disk, vol, loc, len)
        },
    }
}

/// How many clusters follow each other where a file has no chain in the table.
pub open spec fn contiguous_len(geo: Geometry, loc: LocModel) -> Option<u64> {
    if loc.flags / 2 % 2 == 1 {
        Some(cluster_need(geo, loc.data_len as int) as u64)
    } else {
        None
    }
}

/// Removing the file or empty directory at a path: its entry set is cleared
/// and flushed, then its clusters are freed.
pub open spec fn removal(disk: Disk, vol: Volume, path: Seq<char>) -> (Disk, Result<(), ExFault>) {
    match existing(disk.bytes, vol, path) {
        Err(f) => (disk, Err(f)),
        Ok(loc) => match emptiness(disk.bytes, vol.geo, loc) {
            Err(f) => (disk, Err(f)),
            Ok(_) => match cleared(disk, loc.offsets) {
                (d, Err(f)) => (d, Err(f)),
                (d, Ok(_)) => if loc.first_cluster < 2 {
                    (d.flushed(), Ok(()))
                } else {
                    match vol.bitmap {
                        None => (d.flushed(), Err(ExFault::Invalid("no allocation bitmap"@))),
                        Some(bm) => match chain_freed(
                            d.flushed(),
                            vol.geo,
                            bm,
                            loc.first_cluster,
                            contiguous_len(vol.geo, loc),
                        ) {
                            (d2, Err(f)) => (d2, Err(f)),
                            (d2, Ok(_)) => (d2.flushed(), Ok(())),
                        },
                    }
                },
            },
        },
    }
}

/// Whether a located entry may be removed: a directory must hold nothing.
pub open spec fn emptiness(img: Seq<u8>, geo: Geometry, loc: LocModel) -> Result<(), ExFault> {
    if !loc.is_dir {
        Ok(())
    } else {
        match directory(img, geo, loc.first_cluster, false, u64::MAX) {
            Err(f) => Err(f),
            Ok(kids) => if kids.len() > 0 {
                Err(ExFault::Invalid("directory not empty"@))
            } else {
                Ok(())
            },
        }
    }
}

proof fn lemma_piece_room(pos: int, cb: int)
    requires
        0 <= pos,
        512 <= cb,
    ensures
        0 <= pos % cb < cb,
        pos / cb >= 0,
{
    assert(0 <= pos % cb < cb) by (nonlinear_arith)
        requires
            512 <= cb,
    ;
    assert(pos / cb >= 0) by (nonlinear_arith)
        requires
            0 <= pos,
            512 <= cb,
    ;
}

fn write_range<D: WriteAt>(disk: &mut D, geo: &Geometry, chain: &Vec<u32>, offset: u64, buf: &[u8])
    -> (r: ExfatResult<()>)
    requires
        geo.wf(),
        offset + buf@.len() <= u64::MAX,
    ensures
        carries(*old(disk), *final(disk)),
        wrote(
            trust(*old(disk), *final(disk)),
            seen(r),
            final(disk).disk(),
            range_from(
                old(disk).disk(),
                *geo,
                chain@,
                offset as int,
                buf@,
                0,
                "write past chain"@,
            ),
        ),
{
    let cb: u64 = geo.cluster_bytes();
    let len: usize = buf.len();
    let ghost start = disk.disk();
    let mut done: usize = 0;
    while done < len
        invariant
            geo.wf(),
            cb == geo.cluster_len(),
            done <= len == buf@.len(),
            offset + len <= u64::MAX,
            start == old(disk).disk(),
            carries(*old(disk), *disk),
            range_from(start, *geo, chain@, offset as int, buf@, 0, "write past chain"@)
                == range_from(
                disk.disk(),
                *geo,
                chain@,
                offset as int,
                buf@,
                done as int,
                "write past chain"@,
            ),
        decreases len - done,
    {
        let pos: u64 = offset + done as u64;
        proof {
            lemma_piece_room(pos as int, cb as int);
        }
        let within: u64 = pos % cb;
        let room: u64 = cb - within;
        let n: usize = if room <= (len - done) as u64 {
            room as usize
        } else {
            len - done
        };
        let index: u64 = pos / cb;
        if index >= chain.len() as u64 {
            return Err(ExfatError::Invalid("write past chain"));
        }
        let off: u64 = geo.cluster_offset(chain[index as usize])?;
        store(disk, off + within, &buf[done..done + n])?;
        done = done + n;
    }
    Ok(())
}

fn zero_range<D: WriteAt>(disk: &mut D, geo: &Geometry, chain: &Vec<u32>, offset: u64, len: u64)
    -> (r: ExfatResult<()>)
    requires
        geo.wf(),
        offset + len <= u64::MAX,
    ensures
        carries(*old(disk), *final(disk)),
        wrote(
            trust(*old(disk), *final(disk)),
            seen(r),
            final(disk).disk(),
            range_from(
                old(disk).disk(),
                *geo,
                chain@,
                offset as int,
                zeros(len as nat),
                0,
                "zero past chain"@,
            ),
        ),
{
    let cb: u64 = geo.cluster_bytes();
    let zero: Vec<u8> = zeroed(cb as usize);
    let ghost start = disk.disk();
    let ghost data = zeros(len as nat);
    let mut done: u64 = 0;
    while done < len
        invariant
            geo.wf(),
            cb == geo.cluster_len(),
            zero@ == zeros(cb as nat),
            data == zeros(len as nat),
            done <= len,
            offset + len <= u64::MAX,
            start == old(disk).disk(),
            carries(*old(disk), *disk),
            range_from(start, *geo, chain@, offset as int, data, 0, "zero past chain"@)
                == range_from(
                disk.disk(),
                *geo,
                chain@,
                offset as int,
                data,
                done as int,
                "zero past chain"@,
            ),
        decreases len - done,
    {
        let pos: u64 = offset + done;
        proof {
            lemma_piece_room(pos as int, cb as int);
        }
        let within: u64 = pos % cb;
        let room: u64 = cb - within;
        let n: u64 = if room <= len - done {
            room
        } else {
            len - done
        };
        let index: u64 = pos / cb;
        if index >= chain.len() as u64 {
            return Err(ExfatError::Invalid("zero past chain"));
        }
        let off: u64 = geo.cluster_offset(chain[index as usize])?;
        let piece: &[u8] = &zero.as_slice()[0..n as usize];
        assert(piece@ =~= data.subrange(done as int, done + n));
        store(disk, off + within, piece)?;
        done = done + n;
    }
    Ok(())
}

/// How much of a located file is valid.
fn valid_len(loc: &EntryLoc) -> (r: u64)
    ensures
        r == valid_of(loc@),
{
    if loc.valid_len <= loc.data_len {
        loc.valid_len
    } else {
        loc.data_len
    }
}

fn append_clusters(chain: &mut Vec<u32>, added: &Vec<u32>)
    ensures
        final(chain)@ == old(chain)@ + added@,
{
    let n: usize = added.len();
    let ghost before = chain@;
    let mut i: usize = 0;
    while i < n
        invariant
            i <= n == added@.len(),
            chain@ =~= before + added@.take(i as int),
        decreases n - i,
    {
        chain.push(added[i]);
        i = i + 1;
    }
    assert(added@.take(n as int) =~= added@);
}

fn skip_clusters(chain: &Vec<u32>, from: usize) -> (r: Vec<u32>)
    requires
        from <= chain@.len(),
    ensures
        r@ == chain@.skip(from as int),
{
    let mut out: Vec<u32> = Vec::new();
    let n: usize = chain.len();
    let mut i: usize = from;
    while i < n
        invariant
            from <= i <= n == chain@.len(),
            out@ =~= chain@.subrange(from as int, i as int),
        decreases n - i,
    {
        out.push(chain[i]);
        i = i + 1;
    }
    assert(out@ =~= chain@.skip(from as int));
    out
}

proof fn lemma_need_grows(geo: Geometry, a: int, b: int)
    requires
        geo.wf(),
        0 <= a <= b,
    ensures
        0 <= cluster_need(geo, a) <= cluster_need(geo, b),
        a > 0 ==> cluster_need(geo, a) >= 1,
        a == 0 ==> cluster_need(geo, a) == 0,
{
    let cb = geo.cluster_len();
    assert((a + cb - 1) / cb <= (b + cb - 1) / cb) by (nonlinear_arith)
        requires
            0 <= a <= b,
            cb >= 512,
    ;
    assert((a + cb - 1) / cb >= 0) by (nonlinear_arith)
        requires
            0 <= a,
            cb >= 512,
    ;
    if a > 0 {
        assert((a + cb - 1) / cb >= 1) by (nonlinear_arith)
            requires
                1 <= a,
                cb >= 512,
        ;
    } else {
        assert((cb - 1) / cb == 0) by (nonlinear_arith)
            requires
                cb >= 512,
        ;
    }
}

impl<D: WriteAt> ExfatFs<D> {
    /// The chain of a located file; an empty file has none.
    fn read_loc_chain(&mut self, loc: &EntryLoc) -> (r: ExfatResult<Vec<u32>>)
        requires
            old(self).wf(),
        ensures
            final(self).volume() == old(self).volume(),
            unmoved(old(self).device(), final(self).device()),
            due(
                sure(old(self).device()),
                seen_view(r),
                loc_chain(old(self).device().disk().bytes, old(self).volume().geo, loc@),
            ),
            r matches Ok(c) ==> (loc.data_len > 0 ==> c@.len() > 0) && forall|i: int|
                0 <= i < c@.len() ==> old(self).volume().geo.has_cluster(#[trigger] c@[i] as int),
    {
        if loc.data_len == 0 {
            let none: Vec<u32> = Vec::new();
            assert(none@ =~= seq![]);
            return Ok(none);
        }
        let ghost img = self.disk.disk().bytes;
        let n: u64 = div_ceil(loc.data_len, self.geo.cluster_bytes());
        proof {
            lemma_need_grows(self.geo, loc.data_len as int, loc.data_len as int);
        }
        if loc.flags / 2 % 2 == 1 {
            let top: u64 = self.geo.cluster_count as u64 + 2;
            if loc.first_cluster < 2 || loc.first_cluster as u64 >= top || n > top
                - loc.first_cluster as u64 {
                return Err(ExfatError::Invalid("cluster run out of range"));
            }
            return Ok(run_clusters(&self.geo, loc.first_cluster, n));
        }
        proof {
            chain_clusters_exist(img, self.geo, loc.first_cluster, 0, n as int, true);
            if let Ok(c) = chain_of(img, self.geo, loc.first_cluster, Some(n)) {
                assert(c.len() > 0);
            }
        }
        read_chain(&mut self.disk, &self.geo, loc.first_cluster, Some(n))
    }

    /// Make a file's chain long enough for `size` bytes.
    fn grow_chain(&mut self, bm: &BitmapLoc, loc: &EntryLoc, chain: Vec<u32>, size: u64) -> (r:
        ExfatResult<(u32, Vec<u32>)>)
        requires
            old(self).wf(),
            loc.data_len <= size,
            loc.data_len > 0 ==> chain@.len() > 0,
        ensures
            final(self).volume() == old(self).volume(),
            carries(old(self).device(), final(self).device()),
            wrote(
                trust(old(self).device(), final(self).device()),
                match r {
                    Ok((first, chain)) => Ok((first, chain@)),
                    Err(e) => Err(e@),
                },
                final(self).device().disk(),
                chain_grown(
                    old(self).device().disk(),
                    old(self).volume().geo,
                    *bm,
                    loc@,
                    chain@,
                    size as int,
                ),
            ),
    {
        let cb: u64 = self.geo.cluster_bytes();
        let have: u64 = div_ceil(loc.data_len, cb);
        let want: u64 = div_ceil(size, cb);
        proof {
            lemma_need_grows(self.geo, loc.data_len as int, size as int);
        }
        if want <= have {
            return Ok((loc.first_cluster, chain));
        }
        let need: u64 = want - have;
        if chain.len() == 0 {
            let added: Vec<u32> = alloc_chain(&mut self.disk, &self.geo, bm, need)?;
            return Ok((added[0], added));
        }
        let mut chain: Vec<u32> = chain;
        let tail: u32 = chain[chain.len() - 1];
        let added: Vec<u32> = extend_chain(&mut self.disk, &self.geo, bm, tail, need)?;
        append_clusters(&mut chain, &added);
        Ok((loc.first_cluster, chain))
    }

    /// Write `buf` at `offset` in the file at `path`, extending it and filling
    /// a gap with zeros as needed.
    pub fn write_file(&mut self, path: &str, offset: u64, buf: &[u8]) -> (r: ExfatResult<usize>)
        requires
            old(self).wf(),
            offset + buf@.len() <= u64::MAX,
        ensures
            final(self).volume() == old(self).volume(),
            carries(old(self).device(), final(self).device()),
            old(self).device().stuck() && buf@.len() > 0 ==> r is Err,
            wrote(
                trust(old(self).device(), final(self).device()),
                seen(r),
                final(self).device().disk(),
                file_written(old(self).device().disk(), old(self).volume(), path@, offset, buf@),
            ),
    {
        if buf.len() == 0 {
            return Ok(0);
        }
        let entry: EntryLoc = self.resolve_existing(path)?;
        if entry.is_dir {
            return Err(ExfatError::Invalid("write to a directory"));
        }
        let end: u64 = offset + buf.len() as u64;
        let size: u64 = if end >= entry.data_len {
            end
        } else {
            entry.data_len
        };
        let bm: BitmapLoc = self.bitmap_loc()?;
        let chain: Vec<u32> = self.read_loc_chain(&entry)?;
        if entry.flags / 2 % 2 == 1 {
            link_chain(&mut self.disk, &self.geo, &chain)?;
        }
        // Data before metadata: the chain grows first.
        let (first, chain): (u32, Vec<u32>) = self.grow_chain(&bm, &entry, chain, size)?;
        let valid: u64 = valid_len(&entry);
        let gap: u64 = if offset > valid {
            offset - valid
        } else {
            0
        };
        if gap > 0 {
            zero_range(&mut self.disk, &self.geo, &chain, valid, gap)?;
        }
        write_range(&mut self.disk, &self.geo, &chain, offset, buf)?;
        barrier(&mut self.disk)?;
        // Publish the new size and first cluster.
        let valid: u64 = if end >= valid {
            end
        } else {
            valid
        };
        self.rewrite_stream(&entry, first, size, valid, 0x01)?;
        barrier(&mut self.disk)?;
        Ok(buf.len())
    }

    /// Shrink a located file.
    fn shrink(&mut self, entry: &EntryLoc, len: u64) -> (r: ExfatResult<()>)
        requires
            old(self).wf(),
            2 <= entry.offsets@.len() <= 256,
        ensures
            final(self).volume() == old(self).volume(),
            carries(old(self).device(), final(self).device()),
            old(self).device().stuck() && entry.data_len > 0 ==> r is Err,
            wrote(
                trust(old(self).device(), final(self).device()),
                seen(r),
                final(self).device().disk(),
                loc_shrunk(
                    old(self).device().disk(),
                    old(self).volume(),
                    entry@,
                    len,
                ),
            ),
    {
        let keep: u64 = div_ceil(len, self.geo.cluster_bytes());
        let bm: BitmapLoc = self.bitmap_loc()?;
        if entry.data_len == 0 {
            return Ok(());
        }
        let chain: Vec<u32> = self.read_loc_chain(entry)?;
        if keep > chain.len() as u64 {
            return Err(ExfatError::Invalid("cluster chain shorter than file"));
        }
        let contiguous: bool = entry.flags / 2 % 2 == 1;
        let first: u32 = if keep == 0 {
            0
        } else {
            entry.first_cluster
        };
        let flags: u8 = if keep == 0 {
            0x00
        } else if contiguous {
            0x03
        } else {
            0x01
        };
        let valid: u64 = valid_len(entry);
        let valid: u64 = if valid <= len {
            valid
        } else {
            len
        };
        // The entry first: it is never to name a cluster that is free.
        self.rewrite_stream(entry, first, len, valid, flags)?;
        barrier(&mut self.disk)?;
        if keep > 0 && !contiguous {
            set_fat(&mut self.disk, &self.geo, chain[keep as usize - 1], END_OF_CHAIN)?;
        }
        let rest: Vec<u32> = skip_clusters(&chain, keep as usize);
        free_clusters(&mut self.disk, &self.geo, &bm, rest.as_slice())?;
        barrier(&mut self.disk)
    }

    /// Set a file's length: grow it with zeros, or shrink it and free the
    /// clusters it no longer needs.
    pub fn truncate_file(&mut self, path: &str, len: u64) -> (r: ExfatResult<()>)
        requires
            old(self).wf(),
        ensures
            final(self).volume() == old(self).volume(),
            carries(old(self).device(), final(self).device()),
            wrote(
                trust(old(self).device(), final(self).device()),
                seen(r),
                final(self).device().disk(),
                truncation(
                    old(self).device().disk(),
                    old(self).volume(),
                    path@,
                    len,
                ),
            ),
    {
        let entry: EntryLoc = self.resolve_existing(path)?;
        if entry.is_dir {
            return Err(ExfatError::Invalid("truncate a directory"));
        }
        if len > entry.data_len {
            let cb: u64 = self.geo.cluster_bytes();
            let grow: u64 = len - entry.data_len;
            let pad: u64 = if grow <= cb {
                grow
            } else {
                cb
            };
            let filler: Vec<u8> = zeroed(pad as usize);
            self.write_file(path, len - pad, filler.as_slice())?;
            return Ok(());
        }
        self.shrink(&entry, len)
    }

    /// Make everything written durable.
    pub fn flush(&mut self) -> (r: ExfatResult<()>)
        requires
            old(self).wf(),
        ensures
            final(self).volume() == old(self).volume(),
            carries(old(self).device(), final(self).device()),
            wrote(
                trust(old(self).device(), final(self).device()),
                seen(r),
                final(self).device().disk(),
                (old(self).device().disk().flushed(), Ok(())),
            ),
    {
        barrier(&mut self.disk)
    }

    /// Remove the file or empty directory at `path`.
    pub fn remove(&mut self, path: &str) -> (r: ExfatResult<()>)
        requires
            old(self).wf(),
        ensures
            final(self).volume() == old(self).volume(),
            carries(old(self).device(), final(self).device()),
            old(self).device().stuck() ==> r is Err,
            wrote(
                trust(old(self).device(), final(self).device()),
                seen(r),
                final(self).device().disk(),
                removal(
                    old(self).device().disk(),
                    old(self).volume(),
                    path@,
                ),
            ),
    {
        let entry: EntryLoc = self.resolve_existing(path)?;
        if entry.is_dir {
            let kids: Vec<Entry> = read_directory(
                &mut self.disk,
                &self.geo,
                entry.first_cluster,
                false,
                u64::MAX,
            )?;
            assert(super::dir::entries_of(kids@).len() == kids@.len());
            if kids.len() > 0 {
                return Err(ExfatError::Invalid("directory not empty"));
            }
        }
        clear_set(&mut self.disk, &entry.offsets)?;
        barrier(&mut self.disk)?;
        if entry.first_cluster >= 2 {
            let bm: BitmapLoc = self.bitmap_loc()?;
            let run: Option<u64> = if entry.flags / 2 % 2 == 1 {
                Some(div_ceil(entry.data_len, self.geo.cluster_bytes()))
            } else {
                None
            };
            free_chain(&mut self.disk, &self.geo, &bm, entry.first_cluster, run)?;
            barrier(&mut self.disk)?;
        }
        Ok(())
    }
}

} // verus!
