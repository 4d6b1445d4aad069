//! What is flushed before what, and that nothing is called done that is not.

use vstd::prelude::*;

use super::boot::Geometry;
use super::clusters::{
    allocation, bitmap_byte, chain_freed, doomed, freed, linked, marked, with_bit,
};
use super::cuts::lemma_entry_log;
use super::fat::fat_slot;
use super::dir::EntryModel;
use super::fs::{BitmapLoc, Volume};
use super::io::{put_at, ExFault};
use super::readback::lookup_and_change_agree;
use super::renaming::{lemma_left_behind, lemma_rename_stages, movable};
use super::tree_laws::target_of_a_sound_way;
use super::upcase::lesser;
use super::write::{
    adjoining, cleared, cluster_need, cluster_zeroed, contiguous_len, creation, dir_grown,
    entry_placed, existing, file_written, loc_chain, removal, renaming, rest_freed, restreamed,
    shrunk_first, shrunk_flags, shrunk_valid, tail_cut, target, truncation, DirModel, LocModel,
};
use crate::bytes::{le32_bytes, zeros};
use crate::device::{Disk, DiskOp};
use crate::text::leaf_of;

verus! {

/// Whether a log goes on from another.
pub open spec fn goes_on(before: Seq<DiskOp>, after: Seq<DiskOp>) -> bool {
    before.len() <= after.len() && after.take(before.len() as int) == before
}

proof fn lemma_goes_on(a: Seq<DiskOp>, b: Seq<DiskOp>, c: Seq<DiskOp>)
    requires
        goes_on(a, b),
        goes_on(b, c),
    ensures
        goes_on(a, c),
{
    assert(c.take(a.len() as int) =~= b.take(a.len() as int));
}

proof fn lemma_pushed(a: Seq<DiskOp>, op: DiskOp)
    ensures
        goes_on(a, a.push(op)),
        goes_on(a, a),
{
    assert(a.push(op).take(a.len() as int) =~= a);
    assert(a.take(a.len() as int) =~= a);
}

proof fn lemma_put_goes_on(disk: Disk, offset: int, data: Seq<u8>)
    ensures
        goes_on(disk.log, put_at(disk, offset, data).0.log),
{
    lemma_pushed(disk.log, DiskOp::Write { offset, data });
}

proof fn lemma_linked_goes_on(disk: Disk, geo: Geometry, c: int, value: u32)
    ensures
        goes_on(disk.log, linked(disk, geo, c, value).0.log),
{
    lemma_put_goes_on(disk, fat_slot(geo, c), le32_bytes(value));
    lemma_pushed(disk.log, DiskOp::Flush);
}

proof fn lemma_marked_goes_on(disk: Disk, geo: Geometry, bm: BitmapLoc, c: int, on: bool)
    ensures
        goes_on(disk.log, marked(disk, geo, bm, c, on).0.log),
{
    lemma_pushed(disk.log, DiskOp::Flush);
    if let Ok((off, b)) = bitmap_byte(disk.bytes, geo, bm, c) {
        lemma_put_goes_on(disk, off, seq![with_bit(b, c, on)]);
    }
}

proof fn lemma_freed_goes_on(disk: Disk, geo: Geometry, bm: BitmapLoc, clusters: Seq<u32>, n: int)
    ensures
        goes_on(disk.log, freed(disk, geo, bm, clusters, n).0.log),
    decreases n,
{
    lemma_pushed(disk.log, DiskOp::Flush);
    if n > 0 {
        lemma_freed_goes_on(disk, geo, bm, clusters, n - 1);
        let (d, r) = freed(disk, geo, bm, clusters, n - 1);
        if r is Ok {
            let c = clusters[n - 1] as int;
            lemma_marked_goes_on(d, geo, bm, c, false);
            let (d2, r2) = marked(d, geo, bm, c, false);
            lemma_goes_on(disk.log, d.log, d2.log);
            if r2 is Ok {
                lemma_linked_goes_on(d2, geo, c, 0);
                lemma_goes_on(disk.log, d2.log, linked(d2, geo, c, 0).0.log);
            }
        }
    }
}

/// What an operation says it has done, it has flushed.
pub proof fn what_is_done_is_flushed(
    disk: Disk,
    vol: Volume,
    path: Seq<char>,
    to: Seq<char>,
    is_dir: bool,
    offset: u64,
    data: Seq<u8>,
    len: u64,
)
    requires
        vol.geo.cluster_len() > 0,
        data.len() > 0,
    ensures
        creation(disk, vol, path, is_dir).1 is Ok ==> creation(
            disk,
            vol,
            path,
            is_dir,
        ).0.log.last() is Flush,
        removal(disk, vol, path).1 is Ok ==> removal(disk, vol, path).0.log.last() is Flush,
        renaming(disk, vol, path, to).1 is Ok ==> renaming(
            disk,
            vol,
            path,
            to,
        ).0.log.last() is Flush,
        file_written(disk, vol, path, offset, data).1 is Ok ==> file_written(
            disk,
            vol,
            path,
            offset,
            data,
        ).0.log.last() is Flush,
        truncation(disk, vol, path, len).1 is Ok ==> truncation(disk, vol, path, len).0 == disk
            || truncation(disk, vol, path, len).0.log.last() is Flush,
{
    if let Ok(loc) = existing(disk.bytes, vol, path) {
        if len > loc.data_len {
            let pad = lesser(len - loc.data_len, vol.geo.cluster_len());
            assert(pad > 0);
            assert(zeros(pad as nat).len() > 0);
        }
    }
}

/// An entry is given up and that is flushed before any of its clusters is
/// freed.
pub proof fn an_entry_goes_before_its_clusters(
    disk: Disk,
    vol: Volume,
    path: Seq<char>,
    loc: LocModel,
)
    requires
        existing(disk.bytes, vol, path) == Ok::<LocModel, ExFault>(loc),
        adjoining(loc.offsets),
        removal(disk, vol, path).1 is Ok,
    ensures
        ({
            let log = removal(disk, vol, path).0.log;
            let n = disk.log.len() as int;
            &&& log.len() >= n + 2
            &&& log.take(n) == disk.log
            &&& log[n] matches DiskOp::Write { offset, .. } && offset == loc.offsets[0]
            &&& log[n + 1] is Flush
        }),
{
    let n = disk.log.len() as int;
    let after = removal(disk, vol, path).0;
    let d = cleared(disk, loc.offsets).0;
    let f = d.flushed();
    lemma_pushed(f.log, DiskOp::Flush);
    assert(f.log.take(n) =~= disk.log);
    if loc.first_cluster >= 2 {
        let bm = vol.bitmap->Some_0;
        let contiguous = contiguous_len(vol.geo, loc);
        let clusters = doomed(f.bytes, vol.geo, loc.first_cluster, contiguous)->Ok_0;
        lemma_freed_goes_on(f, vol.geo, bm, clusters, clusters.len() as int);
        let g = chain_freed(f, vol.geo, bm, loc.first_cluster, contiguous).0;
        lemma_pushed(g.log, DiskOp::Flush);
        lemma_goes_on(f.log, g.log, g.flushed().log);
    }
    assert(goes_on(f.log, after.log));
    assert(after.log.take(n) =~= f.log.take(n));
    assert(after.log.take(f.log.len() as int)[n] == after.log[n]);
    assert(after.log.take(f.log.len() as int)[n + 1] == after.log[n + 1]);
}

/// A shorter length is written and flushed before any cluster behind it is
/// freed.
pub proof fn a_length_goes_before_its_clusters(
    disk: Disk,
    vol: Volume,
    path: Seq<char>,
    loc: LocModel,
    len: u64,
)
    requires
        existing(disk.bytes, vol, path) == Ok::<LocModel, ExFault>(loc),
        loc.offsets[1] == loc.offsets[0] + 32,
        len <= loc.data_len,
        loc.data_len > 0,
        truncation(disk, vol, path, len).1 is Ok,
    ensures
        ({
            let log = truncation(disk, vol, path, len).0.log;
            let n = disk.log.len() as int;
            &&& log.len() >= n + 2
            &&& log.take(n) == disk.log
            &&& log[n] matches DiskOp::Write { offset, .. } && offset == loc.offsets[0]
            &&& log[n + 1] is Flush
        }),
{
    let n = disk.log.len() as int;
    let geo = vol.geo;
    let bm = vol.bitmap->Some_0;
    let keep = cluster_need(geo, len as int);
    let chain = loc_chain(disk.bytes, geo, loc)->Ok_0;
    let (first, valid, flags) = (
        shrunk_first(loc, keep),
        shrunk_valid(loc, len),
        shrunk_flags(geo, loc, keep),
    );
    let d = restreamed(disk, loc, first, len, valid, flags).0;
    let w = lemma_entry_log(disk, loc, first, len, valid, flags);
    let f = d.flushed();
    assert(f.log.take(n) =~= disk.log);
    let after = truncation(disk, vol, path, len).0;
    let g = rest_freed(f, geo, bm, loc, chain, keep).0;
    let rest = chain.skip(keep);
    lemma_pushed(f.log, DiskOp::Flush);
    lemma_linked_goes_on(f, geo, chain[keep - 1] as int, 0xFFFF_FFFF);
    let cut = if contiguous_len(geo, loc) is Some {
        f
    } else {
        tail_cut(f, geo, chain, keep).0
    };
    assert(goes_on(f.log, cut.log));
    lemma_freed_goes_on(cut, geo, bm, rest, rest.len() as int);
    lemma_goes_on(f.log, cut.log, g.log);
    lemma_pushed(g.log, DiskOp::Flush);
    lemma_goes_on(f.log, g.log, after.log);
    assert(after.log.take(n) =~= f.log.take(n));
    assert(after.log.take(f.log.len() as int)[n] == after.log[n]);
    assert(after.log.take(f.log.len() as int)[n + 1] == after.log[n + 1]);
}

/// A directory's new cluster is zeroed and that is flushed before it is linked,
/// and the link is flushed before the directory's entry says its new length.
pub proof fn a_directory_grows_step_by_step(disk: Disk, vol: Volume, dir: DirModel, tail: u32)
    requires
        dir_grown(disk, vol, dir, tail).1 is Ok,
        dir.entry matches Some(loc) ==> loc.offsets[1] == loc.offsets[0] + 32,
    ensures
        ({
            let log = dir_grown(disk, vol, dir, tail).0.log;
            let n = log.len() as int;
            let k = if dir.entry is Some {
                n - 2
            } else {
                n
            };
            &&& n >= 5 || dir.entry is None && n >= 3
            &&& log[n - 1] is Flush
            &&& dir.entry matches Some(loc) ==> (log[n - 2] matches DiskOp::Write { offset, .. }
                && offset == loc.offsets[0])
            &&& log[k - 1] is Flush
            &&& log[k - 2] matches DiskOp::Write { offset, .. } && offset == fat_slot(
                vol.geo,
                tail as int,
            )
            &&& log[k - 3] is Flush
        }),
{
    let bm = vol.bitmap->Some_0;
    let (d, r) = allocation(disk, vol.geo, bm, 1);
    let c = r->Ok_0[0];
    let d2 = cluster_zeroed(d, vol.geo, c).0.flushed();
    let d3 = linked(d2, vol.geo, tail as int, c).0;
    assert(d3 == d2.written(fat_slot(vol.geo, tail as int), le32_bytes(c)));
    if let Some(e) = dir.entry {
        let new_len = (e.data_len + vol.geo.cluster_len()) as u64;
        let w = lemma_entry_log(d3.flushed(), e, e.first_cluster, new_len, new_len, e.flags);
    }
}

/// A move writes the new name and flushes it before it gives up the old.
pub proof fn a_new_name_goes_before_the_old(
    disk: Disk,
    vol: Volume,
    from: Seq<char>,
    to: Seq<char>,
    e: EntryModel,
)
    requires
        movable(disk.bytes, vol, from, to, e),
        existing(disk.bytes, vol, from) matches Ok(src) && adjoining(src.offsets),
    ensures
        ({
            let src = existing(disk.bytes, vol, from)->Ok_0;
            let log = renaming(disk, vol, from, to).0.log;
            let n = disk.log.len() as int;
            &&& log.len() == n + 4
            &&& log.take(n) == disk.log
            &&& log[n] is Write
            &&& log[n + 1] is Flush
            &&& log[n + 2] matches DiskOp::Write { offset, .. } && offset == src.offsets[0]
            &&& log[n + 3] is Flush
        }),
{
    let img = disk.bytes;
    lookup_and_change_agree(img, vol, from, e);
    let src = existing(img, vol, from)->Ok_0;
    target_of_a_sound_way(img, vol, to);
    let dir = target(img, vol, to)->Ok_0.0;
    lemma_rename_stages(disk, vol, from, to, src, dir);
    lemma_left_behind(disk, vol, from, to, e, src, dir);
    let d = entry_placed(
        disk,
        vol,
        dir,
        leaf_of(to),
        src.is_dir,
        src.first_cluster,
        src.data_len,
        src.valid_len,
        src.flags,
    ).0;
    let (o, bytes) = choose|o: int, bytes: Seq<u8>| d == (#[trigger] disk.written(o, bytes)).flushed();
    let data = choose|data: Seq<u8>|
        cleared(d, src.offsets).0 == #[trigger] d.written(src.offsets[0] as int, data);
    let log = renaming(disk, vol, from, to).0.log;
    assert(log =~= disk.log.push(DiskOp::Write { offset: o, data: bytes }).push(DiskOp::Flush).push(
        DiskOp::Write { offset: src.offsets[0] as int, data },
    ).push(DiskOp::Flush));
    assert(log.take(disk.log.len() as int) =~= disk.log);
}

} // verus!
