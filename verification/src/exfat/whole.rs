//! What writing, truncating and moving do as a whole: the result, what becomes
//! of the file, and what becomes of everything else.

use vstd::prelude::*;

use super::areas::{in_use, members};
use super::dir::EntryModel;
use super::fs::{file_chain, file_read, lookup_result, Volume};
use super::io::ExFault;
use super::neighbours::{
    a_truncation_leaves_others_alone, a_write_leaves_others_alone, bystander, file_clear,
    file_reach, unharmed,
};
use super::readback::{
    a_write_is_read_back, home_clusters, home_of, lemma_target, overlaid, sound_file, valid_after,
};
use super::renaming::{
    a_move_leaves_others_alone, a_moved_entry_is_found, a_moved_file_reads_as_before, movable,
};
use super::resizing::{a_grown_file_ends_in_zeros, a_shrunk_file_keeps_its_start};
use super::space::{a_file_with_room_grows, a_write_with_room_succeeds, has_free};
use super::write::{cluster_need, file_written, renaming, size_after, truncation};
use crate::bytes::zeros;
use crate::device::Disk;
use crate::text::leaf_of;

verus! {

/// Whether every file that a change to one file keeps clear of is unharmed.
pub open spec fn spares_the_rest(
    img: Seq<u8>,
    after: Seq<u8>,
    vol: Volume,
    path: Seq<char>,
    e: EntryModel,
) -> bool {
    forall|other: Seq<char>, f: EntryModel| #[trigger]
        bystander(
            img,
            vol,
            home_of(img, vol, path),
            e.name,
            file_reach(img, vol, e),
            other,
            f,
        ) ==> unharmed(img, after, vol, other, f)
}

/// Writing to a file in order, where the bitmap has clusters enough for it: all
/// of the data is written; the file then reads as it did, with the data laid
/// over it and zeros in a gap; every cluster that it gained was free; and every
/// file that shares no cluster with it or its directory reads as before.
pub proof fn a_write_does_this_and_no_more(
    disk: Disk,
    vol: Volume,
    path: Seq<char>,
    e: EntryModel,
    offset: u64,
    data: Seq<u8>,
)
    requires
        sound_file(disk.bytes, vol, path, e),
        data.len() > 0,
        offset + data.len() <= u64::MAX,
        has_free(
            disk.bytes,
            vol.geo,
            vol.bitmap->Some_0,
            cluster_need(vol.geo, size_after(e.size, offset, data.len())) - cluster_need(
                vol.geo,
                e.size as int,
            ),
        ),
    ensures
        ({
            let (after, r) = file_written(disk, vol, path, offset, data);
            let old = file_read(disk.bytes, vol.geo, e, 0, e.size as int)->Ok_0;
            let e2 = lookup_result(after.bytes, vol, path)->Ok_0->Some_0;
            &&& r == Ok::<usize, ExFault>(data.len() as usize)
            &&& sound_file(after.bytes, vol, path, e2)
            &&& e2.name == e.name
            &&& e2.size == size_after(e.size, offset, data.len())
            &&& file_read(after.bytes, vol.geo, e2, 0, e2.size as int) == Ok::<Seq<u8>, ExFault>(
                Seq::new(e2.size as nat, |p: int| overlaid(old, offset as int, data, p)),
            )
            &&& forall|c: int| #[trigger]
                members(file_chain(after.bytes, vol.geo, e2)->Ok_0).contains(c) ==> members(
                    file_chain(disk.bytes, vol.geo, e)->Ok_0,
                ).contains(c) || !in_use(disk.bytes, vol.geo, vol.bitmap->Some_0, c)
            &&& spares_the_rest(disk.bytes, after.bytes, vol, path, e)
        }),
{
    let img = disk.bytes;
    let after = file_written(disk, vol, path, offset, data).0.bytes;
    a_write_with_room_succeeds(disk, vol, path, e, offset, data);
    a_write_is_read_back(disk, vol, path, e, offset, data);
    assert forall|other: Seq<char>, f: EntryModel| #[trigger]
        bystander(
            img,
            vol,
            home_of(img, vol, path),
            e.name,
            file_reach(img, vol, e),
            other,
            f,
        ) implies unharmed(img, after, vol, other, f) by {
        a_write_leaves_others_alone(disk, vol, path, e, offset, data, other, f);
    }
}

/// Truncating a file in order, where the bitmap has clusters enough if it is to
/// grow: it succeeds; the file is then as long as asked for and reads as it did
/// as far as it reaches, with zeros behind its old end; and every file that
/// shares no cluster with it or its directory reads as before.
pub proof fn a_truncation_does_this_and_no_more(
    disk: Disk,
    vol: Volume,
    path: Seq<char>,
    e: EntryModel,
    len: u64,
)
    requires
        sound_file(disk.bytes, vol, path, e),
        len > e.size ==> has_free(
            disk.bytes,
            vol.geo,
            vol.bitmap->Some_0,
            cluster_need(vol.geo, len as int) - cluster_need(vol.geo, e.size as int),
        ),
    ensures
        ({
            let (after, r) = truncation(disk, vol, path, len);
            let old = file_read(disk.bytes, vol.geo, e, 0, e.size as int)->Ok_0;
            let e2 = lookup_result(after.bytes, vol, path)->Ok_0->Some_0;
            &&& r is Ok
            &&& sound_file(after.bytes, vol, path, e2)
            &&& e2.name == e.name
            &&& e2.size == len
            &&& file_read(after.bytes, vol.geo, e2, 0, len as int) == Ok::<Seq<u8>, ExFault>(
                if len > e.size {
                    old + zeros((len - e.size) as nat)
                } else {
                    old.take(len as int)
                },
            )
            &&& spares_the_rest(disk.bytes, after.bytes, vol, path, e)
        }),
{
    let img = disk.bytes;
    let after = truncation(disk, vol, path, len).0.bytes;
    if len > e.size {
        a_file_with_room_grows(disk, vol, path, e, len);
        a_grown_file_ends_in_zeros(disk, vol, path, e, len);
    } else if e.size > 0 {
        a_shrunk_file_keeps_its_start(disk, vol, path, e, len);
    } else {
        lemma_target(img, vol, path, e);
        let old = file_read(img, vol.geo, e, 0, 0)->Ok_0;
        assert(file_read(img, vol.geo, e, 0, 0) is Ok && old.len() == 0);
        assert(old.take(0) =~= old);
    }
    assert forall|other: Seq<char>, f: EntryModel| #[trigger]
        bystander(
            img,
            vol,
            home_of(img, vol, path),
            e.name,
            file_reach(img, vol, e),
            other,
            f,
        ) implies unharmed(img, after, vol, other, f) by {
        a_truncation_leaves_others_alone(disk, vol, path, e, len, other, f);
    }
}

/// Moving a file to a path that is vacant: it succeeds; the file is found there
/// with its length, its valid length and its first cluster, reads as before,
/// and is not found at its old path; no bit of the bitmap changes; and every
/// file that shares no cluster with the two directories reads as before.
pub proof fn a_move_does_this_and_no_more(
    disk: Disk,
    vol: Volume,
    from: Seq<char>,
    to: Seq<char>,
    e: EntryModel,
)
    requires
        movable(disk.bytes, vol, from, to, e),
        file_clear(
            disk.bytes,
            vol,
            e,
            home_clusters(disk.bytes, vol, to).union(home_clusters(disk.bytes, vol, from)),
        ),
    ensures
        ({
            let (after, r) = renaming(disk, vol, from, to);
            let e2 = lookup_result(after.bytes, vol, to)->Ok_0->Some_0;
            &&& r is Ok
            &&& lookup_result(after.bytes, vol, to) == Ok::<Option<EntryModel>, ExFault>(Some(e2))
            &&& e2.name == leaf_of(to)
            &&& e2.size == e.size
            &&& e2.valid_size == e.valid_size
            &&& e2.first_cluster == e.first_cluster
            &&& lookup_result(after.bytes, vol, from) == Err::<Option<EntryModel>, ExFault>(
                ExFault::NotFound,
            )
            &&& file_read(after.bytes, vol.geo, e2, 0, e2.size as int) == file_read(
                disk.bytes,
                vol.geo,
                e,
                0,
                e.size as int,
            )
            &&& forall|c: int|
                vol.geo.has_cluster(c) ==> #[trigger] in_use(
                    after.bytes,
                    vol.geo,
                    vol.bitmap->Some_0,
                    c,
                ) == in_use(disk.bytes, vol.geo, vol.bitmap->Some_0, c)
            &&& forall|other: Seq<char>, f: EntryModel|
                #![trigger unharmed(disk.bytes, after.bytes, vol, other, f)]
                bystander(
                    disk.bytes,
                    vol,
                    home_of(disk.bytes, vol, from),
                    e.name,
                    Set::empty(),
                    other,
                    f,
                ) && bystander(
                    disk.bytes,
                    vol,
                    home_of(disk.bytes, vol, to),
                    leaf_of(to),
                    Set::empty(),
                    other,
                    f,
                ) ==> unharmed(disk.bytes, after.bytes, vol, other, f)
        }),
{
    let img = disk.bytes;
    let after = renaming(disk, vol, from, to).0.bytes;
    a_moved_entry_is_found(disk, vol, from, to, e);
    a_moved_file_reads_as_before(disk, vol, from, to, e);
    assert forall|other: Seq<char>, f: EntryModel|
        #![trigger unharmed(img, after, vol, other, f)]
        bystander(img, vol, home_of(img, vol, from), e.name, Set::empty(), other, f) && bystander(
            img,
            vol,
            home_of(img, vol, to),
            leaf_of(to),
            Set::empty(),
            other,
            f,
        ) implies unharmed(img, after, vol, other, f) by {
        a_move_leaves_others_alone(disk, vol, from, to, e, other, f);
    }
}

/// What a write makes of a file's bytes: the data where it goes, the old bytes
/// where there were any, and zeros between; and what is valid of it then
/// reaches as far as the data did, or as before.
pub proof fn what_a_write_makes_of_a_file(
    old: Seq<u8>,
    e: EntryModel,
    offset: u64,
    data: Seq<u8>,
    p: int,
)
    requires
        0 <= p,
        offset + data.len() <= u64::MAX,
        e.valid_size <= e.size,
    ensures
        offset <= p < offset + data.len() ==> overlaid(old, offset as int, data, p) == data[p
            - offset],
        !(offset <= p < offset + data.len()) && p < old.len() ==> overlaid(
            old,
            offset as int,
            data,
            p,
        ) == old[p],
        !(offset <= p < offset + data.len()) && p >= old.len() ==> overlaid(
            old,
            offset as int,
            data,
            p,
        ) == 0,
        valid_after(e, offset, data.len()) >= e.valid_size,
        valid_after(e, offset, data.len()) >= offset + data.len(),
        valid_after(e, offset, data.len()) == e.valid_size || valid_after(e, offset, data.len())
            == offset + data.len(),
{
}

} // verus!
