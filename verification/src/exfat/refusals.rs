//! What is refused of a volume, and that a refusal changes nothing.

use vstd::prelude::*;

use super::dir::{directory, EntryModel};
use super::entries::{named_is_found, set_from};
use super::fs::{file_read, lookup_result, Volume};
use super::io::ExFault;
use super::readback::{home_of, lookup_and_change_agree, place_of, sound_way};
use super::tree_laws::target_of_a_sound_way;
use super::ways::dir_rows;
use super::write::{creation, existing, file_written, removal, renaming, truncation};
use crate::device::Disk;
use crate::text::{leaf_of, utf16_of};

verus! {

/// What leads to an entry leads to it also where it is to be changed.
proof fn lemma_same_kind(img: Seq<u8>, vol: Volume, path: Seq<char>, e: EntryModel)
    requires
        sound_way(img, vol, path),
        lookup_result(img, vol, path) == Ok::<Option<EntryModel>, ExFault>(Some(e)),
    ensures
        existing(img, vol, path) matches Ok(loc) && loc.is_dir == e.is_dir && loc.first_cluster
            == e.first_cluster,
{
    let raws = dir_rows(img, vol, home_of(img, vol, path));
    let k = place_of(img, vol, path);
    lookup_and_change_agree(img, vol, path, e);
    named_is_found(vol.upcase, raws, leaf_of(path), 0);
    let set = set_from(raws, k);
    assert(set[0] == raws[k] && set[1] == raws[k + 1]);
}

/// A path that leads somewhere is not created, be it as a file or a directory.
pub proof fn a_taken_path_is_not_created(disk: Disk, vol: Volume, path: Seq<char>, is_dir: bool)
    requires
        sound_way(disk.bytes, vol, path),
        lookup_result(disk.bytes, vol, path) is Ok,
    ensures
        creation(disk, vol, path, is_dir) == (
            disk,
            Err::<(), ExFault>(ExFault::Invalid("already exists"@)),
        ),
{
    target_of_a_sound_way(disk.bytes, vol, path);
}

/// A directory that holds anything is not removed.
pub proof fn a_filled_directory_is_not_removed(
    disk: Disk,
    vol: Volume,
    path: Seq<char>,
    e: EntryModel,
)
    requires
        sound_way(disk.bytes, vol, path),
        lookup_result(disk.bytes, vol, path) == Ok::<Option<EntryModel>, ExFault>(Some(e)),
        e.is_dir,
        directory(disk.bytes, vol.geo, e.first_cluster, false, u64::MAX) matches Ok(kids)
            && kids.len() > 0,
    ensures
        removal(disk, vol, path) == (
            disk,
            Err::<(), ExFault>(ExFault::Invalid("directory not empty"@)),
        ),
{
    lemma_same_kind(disk.bytes, vol, path, e);
}

/// A directory is neither written, nor truncated, nor read as a file.
pub proof fn a_directory_is_no_file(
    disk: Disk,
    vol: Volume,
    path: Seq<char>,
    e: EntryModel,
    offset: u64,
    data: Seq<u8>,
    len: u64,
)
    requires
        sound_way(disk.bytes, vol, path),
        lookup_result(disk.bytes, vol, path) == Ok::<Option<EntryModel>, ExFault>(Some(e)),
        e.is_dir,
        data.len() > 0,
    ensures
        file_written(disk, vol, path, offset, data).0 == disk,
        file_written(disk, vol, path, offset, data).1 is Err,
        truncation(disk, vol, path, len).0 == disk,
        truncation(disk, vol, path, len).1 is Err,
        file_read(disk.bytes, vol.geo, e, offset as int, len as int) is Err,
{
    lemma_same_kind(disk.bytes, vol, path, e);
}

/// What is not there is neither removed, nor written, nor truncated, nor moved.
pub proof fn what_is_not_there_is_not_changed(
    disk: Disk,
    vol: Volume,
    path: Seq<char>,
    to: Seq<char>,
    offset: u64,
    data: Seq<u8>,
    len: u64,
)
    requires
        sound_way(disk.bytes, vol, path),
        lookup_result(disk.bytes, vol, path) == Err::<Option<EntryModel>, ExFault>(
            ExFault::NotFound,
        ),
        data.len() > 0,
    ensures
        removal(disk, vol, path) == (disk, Err::<(), ExFault>(ExFault::NotFound)),
        truncation(disk, vol, path, len) == (disk, Err::<(), ExFault>(ExFault::NotFound)),
        renaming(disk, vol, path, to) == (disk, Err::<(), ExFault>(ExFault::NotFound)),
        file_written(disk, vol, path, offset, data) == (
            disk,
            Err::<usize, ExFault>(ExFault::NotFound),
        ),
{
    target_of_a_sound_way(disk.bytes, vol, path);
}

/// Writing nothing does nothing, and a path without a name is no place for
/// anything; nor is one whose name has more than 255 code units.
pub proof fn names_have_a_length(
    disk: Disk,
    vol: Volume,
    path: Seq<char>,
    from: Seq<char>,
    offset: u64,
)
    ensures
        file_written(disk, vol, path, offset, seq![]) == (disk, Ok::<usize, ExFault>(0)),
        leaf_of(path).len() == 0 || utf16_of(leaf_of(path)).len() > 255 ==> creation(
            disk,
            vol,
            path,
            false,
        ).0 == disk && creation(disk, vol, path, false).1 is Err && renaming(
            disk,
            vol,
            from,
            path,
        ).0 == disk && renaming(disk, vol, from, path).1 is Err,
{
}

} // verus!
