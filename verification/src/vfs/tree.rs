//! The interface to a mounted filesystem.

use vstd::prelude::*;

use super::detect::FsKind;
use crate::error::{outcome, VcFault, VcResult};

verus! {

/// Directory entry metadata.
#[derive(Debug)]
pub struct DirEntry {
    pub name: String,
    pub is_dir: bool,
    pub size: u64,
    /// Modification time as Unix milliseconds, if the filesystem records one.
    pub mtime_ms: Option<i64>,
}

/// A directory entry as a value.
#[verifier::ext_equal]
pub struct DirModel {
    pub name: Seq<char>,
    pub is_dir: bool,
    pub size: u64,
    pub mtime_ms: Option<i64>,
}

impl View for DirEntry {
    type V = DirModel;

    open spec fn view(&self) -> DirModel {
        DirModel {
            name: self.name@,
            is_dir: self.is_dir,
            size: self.size,
            mtime_ms: self.mtime_ms,
        }
    }
}

/// The views of a list of directory entries.
pub open spec fn dirs_of(v: Seq<DirEntry>) -> Seq<DirModel> {
    v.map_values(|e: DirEntry| e@)
}

/// The entry of the root directory.
pub open spec fn root_entry() -> DirModel {
    DirModel { name: "/"@, is_dir: true, size: 0, mtime_ms: None }
}

/// The entry of the root directory.
pub fn root_dir_entry() -> (r: DirEntry)
    ensures
        r@ == root_entry(),
{
    DirEntry { name: "/".to_string(), is_dir: true, size: 0, mtime_ms: None }
}

/// What can be asked of a filesystem that answers with nothing but success or
/// failure.
pub enum VfsOp {
    Create(Seq<char>),
    Mkdir(Seq<char>),
    Rename(Seq<char>, Seq<char>),
    Unlink(Seq<char>),
    Truncate(Seq<char>, u64),
    Flush,
}

/// A result with value and error by their views.
pub open spec fn listing_of(r: VcResult<Vec<DirEntry>>) -> Result<Seq<DirModel>, VcFault> {
    match r {
        Ok(v) => Ok(dirs_of(v@)),
        Err(e) => Err(e@),
    }
}

pub open spec fn entry_of(r: VcResult<DirEntry>) -> Result<DirModel, VcFault> {
    match r {
        Ok(v) => Ok(v@),
        Err(e) => Err(e@),
    }
}

/// The bytes that a read left at the front of its buffer.
pub open spec fn bytes_of(r: VcResult<usize>, buf: Seq<u8>) -> Result<Seq<u8>, VcFault> {
    match r {
        Ok(n) => Ok(buf.take(n as int)),
        Err(e) => Err(e@),
    }
}

/// A mounted filesystem. Paths are slash-separated and relative to the volume
/// root. What each call may do is for the filesystem to say, as a relation
/// between the filesystem before, the call, its outcome, and the filesystem
/// after.
pub trait Vfs: Sized {
    open spec fn sort(&self) -> FsKind {
        arbitrary()
    }

    open spec fn takes_writes(&self) -> bool {
        arbitrary()
    }

    /// Whether the filesystem is in order, so that it can be used.
    open spec fn usable(&self) -> bool {
        arbitrary()
    }

    /// Whether the device underneath holds no key that is not overwritten.
    open spec fn wiped(&self) -> bool {
        true
    }

    open spec fn may_list(
        before: Self,
        path: Seq<char>,
        r: Result<Seq<DirModel>, VcFault>,
        after: Self,
    ) -> bool {
        arbitrary()
    }

    open spec fn may_stat(
        before: Self,
        path: Seq<char>,
        r: Result<DirModel, VcFault>,
        after: Self,
    ) -> bool {
        arbitrary()
    }

    open spec fn may_read(
        before: Self,
        path: Seq<char>,
        offset: u64,
        len: nat,
        r: Result<Seq<u8>, VcFault>,
        after: Self,
    ) -> bool {
        arbitrary()
    }

    open spec fn may_write(
        before: Self,
        path: Seq<char>,
        offset: u64,
        data: Seq<u8>,
        r: Result<usize, VcFault>,
        after: Self,
    ) -> bool {
        arbitrary()
    }

    open spec fn may_do(before: Self, op: VfsOp, r: Result<(), VcFault>, after: Self) -> bool {
        arbitrary()
    }

    fn kind(&self) -> (r: FsKind)
        ensures
            r == self.sort(),
    ;

    /// Whether this filesystem supports writes.
    fn writable(&self) -> (r: bool)
        ensures
            r == self.takes_writes(),
    ;

    fn list(&mut self, path: &str) -> (r: VcResult<Vec<DirEntry>>)
        requires
            old(self).usable(),
        ensures
            final(self).usable(),
            Self::may_list(*old(self), path@, listing_of(r), *final(self)),
    ;

    fn stat(&mut self, path: &str) -> (r: VcResult<DirEntry>)
        requires
            old(self).usable(),
        ensures
            final(self).usable(),
            Self::may_stat(*old(self), path@, entry_of(r), *final(self)),
    ;

    /// Random-access read; returns bytes read, short only at end of file.
    fn read_at(&mut self, path: &str, offset: u64, buf: &mut [u8]) -> (r: VcResult<usize>)
        requires
            old(self).usable(),
        ensures
            final(self).usable(),
            final(buf)@.len() == old(buf)@.len(),
            r matches Ok(n) ==> n <= old(buf)@.len(),
            Self::may_read(
                *old(self),
                path@,
                offset,
                old(buf)@.len(),
                bytes_of(r, final(buf)@),
                *final(self),
            ),
    ;

    fn write_at(&mut self, path: &str, offset: u64, buf: &[u8]) -> (r: VcResult<usize>)
        requires
            old(self).usable(),
            offset + buf@.len() <= u64::MAX,
        ensures
            final(self).usable(),
            r matches Ok(n) ==> n <= buf@.len(),
            Self::may_write(*old(self), path@, offset, buf@, outcome(r), *final(self)),
    ;

    fn create(&mut self, path: &str) -> (r: VcResult<()>)
        requires
            old(self).usable(),
        ensures
            final(self).usable(),
            Self::may_do(*old(self), VfsOp::Create(path@), outcome(r), *final(self)),
    ;

    fn mkdir(&mut self, path: &str) -> (r: VcResult<()>)
        requires
            old(self).usable(),
        ensures
            final(self).usable(),
            Self::may_do(*old(self), VfsOp::Mkdir(path@), outcome(r), *final(self)),
    ;

    fn rename(&mut self, from: &str, to: &str) -> (r: VcResult<()>)
        requires
            old(self).usable(),
        ensures
            final(self).usable(),
            Self::may_do(*old(self), VfsOp::Rename(from@, to@), outcome(r), *final(self)),
    ;

    fn unlink(&mut self, path: &str) -> (r: VcResult<()>)
        requires
            old(self).usable(),
        ensures
            final(self).usable(),
            Self::may_do(*old(self), VfsOp::Unlink(path@), outcome(r), *final(self)),
    ;

    fn truncate(&mut self, path: &str, len: u64) -> (r: VcResult<()>)
        requires
            old(self).usable(),
        ensures
            final(self).usable(),
            Self::may_do(*old(self), VfsOp::Truncate(path@, len), outcome(r), *final(self)),
    ;

    fn flush(&mut self) -> (r: VcResult<()>)
        requires
            old(self).usable(),
        ensures
            final(self).usable(),
            Self::may_do(*old(self), VfsOp::Flush, outcome(r), *final(self)),
    ;

    /// Overwrite the keys of the device underneath; to be called once the
    /// filesystem has served.
    fn wipe_keys(&mut self)
        ensures
            final(self).wiped(),
    ;
}

} // verus!
