//! The exFAT filesystem behind the common interface.

use vstd::prelude::*;

use super::detect::FsKind;
use super::tree::{dirs_of, root_dir_entry, root_entry, DirEntry, DirModel, Vfs, VfsOp};
use crate::device::{shielded, BlockDevice, Disk};
use crate::error::{VcError, VcFault, VcResult};
use crate::exfat::dir::{Entry, EntryModel};
use crate::exfat::format::{format as format_exfat_volume, formatted};
use crate::exfat::fs::{
    children, file_read, lookup_result, opened, opt_entry, read_layout, ExfatFs, Volume,
};
use crate::exfat::io::{
    carries, sure, trust, unmoved, DeviceReadAt, Trust, ExFault, ExfatError, ReadAt,
    WriteAt,
};
use crate::exfat::write::{creation, file_written, removal, renaming, truncation};

verus! {

/// Whether an error of the common interface is the one for an exFAT fault. Of
/// an I/O error the words are the device's.
pub open spec fn fault_matches(f: ExFault, v: VcFault) -> bool {
    match f {
        ExFault::NotFound => v == VcFault::Filesystem("not found"@),
        ExFault::Invalid(what) => v == VcFault::Filesystem("invalid exFAT volume: "@ + what),
        ExFault::HiddenVolumeProtected => v == VcFault::HiddenVolumeProtected,
        ExFault::Io => v is Filesystem,
    }
}

/// Whether an outcome of the common interface is the one due.
pub open spec fn answers<T>(sure: bool, r: Result<T, VcFault>, want: Result<T, ExFault>) -> bool {
    match r {
        Ok(v) => want == Ok::<T, ExFault>(v),
        Err(v) => (want matches Err(f) && fault_matches(f, v)) || (!sure && v is Filesystem),
    }
}

fn fs_err(e: ExfatError) -> (r: VcError)
    ensures
        fault_matches(e@, r@),
        e@ is Io ==> r@ is Filesystem,
{
    match e {
        ExfatError::NotFound => VcError::Filesystem("not found".to_string()),
        ExfatError::HiddenVolumeProtected => VcError::HiddenVolumeProtected,
        other => VcError::Filesystem(other.message()),
    }
}

/// An exFAT entry as the common interface shows it.
pub open spec fn shown(e: EntryModel) -> DirModel {
    DirModel { name: e.name, is_dir: e.is_dir, size: e.size, mtime_ms: e.mtime_ms }
}

fn show(e: &Entry) -> (r: DirEntry)
    ensures
        r@ == shown(e@),
{
    DirEntry { name: e.name.clone(), is_dir: e.is_dir, size: e.size, mtime_ms: e.mtime_ms }
}

/// An exFAT volume behind the common interface.
pub struct ExfatVfs<D: BlockDevice> {
    fs: ExfatFs<DeviceReadAt<D>>,
}

impl<D: BlockDevice> ExfatVfs<D> {
    /// The volume's disk.
    pub open spec fn disk(&self) -> Disk {
        self.surface().disk()
    }

    /// The volume as the exFAT code sees it.
    pub closed spec fn surface(&self) -> DeviceReadAt<D> {
        self.fs.device()
    }

    /// Whether the device fails only where it must.
    pub open spec fn reliable(&self) -> bool {
        self.surface().reliable()
    }

    /// What opening the volume learned of it.
    pub closed spec fn volume(&self) -> Volume {
        self.fs.volume()
    }

    pub fn open(dev: D) -> (r: VcResult<Self>)
        ensures
            match r {
                Ok(v) => {
                    &&& opened(dev.disk().bytes) == Ok::<Volume, ExFault>(v.volume())
                    &&& v.usable()
                    &&& unmoved(DeviceReadAt { dev }, v.surface())
                },
                Err(e) => answers(
                    dev.reliable() || dev.steady(),
                    Err::<Volume, VcFault>(e@),
                    opened(dev.disk().bytes),
                ),
            },
    {
        let mut d = DeviceReadAt { dev };
        match read_layout(&mut d) {
            Ok(layout) => Ok(ExfatVfs { fs: ExfatFs::over(d, layout) }),
            Err(e) => {
                d.dev.wipe_keys();
                Err(fs_err(e))
            },
        }
    }

    /// The device underneath.
    pub open spec fn device(&self) -> D {
        self.surface().dev
    }

    /// Hand the device back.
    pub fn into_device(self) -> (r: D)
        ensures
            r == self.device(),
    {
        self.fs.into_device().dev
    }

    fn resolve(&mut self, path: &str) -> (r: VcResult<Option<Entry>>)
        requires
            old(self).usable(),
        ensures
            final(self).usable(),
            final(self).volume() == old(self).volume(),
            unmoved(old(self).surface(), final(self).surface()),
            answers(
                sure(old(self).surface()),
                match r {
                    Ok(e) => Ok(opt_entry(e)),
                    Err(e) => Err(e@),
                },
                lookup_result(old(self).disk().bytes, old(self).volume(), path@),
            ),
    {
        match self.fs.lookup(path) {
            Ok(e) => Ok(e),
            Err(e) => Err(fs_err(e)),
        }
    }
}

/// What listing a path gives.
pub open spec fn listing(img: Seq<u8>, vol: Volume, path: Seq<char>) -> Result<
    Seq<EntryModel>,
    ExFault,
> {
    match lookup_result(img, vol, path) {
        Err(f) => Err(f),
        Ok(e) => children(img, vol.geo, e),
    }
}

/// Whether a path leads to a file.
pub open spec fn leads_to_file(img: Seq<u8>, vol: Volume, path: Seq<char>) -> bool {
    lookup_result(img, vol, path) matches Ok(Some(e)) && !e.is_dir
}

/// Whether a path leads to the root.
pub open spec fn leads_to_root(img: Seq<u8>, vol: Volume, path: Seq<char>) -> bool {
    lookup_result(img, vol, path) == Ok::<Option<EntryModel>, ExFault>(None)
}

/// Whether an outcome and the volume it leaves are the ones due; or the outcome
/// is a steady device's refusal to write over a hidden volume, from which on
/// it takes no writes; or it is such a refusal or an I/O error of a device of
/// which nothing is known.
pub open spec fn wrote_as<T>(
    t: Trust,
    r: Result<T, VcFault>,
    after: Disk,
    want: (Disk, Result<T, ExFault>),
) -> bool {
    match r {
        Ok(v) => after == want.0 && want.1 == Ok::<T, ExFault>(v),
        Err(v) => {
            ||| want.1 matches Err(f) && fault_matches(f, v) && after == want.0
            ||| !t.reliable && v is HiddenVolumeProtected && (t.steady ==> t.stuck)
            ||| !t.reliable && !t.steady && v is Filesystem
        },
    }
}

/// What an operation does to the volume and answers.
pub open spec fn operated(disk: Disk, vol: Volume, op: VfsOp) -> (Disk, Result<(), ExFault>) {
    match op {
        VfsOp::Create(path) => creation(disk, vol, path, false),
        VfsOp::Mkdir(path) => creation(disk, vol, path, true),
        VfsOp::Rename(from, to) => renaming(disk, vol, from, to),
        VfsOp::Unlink(path) => removal(disk, vol, path),
        VfsOp::Truncate(path, len) => truncation(disk, vol, path, len),
        VfsOp::Flush => (disk.flushed(), Ok(())),
    }
}

impl<D: BlockDevice> Vfs for ExfatVfs<D> {
    open spec fn wiped(&self) -> bool {
        self.device().wiped()
    }

    open spec fn sort(&self) -> FsKind {
        FsKind::Exfat
    }

    open spec fn takes_writes(&self) -> bool {
        true
    }

    closed spec fn usable(&self) -> bool {
        self.fs.wf()
    }

    open spec fn may_list(
        before: Self,
        path: Seq<char>,
        r: Result<Seq<DirModel>, VcFault>,
        after: Self,
    ) -> bool {
        let img = before.disk().bytes;
        let vol = before.volume();
        &&& unmoved(before.surface(), after.surface())
        &&& after.volume() == vol
        &&& if leads_to_file(img, vol, path) {
            r == Err::<Seq<DirModel>, VcFault>(VcFault::Filesystem("not a directory"@)) || (
            !sure(before.surface()) && r is Err && r->Err_0 is Filesystem)
        } else {
            answers(
                sure(before.surface()),
                r,
                match listing(img, vol, path) {
                    Ok(s) => Ok(s.map_values(|e: EntryModel| shown(e))),
                    Err(f) => Err(f),
                },
            )
        }
    }

    open spec fn may_stat(
        before: Self,
        path: Seq<char>,
        r: Result<DirModel, VcFault>,
        after: Self,
    ) -> bool {
        let img = before.disk().bytes;
        let vol = before.volume();
        &&& unmoved(before.surface(), after.surface())
        &&& after.volume() == vol
        &&& answers(
            sure(before.surface()),
            r,
            match lookup_result(img, vol, path) {
                Ok(Some(e)) => Ok(shown(e)),
                Ok(None) => Ok(root_entry()),
                Err(f) => Err(f),
            },
        )
    }

    open spec fn may_read(
        before: Self,
        path: Seq<char>,
        offset: u64,
        len: nat,
        r: Result<Seq<u8>, VcFault>,
        after: Self,
    ) -> bool {
        let img = before.disk().bytes;
        let vol = before.volume();
        &&& unmoved(before.surface(), after.surface())
        &&& after.volume() == vol
        &&& if leads_to_root(img, vol, path) {
            r == Err::<Seq<u8>, VcFault>(VcFault::Filesystem("cannot read the root directory"@)) || (
            !sure(before.surface()) && r is Err && r->Err_0 is Filesystem)
        } else {
            answers(
                sure(before.surface()),
                r,
                match lookup_result(img, vol, path) {
                    Ok(e) => file_read(img, vol.geo, e->0, offset as int, len as int),
                    Err(f) => Err(f),
                },
            )
        }
    }

    open spec fn may_write(
        before: Self,
        path: Seq<char>,
        offset: u64,
        data: Seq<u8>,
        r: Result<usize, VcFault>,
        after: Self,
    ) -> bool {
        &&& after.volume() == before.volume()
        &&& carries(before.surface(), after.surface())
        &&& before.surface().stuck() && data.len() > 0 ==> r is Err
        &&& wrote_as(
            trust(before.surface(), after.surface()),
            r,
            after.disk(),
            file_written(before.disk(), before.volume(), path, offset, data),
        )
    }

    open spec fn may_do(before: Self, op: VfsOp, r: Result<(), VcFault>, after: Self) -> bool {
        &&& after.volume() == before.volume()
        &&& carries(before.surface(), after.surface())
        &&& before.surface().stuck() && (op is Create || op is Mkdir || op is Rename || op is Unlink)
            ==> r is Err
        &&& wrote_as(
            trust(before.surface(), after.surface()),
            r,
            after.disk(),
            operated(before.disk(), before.volume(), op),
        )
    }

    fn kind(&self) -> (r: FsKind) {
        FsKind::Exfat
    }

    fn writable(&self) -> (r: bool) {
        true
    }

    fn list(&mut self, path: &str) -> (r: VcResult<Vec<DirEntry>>) {
        let (first, no_fat_chain, len): (u32, bool, u64) = match self.resolve(path)? {
            None => self.fs.root_dir(),
            Some(e) => {
                if !e.is_dir {
                    return Err(VcError::Filesystem("not a directory".to_string()));
                }
                (e.first_cluster, e.no_fat_chain, e.size)
            },
        };
        let entries: Vec<Entry> = match self.fs.list_dir(first, no_fat_chain, len) {
            Ok(v) => v,
            Err(e) => {
                return Err(fs_err(e));
            },
        };
        let n: usize = entries.len();
        let mut out: Vec<DirEntry> = Vec::new();
        let mut i: usize = 0;
        while i < n
            invariant
                i <= n == entries@.len(),
                out@.len() == i,
                forall|j: int| 0 <= j < i ==> (#[trigger] out@[j])@ == shown(entries@[j]@),
            decreases n - i,
        {
            out.push(show(&entries[i]));
            i = i + 1;
        }
        assert(dirs_of(out@) =~= crate::exfat::dir::entries_of(entries@).map_values(
            |e: EntryModel| shown(e),
        ));
        Ok(out)
    }

    fn stat(&mut self, path: &str) -> (r: VcResult<DirEntry>) {
        match self.resolve(path)? {
            None => Ok(root_dir_entry()),
            Some(e) => Ok(show(&e)),
        }
    }

    fn read_at(&mut self, path: &str, offset: u64, buf: &mut [u8]) -> (r: VcResult<usize>) {
        let entry: Entry = match self.resolve(path)? {
            Some(e) => e,
            None => {
                return Err(VcError::Filesystem("cannot read the root directory".to_string()));
            },
        };
        match self.fs.read_file(&entry, offset, buf) {
            Ok(n) => Ok(n),
            Err(e) => Err(fs_err(e)),
        }
    }

    fn write_at(&mut self, path: &str, offset: u64, buf: &[u8]) -> (r: VcResult<usize>) {
        match self.fs.write_file(path, offset, buf) {
            Ok(n) => Ok(n),
            Err(e) => Err(fs_err(e)),
        }
    }

    fn create(&mut self, path: &str) -> (r: VcResult<()>) {
        match self.fs.create_file(path) {
            Ok(_) => Ok(()),
            Err(e) => Err(fs_err(e)),
        }
    }

    fn mkdir(&mut self, path: &str) -> (r: VcResult<()>) {
        match self.fs.make_dir(path) {
            Ok(_) => Ok(()),
            Err(e) => Err(fs_err(e)),
        }
    }

    fn rename(&mut self, from: &str, to: &str) -> (r: VcResult<()>) {
        match self.fs.rename(from, to) {
            Ok(_) => Ok(()),
            Err(e) => Err(fs_err(e)),
        }
    }

    fn unlink(&mut self, path: &str) -> (r: VcResult<()>) {
        match self.fs.remove(path) {
            Ok(_) => Ok(()),
            Err(e) => Err(fs_err(e)),
        }
    }

    fn truncate(&mut self, path: &str, len: u64) -> (r: VcResult<()>) {
        match self.fs.truncate_file(path, len) {
            Ok(_) => Ok(()),
            Err(e) => Err(fs_err(e)),
        }
    }

    fn flush(&mut self) -> (r: VcResult<()>) {
        match self.fs.flush() {
            Ok(_) => Ok(()),
            Err(e) => Err(fs_err(e)),
        }
    }

    fn wipe_keys(&mut self) {
        self.fs.wipe_keys();
    }
}

/// A protected volume keeps its hidden one, whatever is done to it: over a
/// steady device every operation leaves the shielded bytes as they are; one
/// that is refused for their sake shuts the volume for writes; and from then on
/// it holds what it holds, and every further change is refused.
pub proof fn a_protected_volume_keeps_what_it_shields<D: BlockDevice>(
    before: ExfatVfs<D>,
    op: VfsOp,
    r: Result<(), VcFault>,
    after: ExfatVfs<D>,
)
    requires
        before.device().steady(),
        ExfatVfs::may_do(before, op, r, after),
    ensures
        after.device().steady(),
        after.device().shield() == before.device().shield(),
        shielded(after.disk().bytes, after.device().shield()) == shielded(
            before.disk().bytes,
            before.device().shield(),
        ),
        r == Err::<(), VcFault>(VcFault::HiddenVolumeProtected) && !before.device().reliable()
            && operated(before.disk(), before.volume(), op).1 is Ok ==> after.device().stuck(),
        before.device().stuck() ==> after.device().stuck() && after.disk().bytes
            == before.disk().bytes,
        before.device().stuck() && (op is Create || op is Mkdir || op is Rename || op is Unlink)
            ==> r is Err,
{
}

/// The same of writing to a file.
pub proof fn a_write_keeps_what_is_shielded<D: BlockDevice>(
    before: ExfatVfs<D>,
    path: Seq<char>,
    offset: u64,
    data: Seq<u8>,
    r: Result<usize, VcFault>,
    after: ExfatVfs<D>,
)
    requires
        before.device().steady(),
        ExfatVfs::may_write(before, path, offset, data, r, after),
    ensures
        after.device().steady(),
        after.device().shield() == before.device().shield(),
        shielded(after.disk().bytes, after.device().shield()) == shielded(
            before.disk().bytes,
            before.device().shield(),
        ),
        before.device().stuck() ==> after.device().stuck() && after.disk().bytes
            == before.disk().bytes,
        before.device().stuck() && data.len() > 0 ==> r is Err,
{
}

/// And reads go on: over a steady device, shut for writes or not, a read gives
/// what the volume holds.
pub proof fn a_protected_volume_is_read<D: BlockDevice>(
    before: ExfatVfs<D>,
    path: Seq<char>,
    offset: u64,
    len: nat,
    r: Result<Seq<u8>, VcFault>,
    after: ExfatVfs<D>,
)
    requires
        before.device().steady(),
        ExfatVfs::may_read(before, path, offset, len, r, after),
        !leads_to_root(before.disk().bytes, before.volume(), path),
    ensures
        after.device().steady(),
        answers(
            true,
            r,
            match lookup_result(before.disk().bytes, before.volume(), path) {
                Ok(e) => file_read(
                    before.disk().bytes,
                    before.volume().geo,
                    e->0,
                    offset as int,
                    len as int,
                ),
                Err(f) => Err(f),
            },
        ),
{
}

/// Lay a fresh, empty exFAT filesystem across the whole device, and hand the
/// device back. `serial` is the volume id.
pub fn format_exfat<D: BlockDevice>(dev: D, serial: u32) -> (r: VcResult<D>)
    ensures
        ({
            let want = formatted(dev.disk(), dev.disk().bytes.len() as u64, serial);
            match r {
                Ok(d) => {
                    &&& want.1 is Ok
                    &&& d.disk() == want.0.flushed()
                    &&& carries(DeviceReadAt { dev }, DeviceReadAt { dev: d })
                },
                Err(e) => dev.reliable() ==> (want.1 matches Err(f) && fault_matches(f, e@)),
            }
        }),
{
    let mut d = DeviceReadAt { dev };
    let total: u64 = match d.len() {
        Ok(n) => n,
        Err(e) => {
            d.dev.wipe_keys();
            return Err(VcError::Io(e));
        },
    };
    match format_exfat_volume(&mut d, total, serial) {
        Ok(_) => {},
        Err(e) => {
            d.dev.wipe_keys();
            return Err(fs_err(e));
        },
    }
    match d.flush() {
        Ok(_) => Ok(d.dev),
        Err(e) => {
            d.dev.wipe_keys();
            Err(VcError::Io(e))
        },
    }
}

/// A listing shows of each entry its name, whether it is a directory, its
/// length and when it was changed.
pub proof fn an_entry_is_shown_as_it_is(e: EntryModel)
    ensures
        shown(e).name == e.name,
        shown(e).is_dir == e.is_dir,
        shown(e).size == e.size,
        shown(e).mtime_ms == e.mtime_ms,
{
}

/// What the filesystem answers. A listing shows the directory's entries in
/// order; a question after one thing its entry, or the root's; a read the bytes
/// of the file from the offset on. None of them changes the disk.
pub proof fn what_is_answered<D: BlockDevice>(
    before: ExfatVfs<D>,
    after: ExfatVfs<D>,
    path: Seq<char>,
    offset: u64,
    len: nat,
    list: Seq<DirModel>,
    one: DirModel,
    bytes: Seq<u8>,
    i: int,
)
    ensures
        ({
            let img = before.disk().bytes;
            let vol = before.volume();
            let at = lookup_result(img, vol, path);
            &&& ExfatVfs::<D>::may_list(before, path, Ok(list), after) ==> {
                &&& at is Ok
                &&& children(img, vol.geo, at->Ok_0) matches Ok(entries) && entries.len()
                    == list.len() && (0 <= i < list.len() ==> list[i].name == entries[i].name
                    && list[i].is_dir == entries[i].is_dir && list[i].size == entries[i].size
                    && list[i].mtime_ms == entries[i].mtime_ms)
                &&& after.disk() == before.disk()
            }
            &&& ExfatVfs::<D>::may_stat(before, path, Ok(one), after) ==> {
                &&& after.disk() == before.disk()
                &&& match at {
                    Ok(Some(e)) => one.name == e.name && one.is_dir == e.is_dir && one.size
                        == e.size && one.mtime_ms == e.mtime_ms,
                    Ok(None) => one.is_dir && one.name == seq!['/'],
                    Err(_) => false,
                }
            }
            &&& ExfatVfs::<D>::may_read(before, path, offset, len, Ok(bytes), after) ==> {
                &&& after.disk() == before.disk()
                &&& at matches Ok(Some(e)) && file_read(
                    img,
                    vol.geo,
                    e,
                    offset as int,
                    len as int,
                ) == Ok::<Seq<u8>, ExFault>(bytes)
            }
        }),
{
    reveal_strlit("/");
    assert("/"@ =~= seq!['/']);
}

/// What the filesystem does where it says that it did it: what is asked for,
/// and nothing else.
pub proof fn what_is_done<D: BlockDevice>(
    before: ExfatVfs<D>,
    after: ExfatVfs<D>,
    path: Seq<char>,
    to: Seq<char>,
    offset: u64,
    data: Seq<u8>,
    len: u64,
    n: usize,
)
    ensures
        ({
            let (disk, vol) = (before.disk(), before.volume());
            let now = after.disk();
            &&& ExfatVfs::<D>::may_do(before, VfsOp::Create(path), Ok(()), after) ==> (
            now,
            Ok::<(), ExFault>(()),
        ) == creation(disk, vol, path, false)
            &&& ExfatVfs::<D>::may_do(before, VfsOp::Mkdir(path), Ok(()), after) ==> (
            now,
            Ok::<(), ExFault>(()),
        ) == creation(disk, vol, path, true)
            &&& ExfatVfs::<D>::may_do(before, VfsOp::Rename(path, to), Ok(()), after) ==> (
            now,
            Ok::<(), ExFault>(()),
        ) == renaming(disk, vol, path, to)
            &&& ExfatVfs::<D>::may_do(before, VfsOp::Unlink(path), Ok(()), after) ==> (
            now,
            Ok::<(), ExFault>(()),
        ) == removal(disk, vol, path)
            &&& ExfatVfs::<D>::may_do(before, VfsOp::Truncate(path, len), Ok(()), after) ==> (
            now,
            Ok::<(), ExFault>(()),
        ) == truncation(disk, vol, path, len)
            &&& ExfatVfs::<D>::may_do(before, VfsOp::Flush, Ok(()), after) ==> now
                == disk.flushed()
            &&& ExfatVfs::<D>::may_write(before, path, offset, data, Ok(n), after) ==> (
            now,
            Ok::<usize, ExFault>(n),
        ) == file_written(disk, vol, path, offset, data)
        }),
{
}

} // verus!
