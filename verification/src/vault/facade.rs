//! What a shell sees: sessions that can be locked, and errors coarse enough to
//! branch on. No error that crosses here names a path or holds key material.

use vstd::prelude::*;

use crate::bytes::zeroed;
use crate::error::{fault_text, kind_text, outcome, VcError, VcFault, VcResult};
use crate::format::search::{Report, UnlockProgress};
use crate::vfs::detect::kind_name;
use crate::vfs::tree::{self, dirs_of, DirModel, Vfs, VfsOp};

verus! {

/// Unlock and browse failures that a user can be told about.
#[derive(Debug)]
pub enum VaultError {
    NotFoundOrWrongPassword,
    VersionTooNew,
    SystemVolume,
    HiddenVolumeProtected,
    HeaderDamaged,
    UnsupportedFilesystem { name: String },
    Filesystem { detail: String },
    Io { detail: String },
    Internal,
}

/// Such a failure as a value.
#[verifier::ext_equal]
pub enum VaultFault {
    NotFoundOrWrongPassword,
    VersionTooNew,
    SystemVolume,
    HiddenVolumeProtected,
    HeaderDamaged,
    UnsupportedFilesystem(Seq<char>),
    Filesystem(Seq<char>),
    Io(Seq<char>),
    Internal,
}

impl View for VaultError {
    type V = VaultFault;

    open spec fn view(&self) -> VaultFault {
        match *self {
            VaultError::NotFoundOrWrongPassword => VaultFault::NotFoundOrWrongPassword,
            VaultError::VersionTooNew => VaultFault::VersionTooNew,
            VaultError::SystemVolume => VaultFault::SystemVolume,
            VaultError::HiddenVolumeProtected => VaultFault::HiddenVolumeProtected,
            VaultError::HeaderDamaged => VaultFault::HeaderDamaged,
            VaultError::UnsupportedFilesystem { name } => VaultFault::UnsupportedFilesystem(name@),
            VaultError::Filesystem { detail } => VaultFault::Filesystem(detail@),
            VaultError::Io { detail } => VaultFault::Io(detail@),
            VaultError::Internal => VaultFault::Internal,
        }
    }
}

pub type FfiResult<T> = Result<T, VaultError>;

/// What a shell is told for an error of the core. Of an I/O error only the
/// kind is passed on, and of an internal one nothing.
pub open spec fn coarse(f: VcFault) -> VaultFault {
    match f {
        VcFault::NotFoundOrWrongPassword => VaultFault::NotFoundOrWrongPassword,
        VcFault::VersionTooNew { .. } => VaultFault::VersionTooNew,
        VcFault::SystemVolume => VaultFault::SystemVolume,
        VcFault::HiddenVolumeProtected => VaultFault::HiddenVolumeProtected,
        VcFault::HeaderDamaged => VaultFault::HeaderDamaged,
        VcFault::UnsupportedFilesystem(name) => VaultFault::UnsupportedFilesystem(name),
        VcFault::UnknownFilesystem => VaultFault::UnsupportedFilesystem("unrecognized"@),
        VcFault::Filesystem(detail) => VaultFault::Filesystem(detail),
        VcFault::Io(e) => VaultFault::Io(kind_text(e.kind)),
        VcFault::Internal(_) => VaultFault::Internal,
    }
}

/// What a shell is told for an error of the core.
pub fn coarsen(e: VcError) -> (r: VaultError)
    ensures
        r@ == coarse(e@),
{
    match e {
        VcError::NotFoundOrWrongPassword => VaultError::NotFoundOrWrongPassword,
        VcError::VersionTooNew { required: _, supported: _ } => VaultError::VersionTooNew,
        VcError::SystemVolume => VaultError::SystemVolume,
        VcError::HiddenVolumeProtected => VaultError::HiddenVolumeProtected,
        VcError::HeaderDamaged => VaultError::HeaderDamaged,
        VcError::UnsupportedFilesystem(name) => VaultError::UnsupportedFilesystem { name },
        VcError::UnknownFilesystem => VaultError::UnsupportedFilesystem {
            name: "unrecognized".to_string(),
        },
        VcError::Filesystem(detail) => VaultError::Filesystem { detail },
        VcError::Io(io) => VaultError::Io { detail: io.kind.describe().to_string() },
        VcError::Internal(_) => VaultError::Internal,
    }
}

/// What a shell shows for a failure.
pub open spec fn vault_text(f: VaultFault) -> Seq<char> {
    match f {
        VaultFault::NotFoundOrWrongPassword =>
            "wrong password/PIM, or not a VeraCrypt container"@,
        VaultFault::VersionTooNew => "container requires a newer format version than supported"@,
        VaultFault::SystemVolume => "system-encryption volumes are not supported"@,
        VaultFault::HiddenVolumeProtected =>
            "write blocked to protect the hidden volume; the volume is now read-only"@,
        VaultFault::HeaderDamaged =>
            "volume header is damaged; the embedded backup header may help"@,
        VaultFault::UnsupportedFilesystem(name) => "filesystem not supported yet: "@ + name,
        VaultFault::Filesystem(detail) => "filesystem error: "@ + detail,
        VaultFault::Io(detail) => "I/O error: "@ + detail,
        VaultFault::Internal => "internal error"@,
    }
}

impl VaultError {
    /// The failure in words for a user.
    pub fn message(&self) -> (r: String)
        ensures
            r@ == vault_text(self@),
    {
        match self {
            VaultError::NotFoundOrWrongPassword =>
                "wrong password/PIM, or not a VeraCrypt container".to_string(),
            VaultError::VersionTooNew =>
                "container requires a newer format version than supported".to_string(),
            VaultError::SystemVolume => "system-encryption volumes are not supported".to_string(),
            VaultError::HiddenVolumeProtected =>
                "write blocked to protect the hidden volume; the volume is now read-only".to_string(),
            VaultError::HeaderDamaged =>
                "volume header is damaged; the embedded backup header may help".to_string(),
            VaultError::UnsupportedFilesystem { name } => crate::text::concat(
                "filesystem not supported yet: ",
                name.as_str(),
            ),
            VaultError::Filesystem { detail } => crate::text::concat(
                "filesystem error: ",
                detail.as_str(),
            ),
            VaultError::Io { detail } => crate::text::concat("I/O error: ", detail.as_str()),
            VaultError::Internal => "internal error".to_string(),
        }
    }
}

/// A directory entry as a shell sees it.
#[derive(Debug)]
pub struct DirEntry {
    pub name: String,
    pub is_dir: bool,
    pub size: u64,
    pub mtime_ms: Option<i64>,
}

impl View for DirEntry {
    type V = DirModel;

    open spec fn view(&self) -> DirModel {
        DirModel {
            name: self.name@,
            is_dir: self.is_dir,
            size: self.size,
            mtime_ms: self.mtime_ms,
        }
    }
}

/// The facts of an unlocked volume.
#[derive(Debug)]
pub struct VolumeFacts {
    pub scheme: String,
    pub prf: String,
    pub filesystem: String,
    pub writable: bool,
}

/// A shell's ear for unlock progress: candidate `step` of `total` is about to
/// be tried, under hash `prf`. It must be fast.
pub trait UnlockProgressListener {
    fn on_progress(&self, step: u32, total: u32, prf: String);
}

/// Progress reports handed on to a listener, where there is one.
pub struct Forward<'a, L: UnlockProgressListener> {
    listener: Option<&'a L>,
    heard: Ghost<Seq<Report>>,
}

impl<'a, L: UnlockProgressListener> Forward<'a, L> {
    pub fn new(listener: Option<&'a L>) -> (r: Self)
        ensures
            r.reports() == Seq::<Report>::empty(),
    {
        Forward { listener, heard: Ghost(Seq::empty()) }
    }
}

impl<'a, L: UnlockProgressListener> UnlockProgress for Forward<'a, L> {
    closed spec fn reports(&self) -> Seq<Report> {
        self.heard@
    }

    fn report(&mut self, step: usize, total: usize, prf: &str) {
        self.heard = Ghost(
            self.heard@.push(Report { step: step as int, total: total as int, prf: prf@ }),
        );
        if let Some(l) = self.listener {
            if step <= 0xFFFF_FFFF && total <= 0xFFFF_FFFF {
                l.on_progress(step as u32, total as u32, prf.to_string());
            }
        }
    }
}

/// An unlocked volume: its filesystem, and what opened it.
pub struct OpenVault<V: Vfs> {
    pub vfs: V,
    pub scheme: &'static str,
    pub prf: &'static str,
}

/// One unlocked container. After `lock` every call fails with `Internal`.
pub struct VaultSession<V: Vfs> {
    inner: Option<OpenVault<V>>,
}

/// A listing by its views.
pub open spec fn entries_view(r: FfiResult<Vec<DirEntry>>) -> Result<Seq<DirModel>, VaultFault> {
    match r {
        Ok(v) => Ok(v@.map_values(|e: DirEntry| e@)),
        Err(e) => Err(e@),
    }
}

pub open spec fn result_view<T>(r: FfiResult<T>) -> Result<T, VaultFault> {
    match r {
        Ok(v) => Ok(v),
        Err(e) => Err(e@),
    }
}

/// An outcome of the core as a shell sees it.
pub open spec fn passed_on<T>(x: Result<T, VcFault>) -> Result<T, VaultFault> {
    match x {
        Ok(v) => Ok(v),
        Err(f) => Err(coarse(f)),
    }
}

fn pass_on(r: VcResult<()>) -> (s: FfiResult<()>)
    ensures
        result_view(s) == passed_on(outcome(r)),
{
    match r {
        Ok(_) => Ok(()),
        Err(e) => Err(coarsen(e)),
    }
}

/// An entry of the filesystem as a shell sees it.
pub fn entry_for_shell(e: tree::DirEntry) -> (r: DirEntry)
    ensures
        r@ == e@,
{
    DirEntry { name: e.name, is_dir: e.is_dir, size: e.size, mtime_ms: e.mtime_ms }
}

/// A listing of the filesystem as a shell sees it.
pub fn entries_for_shell(entries: Vec<tree::DirEntry>) -> (r: Vec<DirEntry>)
    ensures
        r@.map_values(|e: DirEntry| e@) == dirs_of(entries@),
{
    let n: usize = entries.len();
    let mut out: Vec<DirEntry> = Vec::new();
    let mut i: usize = 0;
    while i < n
        invariant
            i <= n == entries@.len(),
            out@.len() == i,
            forall|j: int| 0 <= j < i ==> (#[trigger] out@[j])@ == entries@[j]@,
        decreases n - i,
    {
        let e: &tree::DirEntry = &entries[i];
        out.push(
            DirEntry { name: e.name.clone(), is_dir: e.is_dir, size: e.size, mtime_ms: e.mtime_ms },
        );
        i = i + 1;
    }
    assert(out@.map_values(|e: DirEntry| e@) =~= dirs_of(entries@));
    out
}

impl<V: Vfs> VaultSession<V> {
    /// What is unlocked, until it is locked.
    pub closed spec fn vault(&self) -> Option<OpenVault<V>> {
        self.inner
    }

    /// What is unlocked is in order.
    pub open spec fn wf(&self) -> bool {
        self.vault() matches Some(v) ==> v.vfs.usable()
    }

    pub fn new(vault: OpenVault<V>) -> (r: Self)
        requires
            vault.vfs.usable(),
        ensures
            r.vault() == Some(vault),
            r.wf(),
    {
        VaultSession { inner: Some(vault) }
    }

    pub fn facts(&self) -> (r: FfiResult<VolumeFacts>)
        ensures
            match self.vault() {
                None => r matches Err(e) && e@ is Internal,
                Some(v) => r matches Ok(f) && {
                    &&& f.scheme@ == v.scheme@
                    &&& f.prf@ == v.prf@
                    &&& f.filesystem@ == kind_name(v.vfs.sort())
                    &&& f.writable == v.vfs.takes_writes()
                },
            },
    {
        match &self.inner {
            None => Err(VaultError::Internal),
            Some(v) => Ok(
                VolumeFacts {
                    scheme: v.scheme.to_string(),
                    prf: v.prf.to_string(),
                    filesystem: v.vfs.kind().name().to_string(),
                    writable: v.vfs.writable(),
                },
            ),
        }
    }

    pub fn list(&mut self, path: String) -> (r: FfiResult<Vec<DirEntry>>)
        requires
            old(self).wf(),
        ensures
            final(self).wf(),
            match old(self).vault() {
                None => (r matches Err(e) && e@ is Internal) && final(self).vault() is None,
                Some(v) => final(self).vault() matches Some(w) && exists|
                    x: Result<Seq<DirModel>, VcFault>,
                |
                    #[trigger] V::may_list(v.vfs, path@, x, w.vfs) && entries_view(r) == passed_on(x),
            },
    {
        match self.inner.take() {
            None => Err(VaultError::Internal),
            Some(open) => {
                let mut v: OpenVault<V> = open;
                let r: VcResult<Vec<tree::DirEntry>> = v.vfs.list(path.as_str());
                self.inner = Some(v);
                match r {
                    Ok(entries) => Ok(entries_for_shell(entries)),
                    Err(e) => Err(coarsen(e)),
                }
            },
        }
    }

    pub fn stat(&mut self, path: String) -> (r: FfiResult<DirEntry>)
        requires
            old(self).wf(),
        ensures
            final(self).wf(),
            match old(self).vault() {
                None => (r matches Err(e) && e@ is Internal) && final(self).vault() is None,
                Some(v) => final(self).vault() matches Some(w) && exists|
                    x: Result<DirModel, VcFault>,
                |
                    #[trigger] V::may_stat(v.vfs, path@, x, w.vfs) && passed_on(x) == (match r {
                        Ok(e) => Ok(e@),
                        Err(e) => Err(e@),
                    }),
            },
    {
        match self.inner.take() {
            None => Err(VaultError::Internal),
            Some(open) => {
                let mut v: OpenVault<V> = open;
                let r: VcResult<tree::DirEntry> = v.vfs.stat(path.as_str());
                self.inner = Some(v);
                match r {
                    Ok(e) => Ok(entry_for_shell(e)),
                    Err(e) => Err(coarsen(e)),
                }
            },
        }
    }

    /// Read up to `len` bytes at `offset`. Short only at end of file.
    pub fn read_at(&mut self, path: String, offset: u64, len: u32) -> (r: FfiResult<Vec<u8>>)
        requires
            old(self).wf(),
        ensures
            final(self).wf(),
            match old(self).vault() {
                None => (r matches Err(e) && e@ is Internal) && final(self).vault() is None,
                Some(v) => final(self).vault() matches Some(w) && exists|
                    x: Result<Seq<u8>, VcFault>,
                |
                    #[trigger] V::may_read(
                        v.vfs,
                        path@,
                        offset,
                        len as nat,
                        x,
                        w.vfs,
                    ) && passed_on(x) == (match r {
                        Ok(b) => Ok(b@),
                        Err(e) => Err(e@),
                    }),
            },
    {
        match self.inner.take() {
            None => Err(VaultError::Internal),
            Some(open) => {
                let mut v: OpenVault<V> = open;
                let mut buf: Vec<u8> = zeroed(len as usize);
                let r: VcResult<usize> = v.vfs.read_at(path.as_str(), offset, buf.as_mut_slice());
                self.inner = Some(v);
                assert(V::may_read(
                    old(self).vault()->0.vfs,
                    path@,
                    offset,
                    len as nat,
                    tree::bytes_of(r, buf@),
                    self.vault()->0.vfs,
                ));
                match r {
                    Ok(got) => {
                        let ghost full = buf@;
                        buf.truncate(got);
                        assert(buf@ =~= full.take(got as int));
                        Ok(buf)
                    },
                    Err(e) => Err(coarsen(e)),
                }
            },
        }
    }

    /// Write `data` at `offset`, returning bytes written.
    pub fn write_at(&mut self, path: String, offset: u64, data: Vec<u8>) -> (r: FfiResult<u32>)
        requires
            old(self).wf(),
            offset + data@.len() <= u64::MAX,
        ensures
            final(self).wf(),
            match old(self).vault() {
                None => (r matches Err(e) && e@ is Internal) && final(self).vault() is None,
                Some(v) => final(self).vault() matches Some(w) && exists|
                    x: Result<usize, VcFault>,
                |
                    #[trigger] V::may_write(v.vfs, path@, offset, data@, x, w.vfs) && match x {
                        Ok(n) => r matches Ok(k) && k == n as int % 0x1_0000_0000,
                        Err(f) => r matches Err(e) && e@ == coarse(f),
                    },
            },
    {
        match self.inner.take() {
            None => Err(VaultError::Internal),
            Some(open) => {
                let mut v: OpenVault<V> = open;
                let r: VcResult<usize> = v.vfs.write_at(path.as_str(), offset, data.as_slice());
                self.inner = Some(v);
                assert(V::may_write(
                    old(self).vault()->0.vfs,
                    path@,
                    offset,
                    data@,
                    outcome(r),
                    self.vault()->0.vfs,
                ));
                match r {
                    Ok(n) => Ok((n as u64 % 0x1_0000_0000) as u32),
                    Err(e) => Err(coarsen(e)),
                }
            },
        }
    }

    /// Create an empty regular file.
    pub fn create(&mut self, path: String) -> (r: FfiResult<()>)
        requires
            old(self).wf(),
        ensures
            final(self).wf(),
            done_as(*old(self), VfsOp::Create(path@), r, *final(self)),
    {
        match self.inner.take() {
            None => Err(VaultError::Internal),
            Some(open) => {
                let mut v: OpenVault<V> = open;
                let r: VcResult<()> = v.vfs.create(path.as_str());
                self.inner = Some(v);
                let s: FfiResult<()> = pass_on(r);
                assert(done_with(*old(self), VfsOp::Create(path@), outcome(r), s, *self));
                s
            },
        }
    }

    /// Create a directory.
    pub fn mkdir(&mut self, path: String) -> (r: FfiResult<()>)
        requires
            old(self).wf(),
        ensures
            final(self).wf(),
            done_as(*old(self), VfsOp::Mkdir(path@), r, *final(self)),
    {
        match self.inner.take() {
            None => Err(VaultError::Internal),
            Some(open) => {
                let mut v: OpenVault<V> = open;
                let r: VcResult<()> = v.vfs.mkdir(path.as_str());
                self.inner = Some(v);
                let s: FfiResult<()> = pass_on(r);
                assert(done_with(*old(self), VfsOp::Mkdir(path@), outcome(r), s, *self));
                s
            },
        }
    }

    /// Rename or move within the volume.
    pub fn rename(&mut self, from: String, to: String) -> (r: FfiResult<()>)
        requires
            old(self).wf(),
        ensures
            final(self).wf(),
            done_as(*old(self), VfsOp::Rename(from@, to@), r, *final(self)),
    {
        match self.inner.take() {
            None => Err(VaultError::Internal),
            Some(open) => {
                let mut v: OpenVault<V> = open;
                let r: VcResult<()> = v.vfs.rename(from.as_str(), to.as_str());
                self.inner = Some(v);
                let s: FfiResult<()> = pass_on(r);
                assert(done_with(*old(self), VfsOp::Rename(from@, to@), outcome(r), s, *self));
                s
            },
        }
    }

    /// Remove a file or an empty directory.
    pub fn remove(&mut self, path: String) -> (r: FfiResult<()>)
        requires
            old(self).wf(),
        ensures
            final(self).wf(),
            done_as(*old(self), VfsOp::Unlink(path@), r, *final(self)),
    {
        match self.inner.take() {
            None => Err(VaultError::Internal),
            Some(open) => {
                let mut v: OpenVault<V> = open;
                let r: VcResult<()> = v.vfs.unlink(path.as_str());
                self.inner = Some(v);
                let s: FfiResult<()> = pass_on(r);
                assert(done_with(*old(self), VfsOp::Unlink(path@), outcome(r), s, *self));
                s
            },
        }
    }

    /// Set a file's length.
    pub fn truncate(&mut self, path: String, len: u64) -> (r: FfiResult<()>)
        requires
            old(self).wf(),
        ensures
            final(self).wf(),
            done_as(*old(self), VfsOp::Truncate(path@, len), r, *final(self)),
    {
        match self.inner.take() {
            None => Err(VaultError::Internal),
            Some(open) => {
                let mut v: OpenVault<V> = open;
                let r: VcResult<()> = v.vfs.truncate(path.as_str(), len);
                self.inner = Some(v);
                let s: FfiResult<()> = pass_on(r);
                assert(done_with(*old(self), VfsOp::Truncate(path@, len), outcome(r), s, *self));
                s
            },
        }
    }

    /// Flush pending writes through to the backing store.
    pub fn flush(&mut self) -> (r: FfiResult<()>)
        requires
            old(self).wf(),
        ensures
            final(self).wf(),
            done_as(*old(self), VfsOp::Flush, r, *final(self)),
    {
        match self.inner.take() {
            None => Err(VaultError::Internal),
            Some(open) => {
                let mut v: OpenVault<V> = open;
                let r: VcResult<()> = v.vfs.flush();
                self.inner = Some(v);
                let s: FfiResult<()> = pass_on(r);
                assert(done_with(*old(self), VfsOp::Flush, outcome(r), s, *self));
                s
            },
        }
    }

    /// Overwrite the keys and drop the filesystem. A second call does nothing.
    pub fn lock(&mut self)
        ensures
            final(self).vault() is None,
            final(self).wf(),
            old(self).vault() is None ==> *final(self) == *old(self),
    {
        let _closed: Option<V> = self.close();
    }

    /// Take the filesystem out, its keys overwritten, as far as there is one.
    pub fn close(&mut self) -> (r: Option<V>)
        ensures
            final(self).vault() is None,
            final(self).wf(),
            r is Some == old(self).vault() is Some,
            r matches Some(v) ==> v.wiped(),
            old(self).vault() is None ==> *final(self) == *old(self),
    {
        match self.inner.take() {
            None => None,
            Some(open) => {
                let OpenVault { mut vfs, .. } = open;
                vfs.wipe_keys();
                Some(vfs)
            },
        }
    }
}

/// Whether a call that answers with success or failure alone was handed on as
/// is due: nothing happens once the session is locked.
pub open spec fn done_as<V: Vfs>(
    before: VaultSession<V>,
    op: VfsOp,
    r: FfiResult<()>,
    after: VaultSession<V>,
) -> bool {
    match before.vault() {
        None => (r matches Err(e) && e@ is Internal) && after.vault() is None,
        Some(_) => exists|x: Result<(), VcFault>| #[trigger] done_with(before, op, x, r, after),
    }
}

/// Whether the filesystem of an unlocked session was asked for `op`, answered
/// with `x`, and that was passed on.
pub open spec fn done_with<V: Vfs>(
    before: VaultSession<V>,
    op: VfsOp,
    x: Result<(), VcFault>,
    r: FfiResult<()>,
    after: VaultSession<V>,
) -> bool {
    &&& before.vault() is Some
    &&& after.vault() is Some
    &&& V::may_do(before.vault()->0.vfs, op, x, after.vault()->0.vfs)
    &&& result_view(r) == passed_on(x)
}

/// What a shell is told of a failure: the kind of failure it was, and of an
/// internal one or a device's nothing that it said.
pub proof fn failures_keep_their_kind(f: VcFault)
    ensures
        coarse(f) is NotFoundOrWrongPassword <==> f is NotFoundOrWrongPassword,
        coarse(f) is VersionTooNew <==> f is VersionTooNew,
        coarse(f) is SystemVolume <==> f is SystemVolume,
        coarse(f) is HiddenVolumeProtected <==> f is HiddenVolumeProtected,
        coarse(f) is HeaderDamaged <==> f is HeaderDamaged,
        coarse(f) is UnsupportedFilesystem <==> f is UnsupportedFilesystem
            || f is UnknownFilesystem,
        coarse(f) is Filesystem <==> f is Filesystem,
        coarse(f) is Io <==> f is Io,
        coarse(f) is Internal <==> f is Internal,
        f matches VcFault::Filesystem(detail) ==> coarse(f) == VaultFault::Filesystem(detail),
        f matches VcFault::UnsupportedFilesystem(name) ==> coarse(f)
            == VaultFault::UnsupportedFilesystem(name),
{
}

/// A shell's message carries the details that it is told.
pub proof fn shell_messages_carry_their_details(detail: Seq<char>)
    ensures
        vault_text(VaultFault::UnsupportedFilesystem(detail)) == "filesystem not supported yet: "@
            + detail,
        vault_text(VaultFault::Filesystem(detail)) == "filesystem error: "@ + detail,
        vault_text(VaultFault::Io(detail)) == "I/O error: "@ + detail,
        vault_text(VaultFault::HiddenVolumeProtected) == fault_text(
            VcFault::HiddenVolumeProtected,
        ),
        vault_text(VaultFault::SystemVolume) == fault_text(VcFault::SystemVolume),
{
}

} // verus!
