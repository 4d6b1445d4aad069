//! The I/O surface of the exFAT code, and its errors.
//!
//! A contract here says what a call is due: `due` for one that only reads,
//! `wrote` for one that writes as well. On a reliable device that is exactly
//! what comes; on another one an I/O error may come instead, at any point.

use vstd::prelude::*;

use crate::device::{shielded, BlockDevice, Disk, Stratum};
use crate::error::{fault_text, IoError, IoErrorKind, VcError, VcFault};
use crate::text::concat;

verus! {

/// Positioned reads over the volume image.
pub trait ReadAt: Sized {
    /// What the volume holds, and what was done to it.
    open spec fn disk(&self) -> Disk {
        arbitrary()
    }

    /// Whether the device fails only where it must; one that does not say so is
    /// taken not to.
    open spec fn reliable(&self) -> bool {
        false
    }

    /// Whether reads fail only where they must, and a write is either done,
    /// refused as one past the end is, or refused for a hidden volume's sake;
    /// a refused write changes nothing.
    open spec fn steady(&self) -> bool {
        false
    }

    /// Whether the device refuses every write from here on.
    open spec fn stuck(&self) -> bool {
        false
    }

    /// From where to where bytes are shielded from being written over.
    open spec fn shield(&self) -> Option<(int, int)> {
        None
    }

    /// What the device is made of, from the top down.
    open spec fn strata(&self) -> Seq<Stratum> {
        seq![]
    }

    /// What lies beneath the device and no write to it reaches.
    open spec fn beneath(&self) -> Seq<Seq<u8>> {
        seq![]
    }

    /// Read exactly `buf.len()` bytes at `offset`.
    fn read_at(&mut self, offset: u64, buf: &mut [u8]) -> (r: Result<(), IoError>)
        ensures
            final(self).disk() == old(self).disk(),
            old(self).reliable() ==> final(self).reliable(),
            final(self).shield() == old(self).shield(),
            final(self).strata() == old(self).strata(),
            final(self).beneath() == old(self).beneath(),
            final(self).stuck() == old(self).stuck(),
            old(self).steady() ==> final(self).steady(),
            final(buf)@.len() == old(buf)@.len(),
            r is Ok ==> old(self).disk().holds(offset as int, old(buf)@.len() as int) && final(buf)@
                == old(self).disk().read(offset as int, old(buf)@.len() as int),
            (old(self).reliable() || old(self).steady()) && old(self).disk().holds(
                offset as int,
                old(buf)@.len() as int,
            ) ==> r is Ok,
    ;

    /// Total size in bytes.
    fn len(&mut self) -> (r: Result<u64, IoError>)
        ensures
            final(self).disk() == old(self).disk(),
            old(self).reliable() ==> final(self).reliable(),
            final(self).shield() == old(self).shield(),
            final(self).strata() == old(self).strata(),
            final(self).beneath() == old(self).beneath(),
            final(self).stuck() == old(self).stuck(),
            old(self).steady() ==> final(self).steady(),
            r matches Ok(n) ==> n == old(self).disk().bytes.len(),
            old(self).reliable() || old(self).steady() ==> r is Ok,
    ;

    /// Whether the volume holds nothing at all.
    fn is_empty(&mut self) -> (r: Result<bool, IoError>)
        ensures
            final(self).disk() == old(self).disk(),
            old(self).reliable() ==> final(self).reliable(),
            final(self).shield() == old(self).shield(),
            final(self).strata() == old(self).strata(),
            final(self).beneath() == old(self).beneath(),
            final(self).stuck() == old(self).stuck(),
            old(self).steady() ==> final(self).steady(),
            r matches Ok(b) ==> b == (old(self).disk().bytes.len() == 0),
            old(self).reliable() || old(self).steady() ==> r is Ok,
    {
        match self.len() {
            Ok(n) => Ok(n == 0),
            Err(e) => Err(e),
        }
    }
}

/// Positioned writes. `flush` is a real durability barrier.
pub trait WriteAt: ReadAt {
    fn write_at(&mut self, offset: u64, buf: &[u8]) -> (r: Result<(), IoError>)
        ensures
            old(self).reliable() ==> final(self).reliable(),
            final(self).shield() == old(self).shield(),
            final(self).strata() == old(self).strata(),
            old(self).reliable() || old(self).steady() ==> final(self).beneath() == old(
                self,
            ).beneath(),
            old(self).stuck() ==> final(self).stuck() && final(self).disk().bytes == old(
                self,
            ).disk().bytes,
            old(self).steady() ==> final(self).steady() && shielded(
                final(self).disk().bytes,
                final(self).shield(),
            ) == shielded(old(self).disk().bytes, old(self).shield()),
            r is Ok ==> old(self).disk().accepts(offset as int, buf@.len() as int)
                && final(self).disk() == old(self).disk().written(offset as int, buf@),
            old(self).reliable() && old(self).disk().accepts(offset as int, buf@.len() as int)
                ==> r is Ok,
            old(self).reliable() && r is Err ==> final(self).disk() == old(self).disk(),
            old(self).reliable() ==> (r matches Err(e) ==> !(e.kind is Protected)),
            old(self).steady() && r is Err ==> final(self).disk() == old(self).disk(),
            old(self).steady() ==> (r matches Err(e) ==> if e.kind is Protected {
                final(self).stuck()
            } else {
                !old(self).disk().accepts(offset as int, buf@.len() as int)
            }),
            old(self).stuck() ==> (r matches Err(e) && e.kind is Protected),
    ;

    fn flush(&mut self) -> (r: Result<(), IoError>)
        ensures
            old(self).reliable() ==> final(self).reliable(),
            final(self).shield() == old(self).shield(),
            final(self).strata() == old(self).strata(),
            old(self).reliable() || old(self).steady() ==> final(self).beneath() == old(
                self,
            ).beneath(),
            old(self).stuck() ==> final(self).stuck() && final(self).disk().bytes == old(
                self,
            ).disk().bytes,
            old(self).steady() ==> final(self).steady() && shielded(
                final(self).disk().bytes,
                final(self).shield(),
            ) == shielded(old(self).disk().bytes, old(self).shield()),
            final(self).stuck() == old(self).stuck(),
            r is Ok ==> final(self).disk() == old(self).disk().flushed(),
            old(self).reliable() || old(self).steady() ==> r is Ok,
    ;
}

#[derive(Debug)]
pub enum ExfatError {
    /// Not an exFAT volume, or a structurally invalid one. The string names
    /// what failed.
    Invalid(&'static str),
    /// Path lookup failed.
    NotFound,
    /// A write was refused, for it would have met a protected hidden volume.
    HiddenVolumeProtected,
    Io(IoError),
}

/// An exFAT error as a value; what an I/O error says is the device's affair.
pub enum ExFault {
    Invalid(Seq<char>),
    NotFound,
    HiddenVolumeProtected,
    Io,
}

impl View for ExfatError {
    type V = ExFault;

    open spec fn view(&self) -> ExFault {
        match *self {
            ExfatError::Invalid(s) => ExFault::Invalid(s@),
            ExfatError::NotFound => ExFault::NotFound,
            ExfatError::HiddenVolumeProtected => ExFault::HiddenVolumeProtected,
            ExfatError::Io(_) => ExFault::Io,
        }
    }
}

pub type ExfatResult<T> = Result<T, ExfatError>;

impl ExfatError {
    /// The error in words.
    pub open spec fn text(&self) -> Seq<char> {
        match *self {
            ExfatError::Invalid(what) => "invalid exFAT volume: "@ + what@,
            ExfatError::NotFound => "not found"@,
            ExfatError::HiddenVolumeProtected => fault_text(VcFault::HiddenVolumeProtected),
            ExfatError::Io(e) => "I/O: "@ + e.message@,
        }
    }

    /// The error in words.
    pub fn message(&self) -> (r: String)
        ensures
            r@ == self.text(),
    {
        match self {
            ExfatError::Invalid(what) => concat("invalid exFAT volume: ", what),
            ExfatError::NotFound => "not found".to_string(),
            ExfatError::HiddenVolumeProtected => VcError::HiddenVolumeProtected.message(),
            ExfatError::Io(e) => concat("I/O: ", e.message.as_str()),
        }
    }
}

/// A result by its values: `Ok` as it is, an error by its view.
pub open spec fn seen<T>(r: ExfatResult<T>) -> Result<T, ExFault> {
    match r {
        Ok(v) => Ok(v),
        Err(e) => Err(e@),
    }
}

/// A result whose value is taken by its view.
pub open spec fn seen_view<T: View>(r: ExfatResult<T>) -> Result<T::V, ExFault> {
    match r {
        Ok(v) => Ok(v@),
        Err(e) => Err(e@),
    }
}

/// Whether a device's reads fail only where they must.
pub open spec fn sure<D: ReadAt>(d: D) -> bool {
    d.reliable() || d.steady()
}

/// Whether an outcome is the one due, or an I/O error of a device whose reads
/// may fail.
pub open spec fn due<V>(sure: bool, got: Result<V, ExFault>, want: Result<V, ExFault>) -> bool {
    got == want || (!sure && got == Err::<V, ExFault>(ExFault::Io))
}

/// What can be said of the writes between two states of a device: whether it
/// was reliable or steady before, and refuses all writes after.
pub struct Trust {
    pub reliable: bool,
    pub steady: bool,
    pub stuck: bool,
}

pub open spec fn trust<D: ReadAt>(before: D, after: D) -> Trust {
    Trust { reliable: before.reliable(), steady: before.steady(), stuck: after.stuck() }
}

/// Whether an outcome and the disk it leaves are the ones due; or the outcome
/// is a steady device's refusal to write over a hidden volume, from which on
/// it takes no writes; or it is such a refusal or an I/O error of a device of
/// which nothing is known.
pub open spec fn wrote<V>(
    t: Trust,
    got: Result<V, ExFault>,
    after: Disk,
    want: (Disk, Result<V, ExFault>),
) -> bool {
    ||| after == want.0 && got == want.1
    ||| !t.reliable && got == Err::<V, ExFault>(ExFault::HiddenVolumeProtected) && (t.steady
        ==> t.stuck)
    ||| !t.reliable && !t.steady && got == Err::<V, ExFault>(ExFault::Io)
}

/// What no operation changes of a device: it is made of what it was made of,
/// stays reliable, steady, shut for writes where it was so, and keeps what is
/// shielded in it and what lies beneath it.
pub open spec fn carries<D: ReadAt>(before: D, after: D) -> bool {
    &&& before.reliable() ==> after.reliable()
    &&& after.shield() == before.shield()
    &&& after.strata() == before.strata()
    &&& sure(before) ==> after.beneath() == before.beneath()
    &&& before.stuck() ==> after.stuck() && after.disk().bytes == before.disk().bytes
    &&& before.steady() ==> after.steady() && shielded(after.disk().bytes, after.shield())
        == shielded(before.disk().bytes, before.shield())
}

/// What only reading leaves: the disk as it was, and the device no more shut
/// for writes than before.
pub open spec fn unmoved<D: ReadAt>(before: D, after: D) -> bool {
    &&& carries(before, after)
    &&& after.disk() == before.disk()
    &&& after.beneath() == before.beneath()
    &&& after.stuck() == before.stuck()
}

/// The `n` bytes of a volume from `offset` on, if it has them.
pub open spec fn bytes_at(img: Seq<u8>, offset: int, n: int) -> Result<Seq<u8>, ExFault> {
    if offset + n <= img.len() {
        Ok(img.subrange(offset, offset + n))
    } else {
        Err(ExFault::Io)
    }
}

/// Writing `data` at `offset`, where the disk takes it.
pub open spec fn put_at(disk: Disk, offset: int, data: Seq<u8>) -> (Disk, Result<(), ExFault>) {
    if disk.accepts(offset, data.len() as int) {
        (disk.written(offset, data), Ok(()))
    } else {
        (disk, Err(ExFault::Io))
    }
}

/// Read `buf.len()` bytes at `offset`.
pub fn fetch<D: ReadAt>(disk: &mut D, offset: u64, buf: &mut [u8]) -> (r: ExfatResult<()>)
    ensures
        unmoved(*old(disk), *final(disk)),
        final(buf)@.len() == old(buf)@.len(),
        match r {
            Ok(_) => bytes_at(old(disk).disk().bytes, offset as int, old(buf)@.len() as int) == Ok::<
                Seq<u8>,
                ExFault,
            >(final(buf)@),
            Err(e) => e@ is Io && (bytes_at(
                old(disk).disk().bytes,
                offset as int,
                old(buf)@.len() as int,
            ) == Err::<Seq<u8>, ExFault>(ExFault::Io) || !sure(*old(disk))),
        },
{
    match disk.read_at(offset, buf) {
        Ok(_) => Ok(()),
        Err(e) => Err(ExfatError::Io(e)),
    }
}

/// Write `buf` at `offset`.
pub fn store<D: WriteAt>(disk: &mut D, offset: u64, buf: &[u8]) -> (r: ExfatResult<()>)
    ensures
        carries(*old(disk), *final(disk)),
        old(disk).stuck() ==> r is Err,
        wrote(
            trust(*old(disk), *final(disk)),
            seen(r),
            final(disk).disk(),
            put_at(old(disk).disk(), offset as int, buf@),
        ),
{
    match disk.write_at(offset, buf) {
        Ok(_) => Ok(()),
        Err(e) => match e.kind {
            IoErrorKind::Protected => Err(ExfatError::HiddenVolumeProtected),
            _ => Err(ExfatError::Io(e)),
        },
    }
}

/// Make all prior writes durable.
pub fn barrier<D: WriteAt>(disk: &mut D) -> (r: ExfatResult<()>)
    ensures
        carries(*old(disk), *final(disk)),
        wrote(
            trust(*old(disk), *final(disk)),
            seen(r),
            final(disk).disk(),
            (old(disk).disk().flushed(), Ok(())),
        ),
{
    match disk.flush() {
        Ok(_) => Ok(()),
        Err(e) => Err(ExfatError::Io(e)),
    }
}

/// A block device as the exFAT code's I/O surface.
pub struct DeviceReadAt<D: BlockDevice> {
    pub dev: D,
}

impl<D: BlockDevice> ReadAt for DeviceReadAt<D> {
    open spec fn disk(&self) -> Disk {
        self.dev.disk()
    }

    open spec fn reliable(&self) -> bool {
        self.dev.reliable()
    }

    open spec fn steady(&self) -> bool {
        self.dev.steady()
    }

    open spec fn stuck(&self) -> bool {
        self.dev.stuck()
    }

    open spec fn shield(&self) -> Option<(int, int)> {
        self.dev.shield()
    }

    open spec fn strata(&self) -> Seq<Stratum> {
        self.dev.strata()
    }

    open spec fn beneath(&self) -> Seq<Seq<u8>> {
        self.dev.beneath()
    }

    fn read_at(&mut self, offset: u64, buf: &mut [u8]) -> (r: Result<(), IoError>) {
        match self.dev.read_at(offset, buf) {
            Ok(_) => Ok(()),
            Err(e) => Err(to_io(e)),
        }
    }

    fn len(&mut self) -> (r: Result<u64, IoError>) {
        match self.dev.len() {
            Ok(n) => Ok(n),
            Err(e) => Err(to_io(e)),
        }
    }
}

impl<D: BlockDevice> WriteAt for DeviceReadAt<D> {
    fn write_at(&mut self, offset: u64, buf: &[u8]) -> (r: Result<(), IoError>) {
        match self.dev.write_at(offset, buf) {
            Ok(_) => Ok(()),
            Err(e) => Err(to_io(e)),
        }
    }

    fn flush(&mut self) -> (r: Result<(), IoError>) {
        match self.dev.flush() {
            Ok(_) => Ok(()),
            Err(e) => Err(to_io(e)),
        }
    }
}

/// An error of the container layer as an I/O error: an I/O error as it is, any
/// other in words; a refusal for a hidden volume's sake keeps its kind.
pub fn to_io(e: VcError) -> (r: IoError)
    ensures
        e matches VcError::Io(io) ==> r == io,
        !(e is Io) ==> r.message@ == fault_text(e@) && r.kind == if e is HiddenVolumeProtected {
            IoErrorKind::Protected
        } else {
            IoErrorKind::Other
        },
{
    match e {
        VcError::Io(io) => io,
        VcError::HiddenVolumeProtected => IoError {
            kind: IoErrorKind::Protected,
            message: VcError::HiddenVolumeProtected.message(),
        },
        other => IoError { kind: IoErrorKind::Other, message: other.message() },
    }
}

} // verus!
