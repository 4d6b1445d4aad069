//! Random-access storage: the model of a disk, and the trait through which
//! the library reaches one.

use vstd::prelude::*;

use crate::bytes::{put, splice};
use crate::crypto::xts::LayerKeys;
use crate::error::{fails_with, protecting, IoError, IoErrorKind, IoFault, VcError, VcFault, VcResult};

verus! {

/// One thing that happened to a disk.
pub enum DiskOp {
    /// These bytes were written from this offset on.
    Write { offset: int, data: Seq<u8> },
    /// Everything written before was made durable.
    Flush,
}

/// A disk: what it holds, what was done to it in order, and whether its size
/// is fixed (else a write past the end extends it).
#[verifier::ext_equal]
pub struct Disk {
    pub bytes: Seq<u8>,
    pub log: Seq<DiskOp>,
    pub fixed: bool,
}

impl Disk {
    /// Whether `n` bytes from `offset` on are there to be read.
    pub open spec fn holds(self, offset: int, n: int) -> bool {
        offset + n <= self.bytes.len()
    }

    /// Whether `n` bytes from `offset` on can be written.
    pub open spec fn accepts(self, offset: int, n: int) -> bool {
        !self.fixed || offset + n <= self.bytes.len()
    }

    /// The `n` bytes from `offset` on.
    pub open spec fn read(self, offset: int, n: int) -> Seq<u8> {
        self.bytes.subrange(offset, offset + n)
    }

    /// The disk once `data` is written from `offset` on.
    pub open spec fn written(self, offset: int, data: Seq<u8>) -> Disk {
        Disk {
            bytes: splice(self.bytes, offset, data),
            log: self.log.push(DiskOp::Write { offset, data }),
            fixed: self.fixed,
        }
    }

    /// The disk once everything before is durable.
    pub open spec fn flushed(self) -> Disk {
        Disk { bytes: self.bytes, log: self.log.push(DiskOp::Flush), fixed: self.fixed }
    }
}

/// One of the layers that a device is made of: a decrypted data area with its
/// keys, or the protection of a region.
#[verifier::ext_equal]
pub enum Stratum {
    Decrypted { layers: Seq<LayerKeys>, start: int, size: int },
    Protected { start: int, end: int },
}

/// The bytes of a volume from the start to the end of what is shielded in it.
pub open spec fn shielded(bytes: Seq<u8>, shield: Option<(int, int)>) -> Seq<u8> {
    match shield {
        None => seq![],
        Some((start, end)) => {
            let to = if end <= bytes.len() {
                end
            } else {
                bytes.len() as int
            };
            if 0 <= start < to {
                bytes.subrange(start, to)
            } else {
                seq![]
            }
        },
    }
}

/// Random-access block I/O over a container or a volume inside one.
///
/// Offsets are byte offsets from the start. A `reliable` device does what it
/// is asked whenever that is possible at all; one that is not may fail at any
/// call, and a failed write leaves its contents open.
pub trait BlockDevice: Sized {
    /// What the device holds, and what was done to it.
    open spec fn disk(&self) -> Disk {
        arbitrary()
    }

    /// Whether the device fails only where it must; one that does not say so is
    /// taken not to.
    open spec fn reliable(&self) -> bool {
        false
    }

    /// Whether the device holds no key that is not overwritten; one that never
    /// had a key holds none.
    open spec fn wiped(&self) -> bool {
        true
    }

    /// Whether reads fail only where they must, and a write is either done,
    /// refused as one past the end is, or refused for a hidden volume's sake;
    /// a refused write changes nothing.
    open spec fn steady(&self) -> bool {
        false
    }

    /// Whether the device refuses every write from here on.
    open spec fn stuck(&self) -> bool {
        false
    }

    /// From where to where bytes are shielded from being written over.
    open spec fn shield(&self) -> Option<(int, int)> {
        None
    }

    /// What the device is made of, from the top down.
    open spec fn strata(&self) -> Seq<Stratum> {
        seq![]
    }

    /// What lies beneath the device and no write to it reaches.
    open spec fn beneath(&self) -> Seq<Seq<u8>> {
        seq![]
    }

    /// Total size in bytes.
    fn len(&mut self) -> (r: VcResult<u64>)
        ensures
            final(self).disk() == old(self).disk(),
            old(self).reliable() ==> final(self).reliable(),
            final(self).shield() == old(self).shield(),
            final(self).strata() == old(self).strata(),
            final(self).beneath() == old(self).beneath(),
            final(self).stuck() == old(self).stuck(),
            old(self).steady() ==> final(self).steady(),
            r matches Ok(n) ==> n == old(self).disk().bytes.len(),
            old(self).reliable() || old(self).steady() ==> r is Ok,
    ;

    /// Whether the device holds nothing at all.
    fn is_empty(&mut self) -> (r: VcResult<bool>)
        ensures
            final(self).disk() == old(self).disk(),
            old(self).reliable() ==> final(self).reliable(),
            final(self).shield() == old(self).shield(),
            final(self).strata() == old(self).strata(),
            final(self).beneath() == old(self).beneath(),
            final(self).stuck() == old(self).stuck(),
            old(self).steady() ==> final(self).steady(),
            r matches Ok(b) ==> b == (old(self).disk().bytes.len() == 0),
            old(self).reliable() || old(self).steady() ==> r is Ok,
    {
        match self.len() {
            Ok(n) => Ok(n == 0),
            Err(e) => Err(e),
        }
    }

    /// Read exactly `buf.len()` bytes at `offset`.
    fn read_at(&mut self, offset: u64, buf: &mut [u8]) -> (r: VcResult<()>)
        ensures
            final(self).disk() == old(self).disk(),
            old(self).reliable() ==> final(self).reliable(),
            final(self).shield() == old(self).shield(),
            final(self).strata() == old(self).strata(),
            final(self).beneath() == old(self).beneath(),
            final(self).stuck() == old(self).stuck(),
            old(self).steady() ==> final(self).steady(),
            final(buf)@.len() == old(buf)@.len(),
            r is Ok ==> old(self).disk().holds(offset as int, old(buf)@.len() as int) && final(buf)@
                == old(self).disk().read(offset as int, old(buf)@.len() as int),
            (old(self).reliable() || old(self).steady()) && old(self).disk().holds(
                offset as int,
                old(buf)@.len() as int,
            ) ==> r is Ok,
    ;

    /// Write exactly `buf.len()` bytes at `offset`.
    fn write_at(&mut self, offset: u64, buf: &[u8]) -> (r: VcResult<()>)
        ensures
            old(self).reliable() ==> final(self).reliable(),
            final(self).shield() == old(self).shield(),
            final(self).strata() == old(self).strata(),
            old(self).reliable() || old(self).steady() ==> final(self).beneath() == old(
                self,
            ).beneath(),
            old(self).stuck() ==> final(self).stuck() && final(self).disk().bytes == old(
                self,
            ).disk().bytes,
            old(self).steady() ==> final(self).steady() && shielded(
                final(self).disk().bytes,
                final(self).shield(),
            ) == shielded(old(self).disk().bytes, old(self).shield()),
            r is Ok ==> old(self).disk().accepts(offset as int, buf@.len() as int)
                && final(self).disk() == old(self).disk().written(offset as int, buf@),
            old(self).reliable() && old(self).disk().accepts(
                offset as int,
                buf@.len() as int,
            ) ==> r is Ok,
            old(self).reliable() && r is Err ==> final(self).disk() == old(self).disk(),
            old(self).reliable() ==> (r matches Err(e) ==> !protecting(e@)),
            old(self).steady() && r is Err ==> final(self).disk() == old(self).disk(),
            old(self).steady() ==> (r matches Err(e) ==> if protecting(e@) {
                final(self).stuck()
            } else {
                !old(self).disk().accepts(offset as int, buf@.len() as int)
            }),
            old(self).stuck() ==> (r matches Err(e) && protecting(e@)),
    ;

    /// Durably flush all prior writes.
    fn flush(&mut self) -> (r: VcResult<()>)
        ensures
            old(self).reliable() ==> final(self).reliable(),
            final(self).shield() == old(self).shield(),
            final(self).strata() == old(self).strata(),
            old(self).reliable() || old(self).steady() ==> final(self).beneath() == old(
                self,
            ).beneath(),
            old(self).stuck() ==> final(self).stuck() && final(self).disk().bytes == old(
                self,
            ).disk().bytes,
            old(self).steady() ==> final(self).steady() && shielded(
                final(self).disk().bytes,
                final(self).shield(),
            ) == shielded(old(self).disk().bytes, old(self).shield()),
            final(self).stuck() == old(self).stuck(),
            r is Ok ==> final(self).disk() == old(self).disk().flushed(),
            r is Err ==> final(self).disk() == old(self).disk(),
            old(self).reliable() || old(self).steady() ==> r is Ok,
    ;

    /// Overwrite the keys the device holds, if it holds any; to be called once
    /// it has served.
    fn wipe_keys(&mut self)
        ensures
            final(self).wiped(),
    ;
}

/// The error for an access past the end of a device in memory.
pub open spec fn memory_fault(message: Seq<char>) -> VcFault {
    VcFault::Io(IoFault { kind: IoErrorKind::UnexpectedEof, message })
}

/// A device of fixed size in memory.
pub struct MemDevice {
    data: Vec<u8>,
    done: Ghost<Seq<DiskOp>>,
}

impl MemDevice {
    pub fn new(data: Vec<u8>) -> (r: MemDevice)
        ensures
            r.disk() == (Disk { bytes: data@, log: seq![], fixed: true }),
            r.reliable(),
    {
        MemDevice { data, done: Ghost(Seq::empty()) }
    }

    /// What the device holds.
    pub fn into_bytes(self) -> (r: Vec<u8>)
        ensures
            r@ == self.disk().bytes,
    {
        self.data
    }

    fn room(&self, offset: u64, n: usize) -> (r: bool)
        ensures
            r == self.disk().holds(offset as int, n as int),
    {
        offset <= self.data.len() as u64 && n <= self.data.len() - offset as usize
    }
}

impl BlockDevice for MemDevice {
    closed spec fn disk(&self) -> Disk {
        Disk { bytes: self.data@, log: self.done@, fixed: true }
    }

    open spec fn reliable(&self) -> bool {
        true
    }

    fn len(&mut self) -> (r: VcResult<u64>) {
        Ok(self.data.len() as u64)
    }

    fn read_at(&mut self, offset: u64, buf: &mut [u8]) -> (r: VcResult<()>)
        ensures
            r is Err ==> fails_with(r, memory_fault("read past end of device"@)),
    {
        let n: usize = buf.len();
        if !self.room(offset, n) {
            return Err(
                VcError::Io(IoError::new(IoErrorKind::UnexpectedEof, "read past end of device")),
            );
        }
        let size: usize = self.data.len();
        assert(offset <= size);
        put(buf, 0, &self.data.as_slice()[offset as usize..offset as usize + n]);
        assert(buf@ =~= self.disk().read(offset as int, n as int));
        Ok(())
    }

    fn write_at(&mut self, offset: u64, buf: &[u8]) -> (r: VcResult<()>)
        ensures
            r is Err ==> fails_with(r, memory_fault("write past end of device"@)),
    {
        if !self.room(offset, buf.len()) {
            return Err(
                VcError::Io(IoError::new(IoErrorKind::UnexpectedEof, "write past end of device")),
            );
        }
        let size: usize = self.data.len();
        assert(offset <= size);
        put(self.data.as_mut_slice(), offset as usize, buf);
        self.done = Ghost(
            self.done@.push(DiskOp::Write { offset: offset as int, data: buf@ }),
        );
        Ok(())
    }

    fn flush(&mut self) -> (r: VcResult<()>) {
        self.done = Ghost(self.done@.push(DiskOp::Flush));
        Ok(())
    }

    fn wipe_keys(&mut self) {
    }
}

/// A write puts its bytes where it says, changes no others, and lengthens a
/// disk only as far as it reaches; and it is the last thing done.
pub proof fn a_write_puts_its_bytes(disk: Disk, offset: int, data: Seq<u8>, i: int)
    requires
        0 <= offset <= disk.bytes.len(),
    ensures
        ({
            let after = disk.written(offset, data);
            &&& after.read(offset, data.len() as int) == data
            &&& after.bytes.len() == (if offset + data.len() > disk.bytes.len() {
                offset + data.len()
            } else {
                disk.bytes.len() as int
            })
            &&& 0 <= i < disk.bytes.len() && !(offset <= i < offset + data.len())
                ==> after.bytes[i] == disk.bytes[i]
            &&& after.log == disk.log.push(DiskOp::Write { offset, data })
            &&& after.fixed == disk.fixed
            &&& disk.flushed().bytes == disk.bytes
            &&& disk.flushed().log == disk.log.push(DiskOp::Flush)
        }),
{
    assert(disk.written(offset, data).read(offset, data.len() as int) =~= data);
}

/// A disk of fixed length takes exactly what ends within it, and any disk holds
/// exactly that.
pub proof fn a_disk_holds_what_ends_in_it(disk: Disk, offset: int, n: int)
    ensures
        disk.holds(offset, n) <==> offset + n <= disk.bytes.len(),
        disk.fixed ==> (disk.accepts(offset, n) <==> offset + n <= disk.bytes.len()),
        !disk.fixed ==> disk.accepts(offset, n),
        0 <= offset && 0 <= n && disk.holds(offset, n) ==> disk.read(offset, n).len() == n && forall|
            i: int,
        |
            0 <= i < n ==> #[trigger] disk.read(offset, n)[i] == disk.bytes[offset + i],
{
}

} // verus!
