//! Hidden-volume write protection.
//!
//! A hidden volume lies in what the outer filesystem sees as free space, so an
//! ordinary outer write could destroy it. Protection wraps the outer device:
//! any write that meets the hidden region is refused, and the first such write
//! makes the whole volume read-only, so that the filesystem cannot go on into
//! an inconsistent state. Reads always pass.

use vstd::prelude::*;

use crate::bytes::splice;
use crate::device::{shielded, BlockDevice, Disk, Stratum};
use crate::error::{fails_with, protecting, VcError, VcFault, VcResult};

verus! {

/// Whether `len` bytes from `offset` on, as far as offsets go, meet the region
/// from `start` to `end`.
pub open spec fn intersects(offset: int, len: int, start: int, end: int) -> bool {
    offset < end && offset + len > start && start < u64::MAX
}

/// One write to a protected volume: what it holds then, and whether it is
/// read-only. A write to a read-only volume, and one that meets the region,
/// changes nothing and leaves the volume read-only.
pub open spec fn guarded_write(
    bytes: Seq<u8>,
    latched: bool,
    region: (int, int),
    offset: int,
    data: Seq<u8>,
) -> (Seq<u8>, bool) {
    if latched || (data.len() > 0 && intersects(
        offset,
        data.len() as int,
        region.0,
        region.1,
    )) {
        (bytes, true)
    } else {
        (splice(bytes, offset, data), false)
    }
}

/// Any number of writes to a protected volume.
pub open spec fn guarded_writes(
    bytes: Seq<u8>,
    latched: bool,
    region: (int, int),
    writes: Seq<(int, Seq<u8>)>,
) -> (Seq<u8>, bool)
    decreases writes.len(),
{
    if writes.len() == 0 {
        (bytes, latched)
    } else {
        let (b, l) = guarded_writes(bytes, latched, region, writes.drop_last());
        guarded_write(b, l, region, writes.last().0, writes.last().1)
    }
}

/// No sequence of writes changes a byte of the protected region; and a volume
/// that is read-only stays so, and as it is.
pub proof fn the_region_survives_every_write(
    bytes: Seq<u8>,
    latched: bool,
    region: (int, int),
    writes: Seq<(int, Seq<u8>)>,
)
    requires
        0 <= region.0,
        region.1 <= u64::MAX,
        forall|i: int| 0 <= i < writes.len() ==> 0 <= (#[trigger] writes[i]).0,
    ensures
        ({
            let (after, l) = guarded_writes(bytes, latched, region, writes);
            &&& bytes.len() <= after.len()
            &&& forall|i: int|
                region.0 <= i < region.1 && i < bytes.len() ==> #[trigger] after[i] == bytes[i]
            &&& latched ==> l && after == bytes
        }),
    decreases writes.len(),
{
    if writes.len() > 0 {
        let before = writes.drop_last();
        assert forall|i: int| 0 <= i < before.len() implies 0 <= (#[trigger] before[i]).0 by {
            assert(before[i] == writes[i]);
        }
        the_region_survives_every_write(bytes, latched, region, before);
        assert(0 <= writes[writes.len() - 1].0);
    }
}

pub struct ProtectedDevice<D: BlockDevice> {
    inner: D,
    /// Protected byte range in the wrapped device's coordinates.
    protected_start: u64,
    protected_end: u64,
    /// Set by the first blocked write; from then on every write fails.
    read_only: bool,
}

impl<D: BlockDevice> ProtectedDevice<D> {
    pub closed spec fn wrapped(&self) -> D {
        self.inner
    }

    /// Where the protected region starts and ends.
    pub closed spec fn region(&self) -> (int, int) {
        (self.protected_start as int, self.protected_end as int)
    }

    /// Whether a blocked write has made the volume read-only.
    pub closed spec fn latched(&self) -> bool {
        self.read_only
    }

    /// `protected_start` and `protected_len` are in the wrapped device's
    /// coordinates; a region that would reach past the last offset ends there.
    pub fn new(inner: D, protected_start: u64, protected_len: u64) -> (r: Self)
        ensures
            r.wrapped() == inner,
            r.disk() == inner.disk(),
            !r.latched(),
            !r.stuck(),
            r.steady() == (inner.reliable() && inner.disk().fixed),
            r.shield() == Some(r.region()),
            r.strata() == seq![Stratum::Protected { start: r.region().0, end: r.region().1 }]
                + inner.strata(),
            r.beneath() == inner.beneath(),
            r.region().0 == protected_start,
            r.region().1 == if protected_start + protected_len <= u64::MAX {
                protected_start + protected_len
            } else {
                u64::MAX as int
            },
    {
        ProtectedDevice {
            inner,
            protected_start,
            protected_end: protected_start.saturating_add(protected_len),
            read_only: false,
        }
    }

    /// True once a write into the hidden region has made the volume read-only.
    pub fn tripped(&self) -> (r: bool)
        ensures
            r == self.latched(),
    {
        self.read_only
    }

    fn intersects_protected(&self, offset: u64, len: u64) -> (r: bool)
        requires
            len > 0,
        ensures
            r == intersects(offset as int, len as int, self.region().0, self.region().1),
    {
        let end: u64 = offset.saturating_add(len);
        offset < self.protected_end && end > self.protected_start
    }

    /// Hand the wrapped device back.
    pub fn into_inner(self) -> (r: D)
        ensures
            r == self.wrapped(),
    {
        self.inner
    }
}

impl<D: BlockDevice> BlockDevice for ProtectedDevice<D> {
    closed spec fn wiped(&self) -> bool {
        self.inner.wiped()
    }

    closed spec fn disk(&self) -> Disk {
        self.inner.disk()
    }

    closed spec fn reliable(&self) -> bool {
        self.inner.reliable() && !self.read_only && self.protected_end == 0
    }

    closed spec fn steady(&self) -> bool {
        self.inner.reliable() && self.inner.disk().fixed
    }

    closed spec fn stuck(&self) -> bool {
        self.read_only
    }

    closed spec fn shield(&self) -> Option<(int, int)> {
        Some((self.protected_start as int, self.protected_end as int))
    }

    closed spec fn strata(&self) -> Seq<Stratum> {
        seq![
            Stratum::Protected {
                start: self.protected_start as int,
                end: self.protected_end as int,
            },
        ] + self.inner.strata()
    }

    closed spec fn beneath(&self) -> Seq<Seq<u8>> {
        self.inner.beneath()
    }

    fn len(&mut self) -> (r: VcResult<u64>)
        ensures
            old(self).wrapped().reliable() ==> r is Ok && final(self).wrapped().reliable(),
            final(self).region() == old(self).region(),
            final(self).latched() == old(self).latched(),
    {
        self.inner.len()
    }

    fn read_at(&mut self, offset: u64, buf: &mut [u8]) -> (r: VcResult<()>)
        ensures
            old(self).wrapped().reliable() ==> final(self).wrapped().reliable(),
            old(self).wrapped().reliable() && old(self).disk().holds(
                offset as int,
                old(buf)@.len() as int,
            ) ==> r is Ok,
            final(self).region() == old(self).region(),
            final(self).latched() == old(self).latched(),
    {
        self.inner.read_at(offset, buf)
    }

    fn write_at(&mut self, offset: u64, buf: &[u8]) -> (r: VcResult<()>)
        ensures
            final(self).region() == old(self).region(),
            old(self).wrapped().reliable() ==> final(self).wrapped().reliable(),
            ({
                let refused = old(self).latched() || (buf@.len() > 0 && intersects(
                    offset as int,
                    buf@.len() as int,
                    old(self).region().0,
                    old(self).region().1,
                ));
                &&& final(self).latched() == refused
                &&& refused ==> fails_with(r, VcFault::HiddenVolumeProtected)
                    && final(self).wrapped() == old(self).wrapped()
                &&& !refused && old(self).wrapped().reliable() && old(self).disk().accepts(
                    offset as int,
                    buf@.len() as int,
                ) ==> r is Ok
                &&& !refused && old(self).wrapped().reliable() ==> (r matches Err(e)
                    ==> !protecting(e@) && final(self).disk() == old(self).disk())
            }),
            r is Ok || final(self).latched() ==> (final(self).disk().bytes, final(self).latched())
                == guarded_write(
                old(self).disk().bytes,
                old(self).latched(),
                old(self).region(),
                offset as int,
                buf@,
            ),
            r is Ok ==> forall|i: int|
                old(self).region().0 <= i < old(self).region().1 && i < old(self).disk().bytes.len()
                    ==> final(self).disk().bytes[i] == #[trigger] old(self).disk().bytes[i],
    {
        if self.read_only {
            return Err(VcError::HiddenVolumeProtected);
        }
        if buf.len() > 0 && self.intersects_protected(offset, buf.len() as u64) {
            self.read_only = true;
            return Err(VcError::HiddenVolumeProtected);
        }
        let done: VcResult<()> = self.inner.write_at(offset, buf);
        assert(done is Ok && self.inner.disk().fixed ==> shielded(self.disk().bytes, self.shield()) =~= shielded(
            old(self).disk().bytes,
            old(self).shield(),
        ));
        done
    }

    fn flush(&mut self) -> (r: VcResult<()>)
        ensures
            old(self).wrapped().reliable() ==> r is Ok && final(self).wrapped().reliable(),
            final(self).region() == old(self).region(),
            final(self).latched() == old(self).latched(),
    {
        self.inner.flush()
    }

    fn wipe_keys(&mut self) {
        self.inner.wipe_keys();
    }
}

} // verus!
