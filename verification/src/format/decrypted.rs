//! The decrypted view of a container's data area.
//!
//! Wraps the container device and the volume's XTS engine and presents a
//! device whose offset 0 is the first byte of the filesystem. Writes that do
//! not cover whole data units take the plaintext around them along. Callers
//! never see the alignment.

use vstd::prelude::*;

use crate::bytes::{put, splice, zeroed, zeros};
use crate::crypto::xts::{unit_at, unit_count, unit_decrypted, LayerKeys, SchemeXts};
use crate::device::{BlockDevice, Disk, DiskOp, Stratum};
use crate::error::{fails_with, IoError, IoErrorKind, IoFault, VcError, VcFault, VcResult};
use crate::header::VolumeGeometry;

verus! {

/// The most that is decrypted or encrypted at a time.
const PIECE: usize = 1_048_576;

/// The `u`-th data unit of a container; past the end it reads as zeros.
pub open spec fn cipher_unit(container: Seq<u8>, u: int) -> Seq<u8> {
    Seq::new(
        512,
        |m: int|
            if 512 * u + m < container.len() {
                container[512 * u + m]
            } else {
                0u8
            },
    )
}

/// The plaintext byte at absolute offset `a` of a container. Data units are
/// numbered from the start of the container.
pub open spec fn plain_byte(container: Seq<u8>, layers: Seq<LayerKeys>, a: int) -> u8 {
    unit_decrypted(layers, cipher_unit(container, a / 512), a / 512)[a % 512]
}

/// The plaintext of the `len` bytes of a container from `start` on.
pub open spec fn plain_area(
    container: Seq<u8>,
    layers: Seq<LayerKeys>,
    start: int,
    len: int,
) -> Seq<u8> {
    Seq::new(len as nat, |i: int| plain_byte(container, layers, start + i))
}

/// Whether two containers differ at most in the data units that hold the
/// bytes from `from` to `to`.
pub open spec fn untouched_outside(a: Seq<u8>, b: Seq<u8>, from: int, to: int) -> bool {
    &&& a.len() <= b.len()
    &&& forall|i: int|
        0 <= i < a.len() && !(from / 512 * 512 <= i < unit_end(to)) ==> a[i] == #[trigger] b[i]
}

/// The end of the data unit that holds the byte before `a`.
pub open spec fn unit_end(a: int) -> int {
    (a + 511) / 512 * 512
}

/// A container with the data units of an area blanked: what lies around it.
pub open spec fn around(container: Seq<u8>, start: int, size: int) -> Seq<u8> {
    Seq::new(
        container.len(),
        |i: int|
            if start / 512 * 512 <= i < unit_end(start + size) {
                0u8
            } else {
                container[i]
            },
    )
}

proof fn lemma_decrypted_block(
    container: Seq<u8>,
    raw: Seq<u8>,
    block: Seq<u8>,
    layers: Seq<LayerKeys>,
    first: int,
)
    requires
        0 <= first,
        raw.len() % 512 == 0,
        block.len() == raw.len(),
        512 * first + raw.len() <= container.len(),
        raw == container.subrange(512 * first, 512 * first + raw.len()),
        forall|k: int|
            #![trigger unit_at(block, 512, k)]
            0 <= k < unit_count(raw, 512) ==> unit_at(block, 512, k) == unit_decrypted(
                layers,
                unit_at(raw, 512, k),
                first + k,
            ),
    ensures
        forall|p: int|
            0 <= p < block.len() ==> #[trigger] block[p] == plain_byte(
                container,
                layers,
                512 * first + p,
            ),
{
    assert forall|p: int| 0 <= p < block.len() implies #[trigger] block[p] == plain_byte(
        container,
        layers,
        512 * first + p,
    ) by {
        let k = p / 512;
        assert(unit_at(raw, 512, k) =~= cipher_unit(container, first + k));
        assert(unit_at(block, 512, k)[p % 512] == block[p]);
        assert((512 * first + p) / 512 == first + k);
        assert((512 * first + p) % 512 == p % 512);
    }
}

/// Decrypt the `len` bytes from absolute offset `abs` on.
fn read_plain<D: BlockDevice>(inner: &mut D, xts: &SchemeXts, abs: u64, len: usize) -> (r: VcResult<
    Vec<u8>,
>)
    requires
        0 < len <= PIECE,
        abs + len + 511 <= u64::MAX,
    ensures
        final(inner).disk() == old(inner).disk(),
        final(inner).strata() == old(inner).strata(),
        final(inner).beneath() == old(inner).beneath(),
        old(inner).reliable() ==> final(inner).reliable(),
        r matches Ok(v) ==> v@ == plain_area(
            old(inner).disk().bytes,
            xts@,
            abs as int,
            len as int,
        ),
        old(inner).reliable() && unit_end(abs + len) <= old(inner).disk().bytes.len() ==> r is Ok,
{
    let skip: u64 = abs % 512;
    let first: u64 = abs / 512;
    let end: u64 = (abs + len as u64 + 511) / 512 * 512;
    let mut block: Vec<u8> = zeroed((end - (abs - skip)) as usize);
    inner.read_at(abs - skip, block.as_mut_slice())?;
    let ghost container = inner.disk().bytes;
    let ghost raw = block@;
    xts.decrypt_units(block.as_mut_slice(), first);
    proof {
        lemma_decrypted_block(container, raw, block@, xts@, first as int);
    }
    let out: Vec<u8> = crate::bytes::copy_range(block.as_slice(), skip as usize, skip as usize + len);
    assert(out@ =~= plain_area(container, xts@, abs as int, len as int));
    Ok(out)
}

/// Put `data` in place as plaintext from absolute offset `abs` on.
fn write_plain<D: BlockDevice>(inner: &mut D, xts: &SchemeXts, abs: u64, data: &[u8]) -> (r: VcResult<
    (),
>)
    requires
        0 < data@.len() <= PIECE,
        abs + data@.len() + 511 <= u64::MAX,
    ensures
        final(inner).strata() == old(inner).strata(),
        old(inner).reliable() ==> final(inner).beneath() == old(inner).beneath(),
        old(inner).reliable() ==> final(inner).reliable(),
        r is Ok ==> forall|a: int|
            0 <= a ==> #[trigger] plain_byte(final(inner).disk().bytes, xts@, a) == if abs <= a < abs
                + data@.len() {
                data@[a - abs]
            } else {
                plain_byte(old(inner).disk().bytes, xts@, a)
            },
        r is Ok && unit_end(abs + data@.len()) <= old(inner).disk().bytes.len()
            ==> final(inner).disk().bytes.len() == old(inner).disk().bytes.len(),
        r is Ok ==> untouched_outside(
            old(inner).disk().bytes,
            final(inner).disk().bytes,
            abs as int,
            abs + data@.len(),
        ),
        old(inner).reliable() && unit_end(abs + data@.len()) <= old(inner).disk().bytes.len()
            ==> r is Ok,
{
    let len: usize = data.len();
    let skip: u64 = abs % 512;
    let first: u64 = abs / 512;
    let start: u64 = abs - skip;
    let end: u64 = (abs + len as u64 + 511) / 512 * 512;
    let ghost container = inner.disk().bytes;
    let mut block: Vec<u8> = zeroed((end - start) as usize);
    if skip != 0 || (abs + len as u64) % 512 != 0 {
        inner.read_at(start, block.as_mut_slice())?;
        let ghost raw = block@;
        xts.decrypt_units(block.as_mut_slice(), first);
        proof {
            lemma_decrypted_block(container, raw, block@, xts@, first as int);
        }
    }
    let ghost around = block@;
    put(block.as_mut_slice(), skip as usize, data);
    let ghost plain = block@;
    xts.encrypt_units(block.as_mut_slice(), first);
    let ghost enc = block@;
    inner.write_at(start, block.as_slice())?;
    proof {
        let after = inner.disk().bytes;
        assert(after == splice(container, start as int, enc));
        assert forall|a: int| 0 <= a implies #[trigger] plain_byte(after, xts@, a) == if abs <= a
            < abs + len {
            data@[a - abs]
        } else {
            plain_byte(container, xts@, a)
        } by {
            let u = a / 512;
            if start <= 512 * u < end {
                let k = u - first;
                assert(0 <= k < unit_count(enc, 512));
                assert(unit_at(enc, 512, k) =~= cipher_unit(after, u));
                assert(unit_decrypted(xts@, unit_at(enc, 512, k), first + k) == unit_at(
                    plain,
                    512,
                    k,
                ));
                assert(unit_at(plain, 512, k)[a % 512] == plain[a - start]);
            } else {
                assert(cipher_unit(after, u) =~= cipher_unit(container, u));
            }
        }
    }
    Ok(())
}

/// The error for an access that leaves the data area.
pub open spec fn past_end(message: Seq<char>) -> VcFault {
    VcFault::Io(IoFault { kind: IoErrorKind::UnexpectedEof, message })
}

/// A volume inside a container, as a device.
pub struct DecryptedDevice<D: BlockDevice> {
    inner: D,
    xts: SchemeXts,
    /// Absolute container offset of the data area.
    data_start: u64,
    /// Size of the data area, which is the filesystem's size.
    data_size: u64,
    done: Ghost<Seq<DiskOp>>,
}

impl<D: BlockDevice> DecryptedDevice<D> {
    /// The container underneath.
    pub closed spec fn container(&self) -> D {
        self.inner
    }

    pub closed spec fn layers(&self) -> Seq<LayerKeys> {
        self.xts@
    }

    /// Where the data area starts in the container, and how long it is.
    pub closed spec fn area(&self) -> (int, int) {
        (self.data_start as int, self.data_size as int)
    }

    pub fn new(inner: D, xts: SchemeXts, geometry: &VolumeGeometry) -> (r: Self)
        ensures
            r.container() == inner,
            r.layers() == xts@,
            r.area() == (
                geometry.encrypted_area_start as int,
                geometry.encrypted_area_size as int,
            ),
            r.disk() == (Disk {
                bytes: plain_area(
                    inner.disk().bytes,
                    xts@,
                    geometry.encrypted_area_start as int,
                    geometry.encrypted_area_size as int,
                ),
                log: seq![],
                fixed: true,
            }),
            r.strata() == seq![
                Stratum::Decrypted {
                    layers: xts@,
                    start: geometry.encrypted_area_start as int,
                    size: geometry.encrypted_area_size as int,
                },
            ] + inner.strata(),
            r.shield() is None,
            !r.stuck(),
            r.reliable() == (inner.reliable() && unit_end(
                geometry.encrypted_area_start + geometry.encrypted_area_size,
            ) <= inner.disk().bytes.len() && geometry.encrypted_area_start
                + geometry.encrypted_area_size + 511 <= u64::MAX),
    {
        DecryptedDevice {
            inner,
            xts,
            data_start: geometry.encrypted_area_start,
            data_size: geometry.encrypted_area_size,
            done: Ghost(Seq::empty()),
        }
    }

    /// Whether `len` bytes from `offset` on lie in the data area, at absolute
    /// offsets a `u64` can hold with their data units.
    fn in_area(&self, offset: u64, len: usize) -> (r: bool)
        ensures
            r ==> offset + len <= self.data_size && self.data_start + offset + len + 511 <= u64::MAX,
            offset + len <= self.data_size && self.data_start + self.data_size + 511 <= u64::MAX
                ==> r,
    {
        match offset.checked_add(len as u64) {
            None => false,
            Some(end) => {
                if end > self.data_size {
                    return false;
                }
                match self.data_start.checked_add(end) {
                    None => false,
                    Some(abs_end) => abs_end <= u64::MAX - 511,
                }
            },
        }
    }

    /// What a volume holds is what its container holds, decrypted; what it is
    /// made of are its keys and its area; and what lies beneath it is the
    /// container around the area.
    pub proof fn shows_its_container(&self)
        ensures
            self.disk().bytes == plain_area(
                self.container().disk().bytes,
                self.layers(),
                self.area().0,
                self.area().1,
            ),
            self.strata() == seq![
                Stratum::Decrypted {
                    layers: self.layers(),
                    start: self.area().0,
                    size: self.area().1,
                },
            ] + self.container().strata(),
            self.reliable() ==> self.container().reliable(),
            self.beneath() == seq![
                around(self.container().disk().bytes, self.area().0, self.area().1),
            ] + self.container().beneath(),
    {
    }

    /// Overwrite the keys and hand the container back.
    pub fn into_container(self) -> (r: D)
        ensures
            r == self.container(),
    {
        let DecryptedDevice { inner, mut xts, .. } = self;
        xts.wipe();
        inner
    }
}

impl<D: BlockDevice> BlockDevice for DecryptedDevice<D> {
    closed spec fn wiped(&self) -> bool {
        &&& self.inner.wiped()
        &&& forall|i: int|
            0 <= i < self.xts@.len() ==> (#[trigger] self.xts@[i]).primary == zeros(32)
                && self.xts@[i].secondary == zeros(32)
    }

    closed spec fn disk(&self) -> Disk {
        Disk {
            bytes: plain_area(
                self.inner.disk().bytes,
                self.xts@,
                self.data_start as int,
                self.data_size as int,
            ),
            log: self.done@,
            fixed: true,
        }
    }

    closed spec fn reliable(&self) -> bool {
        &&& self.inner.reliable()
        &&& unit_end(self.data_start + self.data_size) <= self.inner.disk().bytes.len()
        &&& self.data_start + self.data_size + 511 <= u64::MAX
    }

    closed spec fn strata(&self) -> Seq<Stratum> {
        seq![
            Stratum::Decrypted {
                layers: self.xts@,
                start: self.data_start as int,
                size: self.data_size as int,
            },
        ] + self.inner.strata()
    }

    closed spec fn beneath(&self) -> Seq<Seq<u8>> {
        seq![
            around(self.inner.disk().bytes, self.data_start as int, self.data_size as int),
        ] + self.inner.beneath()
    }

    fn len(&mut self) -> (r: VcResult<u64>) {
        Ok(self.data_size)
    }

    fn read_at(&mut self, offset: u64, buf: &mut [u8]) -> (r: VcResult<()>)
        ensures
            final(self).container().disk() == old(self).container().disk(),
            final(self).layers() == old(self).layers(),
            final(self).area() == old(self).area(),
            offset + old(buf)@.len() > old(self).area().1 ==> fails_with(
                r,
                past_end("read past end of data area"@),
            ),
    {
        let len: usize = buf.len();
        if !self.in_area(offset, len) {
            return Err(
                VcError::Io(IoError::new(IoErrorKind::UnexpectedEof, "read past end of data area")),
            );
        }
        let ghost plain = self.disk().bytes;
        let mut pos: usize = 0;
        while pos < len
            invariant
                pos <= len,
                len == buf@.len() == old(buf)@.len(),
                offset + len <= self.data_size,
                self.data_start + offset + len + 511 <= u64::MAX,
                self.disk() == old(self).disk(),
                self.inner.disk() == old(self).inner.disk(),
                self.xts@ == old(self).xts@,
                self.data_start == old(self).data_start,
                self.data_size == old(self).data_size,
                old(self).reliable() ==> self.reliable(),
                self.inner.strata() == old(self).inner.strata(),
                self.inner.beneath() == old(self).inner.beneath(),
                plain == self.disk().bytes,
                forall|i: int| 0 <= i < pos ==> buf@[i] == #[trigger] plain[offset + i],
            decreases len - pos,
        {
            let n: usize = if len - pos <= PIECE {
                len - pos
            } else {
                PIECE
            };
            let piece: Vec<u8> = read_plain(
                &mut self.inner,
                &self.xts,
                self.data_start + offset + pos as u64,
                n,
            )?;
            let ghost before = buf@;
            put(buf, pos, piece.as_slice());
            assert forall|i: int| 0 <= i < pos + n implies buf@[i] == #[trigger] plain[offset
                + i] by {
                if i >= pos {
                    assert(buf@[i] == piece@[i - pos]);
                } else {
                    assert(buf@[i] == before[i]);
                }
            }
            pos = pos + n;
        }
        assert(buf@ =~= plain.subrange(offset as int, offset + len)) by {
            assert forall|i: int| 0 <= i < len implies buf@[i] == plain.subrange(
                offset as int,
                offset + len,
            )[i] by {
                assert(buf@[i] == plain[offset + i]);
            }
        }
        Ok(())
    }

    #[verifier::spinoff_prover]
    #[verifier::rlimit(50)]
    fn write_at(&mut self, offset: u64, buf: &[u8]) -> (r: VcResult<()>)
        ensures
            final(self).layers() == old(self).layers(),
            final(self).area() == old(self).area(),
            offset + buf@.len() > old(self).area().1 ==> fails_with(
                r,
                past_end("write past end of data area"@),
            ) && final(self).disk() == old(self).disk() && final(self).container() == old(
                self,
            ).container(),
            r is Ok && buf@.len() > 0 ==> untouched_outside(
                old(self).container().disk().bytes,
                final(self).container().disk().bytes,
                old(self).area().0 + offset,
                old(self).area().0 + offset + buf@.len(),
            ),
            r is Ok && buf@.len() == 0 ==> final(self).container() == old(self).container(),
    {
        let len: usize = buf.len();
        if !self.in_area(offset, len) {
            return Err(
                VcError::Io(IoError::new(IoErrorKind::UnexpectedEof, "write past end of data area")),
            );
        }
        let ghost plain = self.disk().bytes;
        let mut pos: usize = 0;
        while pos < len
            invariant
                pos <= len,
                len == buf@.len(),
                offset + len <= self.data_size,
                self.data_start + offset + len + 511 <= u64::MAX,
                plain == old(self).disk().bytes,
                plain.len() == self.data_size,
                self.xts@ == old(self).xts@,
                self.data_start == old(self).data_start,
                self.data_size == old(self).data_size,
                self.done@ == old(self).done@,
                old(self).reliable() ==> self.reliable(),
                self.inner.strata() == old(self).inner.strata(),
                old(self).reliable() ==> self.inner.beneath() == old(self).inner.beneath()
                    && self.inner.disk().bytes.len() == old(self).inner.disk().bytes.len(),
                pos == 0 ==> self.inner == old(self).inner,
                pos > 0 ==> untouched_outside(
                    old(self).inner.disk().bytes,
                    self.inner.disk().bytes,
                    self.data_start + offset,
                    self.data_start + offset + pos,
                ),
                forall|i: int|
                    0 <= i < plain.len() ==> #[trigger] self.disk().bytes[i] == if offset <= i < offset
                        + pos {
                        buf@[i - offset]
                    } else {
                        plain[i]
                    },
            decreases len - pos,
        {
            let n: usize = if len - pos <= PIECE {
                len - pos
            } else {
                PIECE
            };
            let ghost before = self.disk().bytes;
            let ghost inner_before = self.inner.disk().bytes;
            write_plain(
                &mut self.inner,
                &self.xts,
                self.data_start + offset + pos as u64,
                &buf[pos..pos + n],
            )?;
            assert forall|i: int| 0 <= i < plain.len() implies #[trigger] self.disk().bytes[i]
                == if offset <= i < offset + pos + n {
                buf@[i - offset]
            } else {
                plain[i]
            } by {
                let a = self.data_start + i;
                assert(self.disk().bytes[i] == plain_byte(self.inner.disk().bytes, self.xts@, a));
                assert(before[i] == plain_byte(inner_before, self.xts@, a));
            }
            pos = pos + n;
        }
        assert(self.disk().bytes =~= splice(plain, offset as int, buf@));
        assert(old(self).reliable() ==> around(
            self.inner.disk().bytes,
            self.data_start as int,
            self.data_size as int,
        ) =~= around(
            old(self).inner.disk().bytes,
            self.data_start as int,
            self.data_size as int,
        ));
        self.done = Ghost(
            self.done@.push(DiskOp::Write { offset: offset as int, data: buf@ }),
        );
        Ok(())
    }

    fn flush(&mut self) -> (r: VcResult<()>)
        ensures
            final(self).layers() == old(self).layers(),
            final(self).area() == old(self).area(),
            r is Ok ==> final(self).container().disk() == old(self).container().disk().flushed(),
            r is Err ==> final(self).container().disk() == old(self).container().disk(),
    {
        self.inner.flush()?;
        self.done = Ghost(self.done@.push(DiskOp::Flush));
        Ok(())
    }

    fn wipe_keys(&mut self)
        ensures
            forall|i: int|
                0 <= i < final(self).layers().len() ==> (#[trigger] final(self).layers()[i]).primary
                    == zeros(32) && final(self).layers()[i].secondary == zeros(32),
            final(self).layers().len() == old(self).layers().len(),
    {
        self.xts.wipe();
        self.inner.wipe_keys();
    }
}

} // verus!
