//! A device as a stream with a position, as filesystem code that reads,
//! writes and seeks expects it.

use vstd::prelude::*;

use crate::device::BlockDevice;
use crate::error::{IoError, IoErrorKind, VcResult};
use crate::exfat::io::to_io;

verus! {

/// Where to seek to.
pub enum SeekTo {
    Start(u64),
    End(i64),
    Current(i64),
}

/// A device with a position. The length is the one it had when it was wrapped.
pub struct DeviceIo<D: BlockDevice> {
    dev: D,
    pos: u64,
    len: u64,
}

/// Where a seek leads from `pos` on a device of `len` bytes, if it stays
/// within the offsets there are.
pub open spec fn seek_target(len: int, pos: int, to: SeekTo) -> Option<int> {
    let new = match to {
        SeekTo::Start(o) => o as int,
        SeekTo::End(d) => len + d,
        SeekTo::Current(d) => pos + d,
    };
    if 0 <= new <= u64::MAX {
        Some(new)
    } else {
        None
    }
}

fn moved(base: u64, by: i64) -> (r: Option<u64>)
    ensures
        match r {
            Some(n) => n == base + by,
            None => base + by < 0 || base + by > u64::MAX,
        },
{
    let sum: i128 = base as i128 + by as i128;
    if 0 <= sum && sum <= 0xFFFF_FFFF_FFFF_FFFF {
        Some(sum as u64)
    } else {
        None
    }
}

impl<D: BlockDevice> DeviceIo<D> {
    pub closed spec fn device(&self) -> D {
        self.dev
    }

    /// The position.
    pub closed spec fn at(&self) -> int {
        self.pos as int
    }

    /// The length the device had when it was wrapped.
    pub closed spec fn length(&self) -> int {
        self.len as int
    }

    pub fn new(dev: D) -> (r: VcResult<Self>)
        ensures
            r matches Ok(io) ==> {
                &&& io.device().disk() == dev.disk()
                &&& dev.reliable() ==> io.device().reliable()
                &&& io.at() == 0
                &&& io.length() == dev.disk().bytes.len()
            },
            dev.reliable() ==> r is Ok,
    {
        let mut dev: D = dev;
        let len: u64 = dev.len()?;
        Ok(DeviceIo { dev, pos: 0, len })
    }

    /// Read as much as fits `buf` and is left before the end; nothing past it.
    pub fn read(&mut self, buf: &mut [u8]) -> (r: Result<usize, IoError>)
        ensures
            final(self).device().disk() == old(self).device().disk(),
            old(self).device().reliable() ==> final(self).device().reliable(),
            final(self).length() == old(self).length(),
            final(buf)@.len() == old(buf)@.len(),
            match r {
                Ok(n) => {
                    let left = old(self).length() - old(self).at();
                    &&& n == if left <= 0 {
                        0
                    } else if left < old(buf)@.len() {
                        left
                    } else {
                        old(buf)@.len() as int
                    }
                    &&& final(self).at() == old(self).at() + n
                    &&& n > 0 ==> final(buf)@.take(n as int) == old(self).device().disk().read(
                        old(self).at(),
                        n as int,
                    )
                    &&& final(buf)@.skip(n as int) == old(buf)@.skip(n as int)
                },
                Err(_) => final(self).at() == old(self).at(),
            },
            old(self).device().reliable() && old(self).length()
                <= old(self).device().disk().bytes.len() ==> r is Ok,
    {
        let left: u64 = if self.pos <= self.len {
            self.len - self.pos
        } else {
            0
        };
        let n: usize = if buf.len() as u64 <= left {
            buf.len()
        } else {
            left as usize
        };
        if n == 0 {
            return Ok(0);
        }
        let mut piece: Vec<u8> = crate::bytes::zeroed(n);
        match self.dev.read_at(self.pos, piece.as_mut_slice()) {
            Ok(_) => {},
            Err(e) => {
                return Err(to_io(e));
            },
        }
        crate::bytes::put(buf, 0, piece.as_slice());
        assert(buf@.take(n as int) =~= piece@);
        assert(buf@.skip(n as int) =~= old(buf)@.skip(n as int));
        self.pos = self.pos + n as u64;
        Ok(n)
    }

    /// Write all of `buf` at the position.
    pub fn write(&mut self, buf: &[u8]) -> (r: Result<usize, IoError>)
        requires
            old(self).at() + buf@.len() <= u64::MAX,
        ensures
            old(self).device().reliable() ==> final(self).device().reliable(),
            final(self).length() == old(self).length(),
            match r {
                Ok(n) => {
                    &&& n == buf@.len()
                    &&& final(self).at() == old(self).at() + n
                    &&& final(self).device().disk() == old(self).device().disk().written(
                        old(self).at(),
                        buf@,
                    )
                },
                Err(_) => final(self).at() == old(self).at(),
            },
            old(self).device().reliable() && old(self).device().disk().accepts(
                old(self).at(),
                buf@.len() as int,
            ) ==> r is Ok,
    {
        match self.dev.write_at(self.pos, buf) {
            Ok(_) => {},
            Err(e) => {
                return Err(to_io(e));
            },
        }
        self.pos = self.pos + buf.len() as u64;
        Ok(buf.len())
    }

    /// Make all prior writes durable.
    pub fn flush(&mut self) -> (r: Result<(), IoError>)
        ensures
            old(self).device().reliable() ==> r is Ok && final(self).device().reliable(),
            final(self).length() == old(self).length(),
            final(self).at() == old(self).at(),
            r is Ok ==> final(self).device().disk() == old(self).device().disk().flushed(),
    {
        match self.dev.flush() {
            Ok(_) => Ok(()),
            Err(e) => Err(to_io(e)),
        }
    }

    /// Move the position; it may lie past the end.
    pub fn seek(&mut self, to: SeekTo) -> (r: Result<u64, IoError>)
        ensures
            final(self).device() == old(self).device(),
            final(self).length() == old(self).length(),
            match seek_target(old(self).length(), old(self).at(), to) {
                Some(p) => (r matches Ok(n) && n == p) && final(self).at() == p,
                None => (r matches Err(e) && e.kind == IoErrorKind::InvalidInput && e.message@
                    == "seek out of range"@) && final(self).at() == old(self).at(),
            },
    {
        let new: Option<u64> = match to {
            SeekTo::Start(o) => Some(o),
            SeekTo::End(d) => moved(self.len, d),
            SeekTo::Current(d) => moved(self.pos, d),
        };
        match new {
            Some(p) => {
                self.pos = p;
                Ok(p)
            },
            None => Err(IoError::new(IoErrorKind::InvalidInput, "seek out of range")),
        }
    }

    /// Overwrite the keys of the device underneath; to be called once the
    /// stream has served.
    pub fn wipe_keys(&mut self)
        ensures
            final(self).device().wiped(),
            final(self).length() == old(self).length(),
            final(self).at() == old(self).at(),
    {
        self.dev.wipe_keys();
    }
}

/// Seeking counts from the start, the end or where it stands; what lies before
/// the start or beyond 64 bits is nowhere.
pub proof fn seeking_counts_from_where_it_says(len: int, pos: int, o: u64, d: i64)
    ensures
        seek_target(len, pos, SeekTo::Start(o)) == Some(o as int),
        seek_target(len, pos, SeekTo::End(d)) == (if 0 <= len + d <= u64::MAX {
            Some(len + d)
        } else {
            None
        }),
        seek_target(len, pos, SeekTo::Current(d)) == (if 0 <= pos + d <= u64::MAX {
            Some(pos + d)
        } else {
            None
        }),
{
}

} // verus!
