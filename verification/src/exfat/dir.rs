//! Directories: 32-byte entries; a File entry followed by a Stream Extension
//! and File Name entries, covered by a checksum. Sets may span clusters; an
//! entry of type 0 ends the directory.

use vstd::prelude::*;

use super::boot::Geometry;
use super::fat::{chain_from, chain_of, read_chain};
use super::io::{
    due, fetch, seen_view, sure, unmoved, ExFault, ExfatError, ExfatResult, ReadAt,
};
use super::upcase::{div_ceil, lesser, parts};
use crate::bytes::{le16, le32, le64, put, read_le16, read_le32, read_le64, slice_of, zeroed};
use crate::text::{decode_utf16, text_of_utf16};
use crate::time::{civil_ms, moment_ms};

verus! {

pub const ENTRY_END: u8 = 0x00;

pub const ENTRY_BITMAP: u8 = 0x81;

pub const ENTRY_UPCASE: u8 = 0x82;

pub const ENTRY_LABEL: u8 = 0x83;

pub const ENTRY_FILE: u8 = 0x85;

pub const ENTRY_STREAM: u8 = 0xC0;

pub const ENTRY_NAME: u8 = 0xC1;

/// A directory entry as the read API reports it.
#[derive(Debug)]
pub struct Entry {
    pub name: String,
    pub is_dir: bool,
    /// DataLength: the allocated logical size.
    pub size: u64,
    /// ValidDataLength: bytes actually written; the tail up to `size` reads as
    /// zeros.
    pub valid_size: u64,
    pub first_cluster: u32,
    /// Contiguous, without a chain in the table.
    pub no_fat_chain: bool,
    /// Last modification as Unix milliseconds (UTC if the volume recorded an
    /// offset, else as stored).
    pub mtime_ms: Option<i64>,
}

/// An entry as a value.
#[verifier::ext_equal]
pub struct EntryModel {
    pub name: Seq<char>,
    pub is_dir: bool,
    pub size: u64,
    pub valid_size: u64,
    pub first_cluster: u32,
    pub no_fat_chain: bool,
    pub mtime_ms: Option<i64>,
}

impl View for Entry {
    type V = EntryModel;

    open spec fn view(&self) -> EntryModel {
        EntryModel {
            name: self.name@,
            is_dir: self.is_dir,
            size: self.size,
            valid_size: self.valid_size,
            first_cluster: self.first_cluster,
            no_fat_chain: self.no_fat_chain,
            mtime_ms: self.mtime_ms,
        }
    }
}

/// The views of a list of entries.
pub open spec fn entries_of(v: Seq<Entry>) -> Seq<EntryModel> {
    v.map_values(|e: Entry| e@)
}

/// The views of a list of raw entries.
pub open spec fn rows(v: Seq<[u8; 32]>) -> Seq<Seq<u8>> {
    v.map_values(|e: [u8; 32]| e@)
}

/// At which entry a walk stops early.
pub trait EntryFilter {
    spec fn stops(&self, raw: Seq<u8>) -> bool;

    fn stop_at(&self, raw: &[u8; 32]) -> (r: bool)
        ensures
            r == self.stops(raw@),
    ;
}

/// Where a filter stops, as a function.
pub open spec fn stopper<F: EntryFilter>(filter: F) -> spec_fn(Seq<u8>) -> bool {
    |raw: Seq<u8>| filter.stops(raw)
}

/// Walk to the end.
pub struct Never;

impl EntryFilter for Never {
    open spec fn stops(&self, raw: Seq<u8>) -> bool {
        false
    }

    fn stop_at(&self, raw: &[u8; 32]) -> (r: bool) {
        false
    }
}

/// Whether a raw entry is the first allocation bitmap's.
pub open spec fn is_bitmap(raw: Seq<u8>) -> bool {
    raw[0] == ENTRY_BITMAP && raw[1] % 2 == 0
}

/// Stop at the first allocation bitmap's entry.
pub struct AtBitmap;

impl EntryFilter for AtBitmap {
    open spec fn stops(&self, raw: Seq<u8>) -> bool {
        is_bitmap(raw)
    }

    fn stop_at(&self, raw: &[u8; 32]) -> (r: bool) {
        raw[0] == ENTRY_BITMAP && raw[1] % 2 == 0
    }
}

/// Whether a raw entry is the up-case table's.
pub open spec fn is_upcase(raw: Seq<u8>) -> bool {
    raw[0] == ENTRY_UPCASE
}

/// Stop at the up-case table's entry.
pub struct AtUpcase;

impl EntryFilter for AtUpcase {
    open spec fn stops(&self, raw: Seq<u8>) -> bool {
        is_upcase(raw)
    }

    fn stop_at(&self, raw: &[u8; 32]) -> (r: bool) {
        raw[0] == ENTRY_UPCASE
    }
}

/// The clusters of a contiguous run that holds `data_len` bytes: at least one,
/// at most as many as the volume has.
pub open spec fn run_len(geo: Geometry, data_len: int) -> int {
    let n = parts(data_len, geo.cluster_len());
    lesser(
        if n < 1 {
            1
        } else {
            n
        },
        geo.cluster_count as int,
    )
}

/// The clusters of a directory in order.
pub open spec fn clusters_of(
    img: Seq<u8>,
    geo: Geometry,
    first: u32,
    no_fat_chain: bool,
    data_len: u64,
) -> Result<Seq<int>, ExFault> {
    if no_fat_chain {
        Ok(Seq::new(run_len(geo, data_len as int) as nat, |i: int| first + i))
    } else {
        match chain_of(img, geo, first, None) {
            Err(f) => Err(f),
            Ok(chain) => Ok(chain.map_values(|c: u32| c as int)),
        }
    }
}

/// Entries per cluster.
pub open spec fn per_cluster(geo: Geometry) -> int {
    geo.cluster_len() / 32
}

/// The `k`-th raw entry of a directory over the given clusters; `None` where
/// its recorded length, or the space of cluster numbers, ends before it.
pub open spec fn raw_at(
    img: Seq<u8>,
    geo: Geometry,
    clusters: Seq<int>,
    data_len: int,
    k: int,
) -> Result<Option<Seq<u8>>, ExFault> {
    let cluster = clusters[k / per_cluster(geo)];
    if 32 * k >= data_len || cluster > 0xFFFF_FFFF {
        Ok(None)
    } else {
        match geo.cluster_at(cluster) {
            Err(f) => Err(f),
            Ok(off) => if off + geo.cluster_len() > img.len() {
                Err(ExFault::Io)
            } else {
                Ok(Some(slice_of(img, off + 32 * (k % per_cluster(geo)), 32)))
            },
        }
    }
}

/// The raw entries of a directory from the `k`-th on, up to its end or to the
/// first, inclusive, at which the walk stops.
pub open spec fn walk_from(
    img: Seq<u8>,
    geo: Geometry,
    clusters: Seq<int>,
    data_len: int,
    k: int,
    stops: spec_fn(Seq<u8>) -> bool,
) -> Result<Seq<Seq<u8>>, ExFault>
    decreases clusters.len() * per_cluster(geo) - k,
{
    if k < 0 || k >= clusters.len() * per_cluster(geo) {
        Ok(seq![])
    } else {
        match raw_at(img, geo, clusters, data_len, k) {
            Err(f) => Err(f),
            Ok(None) => Ok(seq![]),
            Ok(Some(raw)) => if raw[0] == ENTRY_END {
                Ok(seq![])
            } else if stops(raw) {
                Ok(seq![raw])
            } else {
                match walk_from(img, geo, clusters, data_len, k + 1, stops) {
                    Err(f) => Err(f),
                    Ok(rest) => Ok(seq![raw] + rest),
                }
            },
        }
    }
}

/// The raw entries of a directory, up to its end or to the first, inclusive,
/// at which the walk stops. A directory without a cluster has none.
pub open spec fn walked(
    img: Seq<u8>,
    geo: Geometry,
    first: u32,
    no_fat_chain: bool,
    data_len: u64,
    stops: spec_fn(Seq<u8>) -> bool,
) -> Result<Seq<Seq<u8>>, ExFault> {
    if first == 0 {
        Ok(seq![])
    } else {
        match clusters_of(img, geo, first, no_fat_chain, data_len) {
            Err(f) => Err(f),
            Ok(clusters) => walk_from(img, geo, clusters, data_len as int, 0, stops),
        }
    }
}

spec fn row_join(head: Seq<Seq<u8>>, rest: Result<Seq<Seq<u8>>, ExFault>) -> Result<
    Seq<Seq<u8>>,
    ExFault,
> {
    match rest {
        Ok(tail) => Ok(head + tail),
        Err(f) => Err(f),
    }
}

/// Raw entries by their views.
pub open spec fn seen_rows(r: ExfatResult<Vec<[u8; 32]>>) -> Result<Seq<Seq<u8>>, ExFault> {
    match r {
        Ok(v) => Ok(rows(v@)),
        Err(e) => Err(e@),
    }
}

pub proof fn chain_len_bound(
    img: Seq<u8>,
    geo: Geometry,
    cur: u32,
    n: int,
    cap: int,
    bounded: bool,
)
    requires
        n <= cap,
    ensures
        chain_from(img, geo, cur, n, cap, bounded) matches Ok(c) ==> c.len() <= cap - n,
    decreases cap - n,
{
    if n < cap {
        if let Ok(next) = super::fat::fat_at(img, geo, cur as int) {
            chain_len_bound(img, geo, next, n + 1, cap, bounded);
        }
    }
}

proof fn lemma_cluster_slots(geo: Geometry, ci: int, n: int)
    requires
        geo.wf(),
        0 <= ci < n <= 0x1_0000_0000,
    ensures
        ({
            let p = per_cluster(geo);
            &&& p * 32 == geo.cluster_len()
            &&& 16 <= p
            &&& ci * p + p == (ci + 1) * p
            &&& (ci + 1) * p <= n * p
            &&& 32 * (ci * p) == ci * geo.cluster_len()
            &&& ci * geo.cluster_len() <= 0x1_0000_0000 * 0x200_0000
            &&& 0 <= ci * p
        }),
{
    let p = per_cluster(geo);
    let cl = geo.cluster_len();
    assert(p * 32 == cl);
    assert(ci * p + p == (ci + 1) * p) by (nonlinear_arith);
    assert((ci + 1) * p <= n * p) by (nonlinear_arith)
        requires
            ci + 1 <= n,
            p >= 0,
    ;
    assert(32 * (ci * p) == ci * cl) by (nonlinear_arith)
        requires
            p * 32 == cl,
    ;
    assert(ci * cl <= 0x1_0000_0000 * 0x200_0000) by (nonlinear_arith)
        requires
            0 <= ci < 0x1_0000_0000,
            0 <= cl <= 0x200_0000,
    ;
    assert(ci * p >= 0) by (nonlinear_arith)
        requires
            ci >= 0,
            p >= 0,
    ;
}

proof fn lemma_slot_of(ci: int, s: int, p: int)
    requires
        0 <= s < p,
        0 <= ci,
    ensures
        (ci * p + s) / p == ci,
        (ci * p + s) % p == s,
{
    assert((ci * p + s) / p == ci && (ci * p + s) % p == s) by (nonlinear_arith)
        requires
            0 <= s < p,
            0 <= ci,
    ;
}

/// The entries of one cluster of a walk.
#[verifier::spinoff_prover]
#[verifier::rlimit(40)]
fn walk_cluster<F: EntryFilter>(
    buf: &[u8],
    base: u64,
    data_len: u64,
    filter: &F,
    out: &mut Vec<[u8; 32]>,
    Ghost(img): Ghost<Seq<u8>>,
    Ghost(geo): Ghost<Geometry>,
    Ghost(clusters): Ghost<Seq<int>>,
    Ghost(ci): Ghost<int>,
) -> (done: bool)
    requires
        geo.wf(),
        buf@.len() == geo.cluster_len(),
        0 <= ci < clusters.len(),
        clusters.len() <= 0x1_0000_0000,
        base == ci * geo.cluster_len(),
        clusters[ci] <= 0xFFFF_FFFF,
        geo.cluster_at(clusters[ci]) is Ok,
        geo.cluster_at(clusters[ci])->Ok_0 + geo.cluster_len() <= img.len(),
        buf@ == slice_of(img, geo.cluster_at(clusters[ci])->Ok_0, geo.cluster_len()),
    ensures
        ({
            let stops = stopper(*filter);
            let from = walk_from(
                img,
                geo,
                clusters,
                data_len as int,
                ci * per_cluster(geo),
                stops,
            );
            if done {
                row_join(rows(old(out)@), from) == Ok::<Seq<Seq<u8>>, ExFault>(rows(final(out)@))
            } else {
                row_join(rows(old(out)@), from) == row_join(
                    rows(final(out)@),
                    walk_from(
                        img,
                        geo,
                        clusters,
                        data_len as int,
                        (ci + 1) * per_cluster(geo),
                        stops,
                    ),
                )
            }
        }),
{
    let ghost stops = stopper(*filter);
    let per: usize = buf.len() / 32;
    let ghost p = per_cluster(geo);
    let ghost whole = row_join(
        rows(out@),
        walk_from(img, geo, clusters, data_len as int, ci * p, stops),
    );
    let ghost off = geo.cluster_at(clusters[ci])->Ok_0;
    let mut s: usize = 0;
    proof {
        lemma_cluster_slots(geo, ci, clusters.len() as int);
    }
    while s < per
        invariant
            geo.wf(),
            s <= per == p,
            p == per_cluster(geo),
            p * 32 == geo.cluster_len() == buf@.len(),
            0 <= ci < clusters.len(),
            ci * p + p == (ci + 1) * p,
            (ci + 1) * p <= clusters.len() * p,
            32 * (ci * p) == base,
            base <= 0x1_0000_0000 * 0x200_0000,
            ci * p >= 0,
            clusters[ci] <= 0xFFFF_FFFF,
            geo.cluster_at(clusters[ci]) == Ok::<int, ExFault>(off),
            off + geo.cluster_len() <= img.len(),
            0 <= off,
            buf@ == slice_of(img, off, geo.cluster_len()),
            stops == stopper(*filter),
            whole == row_join(
                rows(old(out)@),
                walk_from(img, geo, clusters, data_len as int, ci * p, stops),
            ),
            whole == row_join(
                rows(out@),
                walk_from(img, geo, clusters, data_len as int, ci * p + s, stops),
            ),
        decreases per - s,
    {
        let ghost k = ci * p + s;
        proof {
            lemma_slot_of(ci, s as int, p);
        }
        let ghost before = rows(out@);
        if base + 32 * s as u64 >= data_len {
            assert(before + Seq::<Seq<u8>>::empty() =~= before);
            return true;
        }
        let mut raw: [u8; 32] = [0u8; 32];
        put(&mut raw, 0, &buf[32 * s..32 * s + 32]);
        assert(raw@ =~= slice_of(img, off + 32 * s, 32));
        if raw[0] == ENTRY_END {
            assert(before + Seq::<Seq<u8>>::empty() =~= before);
            return true;
        }
        let stop: bool = filter.stop_at(&raw);
        out.push(raw);
        assert(rows(out@) =~= before + seq![raw@]);
        if stop {
            assert(stops(raw@));
            return true;
        }
        proof {
            assert(!stops(raw@));
            match walk_from(img, geo, clusters, data_len as int, k + 1, stops) {
                Ok(rest) => {
                    assert(before + (seq![raw@] + rest) =~= rows(out@) + rest);
                },
                Err(_) => {},
            }
        }
        s = s + 1;
    }
    false
}

/// Walk a directory's raw 32-byte entries in order, following its chain or its
/// contiguous run. Returns them up to the end of the directory, or up to the
/// first at which `filter` stops, that one included. `data_len` bounds the
/// walk where a stream entry records a size; pass `u64::MAX` for the root.
///
/// The length of a contiguous run comes from an entry that nothing vouches
/// for, so the run is never laid out in memory, and it is capped at the
/// volume's cluster count.
#[verifier::spinoff_prover]
#[verifier::rlimit(40)]
pub fn walk_raw_entries<D: ReadAt, F: EntryFilter>(
    disk: &mut D,
    geo: &Geometry,
    first_cluster: u32,
    no_fat_chain: bool,
    data_len: u64,
    filter: &F,
) -> (r: ExfatResult<Vec<[u8; 32]>>)
    requires
        geo.wf(),
    ensures
        unmoved(*old(disk), *final(disk)),
        due(
            sure(*old(disk)),
            seen_rows(r),
            walked(
                old(disk).disk().bytes,
                *geo,
                first_cluster,
                no_fat_chain,
                data_len,
                stopper(*filter),
            ),
        ),
{
    let mut out: Vec<[u8; 32]> = Vec::new();
    let ghost stops = stopper(*filter);
    assert(rows(out@) =~= seq![]);
    if first_cluster == 0 {
        return Ok(out);
    }
    let ghost img = disk.disk().bytes;
    let cb: u64 = geo.cluster_bytes();
    let chain: Vec<u32> = if no_fat_chain {
        Vec::new()
    } else {
        read_chain(disk, geo, first_cluster, None)?
    };
    let count: u64 = if no_fat_chain {
        let n: u64 = div_ceil(data_len, cb);
        let n: u64 = if n < 1 {
            1
        } else {
            n
        };
        if n <= geo.cluster_count as u64 {
            n
        } else {
            geo.cluster_count as u64
        }
    } else {
        chain.len() as u64
    };
    let ghost clusters = clusters_of(img, *geo, first_cluster, no_fat_chain, data_len)->Ok_0;
    proof {
        chain_len_bound(img, *geo, first_cluster, 0, geo.cluster_count as int, false);
        assert(clusters.len() == count <= 0xFFFF_FFFF);
        match walk_from(img, *geo, clusters, data_len as int, 0, stops) {
            Ok(rest) => {
                assert(rows(out@) + rest =~= rest);
            },
            Err(_) => {},
        }
    }
    let ghost due_rows = walk_from(img, *geo, clusters, data_len as int, 0, stops);
    let mut buf: Vec<u8> = zeroed(cb as usize);
    let mut idx: u64 = 0;
    assert(0 * per_cluster(*geo) == 0);
    while idx < count
        invariant
            geo.wf(),
            cb == geo.cluster_len(),
            buf@.len() == cb,
            idx <= count == clusters.len() <= 0xFFFF_FFFF,
            no_fat_chain ==> forall|i: int|
                0 <= i < count ==> #[trigger] clusters[i] == first_cluster + i,
            !no_fat_chain ==> chain@.len() == count && forall|i: int|
                0 <= i < count ==> #[trigger] clusters[i] == chain@[i],
            img == disk.disk().bytes,
            unmoved(*old(disk), *disk),
            stops == stopper(*filter),
            due_rows == row_join(
                rows(out@),
                walk_from(
                    img,
                    *geo,
                    clusters,
                    data_len as int,
                    idx * per_cluster(*geo),
                    stops,
                ),
            ),
            due_rows == walked(img, *geo, first_cluster, no_fat_chain, data_len, stops),
        decreases count - idx,
    {
        let ghost k = idx * per_cluster(*geo);
        let ghost p = per_cluster(*geo);
        let ghost before = rows(out@);
        proof {
            lemma_cluster_slots(*geo, idx as int, clusters.len() as int);
            lemma_slot_of(idx as int, 0, p);
            assert(before + Seq::<Seq<u8>>::empty() =~= before);
        }
        let base: u64 = idx * cb;
        if base >= data_len {
            return Ok(out);
        }
        let cluster: u32 = if no_fat_chain {
            match first_cluster.checked_add(idx as u32) {
                Some(c) => c,
                None => {
                    // Past the last number a cluster can have.
                    return Ok(out);
                },
            }
        } else {
            chain[idx as usize]
        };
        assert(clusters[idx as int] == cluster);
        let off: u64 = geo.cluster_offset(cluster)?;
        fetch(disk, off, buf.as_mut_slice())?;
        let done: bool = walk_cluster(
            buf.as_slice(),
            base,
            data_len,
            filter,
            &mut out,
            Ghost(img),
            Ghost(*geo),
            Ghost(clusters),
            Ghost(idx as int),
        );
        if done {
            return Ok(out);
        }
        idx = idx + 1;
    }
    proof {
        assert(rows(out@) + Seq::<Seq<u8>>::empty() =~= rows(out@));
    }
    Ok(out)
}

/// Rotate a 16-bit word right by one bit and add a byte.
pub open spec fn roll16(sum: u16, b: u8) -> u16 {
    ((sum / 2 + (sum % 2) * 0x8000 + b) % 0x1_0000) as u16
}

/// The checksum of the first `n` bytes of an entry set: all of them but those
/// of the checksum field itself.
pub open spec fn set_sum(set: Seq<Seq<u8>>, n: nat) -> u16
    decreases n,
{
    if n == 0 {
        0
    } else {
        let before = set_sum(set, (n - 1) as nat);
        let i = n - 1;
        if i == 2 || i == 3 {
            before
        } else {
            roll16(before, set[i / 32][i % 32])
        }
    }
}

/// One more byte of a 16-bit rolling checksum.
pub fn roll_u16(sum: u16, b: u8) -> (r: u16)
    ensures
        r == roll16(sum, b),
{
    let x: u32 = (sum / 2) as u32 + (sum % 2) as u32 * 0x8000 + b as u32;
    (x % 0x1_0000) as u16
}

/// Entry-set checksum: a 16-bit rotate-right sum over all bytes of the set,
/// skipping the checksum field itself (bytes 2 and 3 of the first entry).
pub fn set_checksum(entries: &[[u8; 32]]) -> (r: u16)
    ensures
        r == set_sum(rows(entries@), (32 * entries@.len()) as nat),
{
    let mut cs: u16 = 0;
    let mut k: usize = 0;
    while k < entries.len()
        invariant
            k <= entries@.len(),
            cs == set_sum(rows(entries@), (32 * k) as nat),
        decreases entries@.len() - k,
    {
        let e: [u8; 32] = entries[k];
        let mut j: usize = 0;
        while j < 32
            invariant
                j <= 32,
                k < entries@.len(),
                e@ == rows(entries@)[k as int],
                cs == set_sum(rows(entries@), (32 * k + j) as nat),
            decreases 32 - j,
        {
            let ghost n = 32 * k + j;
            assert(n / 32 == k && n % 32 == j);
            if !(k == 0 && (j == 2 || j == 3)) {
                cs = roll_u16(cs, e[j]);
            }
            j = j + 1;
        }
        k = k + 1;
    }
    cs
}

/// The checksum does not depend on the field that stores it.
pub proof fn checksum_skips_its_field(a: Seq<Seq<u8>>, b: Seq<Seq<u8>>, n: nat)
    requires
        n <= 32 * a.len(),
        a.len() == b.len(),
        forall|i: int|
            0 <= i < a.len() ==> (#[trigger] a[i]).len() == 32 && b[i].len() == 32,
        forall|i: int, j: int|
            0 <= i < a.len() && 0 <= j < 32 && !(i == 0 && (j == 2 || j == 3)) ==> a[i][j]
                == b[i][j],
    ensures
        set_sum(a, n) == set_sum(b, n),
    decreases n,
{
    if n > 0 {
        checksum_skips_its_field(a, b, (n - 1) as nat);
        let i = n - 1;
        assert(a[i / 32][i % 32] == b[i / 32][i % 32] || i == 2 || i == 3);
    }
}

/// An exFAT timestamp as Unix milliseconds: seconds by two, the field of
/// hundredths, and an offset from UTC in quarters of an hour where the top bit
/// of that field says there is one.
pub open spec fn stamp_ms(ts: u32, centis: u8, utc_offset: u8) -> Option<int> {
    let year = 1980 + ts as int / 0x200_0000;
    let month = ts as int / 0x20_0000 % 16;
    let day = ts as int / 0x1_0000 % 32;
    let hour = ts as int / 0x800 % 32;
    let min = ts as int / 0x20 % 64;
    let sec = 2 * (ts as int % 32);
    if month < 1 || month > 12 || day < 1 {
        None
    } else {
        let local = moment_ms(year, month, day, 3600 * hour + 60 * min + sec, 10 * centis);
        Some(
            if utc_offset >= 0x80 {
                let quarters = utc_offset - 0x80;
                local - 900_000 * (if quarters >= 64 {
                    quarters - 128
                } else {
                    quarters
                })
            } else {
                local
            },
        )
    }
}

/// An exFAT timestamp as Unix milliseconds. `utc_offset` is in 15-minute units
/// with bit 7 as the validity flag.
pub fn timestamp_ms(ts: u32, centis: u8, utc_offset: u8) -> (r: Option<i64>)
    ensures
        match stamp_ms(ts, centis, utc_offset) {
            Some(ms) => r matches Some(v) && v == ms,
            None => r is None,
        },
{
    let year: i64 = 1980 + (ts / 0x200_0000) as i64;
    let month: i64 = (ts / 0x20_0000 % 16) as i64;
    let day: i64 = (ts / 0x1_0000 % 32) as i64;
    let hour: i64 = (ts / 0x800 % 32) as i64;
    let min: i64 = (ts / 0x20 % 64) as i64;
    let sec: i64 = 2 * (ts % 32) as i64;
    if month < 1 || month > 12 || day < 1 {
        return None;
    }
    let ms: i64 = civil_ms(
        year,
        month,
        day,
        3600 * hour + 60 * min + sec,
        10 * (centis as i64),
    );
    if utc_offset >= 0x80 {
        let field: i64 = utc_offset as i64 - 0x80;
        let quarters: i64 = if field >= 64 {
            field - 128
        } else {
            field
        };
        Some(ms - 900_000 * quarters)
    } else {
        Some(ms)
    }
}

/// The fifteen code units of a File Name entry.
pub open spec fn name_piece(e: Seq<u8>) -> Seq<u16> {
    Seq::new(15, |k: int| le16(e, 2 + 2 * k))
}

/// The code units in the File Name entries of a set from `j` on, up to the
/// first entry of another type.
pub open spec fn name_pieces(set: Seq<Seq<u8>>, j: int) -> Seq<u16>
    decreases set.len() - j,
{
    if j < 0 || j >= set.len() || set[j][0] != ENTRY_NAME {
        seq![]
    } else {
        name_piece(set[j]) + name_pieces(set, j + 1)
    }
}

/// The name units of a set: as many of those stored as the stream entry says,
/// or all of them if they are fewer.
pub open spec fn name_units(set: Seq<Seq<u8>>) -> Seq<u16> {
    let all = name_pieces(set, 2);
    all.take(lesser(set[1][3] as int, all.len() as int))
}

/// What an entry set says: the entry, or what is wrong with the set.
pub open spec fn set_entry(set: Seq<Seq<u8>>) -> Result<EntryModel, ExFault> {
    let (file, stream) = (set[0], set[1]);
    if set_sum(set, (32 * set.len()) as nat) != le16(file, 2) {
        Err(ExFault::Invalid("entry set checksum mismatch"@))
    } else if stream[0] != ENTRY_STREAM {
        Err(ExFault::Invalid("first secondary is not a stream entry"@))
    } else if name_units(set).len() < stream[3] {
        Err(ExFault::Invalid("file name entries shorter than NameLength"@))
    } else {
        Ok(
            EntryModel {
                name: text_of_utf16(name_units(set)),
                is_dir: le16(file, 4) / 16 % 2 == 1,
                size: le64(stream, 24),
                valid_size: le64(stream, 8),
                first_cluster: le32(stream, 20),
                no_fat_chain: stream[1] / 2 % 2 == 1,
                mtime_ms: match stamp_ms(le32(file, 12), file[22], file[24]) {
                    Some(ms) => Some(ms as i64),
                    None => None,
                },
            },
        )
    }
}

/// The entries that a sequence of raw entries holds from the `i`-th on. What
/// is no File entry (system entries, deleted ones, labels) is passed over.
pub open spec fn parsed_from(raws: Seq<Seq<u8>>, i: int) -> Result<Seq<EntryModel>, ExFault>
    decreases raws.len() - i,
{
    if i < 0 || i >= raws.len() {
        Ok(seq![])
    } else if raws[i][0] != ENTRY_FILE {
        parsed_from(raws, i + 1)
    } else {
        let secondary = raws[i][1] as int;
        if secondary < 2 || i + 1 + secondary > raws.len() {
            Err(ExFault::Invalid("file entry set truncated"@))
        } else {
            match set_entry(raws.subrange(i, i + 1 + secondary)) {
                Err(f) => Err(f),
                Ok(e) => match parsed_from(raws, i + 1 + secondary) {
                    Err(f) => Err(f),
                    Ok(rest) => Ok(seq![e] + rest),
                },
            }
        }
    }
}

/// The entries of a directory.
pub open spec fn directory(
    img: Seq<u8>,
    geo: Geometry,
    first: u32,
    no_fat_chain: bool,
    data_len: u64,
) -> Result<Seq<EntryModel>, ExFault> {
    match walked(img, geo, first, no_fat_chain, data_len, |raw: Seq<u8>| false) {
        Err(f) => Err(f),
        Ok(raws) => parsed_from(raws, 0),
    }
}

/// Entries by their views.
pub open spec fn seen_entries(r: ExfatResult<Vec<Entry>>) -> Result<Seq<EntryModel>, ExFault> {
    match r {
        Ok(v) => Ok(entries_of(v@)),
        Err(e) => Err(e@),
    }
}

/// The name units of a set.
pub fn read_name_units(set: &[[u8; 32]]) -> (r: Vec<u16>)
    requires
        2 <= set@.len(),
    ensures
        r@ == name_units(rows(set@)),
{
    let ghost sv = rows(set@);
    let want: usize = set[1][3] as usize;
    let mut units: Vec<u16> = Vec::new();
    let mut j: usize = 2;
    let ghost mut all: Seq<u16> = seq![];
    assert(all + name_pieces(sv, 2) =~= name_pieces(sv, 2));
    assert(units@ =~= all.take(lesser(want as int, all.len() as int)));
    while j < set.len()
        invariant_except_break
            2 <= j <= set@.len(),
            sv == rows(set@),
            sv[1] == set@[1]@,
            want == sv[1][3],
            all + name_pieces(sv, j as int) == name_pieces(sv, 2),
            units@ == all.take(lesser(want as int, all.len() as int)),
        ensures
            all == name_pieces(sv, 2),
            units@ == all.take(lesser(want as int, all.len() as int)),
        decreases set@.len() - j,
    {
        let e: [u8; 32] = set[j];
        assert(sv[j as int] == e@);
        if e[0] != ENTRY_NAME {
            assert(all + Seq::<u16>::empty() =~= all);
            break;
        }
        let ghost was = all;
        let mut k: usize = 0;
        while k < 15
            invariant
                k <= 15,
                e@.len() == 32,
                all =~= was + name_piece(e@).take(k as int),
                units@ == all.take(lesser(want as int, all.len() as int)),
            decreases 15 - k,
        {
            let u: u16 = read_le16(e.as_slice(), 2 + 2 * k);
            proof {
                all = all.push(u);
            }
            if units.len() < want {
                units.push(u);
            }
            assert(units@ =~= all.take(lesser(want as int, all.len() as int)));
            k = k + 1;
        }
        proof {
            assert(name_piece(e@).take(15) =~= name_piece(e@));
            assert(was + (name_piece(e@) + name_pieces(sv, j + 1)) =~= all + name_pieces(
                sv,
                j + 1,
            ));
        }
        j = j + 1;
        if j == set.len() {
            assert(all + Seq::<u16>::empty() =~= all);
        }
    }
    units
}

/// Parse one entry set.
fn parse_set(set: &[[u8; 32]]) -> (r: ExfatResult<Entry>)
    requires
        3 <= set@.len() <= 256,
    ensures
        seen_view(r) == set_entry(rows(set@)),
{
    let ghost sv = rows(set@);
    let file: [u8; 32] = set[0];
    let stream: [u8; 32] = set[1];
    assert(sv[0] == file@ && sv[1] == stream@);
    if set_checksum(set) != read_le16(file.as_slice(), 2) {
        return Err(ExfatError::Invalid("entry set checksum mismatch"));
    }
    if stream[0] != ENTRY_STREAM {
        return Err(ExfatError::Invalid("first secondary is not a stream entry"));
    }
    let units: Vec<u16> = read_name_units(set);
    if units.len() < stream[3] as usize {
        return Err(ExfatError::Invalid("file name entries shorter than NameLength"));
    }
    let attrs: u16 = read_le16(file.as_slice(), 4);
    Ok(
        Entry {
            name: decode_utf16(units.as_slice()),
            is_dir: attrs / 16 % 2 == 1,
            size: read_le64(stream.as_slice(), 24),
            valid_size: read_le64(stream.as_slice(), 8),
            first_cluster: read_le32(stream.as_slice(), 20),
            no_fat_chain: stream[1] / 2 % 2 == 1,
            mtime_ms: timestamp_ms(read_le32(file.as_slice(), 12), file[22], file[24]),
        },
    )
}

/// Read a directory into entries, validating each set's checksum.
pub fn read_directory<D: ReadAt>(
    disk: &mut D,
    geo: &Geometry,
    first_cluster: u32,
    no_fat_chain: bool,
    data_len: u64,
) -> (r: ExfatResult<Vec<Entry>>)
    requires
        geo.wf(),
    ensures
        unmoved(*old(disk), *final(disk)),
        due(
            sure(*old(disk)),
            seen_entries(r),
            directory(old(disk).disk().bytes, *geo, first_cluster, no_fat_chain, data_len),
        ),
{
    assert(stopper(Never) =~= (|raw: Seq<u8>| false));
    let raws: Vec<[u8; 32]> = walk_raw_entries(
        disk,
        geo,
        first_cluster,
        no_fat_chain,
        data_len,
        &Never,
    )?;
    parse_entries(raws.as_slice())
}

fn parse_entries(raws: &[[u8; 32]]) -> (r: ExfatResult<Vec<Entry>>)
    ensures
        seen_entries(r) == parsed_from(rows(raws@), 0),
{
    let ghost rv = rows(raws@);
    let n: usize = raws.len();
    let mut out: Vec<Entry> = Vec::new();
    let mut i: usize = 0;
    proof {
        match parsed_from(rv, 0) {
            Ok(rest) => {
                assert(entries_of(out@) + rest =~= rest);
            },
            Err(_) => {},
        }
    }
    while i < n
        invariant
            i <= n == raws@.len(),
            rv == rows(raws@),
            parsed_from(rv, 0) == match parsed_from(rv, i as int) {
                Ok(rest) => Ok(entries_of(out@) + rest),
                Err(f) => Err(f),
            },
        decreases n - i,
    {
        assert(rv[i as int] == raws@[i as int]@);
        if raws[i][0] != ENTRY_FILE {
            i = i + 1;
            continue ;
        }
        let secondary: usize = raws[i][1] as usize;
        if secondary < 2 || secondary >= n - i {
            return Err(ExfatError::Invalid("file entry set truncated"));
        }
        let set: &[[u8; 32]] = &raws[i..i + 1 + secondary];
        assert(rows(set@) =~= rv.subrange(i as int, i + 1 + secondary));
        let e: Entry = parse_set(set)?;
        let ghost before = entries_of(out@);
        let ghost ev = e@;
        out.push(e);
        proof {
            assert(entries_of(out@) =~= before.push(ev));
            match parsed_from(rv, i + 1 + secondary) {
                Ok(rest) => {
                    assert(before + (seq![ev] + rest) =~= entries_of(out@) + rest);
                },
                Err(_) => {},
            }
        }
        i = i + 1 + secondary;
    }
    assert(entries_of(out@) + Seq::<EntryModel>::empty() =~= entries_of(out@));
    Ok(out)
}

/// A step of the 16-bit checksum rotates the sum right by one bit and adds the
/// byte, without carry out of the top.
pub proof fn a_step_rotates_right(sum: u16, b: u8)
    ensures
        roll16(sum, b) as int == (((sum >> 1) | (sum << 15)) + b) % 0x1_0000,
        sum % 2 == 0 && sum / 2 + b < 0x8000 ==> roll16(sum, b) == sum / 2 + b,
        roll16(sum, 0) / 0x8000 == sum % 2,
        2 * (roll16(sum, 0) % 0x8000) + roll16(sum, 0) / 0x8000 == sum,
{
    assert(((sum >> 1) | (sum << 15)) == sum / 2 + (sum % 2) * 0x8000) by (bit_vector);
}

/// Each byte of an entry set but the two that store the checksum is one step
/// of it, in order.
pub proof fn each_byte_of_a_set_is_a_step(set: Seq<Seq<u8>>, n: nat)
    ensures
        set_sum(set, 0) == 0,
        n == 2 || n == 3 ==> set_sum(set, n + 1) == set_sum(set, n),
        n != 2 && n != 3 ==> ({
            let sum = set_sum(set, n);
            set_sum(set, n + 1) as int == (((sum >> 1) | (sum << 15)) + set[n as int / 32][n as int
                % 32]) % 0x1_0000
        }),
{
    a_step_rotates_right(set_sum(set, n), set[n as int / 32][n as int % 32]);
}

} // verus!
