//! An open volume: finding its system structures, resolving paths, reading
//! files.

use vstd::prelude::*;

use super::boot::{boot_region, read_boot_region, Geometry};
use super::dir::{
    directory, entries_of, is_bitmap, is_upcase, read_directory, rows, seen_entries, stopper,
    walk_raw_entries, walked, AtBitmap, AtUpcase, Entry, EntryModel,
};
use super::fat::{chain_of, read_chain};
use super::io::{
    due, fetch, seen, sure, unmoved, ExFault, ExfatError, ExfatResult, ReadAt,
};
use super::upcase::{div_ceil, lesser, parts, table_at, upcased_all, UpcaseTable};
use crate::bytes::{le32, le64, put, read_le32, read_le64, zeroed};
use crate::text::{components, encode_utf16, path_components, texts, utf16_of};

verus! {

/// Where the allocation bitmap lies, from its entry in the root directory.
#[derive(Debug, Clone, Copy, PartialEq, Eq, Structural)]
pub struct BitmapLoc {
    pub first_cluster: u32,
    pub length_bytes: u64,
}

/// What opening a volume learns of it.
#[verifier::ext_equal]
pub struct Volume {
    pub geo: Geometry,
    pub upcase: Seq<u16>,
    pub bitmap: Option<BitmapLoc>,
}

/// The first cluster and length that the up-case table's entry records, where
/// the root directory has one.
pub open spec fn upcase_entry(img: Seq<u8>, geo: Geometry) -> Result<Option<(u32, u64)>, ExFault> {
    match walked(img, geo, geo.root_first_cluster, false, u64::MAX, stopper(AtUpcase)) {
        Err(f) => Err(f),
        Ok(raws) => Ok(
            if raws.len() > 0 && is_upcase(raws.last()) {
                Some((le32(raws.last(), 20), le64(raws.last(), 24)))
            } else {
                None
            },
        ),
    }
}

/// Where the first allocation bitmap is, where the root directory says so.
pub open spec fn bitmap_entry(img: Seq<u8>, geo: Geometry) -> Result<Option<BitmapLoc>, ExFault> {
    match walked(img, geo, geo.root_first_cluster, false, u64::MAX, stopper(AtBitmap)) {
        Err(f) => Err(f),
        Ok(raws) => Ok(
            if raws.len() > 0 && is_bitmap(raws.last()) {
                Some(
                    BitmapLoc {
                        first_cluster: le32(raws.last(), 20),
                        length_bytes: le64(raws.last(), 24),
                    },
                )
            } else {
                None
            },
        ),
    }
}

/// The up-case table of a volume; empty, which maps everything to itself,
/// where it has none.
pub open spec fn volume_upcase(img: Seq<u8>, geo: Geometry) -> Result<Seq<u16>, ExFault> {
    match upcase_entry(img, geo) {
        Err(f) => Err(f),
        Ok(None) => Ok(seq![]),
        Ok(Some((first, len))) => table_at(img, geo, first, len),
    }
}

/// What opening a volume gives.
pub open spec fn opened(img: Seq<u8>) -> Result<Volume, ExFault> {
    match boot_region(img) {
        Err(f) => Err(f),
        Ok(geo) => match volume_upcase(img, geo) {
            Err(f) => Err(f),
            Ok(upcase) => match bitmap_entry(img, geo) {
                Err(f) => Err(f),
                Ok(bitmap) => Ok(Volume { geo, upcase, bitmap }),
            },
        },
    }
}

/// Whether two names are the same to a volume: equal once up-cased.
pub open spec fn same_name(upcase: Seq<u16>, a: Seq<char>, b: Seq<char>) -> bool {
    upcased_all(upcase, utf16_of(a)) == upcased_all(upcase, utf16_of(b))
}

/// The first entry from the `j`-th on that has the name.
pub open spec fn named_from(
    upcase: Seq<u16>,
    entries: Seq<EntryModel>,
    name: Seq<char>,
    j: int,
) -> Option<EntryModel>
    decreases entries.len() - j,
{
    if j < 0 || j >= entries.len() {
        None
    } else if same_name(upcase, entries[j].name, name) {
        Some(entries[j])
    } else {
        named_from(upcase, entries, name, j + 1)
    }
}

/// What a directory holds, given the entry it was reached by; `None` stands
/// for the root. A file holds nothing.
pub open spec fn children(img: Seq<u8>, geo: Geometry, dir: Option<EntryModel>) -> Result<
    Seq<EntryModel>,
    ExFault,
> {
    match dir {
        None => directory(img, geo, geo.root_first_cluster, false, u64::MAX),
        Some(e) => if e.is_dir {
            directory(img, geo, e.first_cluster, e.no_fat_chain, e.size)
        } else {
            Err(ExFault::NotFound)
        },
    }
}

/// The entry reached from `cur` by the components from the `i`-th on.
pub open spec fn lookup_from(
    img: Seq<u8>,
    vol: Volume,
    comps: Seq<Seq<char>>,
    i: int,
    cur: Option<EntryModel>,
) -> Result<Option<EntryModel>, ExFault>
    decreases comps.len() - i,
{
    if i < 0 || i >= comps.len() {
        Ok(cur)
    } else {
        match children(img, vol.geo, cur) {
            Err(f) => Err(f),
            Ok(entries) => match named_from(vol.upcase, entries, comps[i], 0) {
                None => Err(ExFault::NotFound),
                Some(e) => lookup_from(img, vol, comps, i + 1, Some(e)),
            },
        }
    }
}

/// The entry at a path; `None` for the root.
pub open spec fn lookup_result(img: Seq<u8>, vol: Volume, path: Seq<char>) -> Result<
    Option<EntryModel>,
    ExFault,
> {
    lookup_from(img, vol, components(path), 0, None)
}

/// The cluster that holds the `idx`-th piece of a file.
pub open spec fn file_cluster(e: EntryModel, chain: Seq<u32>, idx: int) -> Result<int, ExFault> {
    if e.no_fat_chain {
        if e.first_cluster + idx <= 0xFFFF_FFFF {
            Ok(e.first_cluster + idx)
        } else {
            Err(ExFault::Invalid("cluster number out of range"@))
        }
    } else if idx < chain.len() {
        Ok(chain[idx] as int)
    } else {
        Err(ExFault::Invalid("cluster chain shorter than file"@))
    }
}

/// The byte of a file at `pos`. From ValidDataLength on a file reads as zeros.
pub open spec fn file_byte(
    img: Seq<u8>,
    geo: Geometry,
    e: EntryModel,
    chain: Seq<u32>,
    pos: int,
) -> Result<u8, ExFault> {
    if pos >= e.valid_size {
        Ok(0)
    } else {
        match file_cluster(e, chain, pos / geo.cluster_len()) {
            Err(f) => Err(f),
            Ok(cluster) => match geo.cluster_at(cluster) {
                Err(f) => Err(f),
                Ok(off) => if off + pos % geo.cluster_len() >= img.len() {
                    Err(ExFault::Io)
                } else {
                    Ok(img[off + pos % geo.cluster_len()])
                },
            },
        }
    }
}

/// The first `n` bytes of a file from `offset` on, or the first fault among
/// them.
pub open spec fn file_bytes(
    img: Seq<u8>,
    geo: Geometry,
    e: EntryModel,
    chain: Seq<u32>,
    offset: int,
    n: int,
) -> Result<Seq<u8>, ExFault>
    decreases n,
{
    if n <= 0 {
        Ok(seq![])
    } else {
        match file_bytes(img, geo, e, chain, offset, n - 1) {
            Err(f) => Err(f),
            Ok(s) => match file_byte(img, geo, e, chain, offset + n - 1) {
                Err(f) => Err(f),
                Ok(b) => Ok(s.push(b)),
            },
        }
    }
}

/// The chain that a file's data lies in; a contiguous file needs none.
pub open spec fn file_chain(img: Seq<u8>, geo: Geometry, e: EntryModel) -> Result<
    Seq<u32>,
    ExFault,
> {
    if e.no_fat_chain {
        Ok(seq![])
    } else {
        chain_of(
            img,
            geo,
            e.first_cluster,
            Some(parts(e.size as int, geo.cluster_len()) as u64),
        )
    }
}

/// What reading at most `len` bytes of a file from `offset` on gives: fewer
/// only at its end.
pub open spec fn file_read(
    img: Seq<u8>,
    geo: Geometry,
    e: EntryModel,
    offset: int,
    len: int,
) -> Result<Seq<u8>, ExFault> {
    if e.is_dir {
        Err(ExFault::Invalid("read_file on a directory"@))
    } else if offset >= e.size {
        Ok(seq![])
    } else {
        match file_chain(img, geo, e) {
            Err(f) => Err(f),
            Ok(chain) => file_bytes(img, geo, e, chain, offset, lesser(len, e.size - offset)),
        }
    }
}

proof fn lemma_piece(
    img: Seq<u8>,
    geo: Geometry,
    e: EntryModel,
    chain: Seq<u32>,
    offset: int,
    done: int,
    piece: Seq<u8>,
)
    requires
        0 <= done,
        file_bytes(img, geo, e, chain, offset, done) is Ok,
        forall|j: int|
            0 <= j < piece.len() ==> file_byte(img, geo, e, chain, offset + done + j) == Ok::<
                u8,
                ExFault,
            >(#[trigger] piece[j]),
    ensures
        file_bytes(img, geo, e, chain, offset, done + piece.len()) == Ok::<Seq<u8>, ExFault>(
            file_bytes(img, geo, e, chain, offset, done)->Ok_0 + piece,
        ),
    decreases piece.len(),
{
    let s = file_bytes(img, geo, e, chain, offset, done)->Ok_0;
    if piece.len() == 0 {
        assert(s + piece =~= s);
    } else {
        let short = piece.drop_last();
        assert forall|j: int| 0 <= j < short.len() implies file_byte(
            img,
            geo,
            e,
            chain,
            offset + done + j,
        ) == Ok::<u8, ExFault>(#[trigger] short[j]) by {
            assert(short[j] == piece[j]);
        }
        lemma_piece(img, geo, e, chain, offset, done, short);
        assert(piece[piece.len() - 1] == piece.last());
        assert((s + short).push(piece.last()) =~= s + piece);
    }
}

proof fn lemma_fault(
    img: Seq<u8>,
    geo: Geometry,
    e: EntryModel,
    chain: Seq<u32>,
    offset: int,
    k: int,
    n: int,
)
    requires
        0 <= k < n,
        file_bytes(img, geo, e, chain, offset, k) is Ok,
        file_byte(img, geo, e, chain, offset + k) is Err,
    ensures
        file_bytes(img, geo, e, chain, offset, n) == Err::<Seq<u8>, ExFault>(
            file_byte(img, geo, e, chain, offset + k)->Err_0,
        ),
    decreases n - k,
{
    if k + 1 < n {
        lemma_fault(img, geo, e, chain, offset, k, n - 1);
    }
}

/// What opening a volume learns of it.
pub(crate) struct VolumeLayout {
    geo: Geometry,
    upcase: UpcaseTable,
    bitmap: Option<BitmapLoc>,
}

impl View for VolumeLayout {
    type V = Volume;

    closed spec fn view(&self) -> Volume {
        Volume { geo: self.geo, upcase: self.upcase@, bitmap: self.bitmap }
    }
}

/// Learn how a volume is laid out, from its boot region and root directory.
pub(crate) fn read_layout<D: ReadAt>(disk: &mut D) -> (r: ExfatResult<VolumeLayout>)
    ensures
        unmoved(*old(disk), *final(disk)),
        match r {
            Ok(layout) => opened(old(disk).disk().bytes) == Ok::<Volume, ExFault>(layout@)
                && layout@.geo.wf(),
            Err(e) => opened(old(disk).disk().bytes) == Err::<Volume, ExFault>(e@) || (!sure(
                *old(disk),
            ) && e@ is Io),
        },
{
    let geo: Geometry = read_boot_region(disk)?;
    let upcase: UpcaseTable = match find_upcase_entry(disk, &geo)? {
        Some((first_cluster, data_len)) => UpcaseTable::load(
            disk,
            &geo,
            first_cluster,
            data_len,
        )?,
        None => UpcaseTable::identity(),
    };
    let bitmap: Option<BitmapLoc> = find_bitmap_entry(disk, &geo)?;
    Ok(VolumeLayout { geo, upcase, bitmap })
}

/// An open exFAT volume.
pub struct ExfatFs<D: ReadAt> {
    pub(crate) disk: D,
    pub(crate) geo: Geometry,
    pub(crate) upcase: UpcaseTable,
    pub(crate) bitmap: Option<BitmapLoc>,
}

impl<D: ReadAt> ExfatFs<D> {
    /// What opening the volume learned of it.
    pub open(crate) spec fn volume(&self) -> Volume {
        Volume { geo: self.geo, upcase: self.upcase@, bitmap: self.bitmap }
    }

    /// The device underneath.
    pub open(crate) spec fn device(&self) -> D {
        self.disk
    }

    /// The geometry is one that a boot region can describe.
    pub open spec fn wf(&self) -> bool {
        self.volume().geo.wf()
    }

    pub fn open(disk: D) -> (r: ExfatResult<Self>)
        ensures
            match r {
                Ok(fs) => {
                    &&& opened(disk.disk().bytes) == Ok::<Volume, ExFault>(fs.volume())
                    &&& fs.wf()
                    &&& unmoved(disk, fs.device())
                },
                Err(e) => opened(disk.disk().bytes) == Err::<Volume, ExFault>(e@) || (
                !sure(disk) && e@ is Io),
            },
    {
        let mut disk: D = disk;
        let layout: VolumeLayout = read_layout(&mut disk)?;
        Ok(ExfatFs::over(disk, layout))
    }

    /// The filesystem that is laid out so on a device.
    pub(crate) fn over(disk: D, layout: VolumeLayout) -> (r: Self)
        ensures
            r.device() == disk,
            r.volume() == layout@,
    {
        ExfatFs { disk, geo: layout.geo, upcase: layout.upcase, bitmap: layout.bitmap }
    }

    /// Hand the device back.
    pub fn into_device(self) -> (r: D)
        ensures
            r == self.device(),
    {
        self.disk
    }

    /// List a directory given its stream facts.
    pub fn list_dir(
        &mut self,
        first_cluster: u32,
        no_fat_chain: bool,
        data_len: u64,
    ) -> (r: ExfatResult<Vec<Entry>>)
        requires
            old(self).wf(),
        ensures
            final(self).volume() == old(self).volume(),
            unmoved(old(self).device(), final(self).device()),
            due(
                sure(old(self).device()),
                seen_entries(r),
                directory(
                    old(self).device().disk().bytes,
                    old(self).volume().geo,
                    first_cluster,
                    no_fat_chain,
                    data_len,
                ),
            ),
    {
        read_directory(&mut self.disk, &self.geo, first_cluster, no_fat_chain, data_len)
    }

    /// The root directory's stream facts.
    pub fn root_dir(&self) -> (r: (u32, bool, u64))
        ensures
            r == (self.volume().geo.root_first_cluster, false, u64::MAX),
    {
        (self.geo.root_first_cluster, false, u64::MAX)
    }

    /// Resolve a slash-separated path (case-insensitive as the volume's
    /// up-case table says) to its entry. The empty path and "/" resolve to
    /// `None`, the root.
    pub fn lookup(&mut self, path: &str) -> (r: ExfatResult<Option<Entry>>)
        requires
            old(self).wf(),
        ensures
            final(self).volume() == old(self).volume(),
            unmoved(old(self).device(), final(self).device()),
            due(
                sure(old(self).device()),
                seen_entry(r),
                lookup_result(old(self).device().disk().bytes, old(self).volume(), path@),
            ),
    {
        let comps: Vec<String> = path_components(path);
        let ghost cv = components(path@);
        let ghost img = self.disk.disk().bytes;
        let ghost vol = self.volume();
        let mut cur: Option<Entry> = None;
        let mut i: usize = 0;
        assert(texts(comps@).len() == comps@.len());
        while i < comps.len()
            invariant
                i <= comps@.len(),
                cv == components(path@),
                texts(comps@) == cv,
                self.wf(),
                vol == self.volume(),
                vol == old(self).volume(),
                img == self.disk.disk().bytes,
                unmoved(old(self).device(), self.device()),
                lookup_result(img, vol, path@) == lookup_from(img, vol, cv, i as int, opt_entry(cur)),
            decreases comps@.len() - i,
        {
            let (first, no_fat_chain, len): (u32, bool, u64) = match &cur {
                None => self.root_dir(),
                Some(e) => {
                    if !e.is_dir {
                        return Err(ExfatError::NotFound);
                    }
                    (e.first_cluster, e.no_fat_chain, e.size)
                },
            };
            let mut entries: Vec<Entry> = self.list_dir(first, no_fat_chain, len)?;
            assert(cv[i as int] == texts(comps@)[i as int]);
            let found: Option<usize> = find_named(&self.upcase, &entries, comps[i].as_str());
            match found {
                None => {
                    return Err(ExfatError::NotFound);
                },
                Some(j) => {
                    cur = Some(entries.swap_remove(j));
                },
            }
            i = i + 1;
        }
        Ok(cur)
    }

    /// Read from a file described by `entry` at `offset`; returns bytes read,
    /// short only at end of file. What lies between ValidDataLength and
    /// DataLength reads as zeros.
    #[verifier::spinoff_prover]
    #[verifier::rlimit(40)]
    pub fn read_file(&mut self, entry: &Entry, offset: u64, buf: &mut [u8]) -> (r: ExfatResult<usize>)
        requires
            old(self).wf(),
        ensures
            final(self).volume() == old(self).volume(),
            unmoved(old(self).device(), final(self).device()),
            final(buf)@.len() == old(buf)@.len(),
            read_due(
                sure(old(self).device()),
                r,
                old(buf)@,
                final(buf)@,
                file_read(
                    old(self).device().disk().bytes,
                    old(self).volume().geo,
                    entry@,
                    offset as int,
                    old(buf)@.len() as int,
                ),
            ),
    {
        if entry.is_dir {
            return Err(ExfatError::Invalid("read_file on a directory"));
        }
        assert(buf@.take(0) =~= seq![]);
        if offset >= entry.size {
            return Ok(0);
        }
        let left: u64 = entry.size - offset;
        let want: usize = if buf.len() as u64 <= left {
            buf.len()
        } else {
            left as usize
        };
        let cb: u64 = self.geo.cluster_bytes();
        let chain: Vec<u32> = if entry.no_fat_chain {
            Vec::new()
        } else {
            read_chain(
                &mut self.disk,
                &self.geo,
                entry.first_cluster,
                Some(div_ceil(entry.size, cb)),
            )?
        };
        let ghost img = self.disk.disk().bytes;
        let ghost geo = self.geo;
        let ghost e = entry@;
        let ghost start = buf@;
        let ghost off0 = offset as int;
        let mut done: usize = 0;
        while done < want
            invariant
                done <= want <= buf@.len(),
                buf@.len() == start.len(),
                want <= entry.size - offset,
                want == lesser(start.len() as int, entry.size - offset),
                geo == self.geo,
                geo.wf(),
                cb == geo.cluster_len(),
                e == entry@,
                !e.is_dir,
                off0 == offset < e.size,
                start == old(buf)@,
                self.volume() == old(self).volume(),
                geo == old(self).volume().geo,
                img == self.disk.disk().bytes,
                unmoved(old(self).device(), self.device()),
                file_chain(img, geo, e) == Ok::<Seq<u32>, ExFault>(chain@),
                file_bytes(img, geo, e, chain@, off0, done as int) == Ok::<Seq<u8>, ExFault>(
                    buf@.take(done as int),
                ),
                forall|k: int| done <= k < start.len() ==> buf@[k] == start[k],
            decreases want - done,
        {
            let pos: u64 = offset + done as u64;
            let within: u64 = pos % cb;
            let room: u64 = cb - within;
            let n: usize = if room <= (want - done) as u64 {
                room as usize
            } else {
                want - done
            };
            let ghost before = buf@;
            let valid: usize = if pos >= entry.valid_size {
                0
            } else if n as u64 <= entry.valid_size - pos {
                n
            } else {
                (entry.valid_size - pos) as usize
            };
            let mut piece: Vec<u8> = zeroed(n);
            if valid > 0 {
                let idx: u64 = pos / cb;
                proof {
                    lemma_within(pos as int, cb as int, n as int);
                }
                let cluster: u32 = if entry.no_fat_chain {
                    if idx > 0xFFFF_FFFF - entry.first_cluster as u64 {
                        proof {
                            lemma_fault(img, geo, e, chain@, off0, done as int, want as int);
                        }
                        return Err(ExfatError::Invalid("cluster number out of range"));
                    }
                    entry.first_cluster + idx as u32
                } else {
                    if idx >= chain.len() as u64 {
                        proof {
                            lemma_fault(img, geo, e, chain@, off0, done as int, want as int);
                        }
                        return Err(ExfatError::Invalid("cluster chain shorter than file"));
                    }
                    chain[idx as usize]
                };
                assert(file_cluster(e, chain@, pos as int / cb as int) == Ok::<int, ExFault>(
                    cluster as int,
                ));
                let off: u64 = match self.geo.cluster_offset(cluster) {
                    Ok(o) => o,
                    Err(err) => {
                        proof {
                            lemma_fault(img, geo, e, chain@, off0, done as int, want as int);
                        }
                        return Err(err);
                    },
                };
                let mut head: Vec<u8> = zeroed(valid);
                match fetch(&mut self.disk, off + within, head.as_mut_slice()) {
                    Ok(_) => {},
                    Err(err) => {
                        proof {
                            let at = off + within;
                            if at + valid > img.len() {
                                let k = if at >= img.len() {
                                    0
                                } else {
                                    img.len() - at
                                };
                                let fine = img.subrange(
                                    if k == 0 { 0 } else { at as int },
                                    if k == 0 { 0 } else { at + k },
                                );
                                assert forall|j: int| 0 <= j < fine.len() implies file_byte(
                                    img,
                                    geo,
                                    e,
                                    chain@,
                                    off0 + done + j,
                                ) == Ok::<u8, ExFault>(#[trigger] fine[j]) by {
                                    lemma_same_cluster(pos as int, cb as int, n as int, j);
                                }
                                lemma_piece(img, geo, e, chain@, off0, done as int, fine);
                                lemma_same_cluster(pos as int, cb as int, n as int, k as int);
                                lemma_fault(
                                    img,
                                    geo,
                                    e,
                                    chain@,
                                    off0,
                                    done + k,
                                    want as int,
                                );
                            }
                        }
                        return Err(err);
                    },
                }
                put(piece.as_mut_slice(), 0, head.as_slice());
                assert forall|j: int| 0 <= j < valid implies file_byte(
                    img,
                    geo,
                    e,
                    chain@,
                    off0 + done + j,
                ) == Ok::<u8, ExFault>(#[trigger] piece@[j]) by {
                    lemma_same_cluster(pos as int, cb as int, n as int, j);
                    assert(piece@[j] == head@[j]);
                }
            }
            proof {
                assert forall|j: int| 0 <= j < n implies file_byte(
                    img,
                    geo,
                    e,
                    chain@,
                    off0 + done + j,
                ) == Ok::<u8, ExFault>(#[trigger] piece@[j]) by {
                    if j >= valid {
                        assert(piece@[j] == 0);
                    }
                }
                lemma_piece(img, geo, e, chain@, off0, done as int, piece@);
            }
            put(buf, done, piece.as_slice());
            assert(buf@.take(done + n) =~= before.take(done as int) + piece@);
            done = done + n;
        }
        assert(buf@.skip(done as int) =~= start.skip(done as int));
        Ok(done)
    }
}

proof fn lemma_within(pos: int, cb: int, n: int)
    requires
        0 <= pos,
        512 <= cb,
        0 < n <= cb - pos % cb,
    ensures
        pos / cb >= 0,
        0 <= pos % cb < cb,
{
    assert(pos / cb >= 0) by (nonlinear_arith)
        requires
            0 <= pos,
            512 <= cb,
    ;
    assert(0 <= pos % cb < cb) by (nonlinear_arith)
        requires
            512 <= cb,
    ;
}

pub(crate) proof fn lemma_same_cluster(pos: int, cb: int, n: int, j: int)
    requires
        0 <= pos,
        512 <= cb,
        0 < n <= cb - pos % cb,
        0 <= j < n,
    ensures
        (pos + j) / cb == pos / cb,
        (pos + j) % cb == pos % cb + j,
{
    let q = pos / cb;
    let m = pos % cb;
    vstd::arithmetic::div_mod::lemma_fundamental_div_mod(pos, cb);
    assert(0 <= m) by (nonlinear_arith)
        requires
            m == pos % cb,
            512 <= cb,
    ;
    assert((pos + j) / cb == q && (pos + j) % cb == m + j) by {
        vstd::arithmetic::div_mod::lemma_fundamental_div_mod_converse(pos + j, cb, q, m + j);
    }
}

/// An optional entry by its view.
pub open spec fn opt_entry(e: Option<Entry>) -> Option<EntryModel> {
    match e {
        Some(e) => Some(e@),
        None => None,
    }
}

/// A looked-up entry by its view.
pub open spec fn seen_entry(r: ExfatResult<Option<Entry>>) -> Result<Option<EntryModel>, ExFault> {
    match r {
        Ok(e) => Ok(opt_entry(e)),
        Err(e) => Err(e@),
    }
}

/// Whether a read gave what is due: the bytes at the front of the buffer, the
/// rest of which stays as it was.
pub open spec fn read_due(
    reliable: bool,
    r: ExfatResult<usize>,
    before: Seq<u8>,
    after: Seq<u8>,
    want: Result<Seq<u8>, ExFault>,
) -> bool {
    match r {
        Ok(n) => {
            &&& n <= after.len()
            &&& want == Ok::<Seq<u8>, ExFault>(after.take(n as int))
            &&& after.skip(n as int) == before.skip(n as int)
        },
        Err(e) => want == Err::<Seq<u8>, ExFault>(e@) || (!reliable && e@ is Io),
    }
}

fn same_units(a: &[u16], b: &[u16]) -> (r: bool)
    ensures
        r == (a@ == b@),
{
    if a.len() != b.len() {
        return false;
    }
    let n: usize = a.len();
    let mut i: usize = 0;
    while i < n
        invariant
            i <= n,
            n == a@.len(),
            n == b@.len(),
            forall|j: int| 0 <= j < i ==> a@[j] == b@[j],
        decreases n - i,
    {
        if a[i] != b[i] {
            return false;
        }
        i = i + 1;
    }
    assert(a@ =~= b@);
    true
}

/// Whether two names, as code units, are the same once up-cased.
pub(crate) fn units_match(upcase: &UpcaseTable, a: &[u16], b: &[u16]) -> (r: bool)
    ensures
        r == (upcased_all(upcase@, a@) == upcased_all(upcase@, b@)),
{
    let x: Vec<u16> = upcase.map_all(a);
    let y: Vec<u16> = upcase.map_all(b);
    same_units(x.as_slice(), y.as_slice())
}

fn find_named(upcase: &UpcaseTable, entries: &Vec<Entry>, name: &str) -> (r: Option<usize>)
    ensures
        match r {
            None => named_from(upcase@, entries_of(entries@), name@, 0) is None,
            Some(j) => j < entries@.len() && named_from(upcase@, entries_of(entries@), name@, 0)
                == Some(entries@[j as int]@),
        },
{
    let want: Vec<u16> = encode_utf16(name);
    let ghost ev = entries_of(entries@);
    let n: usize = entries.len();
    let mut j: usize = 0;
    while j < n
        invariant
            j <= n == entries@.len(),
            ev == entries_of(entries@),
            want@ == utf16_of(name@),
            named_from(upcase@, ev, name@, 0) == named_from(upcase@, ev, name@, j as int),
        decreases n - j,
    {
        let have: Vec<u16> = encode_utf16(entries[j].name.as_str());
        assert(ev[j as int] == entries@[j as int]@);
        if units_match(upcase, have.as_slice(), want.as_slice()) {
            return Some(j);
        }
        j = j + 1;
    }
    None
}

fn find_upcase_entry<D: ReadAt>(disk: &mut D, geo: &Geometry) -> (r: ExfatResult<Option<(u32, u64)>>)
    requires
        geo.wf(),
    ensures
        unmoved(*old(disk), *final(disk)),
        due(sure(*old(disk)), seen(r), upcase_entry(old(disk).disk().bytes, *geo)),
{
    let raws: Vec<[u8; 32]> = walk_raw_entries(
        disk,
        geo,
        geo.root_first_cluster,
        false,
        u64::MAX,
        &AtUpcase,
    )?;
    let n: usize = raws.len();
    if n > 0 {
        let raw: [u8; 32] = raws[n - 1];
        assert(rows(raws@).last() == raw@);
        if raw[0] == super::dir::ENTRY_UPCASE {
            return Ok(Some((read_le32(raw.as_slice(), 20), read_le64(raw.as_slice(), 24))));
        }
    }
    Ok(None)
}

fn find_bitmap_entry<D: ReadAt>(disk: &mut D, geo: &Geometry) -> (r: ExfatResult<Option<BitmapLoc>>)
    requires
        geo.wf(),
    ensures
        unmoved(*old(disk), *final(disk)),
        due(sure(*old(disk)), seen(r), bitmap_entry(old(disk).disk().bytes, *geo)),
{
    let raws: Vec<[u8; 32]> = walk_raw_entries(
        disk,
        geo,
        geo.root_first_cluster,
        false,
        u64::MAX,
        &AtBitmap,
    )?;
    let n: usize = raws.len();
    if n > 0 {
        let raw: [u8; 32] = raws[n - 1];
        assert(rows(raws@).last() == raw@);
        if raw[0] == super::dir::ENTRY_BITMAP && raw[1] % 2 == 0 {
            return Ok(
                Some(
                    BitmapLoc {
                        first_cluster: read_le32(raw.as_slice(), 20),
                        length_bytes: read_le64(raw.as_slice(), 24),
                    },
                ),
            );
        }
    }
    Ok(None)
}

impl<D: crate::device::BlockDevice> ExfatFs<super::io::DeviceReadAt<D>> {
    /// Overwrite the keys of the device underneath.
    pub(crate) fn wipe_keys(&mut self)
        ensures
            final(self).device().dev.wiped(),
    {
        self.disk.dev.wipe_keys();
    }
}

} // verus!
