//! The up-case table: the volume's own case-folding map, stored with its
//! identity runs compressed. Used for case-insensitive lookup.

use vstd::prelude::*;

use super::boot::Geometry;
use super::fat::{chain_of, read_chain};
use super::io::{
    bytes_at, due, fetch, seen_view, sure, unmoved, ExFault, ExfatError, ExfatResult, ReadAt,
};
use crate::bytes::{le16, put, read_le16, splice, zeroed, zeros};

verus! {

/// What a table makes of a code unit: the entry for it, or the unit itself
/// where the table has none.
pub open spec fn upcased(map: Seq<u16>, u: u16) -> u16 {
    if (u as int) < map.len() {
        map[u as int]
    } else {
        u
    }
}

/// What a table makes of a name.
pub open spec fn upcased_all(map: Seq<u16>, units: Seq<u16>) -> Seq<u16> {
    units.map_values(|u: u16| upcased(map, u))
}

/// The little-endian words of a byte string.
pub open spec fn words_of(raw: Seq<u8>) -> Seq<u16> {
    Seq::new(raw.len() / 2, |k: int| le16(raw, 2 * k))
}

/// `n` code units from `start` on, each mapped to itself.
pub open spec fn identity_run(start: int, n: int) -> Seq<u16> {
    Seq::new(n as nat, |i: int| (start + i) as u16)
}

/// The table that a sequence of words stands for, from word `i` on: a word is
/// the next entry, but `0xFFFF` followed by a count stands for that many
/// entries that map to themselves. As the last word it is an entry.
pub open spec fn expanded(words: Seq<u16>, i: int, map: Seq<u16>) -> Result<Seq<u16>, ExFault>
    decreases words.len() - i,
{
    if i < 0 || i >= words.len() {
        Ok(map)
    } else if words[i] == 0xFFFF {
        if i + 1 >= words.len() {
            Ok(map.push(0xFFFF))
        } else {
            let count = words[i + 1] as int;
            if count > 0 && map.len() + count > 0x1_0000 {
                Err(ExFault::Invalid("up-case table overflows u16"@))
            } else {
                expanded(words, i + 2, map + identity_run(map.len() as int, count))
            }
        }
    } else if map.len() > 0xFFFF {
        Err(ExFault::Invalid("up-case table overflows u16"@))
    } else {
        expanded(words, i + 1, map.push(words[i]))
    }
}

/// The smaller of two numbers.
pub open spec fn lesser(a: int, b: int) -> int {
    if a <= b {
        a
    } else {
        b
    }
}

/// How many parts of `b` cover `a`.
pub open spec fn parts(a: int, b: int) -> int {
    (a + b - 1) / b
}

/// The stored table as far as the first `n` clusters of its chain hold it; the
/// rest is zeros.
pub open spec fn stored_table(
    img: Seq<u8>,
    geo: Geometry,
    chain: Seq<u32>,
    len: int,
    n: int,
) -> Result<Seq<u8>, ExFault>
    decreases n,
{
    if n <= 0 {
        Ok(zeros(len as nat))
    } else {
        let start = (n - 1) * geo.cluster_len();
        match stored_table(img, geo, chain, len, n - 1) {
            Err(f) => Err(f),
            Ok(s) => if start >= len {
                Ok(s)
            } else {
                match geo.cluster_at(chain[n - 1] as int) {
                    Err(f) => Err(f),
                    Ok(off) => match bytes_at(img, off, lesser(geo.cluster_len(), len - start)) {
                        Err(f) => Err(f),
                        Ok(piece) => Ok(splice(s, start, piece)),
                    },
                }
            },
        }
    }
}

/// The table that a volume stores from `first` on, in `len` bytes.
pub open spec fn table_at(img: Seq<u8>, geo: Geometry, first: u32, len: u64) -> Result<
    Seq<u16>,
    ExFault,
> {
    if len > 262_144 {
        Err(ExFault::Invalid("up-case table implausibly large"@))
    } else {
        match chain_of(img, geo, first, Some(parts(len as int, geo.cluster_len()) as u64)) {
            Err(f) => Err(f),
            Ok(chain) => match stored_table(img, geo, chain, len as int, chain.len() as int) {
                Err(f) => Err(f),
                Ok(raw) => expanded(words_of(raw), 0, seq![]),
            },
        }
    }
}

/// Division rounding up.
pub fn div_ceil(a: u64, b: u64) -> (r: u64)
    requires
        b > 0,
    ensures
        r == parts(a as int, b as int),
{
    let q: u64 = a / b;
    let m: u64 = a % b;
    proof {
        let (x, y) = (a as int, b as int);
        vstd::arithmetic::div_mod::lemma_fundamental_div_mod(x, y);
        if x % y == 0 {
            assert((x + y - 1) / y == x / y) by (nonlinear_arith)
                requires
                    x == y * (x / y),
                    y > 0,
            ;
        } else {
            assert((x + y - 1) / y == x / y + 1) by (nonlinear_arith)
                requires
                    x == y * (x / y) + x % y,
                    0 < x % y < y,
                    y > 0,
            ;
            assert(x / y < x) by (nonlinear_arith)
                requires
                    x == y * (x / y) + x % y,
                    0 < x % y < y,
                    y > 0,
                    x >= 0,
                    x / y >= 0,
            ;
        }
    }
    if m == 0 {
        q
    } else {
        q + 1
    }
}

pub struct UpcaseTable {
    map: Vec<u16>,
}

impl View for UpcaseTable {
    type V = Seq<u16>;

    closed spec fn view(&self) -> Seq<u16> {
        self.map@
    }
}

impl UpcaseTable {
    /// Identity table: used when a volume lacks an up-case entry. Lookups are
    /// then case-sensitive instead of failing.
    pub fn identity() -> (r: Self)
        ensures
            r@ == Seq::<u16>::empty(),
            forall|u: u16| upcased(r@, u) == u,
    {
        UpcaseTable { map: Vec::new() }
    }

    pub fn map(&self, u: u16) -> (r: u16)
        ensures
            r == upcased(self@, u),
    {
        if (u as usize) < self.map.len() {
            self.map[u as usize]
        } else {
            u
        }
    }

    /// What the table makes of a name.
    pub fn map_all(&self, units: &[u16]) -> (r: Vec<u16>)
        ensures
            r@ == upcased_all(self@, units@),
    {
        let mut out: Vec<u16> = Vec::new();
        let n: usize = units.len();
        let mut i: usize = 0;
        while i < n
            invariant
                i <= n == units@.len(),
                out@ =~= upcased_all(self@, units@.take(i as int)),
            decreases n - i,
        {
            out.push(self.map(units[i]));
            i = i + 1;
        }
        assert(units@.take(n as int) =~= units@);
        out
    }

    /// An owned copy.
    pub fn snapshot(&self) -> (r: Self)
        ensures
            r@ == self@,
    {
        let mut out: Vec<u16> = Vec::new();
        let n: usize = self.map.len();
        let mut i: usize = 0;
        while i < n
            invariant
                i <= n == self.map@.len(),
                out@ =~= self.map@.take(i as int),
            decreases n - i,
        {
            out.push(self.map[i]);
            i = i + 1;
        }
        UpcaseTable { map: out }
    }

    /// Load and decompress from the cluster heap.
    pub fn load<D: ReadAt>(
        disk: &mut D,
        geo: &Geometry,
        first_cluster: u32,
        data_len: u64,
    ) -> (r: ExfatResult<Self>)
        requires
            geo.wf(),
        ensures
            unmoved(*old(disk), *final(disk)),
            due(
                sure(*old(disk)),
                seen_view(r),
                table_at(old(disk).disk().bytes, *geo, first_cluster, data_len),
            ),
    {
        if data_len > 262_144 {
            return Err(ExfatError::Invalid("up-case table implausibly large"));
        }
        let ghost img = disk.disk().bytes;
        let cb: u64 = geo.cluster_bytes();
        let chain: Vec<u32> = read_chain(disk, geo, first_cluster, Some(div_ceil(data_len, cb)))?;
        let len: usize = data_len as usize;
        let mut raw: Vec<u8> = zeroed(len);
        let mut i: usize = 0;
        while i < chain.len()
            invariant
                geo.wf(),
                cb == geo.cluster_len(),
                i <= chain@.len(),
                len == data_len <= 262_144,
                raw@.len() == len,
                img == disk.disk().bytes,
                unmoved(*old(disk), *disk),
                table_at(img, *geo, first_cluster, data_len) == match stored_table(
                    img,
                    *geo,
                    chain@,
                    len as int,
                    chain@.len() as int,
                ) {
                    Err(f) => Err(f),
                    Ok(raw) => expanded(words_of(raw), 0, seq![]),
                },
                stored_table(img, *geo, chain@, len as int, i as int) == Ok::<Seq<u8>, ExFault>(
                    raw@,
                ),
            decreases chain@.len() - i,
        {
            let ghost cl = geo.cluster_len();
            assert(i * cl >= 0) by (nonlinear_arith)
                requires
                    i >= 0,
                    cl >= 0,
            ;
            if i as u64 >= div_ceil(data_len, cb) {
                // Past the last cluster that the table reaches.
                proof {
                    lemma_parts_cover(len as int, cl, i as int);
                }
                i = i + 1;
                continue ;
            }
            proof {
                lemma_parts_under(len as int, cl, i as int);
            }
            let start: usize = i * cb as usize;
            let n: usize = if cb as usize <= len - start {
                cb as usize
            } else {
                len - start
            };
            let ghost done = raw@;
            let off: u64 = match geo.cluster_offset(chain[i]) {
                Ok(o) => o,
                Err(e) => {
                    proof {
                        lemma_stored_fault(
                            img,
                            *geo,
                            chain@,
                            len as int,
                            i + 1,
                            chain@.len() as int,
                        );
                    }
                    return Err(e);
                },
            };
            let mut piece: Vec<u8> = zeroed(n);
            match fetch(disk, off, piece.as_mut_slice()) {
                Ok(_) => {},
                Err(e) => {
                    proof {
                        if bytes_at(img, off as int, n as int) is Err {
                            lemma_stored_fault(
                                img,
                                *geo,
                                chain@,
                                len as int,
                                i + 1,
                                chain@.len() as int,
                            );
                        }
                    }
                    return Err(e);
                },
            }
            put(raw.as_mut_slice(), start, piece.as_slice());
            i = i + 1;
        }
        assert(stored_table(img, *geo, chain@, len as int, chain@.len() as int) == Ok::<
            Seq<u8>,
            ExFault,
        >(raw@));
        let map: Vec<u16> = decompress(raw.as_slice())?;
        Ok(UpcaseTable { map })
    }
}

proof fn lemma_parts_cover(len: int, cl: int, i: int)
    requires
        cl > 0,
        i >= parts(len, cl),
    ensures
        i * cl >= len,
{
    let q = parts(len, cl);
    vstd::arithmetic::div_mod::lemma_fundamental_div_mod(len + cl - 1, cl);
    assert(i * cl >= len) by (nonlinear_arith)
        requires
            cl > 0,
            i >= q,
            len + cl - 1 == cl * q + (len + cl - 1) % cl,
            (len + cl - 1) % cl < cl,
    ;
}

proof fn lemma_parts_under(len: int, cl: int, i: int)
    requires
        cl > 0,
        0 <= i < parts(len, cl),
    ensures
        0 <= i * cl < len,
{
    let q = parts(len, cl);
    vstd::arithmetic::div_mod::lemma_fundamental_div_mod(len + cl - 1, cl);
    assert(0 <= i * cl < len) by (nonlinear_arith)
        requires
            cl > 0,
            0 <= i < q,
            len + cl - 1 == cl * q + (len + cl - 1) % cl,
            0 <= (len + cl - 1) % cl,
    ;
}

proof fn lemma_stored_fault(
    img: Seq<u8>,
    geo: Geometry,
    chain: Seq<u32>,
    len: int,
    i: int,
    n: int,
)
    requires
        0 <= i <= n,
        stored_table(img, geo, chain, len, i) is Err,
    ensures
        stored_table(img, geo, chain, len, n) == stored_table(img, geo, chain, len, i),
    decreases n - i,
{
    if i < n {
        lemma_stored_fault(img, geo, chain, len, i, n - 1);
    }
}

fn decompress(raw: &[u8]) -> (r: ExfatResult<Vec<u16>>)
    ensures
        seen_view(r) == expanded(words_of(raw@), 0, seq![]),
{
    let n: usize = raw.len() / 2;
    let ghost words = words_of(raw@);
    let mut map: Vec<u16> = Vec::new();
    let mut i: usize = 0;
    assert(map@ =~= seq![]);
    while i < n
        invariant
            i <= n,
            n == raw@.len() / 2,
            words == words_of(raw@),
            expanded(words, 0, seq![]) == expanded(words, i as int, map@),
        decreases n - i,
    {
        assert(raw.len() == raw@.len());
        let w: u16 = read_le16(raw, 2 * i);
        assert(w == words[i as int]);
        if w == 0xFFFF {
            // The mark of an identity run, unless it is the last word.
            if i + 1 >= n {
                map.push(0xFFFF);
                return Ok(map);
            }
            let count: usize = read_le16(raw, 2 * (i + 1)) as usize;
            assert(count == words[i + 1]);
            let start: usize = map.len();
            if count > 0 && (start > 0x1_0000 || start + count > 0x1_0000) {
                return Err(ExfatError::Invalid("up-case table overflows u16"));
            }
            let ghost before = map@;
            let mut k: usize = 0;
            while k < count
                invariant
                    k <= count,
                    count > 0 ==> start + count <= 0x1_0000,
                    start == before.len(),
                    map@ =~= before + identity_run(start as int, k as int),
                decreases count - k,
            {
                map.push((start + k) as u16);
                k = k + 1;
            }
            assert(map@ =~= before + identity_run(before.len() as int, count as int));
            i = i + 2;
        } else {
            if map.len() > 0xFFFF {
                return Err(ExfatError::Invalid("up-case table overflows u16"));
            }
            map.push(w);
            i = i + 1;
        }
    }
    Ok(map)
}

} // verus!
