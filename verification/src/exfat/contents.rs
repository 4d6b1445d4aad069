//! What a chain of clusters holds, byte by byte.

use vstd::prelude::*;

use super::areas::{
    cluster_of, cluster_place, cluster_put, confined, confined_refl, confined_trans,
    confined_weaker, members, placed,
};
use super::boot::Geometry;
use super::chains::{all_exist, lemma_len};
use super::dir::EntryModel;
use super::fs::{file_bytes, lemma_same_cluster};
use super::io::{put_at, ExFault};
use super::upcase::lesser;
use super::write::{payload_written, range_from};
use crate::bytes::{splice, zeros};
use crate::device::Disk;

verus! {

/// The byte at `pos` of what a chain holds.
pub open spec fn byte_in(img: Seq<u8>, geo: Geometry, chain: Seq<u32>, pos: int) -> u8 {
    cluster_of(img, geo, chain[pos / geo.cluster_len()] as int)[pos % geo.cluster_len()]
}

pub proof fn lemma_index(pos: int, cl: int, n: int)
    requires
        0 <= pos < n * cl,
        0 < cl,
    ensures
        0 <= pos / cl < n,
        0 <= pos % cl < cl,
        pos == cl * (pos / cl) + pos % cl,
{
    vstd::arithmetic::div_mod::lemma_fundamental_div_mod(pos, cl);
    let q = pos / cl;
    let m = pos % cl;
    assert(0 <= m < cl) by (nonlinear_arith)
        requires
            m == pos % cl,
            cl > 0,
    ;
    assert(0 <= q < n) by (nonlinear_arith)
        requires
            pos == cl * q + m,
            0 <= m < cl,
            0 <= pos < n * cl,
    ;
}

/// Clusters that stay hold what they held.
pub proof fn confined_bytes(
    a: Seq<u8>,
    b: Seq<u8>,
    geo: Geometry,
    words: Set<int>,
    clusters: Set<int>,
    chain: Seq<u32>,
    pos: int,
)
    requires
        confined(a, b, geo, words, clusters),
        geo.wf(),
        all_exist(geo, chain),
        0 <= pos < chain.len() * geo.cluster_len(),
        !clusters.contains(chain[pos / geo.cluster_len()] as int),
    ensures
        byte_in(b, geo, chain, pos) == byte_in(a, geo, chain, pos),
{
    reveal(confined);
    lemma_index(pos, geo.cluster_len(), chain.len() as int);
    let c = chain[pos / geo.cluster_len()] as int;
    assert(geo.has_cluster(c));
    assert(cluster_of(b, geo, c) == cluster_of(a, geo, c));
}

/// Writing a range into a chain that is long enough succeeds, touches its
/// clusters alone, and is read back; what the chain held beside it stays.
pub proof fn range_reads_back(
    disk: Disk,
    geo: Geometry,
    chain: Seq<u32>,
    offset: int,
    data: Seq<u8>,
    done: int,
    what: Seq<char>,
)
    requires
        placed(geo, disk.bytes.len()),
        all_exist(geo, chain),
        chain.no_duplicates(),
        0 <= offset,
        0 <= done <= data.len(),
        offset + data.len() <= chain.len() * geo.cluster_len(),
    ensures
        ({
            let (after, r) = range_from(disk, geo, chain, offset, data, done, what);
            &&& r is Ok
            &&& after.fixed == disk.fixed
            &&& confined(disk.bytes, after.bytes, geo, Set::empty(), members(chain))
            &&& forall|p: int|
                0 <= p < chain.len() * geo.cluster_len() ==> #[trigger] byte_in(
                    after.bytes,
                    geo,
                    chain,
                    p,
                ) == (if offset + done <= p < offset + data.len() {
                    data[p - offset]
                } else {
                    byte_in(disk.bytes, geo, chain, p)
                })
        }),
    decreases data.len() - done,
{
    let cl = geo.cluster_len();
    let img = disk.bytes;
    let m = members(chain);
    if done == data.len() {
        confined_refl(img, geo);
        confined_weaker(img, img, geo, Set::empty(), Set::empty(), Set::empty(), m);
    } else {
        let pos = offset + done;
        let within = pos % cl;
        let n = lesser(cl - within, data.len() - done);
        let index = pos / cl;
        lemma_index(pos, cl, chain.len() as int);
        let c = chain[index] as int;
        assert(geo.has_cluster(c));
        cluster_place(geo, img.len(), c);
        let piece = data.subrange(done, done + n);
        let at = geo.cluster_start(c) + within;
        let mid = disk.written(at, piece);
        assert(put_at(disk, at, piece) == (mid, Ok::<(), ExFault>(())));
        cluster_put(img, geo, c, within, piece);
        let one = Set::<int>::empty().insert(c);
        assert(m.contains(c));
        confined_weaker(img, mid.bytes, geo, Set::empty(), one, Set::empty(), m);
        lemma_len(img, mid.bytes, geo, Set::empty(), m);
        range_reads_back(mid, geo, chain, offset, data, done + n, what);
        let after = range_from(mid, geo, chain, offset, data, done + n, what).0;
        confined_trans(
            img,
            mid.bytes,
            after.bytes,
            geo,
            Set::empty(),
            m,
            Set::empty(),
            m,
        );
        assert(m.union(m) =~= m);
        assert(Set::<int>::empty().union(Set::empty()) =~= Set::empty());
        assert forall|p: int| 0 <= p < chain.len() * cl implies #[trigger] byte_in(
            after.bytes,
            geo,
            chain,
            p,
        ) == (if offset + done <= p < offset + data.len() {
            data[p - offset]
        } else {
            byte_in(img, geo, chain, p)
        }) by {
            lemma_index(p, cl, chain.len() as int);
            let k = p / cl;
            assert(byte_in(mid.bytes, geo, chain, p) == (if pos <= p < pos + n {
                data[p - offset]
            } else {
                byte_in(img, geo, chain, p)
            })) by {
                if k == index {
                    assert(p - pos == p % cl - within);
                    assert(cluster_of(img, geo, c).len() == cl);
                } else {
                    assert(chain[k] != chain[index]);
                    confined_bytes(
                        img,
                        splice(img, geo.cluster_start(c) + within, piece),
                        geo,
                        Set::empty(),
                        one,
                        chain,
                        p,
                    );
                    assert(!(pos <= p < pos + n)) by {
                        if pos <= p < pos + n {
                            lemma_same_cluster(pos, cl, n, p - pos);
                        }
                    }
                }
            }
        }
    }
}

/// The data of a write, and zeros in the gap before it, are read back from the
/// chain; what the chain held beside them stays.
pub proof fn payload_reads_back(
    disk: Disk,
    geo: Geometry,
    chain: Seq<u32>,
    data_len: u64,
    offset: u64,
    data: Seq<u8>,
)
    requires
        placed(geo, disk.bytes.len()),
        all_exist(geo, chain),
        chain.no_duplicates(),
        offset + data.len() <= chain.len() * geo.cluster_len(),
    ensures
        ({
            let (after, r) = payload_written(disk, geo, chain, data_len, offset, data);
            &&& r is Ok
            &&& after.fixed == disk.fixed
            &&& confined(disk.bytes, after.bytes, geo, Set::empty(), members(chain))
            &&& forall|p: int|
                0 <= p < chain.len() * geo.cluster_len() ==> #[trigger] byte_in(
                    after.bytes,
                    geo,
                    chain,
                    p,
                ) == (if offset <= p < offset + data.len() {
                    data[p - offset]
                } else if data_len <= p < offset {
                    0
                } else {
                    byte_in(disk.bytes, geo, chain, p)
                })
        }),
{
    let gap = if offset > data_len {
        offset - data_len
    } else {
        0
    };
    let pad = zeros(gap as nat);
    if gap > 0 {
        range_reads_back(disk, geo, chain, data_len as int, pad, 0, "zero past chain"@);
    } else {
        confined_refl(disk.bytes, geo);
        confined_weaker(
            disk.bytes,
            disk.bytes,
            geo,
            Set::empty(),
            Set::empty(),
            Set::empty(),
            members(chain),
        );
    }
    let mid = range_from(disk, geo, chain, data_len as int, pad, 0, "zero past chain"@).0;
    lemma_len(disk.bytes, mid.bytes, geo, Set::empty(), members(chain));
    range_reads_back(mid, geo, chain, offset as int, data, 0, "write past chain"@);
    let after = range_from(mid, geo, chain, offset as int, data, 0, "write past chain"@).0;
    confined_trans(
        disk.bytes,
        mid.bytes,
        after.bytes,
        geo,
        Set::empty(),
        members(chain),
        Set::empty(),
        members(chain),
    );
    assert(members(chain).union(members(chain)) =~= members(chain));
    assert(Set::<int>::empty().union(Set::empty()) =~= Set::empty());
    assert forall|p: int| 0 <= p < chain.len() * geo.cluster_len() implies #[trigger] byte_in(
        after.bytes,
        geo,
        chain,
        p,
    ) == (if offset <= p < offset + data.len() {
        data[p - offset]
    } else if data_len <= p < offset {
        0
    } else {
        byte_in(disk.bytes, geo, chain, p)
    }) by {
        let q = byte_in(mid.bytes, geo, chain, p);
    }
}

/// Reading a chained file gives what its chain holds.
pub proof fn file_bytes_are_the_chains(
    img: Seq<u8>,
    geo: Geometry,
    e: EntryModel,
    chain: Seq<u32>,
    offset: int,
    n: int,
)
    requires
        placed(geo, img.len()),
        all_exist(geo, chain),
        !e.no_fat_chain,
        0 <= offset,
        0 <= n,
        offset + n <= chain.len() * geo.cluster_len(),
    ensures
        file_bytes(img, geo, e, chain, offset, n) == Ok::<Seq<u8>, ExFault>(
            Seq::new(
                n as nat,
                |i: int|
                    if offset + i < e.valid_size {
                        byte_in(img, geo, chain, offset + i)
                    } else {
                        0
                    },
            ),
        ),
    decreases n,
{
    let whole = Seq::new(
        n as nat,
        |i: int|
            if offset + i < e.valid_size {
                byte_in(img, geo, chain, offset + i)
            } else {
                0
            },
    );
    if n > 0 {
        file_bytes_are_the_chains(img, geo, e, chain, offset, n - 1);
        let pos = offset + n - 1;
        lemma_index(pos, geo.cluster_len(), chain.len() as int);
        let c = chain[pos / geo.cluster_len()] as int;
        assert(geo.has_cluster(c));
        cluster_place(geo, img.len(), c);
        assert(cluster_of(img, geo, c)[pos % geo.cluster_len()] == img[geo.cluster_start(c) + pos
            % geo.cluster_len()]);
        let short = file_bytes(img, geo, e, chain, offset, n - 1)->Ok_0;
        assert(short.push(whole[n - 1]) =~= whole);
    } else {
        assert(whole =~= seq![]);
    }
}

} // verus!
