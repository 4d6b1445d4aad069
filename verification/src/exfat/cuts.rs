//! What a power cut leaves: the disk after some of the writes of an operation,
//! in their order.

use vstd::prelude::*;

use super::areas::{
    bitmap_area, bitmap_placed, cluster_of, cluster_place, cluster_put, confined, confined_links,
    confined_refl, confined_trans, confined_weaker, in_use, linked_confined, marked_confined,
    members, placed,
};
use super::boot::Geometry;
use super::chains::{
    all_exist, allocation_is_fresh, chain_fits, chain_is_linked, extension_is_strung,
    grown_chain_is_read, lemma_len, lemma_members_add, lemma_need, lemma_reads_back, links,
    next_of, strung_chain_is_linked, taken_clusters_were_free,
};
use super::clusters::{allocation, free_from, linked, marked, strung, taken};
use super::contents::{byte_in, confined_bytes, file_bytes_are_the_chains, lemma_index};
use super::dir::{set_sum, EntryModel};
use super::fat::{fat_at, BAD_CLUSTER};
use super::fs::{file_chain, file_read, lookup_result, BitmapLoc, Volume};
use super::io::{put_at, ExFault};
use super::readback::{
    data_is_stored, data_stage, home_clusters, home_of, lemma_entry_rewritten, lemma_fresh_apart,
    lemma_target, lemma_way_end, lemma_write_stages, sound_file, sound_way, upper_clusters,
    valid_after, valid_in,
};
use super::upcase::lesser;
use super::ways::{dir_stays, lookup_goes_through, way_stays};
use super::write::{
    chain_grown, cluster_need, contiguous_len, existing, file_written, loc_chain, range_from, raws_from,
    restreamed, size_after, stream_with, valid_of, LocModel,
};
use crate::bytes::{le16_bytes, splice, zeros};
use crate::device::{Disk, DiskOp};
use crate::text::{a_path_is_its_directory_and_its_name, components, leaf_of, parent_of};

verus! {

/// What a disk holds after some operations.
pub open spec fn replayed(img: Seq<u8>, ops: Seq<DiskOp>) -> Seq<u8>
    decreases ops.len(),
{
    if ops.len() == 0 {
        img
    } else {
        match ops.last() {
            DiskOp::Write { offset, data } => splice(
                replayed(img, ops.drop_last()),
                offset,
                data,
            ),
            DiskOp::Flush => replayed(img, ops.drop_last()),
        }
    }
}

/// Whether one disk comes from another by the operations in its log, and all
/// that it holds on the way, from the first to the last, is of a kind.
pub open spec fn all_cuts(before: Disk, after: Disk, p: spec_fn(Seq<u8>) -> bool) -> bool {
    let n = before.log.len() as int;
    &&& n <= after.log.len()
    &&& after.log.take(n) == before.log
    &&& after.bytes == replayed(before.bytes, after.log.skip(n))
    &&& forall|j: int|
        n <= j <= after.log.len() ==> p(
            #[trigger] replayed(before.bytes, after.log.subrange(n, j)),
        )
}

proof fn lemma_replay_adds(img: Seq<u8>, a: Seq<DiskOp>, b: Seq<DiskOp>)
    ensures
        replayed(img, a + b) == replayed(replayed(img, a), b),
    decreases b.len(),
{
    if b.len() == 0 {
        assert(a + b =~= a);
    } else {
        lemma_replay_adds(img, a, b.drop_last());
        assert((a + b).drop_last() =~= a + b.drop_last());
        assert((a + b).last() == b.last());
    }
}

pub proof fn cuts_refl(d: Disk, p: spec_fn(Seq<u8>) -> bool)
    requires
        p(d.bytes),
    ensures
        all_cuts(d, d, p),
{
    let n = d.log.len() as int;
    assert(d.log.take(n) =~= d.log);
    assert(d.log.skip(n) =~= seq![]);
    assert forall|j: int| n <= j <= d.log.len() implies p(
        #[trigger] replayed(d.bytes, d.log.subrange(n, j)),
    ) by {
        assert(d.log.subrange(n, j) =~= seq![]);
    }
}

pub proof fn cuts_trans(a: Disk, b: Disk, c: Disk, p: spec_fn(Seq<u8>) -> bool)
    requires
        all_cuts(a, b, p),
        all_cuts(b, c, p),
    ensures
        all_cuts(a, c, p),
{
    let n = a.log.len() as int;
    let m = b.log.len() as int;
    let ab = b.log.skip(n);
    assert(c.log.take(n) =~= b.log.take(n));
    assert(c.log.skip(n) =~= ab + c.log.skip(m));
    lemma_replay_adds(a.bytes, ab, c.log.skip(m));
    assert forall|j: int| n <= j <= c.log.len() implies p(
        #[trigger] replayed(a.bytes, c.log.subrange(n, j)),
    ) by {
        if j <= m {
            assert(c.log.subrange(n, j) =~= b.log.subrange(n, j));
        } else {
            assert(c.log.subrange(n, j) =~= ab + c.log.subrange(m, j));
            lemma_replay_adds(a.bytes, ab, c.log.subrange(m, j));
            assert(p(replayed(b.bytes, c.log.subrange(m, j))));
        }
    }
}

/// One write has two cuts.
pub proof fn cuts_of_a_write(d: Disk, offset: int, data: Seq<u8>, p: spec_fn(Seq<u8>) -> bool)
    requires
        p(d.bytes),
        p(splice(d.bytes, offset, data)),
    ensures
        all_cuts(d, d.written(offset, data), p),
{
    let after = d.written(offset, data);
    let n = d.log.len() as int;
    assert(after.log.take(n) =~= d.log);
    let op = DiskOp::Write { offset, data };
    assert(after.log.skip(n) =~= seq![op]);
    assert(seq![op].drop_last() =~= seq![]);
    assert(replayed(d.bytes, seq![op]) == splice(replayed(d.bytes, seq![]), offset, data));
    assert forall|j: int| n <= j <= after.log.len() implies p(
        #[trigger] replayed(d.bytes, after.log.subrange(n, j)),
    ) by {
        if j == n {
            assert(after.log.subrange(n, j) =~= seq![]);
        } else {
            assert(after.log.subrange(n, j) =~= seq![op]);
        }
    }
}

/// A flush changes nothing.
pub proof fn cuts_of_a_flush(d: Disk, p: spec_fn(Seq<u8>) -> bool)
    requires
        p(d.bytes),
    ensures
        all_cuts(d, d.flushed(), p),
{
    let after = d.flushed();
    let n = d.log.len() as int;
    assert(after.log.take(n) =~= d.log);
    assert(after.log.skip(n) =~= seq![DiskOp::Flush]);
    assert(seq![DiskOp::Flush].drop_last() =~= seq![]);
    assert(replayed(d.bytes, seq![DiskOp::Flush]) == replayed(d.bytes, seq![]));
    assert forall|j: int| n <= j <= after.log.len() implies p(
        #[trigger] replayed(d.bytes, after.log.subrange(n, j)),
    ) by {
        if j == n {
            assert(after.log.subrange(n, j) =~= seq![]);
        } else {
            assert(after.log.subrange(n, j) =~= seq![DiskOp::Flush]);
        }
    }
}

/// Whether a kind of contents takes in everything within some words and
/// clusters of what it starts from.
pub open spec fn takes_in(
    p: spec_fn(Seq<u8>) -> bool,
    img: Seq<u8>,
    geo: Geometry,
    words: Set<int>,
    clusters: Set<int>,
) -> bool {
    forall|x: Seq<u8>| #[trigger] confined(img, x, geo, words, clusters) ==> p(x)
}

pub proof fn lemma_takes_itself(
    p: spec_fn(Seq<u8>) -> bool,
    img: Seq<u8>,
    geo: Geometry,
    words: Set<int>,
    clusters: Set<int>,
)
    requires
        takes_in(p, img, geo, words, clusters),
    ensures
        p(img),
{
    confined_refl(img, geo);
    confined_weaker(img, img, geo, Set::empty(), Set::empty(), words, clusters);
    assert(confined(img, img, geo, words, clusters));
}

proof fn lemma_takes_rest(
    p: spec_fn(Seq<u8>) -> bool,
    img: Seq<u8>,
    mid: Seq<u8>,
    geo: Geometry,
    w: Set<int>,
    c: Set<int>,
    w1: Set<int>,
    c1: Set<int>,
)
    requires
        takes_in(p, img, geo, w, c),
        confined(img, mid, geo, w, c),
        w1.subset_of(w),
        c1.subset_of(c),
    ensures
        takes_in(p, mid, geo, w1, c1),
{
    assert forall|x: Seq<u8>| #[trigger] confined(mid, x, geo, w1, c1) implies p(x) by {
        confined_trans(img, mid, x, geo, w, c, w1, c1);
        assert(w.union(w1) =~= w);
        assert(c.union(c1) =~= c);
        assert(confined(img, x, geo, w, c));
    }
}

proof fn lemma_taken_cuts(
    disk: Disk,
    geo: Geometry,
    bm: BitmapLoc,
    n: int,
    p: spec_fn(Seq<u8>) -> bool,
)
    requires
        placed(geo, disk.bytes.len()),
        bitmap_placed(geo, bm),
        taken(disk, geo, bm, n).1 is Ok,
        takes_in(p, disk.bytes, geo, Set::empty(), bitmap_area(geo, bm)),
    ensures
        all_cuts(disk, taken(disk, geo, bm, n).0, p),
    decreases n,
{
    let area = bitmap_area(geo, bm);
    lemma_takes_itself(p, disk.bytes, geo, Set::empty(), area);
    if n <= 0 {
        cuts_refl(disk, p);
    } else {
        lemma_taken_cuts(disk, geo, bm, n - 1, p);
        taken_clusters_were_free(disk, geo, bm, n - 1);
        taken_clusters_were_free(disk, geo, bm, n);
        let d = taken(disk, geo, bm, n - 1).0;
        let d2 = taken(disk, geo, bm, n).0;
        let s = taken(disk, geo, bm, n - 1).1->Ok_0;
        let hint = if s.len() == 0 {
            2
        } else {
            s.last() + 1
        };
        let c = free_from(d.bytes, geo, bm, hint, 0)->Ok_0;
        let s2 = taken(disk, geo, bm, n).1->Ok_0;
        assert(s2 == s.push(c));
        assert(s2[n - 1] == c);
        assert(geo.has_cluster(c as int));
        lemma_len(disk.bytes, d.bytes, geo, Set::empty(), area);
        marked_confined(d, geo, bm, c as int, true);
        assert(d2 == marked(d, geo, bm, c as int, true).0);
        assert(confined(disk.bytes, d.bytes, geo, Set::empty(), area));
        assert(confined(disk.bytes, d2.bytes, geo, Set::empty(), area));
        let (off, b) = super::clusters::bitmap_byte(d.bytes, geo, bm, c as int)->Ok_0;
        cuts_of_a_write(d, off, seq![super::clusters::with_bit(b, c as int, true)], p);
        cuts_trans(disk, d, d2, p);
    }
}

proof fn lemma_strung_cuts(
    disk: Disk,
    geo: Geometry,
    chain: Seq<u32>,
    n: int,
    p: spec_fn(Seq<u8>) -> bool,
)
    requires
        placed(geo, disk.bytes.len()),
        all_exist(geo, chain),
        chain.no_duplicates(),
        0 <= n <= chain.len(),
        takes_in(p, disk.bytes, geo, members(chain), Set::empty()),
    ensures
        all_cuts(disk, strung(disk, geo, chain, n).0, p),
    decreases n,
{
    let m = members(chain);
    lemma_takes_itself(p, disk.bytes, geo, m, Set::empty());
    if n == 0 {
        cuts_refl(disk, p);
    } else {
        lemma_strung_cuts(disk, geo, chain, n - 1, p);
        strung_chain_is_linked(disk, geo, chain, n - 1);
        strung_chain_is_linked(disk, geo, chain, n);
        let d = strung(disk, geo, chain, n - 1).0;
        let d2 = strung(disk, geo, chain, n).0;
        let c = chain[n - 1] as int;
        assert(geo.has_cluster(c));
        assert(confined(disk.bytes, d.bytes, geo, m, Set::empty()));
        assert(confined(disk.bytes, d2.bytes, geo, m, Set::empty()));
        let value = next_of(chain, n - 1);
        assert(d2 == linked(d, geo, c, value).0);
        lemma_len(disk.bytes, d.bytes, geo, m, Set::empty());
        linked_confined(d, geo, c, value);
        cuts_of_a_write(d, super::fat::fat_slot(geo, c), crate::bytes::le32_bytes(value), p);
        cuts_trans(disk, d, d2, p);
    }
}

pub proof fn lemma_allocation_cuts(
    disk: Disk,
    geo: Geometry,
    bm: BitmapLoc,
    n: int,
    p: spec_fn(Seq<u8>) -> bool,
)
    requires
        placed(geo, disk.bytes.len()),
        bitmap_placed(geo, bm),
        n > 0,
        allocation(disk, geo, bm, n).1 is Ok,
        takes_in(
            p,
            disk.bytes,
            geo,
            members(allocation(disk, geo, bm, n).1->Ok_0),
            bitmap_area(geo, bm),
        ),
    ensures
        all_cuts(disk, allocation(disk, geo, bm, n).0, p),
{
    let area = bitmap_area(geo, bm);
    let s = allocation(disk, geo, bm, n).1->Ok_0;
    let d = taken(disk, geo, bm, n).0;
    taken_clusters_were_free(disk, geo, bm, n);
    assert(taken(disk, geo, bm, n).1 == Ok::<Seq<u32>, ExFault>(s));
    confined_refl(disk.bytes, geo);
    confined_weaker(disk.bytes, disk.bytes, geo, Set::empty(), Set::empty(), members(s), area);
    lemma_takes_rest(p, disk.bytes, disk.bytes, geo, members(s), area, Set::empty(), area);
    lemma_taken_cuts(disk, geo, bm, n, p);
    lemma_len(disk.bytes, d.bytes, geo, Set::empty(), area);
    confined_weaker(disk.bytes, d.bytes, geo, Set::empty(), area, members(s), area);
    lemma_takes_rest(p, disk.bytes, d.bytes, geo, members(s), area, members(s), Set::empty());
    lemma_strung_cuts(d, geo, s, n, p);
    cuts_trans(disk, d, allocation(disk, geo, bm, n).0, p);
}

/// Whether a kind of contents takes in every change to a stretch of a chain.
pub open spec fn takes_in_range(
    p: spec_fn(Seq<u8>) -> bool,
    img: Seq<u8>,
    geo: Geometry,
    chain: Seq<u32>,
    lo: int,
    hi: int,
) -> bool {
    forall|x: Seq<u8>|
        #![trigger confined(img, x, geo, Set::empty(), members(chain))]
        confined(img, x, geo, Set::empty(), members(chain)) && (forall|q: int|
            0 <= q < chain.len() * geo.cluster_len() && !(lo <= q < hi) ==> #[trigger] byte_in(
                x,
                geo,
                chain,
                q,
            ) == byte_in(img, geo, chain, q)) ==> p(x)
}

proof fn lemma_range_cuts(
    disk: Disk,
    geo: Geometry,
    chain: Seq<u32>,
    offset: int,
    data: Seq<u8>,
    done: int,
    what: Seq<char>,
    p: spec_fn(Seq<u8>) -> bool,
)
    requires
        placed(geo, disk.bytes.len()),
        all_exist(geo, chain),
        chain.no_duplicates(),
        0 <= offset,
        0 <= done <= data.len(),
        offset + data.len() <= chain.len() * geo.cluster_len(),
        takes_in_range(p, disk.bytes, geo, chain, offset, offset + data.len()),
    ensures
        all_cuts(disk, range_from(disk, geo, chain, offset, data, done, what).0, p),
    decreases data.len() - done,
{
    let cl = geo.cluster_len();
    let img = disk.bytes;
    let m = members(chain);
    let hi = offset + data.len();
    confined_refl(img, geo);
    confined_weaker(img, img, geo, Set::empty(), Set::empty(), Set::empty(), m);
    assert(p(img));
    if done == data.len() {
        cuts_refl(disk, p);
    } else {
        let pos = offset + done;
        let within = pos % cl;
        let n = lesser(cl - within, data.len() - done);
        let index = pos / cl;
        lemma_index(pos, cl, chain.len() as int);
        let c = chain[index] as int;
        assert(geo.has_cluster(c));
        cluster_place(geo, img.len(), c);
        let piece = data.subrange(done, done + n);
        let at = geo.cluster_start(c) + within;
        let mid = disk.written(at, piece);
        assert(put_at(disk, at, piece) == (mid, Ok::<(), ExFault>(())));
        cluster_put(img, geo, c, within, piece);
        let one = Set::<int>::empty().insert(c);
        assert(m.contains(c));
        confined_weaker(img, mid.bytes, geo, Set::empty(), one, Set::empty(), m);
        lemma_len(img, mid.bytes, geo, Set::empty(), m);
        assert forall|q: int|
            0 <= q < chain.len() * cl && !(offset <= q < hi) implies #[trigger] byte_in(
            mid.bytes,
            geo,
            chain,
            q,
        ) == byte_in(img, geo, chain, q) by {
            lemma_index(q, cl, chain.len() as int);
            if q / cl == index {
                assert(q - pos == q % cl - within);
                assert(cluster_of(img, geo, c).len() == cl);
            } else {
                assert(chain[q / cl] != chain[index]);
                confined_bytes(img, mid.bytes, geo, Set::empty(), one, chain, q);
            }
        }
        assert(p(mid.bytes));
        cuts_of_a_write(disk, at, piece, p);
        assert forall|x: Seq<u8>|
            #![trigger confined(mid.bytes, x, geo, Set::empty(), m)]
            confined(mid.bytes, x, geo, Set::empty(), m) && (forall|q: int|
                0 <= q < chain.len() * cl && !(offset <= q < hi) ==> #[trigger] byte_in(
                    x,
                    geo,
                    chain,
                    q,
                ) == byte_in(mid.bytes, geo, chain, q)) implies p(x) by {
            confined_trans(img, mid.bytes, x, geo, Set::empty(), m, Set::empty(), m);
            assert(m.union(m) =~= m);
            assert(Set::<int>::empty().union(Set::empty()) =~= Set::empty());
            assert(confined(img, x, geo, Set::empty(), m));
            assert forall|q: int|
                0 <= q < chain.len() * cl && !(offset <= q < hi) implies #[trigger] byte_in(
                x,
                geo,
                chain,
                q,
            ) == byte_in(img, geo, chain, q) by {
                assert(byte_in(mid.bytes, geo, chain, q) == byte_in(img, geo, chain, q));
            }
        }
        lemma_range_cuts(mid, geo, chain, offset, data, done + n, what, p);
        cuts_trans(disk, mid, range_from(mid, geo, chain, offset, data, done + n, what).0, p);
    }
}

/// Whether a write in progress has left a file's own chain and bytes alone,
/// but for the bytes from `lo` to `hi`, and touched nothing beside its clusters
/// and the bitmap.
pub open spec fn untorn(
    img: Seq<u8>,
    x: Seq<u8>,
    geo: Geometry,
    bm: BitmapLoc,
    chain: Seq<u32>,
    whole: Seq<u32>,
    lo: int,
    hi: int,
) -> bool {
    &&& confined(img, x, geo, members(whole), bitmap_area(geo, bm).union(members(whole)))
    &&& chain.len() > 0 ==> {
        &&& links(x, geo, chain, chain.len() - 1)
        &&& fat_at(x, geo, chain.last() as int) is Ok
        &&& fat_at(x, geo, chain.last() as int)->Ok_0 != BAD_CLUSTER
    }
    &&& forall|q: int|
        0 <= q < chain.len() * geo.cluster_len() && !(lo <= q < hi) ==> #[trigger] byte_in(
            x,
            geo,
            chain,
            q,
        ) == byte_in(img, geo, chain, q)
}

proof fn lemma_untorn_range(
    img: Seq<u8>,
    y: Seq<u8>,
    geo: Geometry,
    bm: BitmapLoc,
    chain: Seq<u32>,
    whole: Seq<u32>,
    lo: int,
    hi: int,
    a: int,
    b: int,
)
    requires
        placed(geo, y.len()),
        all_exist(geo, whole),
        untorn(img, y, geo, bm, chain, whole, lo, hi),
        chain.len() <= whole.len(),
        whole.take(chain.len() as int) == chain,
        lo <= a,
        b <= hi,
    ensures
        takes_in_range(
            |x: Seq<u8>| untorn(img, x, geo, bm, chain, whole, lo, hi),
            y,
            geo,
            whole,
            a,
            b,
        ),
{
    let cl = geo.cluster_len();
    let m = members(whole);
    let both = bitmap_area(geo, bm).union(m);
    assert forall|x: Seq<u8>|
        #![trigger confined(y, x, geo, Set::empty(), m)]
        confined(y, x, geo, Set::empty(), m) && (forall|q: int|
            0 <= q < whole.len() * cl && !(a <= q < b) ==> #[trigger] byte_in(x, geo, whole, q)
                == byte_in(y, geo, whole, q)) implies untorn(
        img,
        x,
        geo,
        bm,
        chain,
        whole,
        lo,
        hi,
    ) by {
        confined_trans(img, y, x, geo, m, both, Set::empty(), m);
        assert(m.union(Set::empty()) =~= m);
        assert(both.union(m) =~= both);
        assert forall|i: int| 0 <= i < chain.len() implies fat_at(x, geo, #[trigger] chain[i] as int)
            == fat_at(y, geo, chain[i] as int) by {
            confined_links(y, x, geo, Set::empty(), m, chain[i] as int);
        }
        if chain.len() > 0 {
            assert(chain[chain.len() - 1] == chain.last());
        }
        assert forall|q: int|
            0 <= q < chain.len() * cl && !(lo <= q < hi) implies #[trigger] byte_in(
            x,
            geo,
            chain,
            q,
        ) == byte_in(img, geo, chain, q) by {
            lemma_index(q, cl, chain.len() as int);
            assert(whole.take(chain.len() as int)[q / cl] == whole[q / cl]);
            assert(q < whole.len() * cl) by (nonlinear_arith)
                requires
                    q < chain.len() * cl,
                    chain.len() <= whole.len(),
                    cl > 0,
            ;
            assert(byte_in(x, geo, whole, q) == byte_in(y, geo, whole, q));
            assert(byte_in(y, geo, chain, q) == byte_in(img, geo, chain, q));
        }
    }
}

/// What stays of a file when only fresh clusters' words and the bitmap change.
proof fn lemma_untorn_by_growth(
    img: Seq<u8>,
    x: Seq<u8>,
    geo: Geometry,
    bm: BitmapLoc,
    chain: Seq<u32>,
    whole: Seq<u32>,
    fresh: Set<int>,
    lo: int,
    hi: int,
)
    requires
        placed(geo, img.len()),
        all_exist(geo, chain),
        confined(img, x, geo, fresh, bitmap_area(geo, bm)),
        fresh.subset_of(members(whole)),
        members(chain).disjoint(fresh),
        members(chain).disjoint(bitmap_area(geo, bm)),
        chain.len() > 0 ==> links(img, geo, chain, chain.len() - 1),
        chain.len() > 0 ==> fat_at(img, geo, chain.last() as int) is Ok,
        chain.len() > 0 ==> fat_at(img, geo, chain.last() as int)->Ok_0 != BAD_CLUSTER,
    ensures
        untorn(img, x, geo, bm, chain, whole, lo, hi),
{
    let cl = geo.cluster_len();
    let area = bitmap_area(geo, bm);
    let m = members(whole);
    confined_weaker(img, x, geo, fresh, area, m, area.union(m));
    assert forall|i: int| 0 <= i < chain.len() implies fat_at(x, geo, #[trigger] chain[i] as int)
        == fat_at(img, geo, chain[i] as int) by {
        assert(members(chain).contains(chain[i] as int));
        confined_links(img, x, geo, fresh, area, chain[i] as int);
    }
    if chain.len() > 0 {
        assert(chain[chain.len() - 1] == chain.last());
    }
    assert forall|q: int| 0 <= q < chain.len() * cl implies #[trigger] byte_in(x, geo, chain, q)
        == byte_in(img, geo, chain, q) by {
        lemma_index(q, cl, chain.len() as int);
        assert(members(chain).contains(chain[q / cl] as int));
        confined_bytes(img, x, geo, fresh, area, chain, q);
    }
}

/// While a file's chain is grown, nothing of the file changes.
proof fn lemma_growth_cuts(
    disk: Disk,
    geo: Geometry,
    bm: BitmapLoc,
    loc: LocModel,
    size: u64,
    lo: int,
    hi: int,
)
    requires
        placed(geo, disk.bytes.len()),
        bitmap_placed(geo, bm),
        contiguous_len(geo, loc) is None,
        loc_chain(disk.bytes, geo, loc) is Ok,
        chain_fits(
            disk.bytes,
            geo,
            bm,
            loc_chain(disk.bytes, geo, loc)->Ok_0,
            loc.data_len as int,
        ),
        members(loc_chain(disk.bytes, geo, loc)->Ok_0).disjoint(bitmap_area(geo, bm)),
        loc.data_len <= size,
        0 < size,
        chain_grown(
            disk,
            geo,
            bm,
            loc,
            loc_chain(disk.bytes, geo, loc)->Ok_0,
            size as int,
        ).1 is Ok,
    ensures
        ({
            let chain = loc_chain(disk.bytes, geo, loc)->Ok_0;
            let (d, r) = chain_grown(disk, geo, bm, loc, chain, size as int);
            let whole = r->Ok_0.1;
            all_cuts(
                disk,
                d,
                |x: Seq<u8>| untorn(disk.bytes, x, geo, bm, chain, whole, lo, hi),
            )
        }),
{
    let img = disk.bytes;
    let area = bitmap_area(geo, bm);
    let chain = loc_chain(img, geo, loc)->Ok_0;
    let old_need = cluster_need(geo, loc.data_len as int);
    let need = cluster_need(geo, size as int);
    let (d, r) = chain_grown(disk, geo, bm, loc, chain, size as int);
    let whole = r->Ok_0.1;
    let p = |x: Seq<u8>| untorn(img, x, geo, bm, chain, whole, lo, hi);
    lemma_need(geo, loc.data_len as int, size as int);
    if loc.data_len > 0 {
        chain_is_linked(img, geo, loc.first_cluster, 0, old_need, true);
    }
    if need == old_need {
        confined_refl(img, geo);
        confined_weaker(img, img, geo, Set::empty(), Set::empty(), Set::empty(), area);
        lemma_untorn_by_growth(img, img, geo, bm, chain, whole, Set::empty(), lo, hi);
        cuts_refl(disk, p);
    } else if chain.len() == 0 {
        assert forall|x: Seq<u8>| #[trigger] confined(
            img,
            x,
            geo,
            members(whole),
            area,
        ) implies p(x) by {
            lemma_untorn_by_growth(img, x, geo, bm, chain, whole, members(whole), lo, hi);
        }
        lemma_allocation_cuts(disk, geo, bm, need, p);
    } else {
        let n = need - old_need;
        let (da, ra) = allocation(disk, geo, bm, n);
        let fresh = ra->Ok_0;
        allocation_is_fresh(disk, geo, bm, n);
        extension_is_strung(disk, geo, bm, chain, n);
        assert(whole == chain + fresh);
        assert forall|c: int| members(fresh).contains(c) implies members(whole).contains(c) by {
            lemma_members_add(chain, fresh, c);
        }
        assert(members(chain).disjoint(members(fresh))) by {
            assert forall|c: int| members(chain).contains(c) implies !members(fresh).contains(c) by {
                let i = choose|i: int| 0 <= i < chain.len() && #[trigger] chain[i] as int == c;
                assert(in_use(img, geo, bm, chain[i] as int));
                if members(fresh).contains(c) {
                    let j = choose|j: int| 0 <= j < fresh.len() && #[trigger] fresh[j] as int == c;
                    assert(!in_use(img, geo, bm, fresh[j] as int));
                }
            }
        }
        assert forall|x: Seq<u8>| #[trigger] confined(
            img,
            x,
            geo,
            members(fresh),
            area,
        ) implies p(x) by {
            lemma_untorn_by_growth(img, x, geo, bm, chain, whole, members(fresh), lo, hi);
        }
        lemma_allocation_cuts(disk, geo, bm, n, p);
        let tail = chain.last() as int;
        assert(d == linked(da, geo, tail, fresh[0]).0);
        // The last step links the old end to the new clusters.
        assert(confined(img, da.bytes, geo, members(fresh), area));
        assert(p(da.bytes));
        lemma_len(img, da.bytes, geo, members(fresh), area);
        lemma_len(img, d.bytes, geo, members(whole), area);
        assert(chain[chain.len() - 1] == chain.last());
        assert(geo.has_cluster(tail));
        assert(p(d.bytes)) by {
            confined_weaker(
                img,
                d.bytes,
                geo,
                members(whole),
                area,
                members(whole),
                area.union(members(whole)),
            );
            assert forall|i: int| 0 <= i < chain.len() - 1 implies fat_at(
                d.bytes,
                geo,
                #[trigger] chain[i] as int,
            ) == Ok::<u32, ExFault>(next_of(chain, i)) by {
                assert(whole[i] == chain[i]);
                assert(fat_at(d.bytes, geo, whole[i] as int) == Ok::<u32, ExFault>(
                    next_of(whole, i),
                ));
            }
            let last = chain.len() - 1;
            assert(whole[last] == chain.last());
            assert(fat_at(d.bytes, geo, whole[last] as int) == Ok::<u32, ExFault>(
                next_of(whole, last),
            ));
            assert(whole[last + 1] == fresh[0]);
            assert(geo.has_cluster(fresh[0] as int));
            assert forall|q: int| 0 <= q < chain.len() * geo.cluster_len() implies #[trigger] byte_in(
                d.bytes,
                geo,
                chain,
                q,
            ) == byte_in(img, geo, chain, q) by {
                lemma_index(q, geo.cluster_len(), chain.len() as int);
                assert(members(chain).contains(chain[q / geo.cluster_len()] as int));
                confined_bytes(img, d.bytes, geo, members(whole), area, chain, q);
            }
        }
        linked_confined(da, geo, tail, fresh[0]);
        cuts_of_a_write(
            da,
            super::fat::fat_slot(geo, tail),
            crate::bytes::le32_bytes(fresh[0]),
            p,
        );
        cuts_trans(disk, da, d, p);
    }
}

/// Until its entry is written, a write leaves the file alone but for the bytes
/// it is to write.
pub proof fn data_stage_cuts(
    disk: Disk,
    geo: Geometry,
    bm: BitmapLoc,
    loc: LocModel,
    offset: u64,
    data: Seq<u8>,
)
    requires
        placed(geo, disk.bytes.len()),
        bitmap_placed(geo, bm),
        contiguous_len(geo, loc) is None,
        loc_chain(disk.bytes, geo, loc) is Ok,
        chain_fits(
            disk.bytes,
            geo,
            bm,
            loc_chain(disk.bytes, geo, loc)->Ok_0,
            loc.data_len as int,
        ),
        members(loc_chain(disk.bytes, geo, loc)->Ok_0).disjoint(bitmap_area(geo, bm)),
        data.len() > 0,
        offset + data.len() <= u64::MAX,
        data_stage(disk, geo, bm, loc, offset, data).1 is Ok,
    ensures
        ({
            let chain = loc_chain(disk.bytes, geo, loc)->Ok_0;
            let (d, r) = data_stage(disk, geo, bm, loc, offset, data);
            let whole = r->Ok_0.1;
            let lo = lesser(valid_of(loc) as int, offset as int);
            let hi = offset + data.len();
            all_cuts(
                disk,
                d,
                |x: Seq<u8>| untorn(disk.bytes, x, geo, bm, chain, whole, lo, hi),
            )
        }),
{
    let img = disk.bytes;
    let chain = loc_chain(img, geo, loc)->Ok_0;
    let size = size_after(loc.data_len, offset, data.len()) as u64;
    let lo = lesser(valid_of(loc) as int, offset as int);
    let hi = offset + data.len();
    grown_chain_is_read(disk, geo, bm, loc, size);
    let (d, r) = chain_grown(disk, geo, bm, loc, chain, size as int);
    let whole = r->Ok_0.1;
    let p = |x: Seq<u8>| untorn(img, x, geo, bm, chain, whole, lo, hi);
    lemma_growth_cuts(disk, geo, bm, loc, size, lo, hi);
    lemma_len(img, d.bytes, geo, members(whole), bitmap_area(geo, bm));
    super::format::lemma_parts(size as int, geo.cluster_len());
    lemma_last_cut(disk, d, p);
    let gap = if offset > valid_of(loc) {
        offset - valid_of(loc)
    } else {
        0
    };
    let pad = zeros(gap as nat);
    let what = "zero past chain"@;
    let d1 = range_from(d, geo, whole, valid_of(loc) as int, pad, 0, what).0;
    if gap > 0 {
        lemma_untorn_range(
            img,
            d.bytes,
            geo,
            bm,
            chain,
            whole,
            lo,
            hi,
            valid_of(loc) as int,
            offset as int,
        );
        lemma_range_cuts(d, geo, whole, valid_of(loc) as int, pad, 0, what, p);
    } else {
        cuts_refl(d, p);
    }
    lemma_last_cut(d, d1, p);
    lemma_len(img, d1.bytes, geo, members(whole), bitmap_area(geo, bm).union(members(whole)));
    lemma_untorn_range(img, d1.bytes, geo, bm, chain, whole, lo, hi, offset as int, hi);
    lemma_range_cuts(d1, geo, whole, offset as int, data, 0, "write past chain"@, p);
    let d2 = range_from(d1, geo, whole, offset as int, data, 0, "write past chain"@).0;
    super::contents::payload_reads_back(d, geo, whole, valid_of(loc), offset, data);
    assert(data_stage(disk, geo, bm, loc, offset, data).0 == d2);
    cuts_trans(disk, d, d1, p);
    cuts_trans(disk, d1, d2, p);
}

/// The last cut is what the disk holds in the end.
pub proof fn lemma_last_cut(before: Disk, after: Disk, p: spec_fn(Seq<u8>) -> bool)
    requires
        all_cuts(before, after, p),
    ensures
        p(after.bytes),
{
    let n = before.log.len() as int;
    let m = after.log.len() as int;
    assert(after.log.subrange(n, m) =~= after.log.skip(n));
    assert(p(replayed(before.bytes, after.log.subrange(n, m))));
}

/// A power cut in the course of a write leaves the file as it was or the write
/// done. The entry is published by one write, after a flush, and flushed in
/// turn. Before it, the path leads to the same entry, and the file reads as
/// before in every byte that the write does not replace; from it on, the disk
/// holds what it holds in the end. (A set whose File and stream entries lie in
/// two clusters is left out: its entry takes two writes.)
#[verifier::spinoff_prover]
#[verifier::rlimit(40)]
pub proof fn a_cut_of_a_write_leaves_the_old_or_the_new(
    disk: Disk,
    vol: Volume,
    path: Seq<char>,
    e: EntryModel,
    offset: u64,
    data: Seq<u8>,
    cut: int,
)
    requires
        sound_file(disk.bytes, vol, path, e),
        data.len() > 0,
        offset + data.len() <= u64::MAX,
        file_written(disk, vol, path, offset, data).1 is Ok,
        disk.log.len() <= cut <= file_written(disk, vol, path, offset, data).0.log.len(),
        existing(disk.bytes, vol, path) matches Ok(loc) && loc.offsets[1] == loc.offsets[0] + 32,
    ensures
        ({
            let after = file_written(disk, vol, path, offset, data).0;
            let x = replayed(disk.bytes, after.log.subrange(disk.log.len() as int, cut));
            let old = file_read(disk.bytes, vol.geo, e, 0, e.size as int);
            let now = file_read(x, vol.geo, e, 0, e.size as int);
            let n = after.log.len();
            let loc = existing(disk.bytes, vol, path)->Ok_0;
            &&& cut <= n - 2 ==> {
                &&& lookup_result(x, vol, path) == Ok::<Option<EntryModel>, ExFault>(Some(e))
                &&& old is Ok
                &&& now is Ok
                &&& old->Ok_0.len() == e.size
                &&& now->Ok_0.len() == e.size
                &&& forall|q: int|
                    0 <= q < e.size && !(offset <= q < offset + data.len())
                        ==> #[trigger] now->Ok_0[q] == old->Ok_0[q]
            }
            &&& cut > n - 2 ==> x == after.bytes
            &&& after.log[n - 3] is Flush
            &&& after.log[n - 2] matches DiskOp::Write { offset: o, .. } && o == loc.offsets[0]
            &&& after.log[n - 1] is Flush
        }),
{
    let lo = lesser(valid_in(e) as int, offset as int);
    let hi = offset + data.len();
    let (mid, o, bytes, whole) = lemma_write_parts(disk, vol, path, e, offset, data);
    let img = disk.bytes;
    let chain = file_chain(img, vol.geo, e)->Ok_0;
    let p = |x: Seq<u8>| untorn(img, x, vol.geo, vol.bitmap->Some_0, chain, whole, lo, hi);
    let after = file_written(disk, vol, path, offset, data).0;
    lemma_last_write(disk, mid, o, bytes, cut, p);
    let n = mid.log.len() as int;
    assert(after.log.take(n)[n - 1] == mid.log[n - 1]);
    if cut <= n {
        let x = replayed(img, after.log.subrange(disk.log.len() as int, cut));
        lemma_untorn_reads(img, x, vol, path, e, whole, lo, hi);
    }
}

/// A write, taken apart: what comes before its entry, and the entry's write.
#[verifier::spinoff_prover]
#[verifier::rlimit(40)]
pub proof fn lemma_write_parts(
    disk: Disk,
    vol: Volume,
    path: Seq<char>,
    e: EntryModel,
    offset: u64,
    data: Seq<u8>,
) -> (r: (Disk, int, Seq<u8>, Seq<u32>))
    requires
        sound_file(disk.bytes, vol, path, e),
        data.len() > 0,
        offset + data.len() <= u64::MAX,
        file_written(disk, vol, path, offset, data).1 is Ok,
        existing(disk.bytes, vol, path) matches Ok(loc) && loc.offsets[1] == loc.offsets[0] + 32,
    ensures
        ({
            let img = disk.bytes;
            let geo = vol.geo;
            let bm = vol.bitmap->Some_0;
            let chain = file_chain(img, geo, e)->Ok_0;
            let lo = lesser(valid_in(e) as int, offset as int);
            let hi = offset + data.len();
            let (mid, o, bytes, whole) = r;
            &&& all_cuts(disk, mid, |x: Seq<u8>| untorn(img, x, geo, bm, chain, whole, lo, hi))
            &&& mid.log.len() > 0
            &&& mid.log.last() is Flush
            &&& o == existing(img, vol, path)->Ok_0.offsets[0]
            &&& file_written(disk, vol, path, offset, data).0 == mid.written(o, bytes).flushed()
            &&& forall|c: int| #[trigger]
                members(whole).contains(c) ==> members(chain).contains(c) || !in_use(
                    img,
                    geo,
                    bm,
                    c,
                )
        }),
{
    let img = disk.bytes;
    let geo = vol.geo;
    let bm = vol.bitmap->Some_0;
    lemma_target(img, vol, path, e);
    let loc = existing(img, vol, path)->Ok_0;
    data_is_stored(disk, geo, bm, loc, offset, data);
    lemma_write_stages(disk, vol, path, loc, offset, data);
    let (mid, r) = data_stage(disk, geo, bm, loc, offset, data);
    let (first, whole) = r->Ok_0;
    let chain = file_chain(img, geo, e)->Ok_0;
    let lo = lesser(valid_of(loc) as int, offset as int);
    let hi = offset + data.len();
    let p = |x: Seq<u8>| untorn(img, x, geo, bm, chain, whole, lo, hi);
    data_stage_cuts(disk, geo, bm, loc, offset, data);
    lemma_last_cut(disk, mid, p);
    let d3 = mid.flushed();
    cuts_of_a_flush(mid, p);
    cuts_trans(disk, mid, d3, p);
    lemma_entry_rewritten(disk, d3, vol, path, e, loc, offset, data, first, whole);
    let size = size_after(e.size, offset, data.len()) as u64;
    let valid = valid_after(e, offset, data.len());
    let (o, bytes) = lemma_entry_log(d3, loc, first, size, valid, 0x01);
    (d3, o, bytes, whole)
}

/// Where one write and a flush come last, every cut before the write is one of
/// what came before, and every other one is what the disk holds in the end.
pub proof fn lemma_last_write(
    disk: Disk,
    mid: Disk,
    o: int,
    bytes: Seq<u8>,
    cut: int,
    p: spec_fn(Seq<u8>) -> bool,
)
    requires
        all_cuts(disk, mid, p),
        disk.log.len() <= cut <= mid.log.len() + 2,
    ensures
        ({
            let after = mid.written(o, bytes).flushed();
            let n = mid.log.len() as int;
            let x = replayed(disk.bytes, after.log.subrange(disk.log.len() as int, cut));
            &&& after.log.len() == n + 2
            &&& after.log.take(n) == mid.log
            &&& after.log[n] == (DiskOp::Write { offset: o, data: bytes })
            &&& after.log[n + 1] is Flush
            &&& cut <= n ==> p(x)
            &&& cut > n ==> x == after.bytes
        }),
{
    let n0 = disk.log.len() as int;
    let d4 = mid.written(o, bytes);
    let after = d4.flushed();
    let any = |x: Seq<u8>| true;
    assert(all_cuts(disk, mid, any));
    cuts_of_a_write(mid, o, bytes, any);
    cuts_trans(disk, mid, d4, any);
    cuts_of_a_flush(d4, any);
    cuts_trans(disk, d4, after, any);
    assert(after.log =~= mid.log.push(DiskOp::Write { offset: o, data: bytes }).push(DiskOp::Flush));
    assert(after.log.take(mid.log.len() as int) =~= mid.log);
    if cut <= mid.log.len() {
        assert(after.log.subrange(n0, cut) =~= mid.log.subrange(n0, cut));
        assert(p(replayed(disk.bytes, mid.log.subrange(n0, cut))));
    } else if cut == d4.log.len() {
        assert(after.log.subrange(n0, cut) =~= d4.log.skip(n0));
    } else {
        assert(after.log.subrange(n0, cut) =~= after.log.skip(n0));
    }
}

/// A set rewritten in slots that lie side by side is one write.
pub proof fn lemma_entry_log(
    d: Disk,
    loc: LocModel,
    first: u32,
    size: u64,
    valid: u64,
    flags: u8,
) -> (r: (int, Seq<u8>))
    requires
        restreamed(d, loc, first, size, valid, flags).1 is Ok,
        loc.offsets[1] == loc.offsets[0] + 32,
    ensures
        restreamed(d, loc, first, size, valid, flags).0 == d.written(r.0, r.1),
        r.0 == loc.offsets[0],
{
    let raws = raws_from(d.bytes, loc.offsets, 0)->Ok_0;
    let stream = stream_with(raws[1], first, size, valid, flags);
    let set = raws.update(1, stream);
    let file = splice(raws[0], 2, le16_bytes(set_sum(set, (32 * set.len()) as nat)));
    (loc.offsets[0] as int, file + stream)
}

/// A file that a write in progress has left alone is found and read.
proof fn lemma_untorn_reads(
    img: Seq<u8>,
    x: Seq<u8>,
    vol: Volume,
    path: Seq<char>,
    e: EntryModel,
    whole: Seq<u32>,
    lo: int,
    hi: int,
)
    requires
        sound_file(img, vol, path, e),
        untorn(
            img,
            x,
            vol.geo,
            vol.bitmap->Some_0,
            file_chain(img, vol.geo, e)->Ok_0,
            whole,
            lo,
            hi,
        ),
        forall|c: int| #[trigger]
            members(whole).contains(c) ==> members(file_chain(img, vol.geo, e)->Ok_0).contains(c)
                || !in_use(img, vol.geo, vol.bitmap->Some_0, c),
    ensures
        lookup_result(x, vol, path) == Ok::<Option<EntryModel>, ExFault>(Some(e)),
        ({
            let old = file_read(img, vol.geo, e, 0, e.size as int);
            let now = file_read(x, vol.geo, e, 0, e.size as int);
            &&& old is Ok
            &&& now is Ok
            &&& old->Ok_0.len() == e.size
            &&& now->Ok_0.len() == e.size
            &&& forall|q: int|
                0 <= q < e.size && (!(lo <= q < hi) || q >= e.valid_size) ==> #[trigger] now->Ok_0[q]
                    == old->Ok_0[q]
        }),
{
    let geo = vol.geo;
    let bm = vol.bitmap->Some_0;
    let m = members(whole);
    let both = bitmap_area(geo, bm).union(m);
    let chain = file_chain(img, geo, e)->Ok_0;
    let home = home_of(img, vol, path);
    lemma_fresh_apart(img, vol, path, e, whole);
    lemma_len(img, x, geo, m, both);
    lemma_lookup_stays(img, x, vol, path, m, both);
    if e.size > 0 {
        lemma_need(geo, 0, e.size as int);
        chain_is_linked(img, geo, e.first_cluster, 0, chain.len() as int, true);
        lemma_reads_back(x, geo, chain, 0, chain.len() as int, true);
        assert(chain.skip(0) =~= chain);
        assert(file_chain(x, geo, e) == Ok::<Seq<u32>, ExFault>(chain));
        super::format::lemma_parts(e.size as int, geo.cluster_len());
        file_bytes_are_the_chains(img, geo, e, chain, 0, e.size as int);
        file_bytes_are_the_chains(x, geo, e, chain, 0, e.size as int);
        let old = file_read(img, geo, e, 0, e.size as int)->Ok_0;
        let now = file_read(x, geo, e, 0, e.size as int)->Ok_0;
        assert forall|q: int|
            0 <= q < e.size && (!(lo <= q < hi) || q >= e.valid_size) implies #[trigger] now[q]
            == old[q] by {
            if !(lo <= q < hi) {
                assert(byte_in(x, geo, chain, q) == byte_in(img, geo, chain, q));
            }
        }
    }
}

/// A change that leaves all directories on the way alone leaves the lookup
/// alone.
pub proof fn lemma_lookup_stays(
    img: Seq<u8>,
    x: Seq<u8>,
    vol: Volume,
    path: Seq<char>,
    words: Set<int>,
    clusters: Set<int>,
)
    requires
        sound_way(img, vol, path),
        confined(img, x, vol.geo, words, clusters),
        home_clusters(img, vol, path).disjoint(words),
        home_clusters(img, vol, path).disjoint(clusters),
        upper_clusters(img, vol, path).disjoint(words),
        upper_clusters(img, vol, path).disjoint(clusters),
    ensures
        lookup_result(x, vol, path) == lookup_result(img, vol, path),
{
    let comps = components(parent_of(path));
    let home = home_of(img, vol, path);
    a_path_is_its_directory_and_its_name(path);
    lemma_way_end(img, vol, comps, 0, None);
    way_stays(img, x, vol, words, clusters, comps, 0, None);
    dir_stays(img, x, vol, words, clusters, home);
    lookup_goes_through(img, vol, comps, leaf_of(path), 0, None);
    lookup_goes_through(x, vol, comps, leaf_of(path), 0, None);
}

} // verus!
