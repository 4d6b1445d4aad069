//! The areas of a volume that a write may touch: words of the table, and
//! clusters of the heap. No two of them overlap.

use vstd::prelude::*;

use super::boot::{lemma_offset_bound, Geometry};
use super::clusters::{allocated, bitmap_slot, bits_are_independent, linked, marked, with_bit};
use super::fat::{fat_at, fat_slot, lemma_fat_slot, BAD_CLUSTER};
use super::fs::BitmapLoc;
use super::io::ExFault;
use super::upcase::parts;
use crate::bytes::{le32, le32_bytes, read_32, slice_of, splice};
use crate::device::Disk;

verus! {

broadcast use crate::bytes::group_widths;

/// Whether the table lies before the heap, the heap within a volume of `len`
/// bytes, and no cluster has a number that means something else in the table.
pub open spec fn placed(geo: Geometry, len: nat) -> bool {
    &&& geo.wf()
    &&& geo.cluster_count + 2 <= BAD_CLUSTER
    &&& geo.bytes_per_sector * geo.fat_offset_sectors + 4 * (geo.cluster_count + 2)
        <= geo.cluster_start(2)
    &&& geo.cluster_start(2) + geo.cluster_count * geo.cluster_len() <= len
}

/// The table's word for a cluster, as it is stored.
pub open spec fn word_of(img: Seq<u8>, geo: Geometry, c: int) -> Seq<u8> {
    slice_of(img, fat_slot(geo, c), 4)
}

/// What a cluster holds.
pub open spec fn cluster_of(img: Seq<u8>, geo: Geometry, c: int) -> Seq<u8> {
    slice_of(img, geo.cluster_start(c), geo.cluster_len())
}

/// Whether a volume's heap and table changed at most in the words for `words`
/// and in what `clusters` hold.
#[verifier::opaque]
pub open spec fn confined(
    before: Seq<u8>,
    after: Seq<u8>,
    geo: Geometry,
    words: Set<int>,
    clusters: Set<int>,
) -> bool {
    &&& after.len() == before.len()
    &&& forall|c: int|
        geo.has_cluster(c) && !words.contains(c) ==> #[trigger] word_of(after, geo, c) == word_of(
            before,
            geo,
            c,
        )
    &&& forall|c: int|
        geo.has_cluster(c) && !clusters.contains(c) ==> #[trigger] cluster_of(after, geo, c)
            == cluster_of(before, geo, c)
}

/// The clusters of a chain.
pub open spec fn members(chain: Seq<u32>) -> Set<int> {
    Set::new(|c: int| exists|i: int| 0 <= i < chain.len() && #[trigger] chain[i] as int == c)
}

/// Clusters lie apart, in order, behind the table and within the volume.
pub proof fn cluster_place(geo: Geometry, len: nat, c: int)
    requires
        placed(geo, len),
        geo.has_cluster(c),
    ensures
        geo.cluster_start(2) <= geo.cluster_start(c),
        geo.cluster_start(c) + geo.cluster_len() <= len,
        0 <= fat_slot(geo, c),
        fat_slot(geo, c) + 4 <= geo.cluster_start(2),
        512 <= geo.cluster_len(),
        geo.cluster_start(c) < 0x400_0000_0000_0000,
{
    let cl = geo.cluster_len();
    lemma_offset_bound(geo, c);
    lemma_fat_slot(geo, c);
    assert((c - 2) * cl + cl <= geo.cluster_count * cl) by (nonlinear_arith)
        requires
            c - 2 + 1 <= geo.cluster_count,
            cl > 0,
    ;
}

/// Two clusters do not overlap.
pub proof fn clusters_apart(geo: Geometry, a: int, b: int)
    requires
        geo.wf(),
        a < b,
    ensures
        geo.cluster_start(a) + geo.cluster_len() <= geo.cluster_start(b),
{
    let cl = geo.cluster_len();
    assert((a - 2) * cl + cl <= (b - 2) * cl) by (nonlinear_arith)
        requires
            a + 1 <= b,
            cl > 0,
    ;
}

pub proof fn confined_refl(img: Seq<u8>, geo: Geometry)
    ensures
        confined(img, img, geo, Set::empty(), Set::empty()),
{
    reveal(confined);
}

/// Changes add up.
pub proof fn confined_trans(
    a: Seq<u8>,
    b: Seq<u8>,
    c: Seq<u8>,
    geo: Geometry,
    w1: Set<int>,
    c1: Set<int>,
    w2: Set<int>,
    c2: Set<int>,
)
    requires
        confined(a, b, geo, w1, c1),
        confined(b, c, geo, w2, c2),
    ensures
        confined(a, c, geo, w1.union(w2), c1.union(c2)),
{
    reveal(confined);
    assert forall|k: int|
        geo.has_cluster(k) && !w1.union(w2).contains(k) implies #[trigger] word_of(c, geo, k)
        == word_of(a, geo, k) by {
        assert(word_of(b, geo, k) == word_of(a, geo, k));
    }
    assert forall|k: int|
        geo.has_cluster(k) && !c1.union(c2).contains(k) implies #[trigger] cluster_of(c, geo, k)
        == cluster_of(a, geo, k) by {
        assert(cluster_of(b, geo, k) == cluster_of(a, geo, k));
    }
}

/// What is confined to less is confined to more.
pub proof fn confined_weaker(
    a: Seq<u8>,
    b: Seq<u8>,
    geo: Geometry,
    w1: Set<int>,
    c1: Set<int>,
    w2: Set<int>,
    c2: Set<int>,
)
    requires
        confined(a, b, geo, w1, c1),
        w1.subset_of(w2),
        c1.subset_of(c2),
    ensures
        confined(a, b, geo, w2, c2),
{
    reveal(confined);
}

/// Writing a word of the table touches that word alone.
pub proof fn word_put(img: Seq<u8>, geo: Geometry, c: int, data: Seq<u8>)
    requires
        placed(geo, img.len()),
        geo.has_cluster(c),
        data.len() == 4,
    ensures
        confined(
            img,
            splice(img, fat_slot(geo, c), data),
            geo,
            Set::empty().insert(c),
            Set::empty(),
        ),
        word_of(splice(img, fat_slot(geo, c), data), geo, c) == data,
{
    reveal(confined);
    let after = splice(img, fat_slot(geo, c), data);
    cluster_place(geo, img.len(), c);
    assert(word_of(after, geo, c) =~= data);
    assert forall|k: int|
        geo.has_cluster(k) && !Set::<int>::empty().insert(c).contains(k) implies #[trigger] word_of(
        after,
        geo,
        k,
    ) == word_of(img, geo, k) by {
        cluster_place(geo, img.len(), k);
        assert(word_of(after, geo, k) =~= word_of(img, geo, k));
    }
    assert forall|k: int| geo.has_cluster(k) implies #[trigger] cluster_of(after, geo, k)
        == cluster_of(img, geo, k) by {
        cluster_place(geo, img.len(), k);
        assert(cluster_of(after, geo, k) =~= cluster_of(img, geo, k));
    }
}

/// Writing within a cluster touches that cluster alone.
pub proof fn cluster_put(img: Seq<u8>, geo: Geometry, c: int, within: int, data: Seq<u8>)
    requires
        placed(geo, img.len()),
        geo.has_cluster(c),
        0 <= within,
        within + data.len() <= geo.cluster_len(),
    ensures
        confined(
            img,
            splice(img, geo.cluster_start(c) + within, data),
            geo,
            Set::empty(),
            Set::empty().insert(c),
        ),
        cluster_of(splice(img, geo.cluster_start(c) + within, data), geo, c) == splice(
            cluster_of(img, geo, c),
            within,
            data,
        ),
{
    reveal(confined);
    let after = splice(img, geo.cluster_start(c) + within, data);
    cluster_place(geo, img.len(), c);
    assert(cluster_of(after, geo, c) =~= splice(cluster_of(img, geo, c), within, data));
    assert forall|k: int| geo.has_cluster(k) implies #[trigger] word_of(after, geo, k) == word_of(
        img,
        geo,
        k,
    ) by {
        cluster_place(geo, img.len(), k);
        assert(word_of(after, geo, k) =~= word_of(img, geo, k));
    }
    assert forall|k: int|
        geo.has_cluster(k) && !Set::<int>::empty().insert(c).contains(
            k,
        ) implies #[trigger] cluster_of(after, geo, k) == cluster_of(img, geo, k) by {
        cluster_place(geo, img.len(), k);
        if k < c {
            clusters_apart(geo, k, c);
        } else {
            clusters_apart(geo, c, k);
        }
        assert(cluster_of(after, geo, k) =~= cluster_of(img, geo, k));
    }
}

/// A table entry is what its word says.
pub proof fn fat_at_word(img: Seq<u8>, geo: Geometry, c: int)
    requires
        placed(geo, img.len()),
        geo.has_cluster(c),
    ensures
        fat_at(img, geo, c) == Ok::<u32, ExFault>(le32(word_of(img, geo, c), 0)),
{
    cluster_place(geo, img.len(), c);
    crate::bytes::le32_of_slice(img, fat_slot(geo, c));
}

/// Linking a cluster succeeds, touches its word alone, and is read back.
pub proof fn linked_confined(disk: Disk, geo: Geometry, c: int, value: u32)
    requires
        placed(geo, disk.bytes.len()),
        geo.has_cluster(c),
    ensures
        linked(disk, geo, c, value).1 is Ok,
        linked(disk, geo, c, value).0.fixed == disk.fixed,
        confined(
            disk.bytes,
            linked(disk, geo, c, value).0.bytes,
            geo,
            Set::empty().insert(c),
            Set::empty(),
        ),
        fat_at(linked(disk, geo, c, value).0.bytes, geo, c) == Ok::<u32, ExFault>(value),
{
    let img = disk.bytes;
    let after = splice(img, fat_slot(geo, c), le32_bytes(value));
    cluster_place(geo, img.len(), c);
    word_put(img, geo, c, le32_bytes(value));
    assert(after.len() == img.len());
    fat_at_word(after, geo, c);
    let w = word_of(after, geo, c);
    assert(slice_of(w, 0, 4) =~= w);
    read_32(w, 0, value);
}

/// Links of other clusters stay.
pub proof fn confined_links(
    a: Seq<u8>,
    b: Seq<u8>,
    geo: Geometry,
    words: Set<int>,
    clusters: Set<int>,
    c: int,
)
    requires
        confined(a, b, geo, words, clusters),
        placed(geo, a.len()),
        !words.contains(c),
    ensures
        fat_at(b, geo, c) == fat_at(a, geo, c),
{
    reveal(confined);
    if geo.has_cluster(c) {
        fat_at_word(a, geo, c);
        fat_at_word(b, geo, c);
        assert(word_of(b, geo, c) == word_of(a, geo, c));
    }
}

/// The clusters that the bitmap fills.
pub open spec fn bitmap_area(geo: Geometry, bm: BitmapLoc) -> Set<int> {
    Set::new(
        |c: int|
            bm.first_cluster <= c < bm.first_cluster + parts(
                bm.length_bytes as int,
                geo.cluster_len(),
            ),
    )
}

/// Whether the bitmap has a bit for every cluster, and lies within the heap.
pub open spec fn bitmap_placed(geo: Geometry, bm: BitmapLoc) -> bool {
    &&& 2 <= bm.first_cluster
    &&& bm.first_cluster + parts(bm.length_bytes as int, geo.cluster_len()) <= geo.cluster_count + 2
    &&& geo.cluster_count <= 8 * bm.length_bytes
}

/// Whether the bitmap says that a cluster is in use.
#[verifier::opaque]
pub open spec fn in_use(img: Seq<u8>, geo: Geometry, bm: BitmapLoc, c: int) -> bool {
    allocated(img, geo, bm, c) == Ok::<bool, ExFault>(true)
}

/// The cluster in which the bitmap byte of a cluster lies, and its place there.
spec fn bit_home(geo: Geometry, bm: BitmapLoc, c: int) -> (int, int) {
    let index = (c - 2) / 8;
    (bm.first_cluster + index / geo.cluster_len(), index % geo.cluster_len())
}

proof fn lemma_bit_home(geo: Geometry, len: nat, bm: BitmapLoc, c: int)
    requires
        placed(geo, len),
        bitmap_placed(geo, bm),
        geo.has_cluster(c),
    ensures
        ({
            let (home, within) = bit_home(geo, bm, c);
            &&& bitmap_area(geo, bm).contains(home)
            &&& geo.has_cluster(home)
            &&& 0 <= within < geo.cluster_len()
            &&& bitmap_slot(geo, bm, c) == Ok::<int, ExFault>(geo.cluster_start(home) + within)
            &&& geo.cluster_start(home) + within < len
        }),
{
    let cl = geo.cluster_len();
    let index = (c - 2) / 8;
    let n = bm.length_bytes as int;
    let q = index / cl;
    let (home, within) = bit_home(geo, bm, c);
    vstd::arithmetic::div_mod::lemma_fundamental_div_mod(index, cl);
    vstd::arithmetic::div_mod::lemma_fundamental_div_mod(n + cl - 1, cl);
    let p = parts(n, cl);
    assert(0 <= within < cl && 0 <= q) by (nonlinear_arith)
        requires
            within == index % cl,
            q == index / cl,
            index >= 0,
            cl > 0,
    ;
    let m = (n + cl - 1) % cl;
    assert(0 <= m < cl) by (nonlinear_arith)
        requires
            m == (n + cl - 1) % cl,
            cl > 0,
    ;
    assert(q < p) by (nonlinear_arith)
        requires
            cl * q + within == index,
            cl * p + m == n + cl - 1,
            index < n,
            0 <= within,
            m < cl,
            cl > 0,
    ;
    assert((home - 2) * cl == (bm.first_cluster - 2) * cl + cl * q) by (nonlinear_arith)
        requires
            home == bm.first_cluster + q,
    ;
    cluster_place(geo, len, home);
}

/// A cluster's bit depends only on what the bitmap's clusters hold.
pub proof fn confined_bits(
    a: Seq<u8>,
    b: Seq<u8>,
    geo: Geometry,
    bm: BitmapLoc,
    words: Set<int>,
    clusters: Set<int>,
    c: int,
)
    requires
        confined(a, b, geo, words, clusters),
        placed(geo, a.len()),
        bitmap_placed(geo, bm),
        geo.has_cluster(c),
        clusters.disjoint(bitmap_area(geo, bm)),
    ensures
        in_use(b, geo, bm, c) == in_use(a, geo, bm, c),
{
    reveal(confined);
    reveal(in_use);
    lemma_bit_home(geo, a.len(), bm, c);
    let (home, within) = bit_home(geo, bm, c);
    assert(cluster_of(b, geo, home) == cluster_of(a, geo, home));
    cluster_place(geo, a.len(), home);
    let at = geo.cluster_start(home) + within;
    assert(cluster_of(a, geo, home)[within] == a[at]);
    assert(cluster_of(b, geo, home)[within] == b[at]);
}

/// Whether a cluster is in use is always known.
pub proof fn bits_are_there(img: Seq<u8>, geo: Geometry, bm: BitmapLoc, c: int)
    requires
        placed(geo, img.len()),
        bitmap_placed(geo, bm),
        geo.has_cluster(c),
    ensures
        allocated(img, geo, bm, c) is Ok,
{
    lemma_bit_home(geo, img.len(), bm, c);
}

/// Marking a cluster succeeds, touches the bitmap alone, and changes what it
/// says of that cluster alone.
pub proof fn marked_confined(disk: Disk, geo: Geometry, bm: BitmapLoc, c: int, on: bool)
    requires
        placed(geo, disk.bytes.len()),
        bitmap_placed(geo, bm),
        geo.has_cluster(c),
    ensures
        marked(disk, geo, bm, c, on).1 is Ok,
        marked(disk, geo, bm, c, on).0.fixed == disk.fixed,
        confined(
            disk.bytes,
            marked(disk, geo, bm, c, on).0.bytes,
            geo,
            Set::empty(),
            bitmap_area(geo, bm),
        ),
        in_use(marked(disk, geo, bm, c, on).0.bytes, geo, bm, c) == on,
        forall|k: int|
            geo.has_cluster(k) && k != c ==> #[trigger] in_use(
                marked(disk, geo, bm, c, on).0.bytes,
                geo,
                bm,
                k,
            ) == in_use(disk.bytes, geo, bm, k),
{
    reveal(in_use);
    let img = disk.bytes;
    lemma_bit_home(geo, img.len(), bm, c);
    let (home, within) = bit_home(geo, bm, c);
    let at = geo.cluster_start(home) + within;
    cluster_place(geo, img.len(), home);
    assert(img.subrange(at, at + 1)[0] == img[at]);
    let byte = seq![with_bit(img[at], c, on)];
    let after = splice(img, at, byte);
    assert(marked(disk, geo, bm, c, on).0.bytes == after);
    cluster_put(img, geo, home, within, byte);
    confined_weaker(
        img,
        after,
        geo,
        Set::empty(),
        Set::empty().insert(home),
        Set::empty(),
        bitmap_area(geo, bm),
    );
    assert(after.subrange(at, at + 1)[0] == after[at]);
    bits_are_independent(img[at], c, c, on);
    assert forall|k: int| geo.has_cluster(k) && k != c implies #[trigger] in_use(after, geo, bm, k)
        == in_use(img, geo, bm, k) by {
        lemma_bit_home(geo, img.len(), bm, k);
        let (home2, within2) = bit_home(geo, bm, k);
        let at2 = geo.cluster_start(home2) + within2;
        cluster_place(geo, img.len(), home2);
        assert(after.subrange(at2, at2 + 1)[0] == after[at2]);
        assert(img.subrange(at2, at2 + 1)[0] == img[at2]);
        let (i, j) = ((c - 2) / 8, (k - 2) / 8);
        assert(at == geo.cluster_start(bm.first_cluster as int) + i);
        assert(at2 == geo.cluster_start(bm.first_cluster as int) + j);
        if at2 == at {
            bits_are_independent(img[at], c, k, on);
            assert(i == j);
            assert((c - 2) % 8 != (k - 2) % 8);
        } else {
            assert(after[at2] == img[at2]);
        }
    }
}

} // verus!
