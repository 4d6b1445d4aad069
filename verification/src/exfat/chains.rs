//! What allocation does to chains: the clusters taken were free, and the chain
//! that was strung is the chain that is read.

use vstd::prelude::*;

use super::areas::{
    bitmap_area, bitmap_placed, bits_are_there, confined, confined_bits, confined_links,
    confined_refl, confined_trans, confined_weaker, in_use, linked_confined, marked_confined,
    members, placed,
};
use super::boot::Geometry;
use super::clusters::{
    allocation, doomed_from, extension, free_from, freed, linked, marked, strung, taken, tried,
};
use super::fat::{chain_from, chain_of, fat_at, BAD_CLUSTER, END_OF_CHAIN};
use super::fs::BitmapLoc;
use super::io::ExFault;
use super::write::{chain_grown, cluster_need, contiguous_len, loc_chain, LocModel};
use crate::device::Disk;

verus! {

/// Whether every cluster of a list is one of the heap's.
pub open spec fn all_exist(geo: Geometry, chain: Seq<u32>) -> bool {
    forall|i: int| 0 <= i < chain.len() ==> geo.has_cluster(#[trigger] chain[i] as int)
}

/// What an allocation says that finds no free cluster.
pub open spec fn full() -> ExFault {
    ExFault::Invalid("no free clusters"@)
}

pub proof fn lemma_free(img: Seq<u8>, geo: Geometry, bm: BitmapLoc, hint: int, i: int)
    requires
        0 <= i,
        placed(geo, img.len()),
        bitmap_placed(geo, bm),
    ensures
        free_from(img, geo, bm, hint, i) matches Ok(c) ==> geo.has_cluster(c as int) && !in_use(
            img,
            geo,
            bm,
            c as int,
        ),
        free_from(img, geo, bm, hint, i) matches Err(f) ==> f == full(),
    decreases geo.cluster_count - i,
{
    if i < geo.cluster_count {
        let c = tried(geo, hint, i);
        assert(geo.has_cluster(c)) by {
            let n = geo.cluster_count as int;
            let x = hint - 2 + i;
            assert(0 <= x % n < n) by (nonlinear_arith)
                requires
                    n > 0,
            ;
        }
        reveal(in_use);
        bits_are_there(img, geo, bm, c);
        lemma_free(img, geo, bm, hint, i + 1);
    }
}

/// The clusters an allocation takes exist, were free, and are each taken once;
/// then they are in use, and nothing else changed.
pub proof fn taken_clusters_were_free(disk: Disk, geo: Geometry, bm: BitmapLoc, n: int)
    requires
        placed(geo, disk.bytes.len()),
        bitmap_placed(geo, bm),
    ensures
        taken(disk, geo, bm, n).1 matches Ok(s) ==> {
            let after = taken(disk, geo, bm, n).0;
            &&& s.len() == (if n > 0 {
                n
            } else {
                0
            })
            &&& after.fixed == disk.fixed
            &&& confined(disk.bytes, after.bytes, geo, Set::empty(), bitmap_area(geo, bm))
            &&& all_exist(geo, s)
            &&& s.no_duplicates()
            &&& forall|i: int|
                0 <= i < s.len() ==> !in_use(disk.bytes, geo, bm, #[trigger] s[i] as int)
            &&& forall|k: int|
                geo.has_cluster(k) ==> #[trigger] in_use(after.bytes, geo, bm, k) == (in_use(
                    disk.bytes,
                    geo,
                    bm,
                    k,
                ) || members(s).contains(k))
        },
        taken(disk, geo, bm, n).1 matches Err(f) ==> f == full(),
    decreases n,
{
    if n <= 0 {
        confined_refl(disk.bytes, geo);
        confined_weaker(
            disk.bytes,
            disk.bytes,
            geo,
            Set::empty(),
            Set::empty(),
            Set::empty(),
            bitmap_area(geo, bm),
        );
    } else {
        taken_clusters_were_free(disk, geo, bm, n - 1);
        let d = taken(disk, geo, bm, n - 1).0;
        let s = taken(disk, geo, bm, n - 1).1->Ok_0;
        let hint = if s.len() == 0 {
            2
        } else {
            s.last() + 1
        };
        if taken(disk, geo, bm, n - 1).1 is Ok {
            lemma_len(disk.bytes, d.bytes, geo, Set::empty(), bitmap_area(geo, bm));
            lemma_free(d.bytes, geo, bm, hint, 0);
        }
        if taken(disk, geo, bm, n - 1).1 is Ok && free_from(d.bytes, geo, bm, hint, 0) is Ok {
            let c = free_from(d.bytes, geo, bm, hint, 0)->Ok_0;
            marked_confined(d, geo, bm, c as int, true);
            let d2 = marked(d, geo, bm, c as int, true).0;
            confined_trans(
                disk.bytes,
                d.bytes,
                d2.bytes,
                geo,
                Set::empty(),
                bitmap_area(geo, bm),
                Set::empty(),
                bitmap_area(geo, bm),
            );
            assert(Set::<int>::empty().union(Set::empty()) =~= Set::empty());
            assert(bitmap_area(geo, bm).union(bitmap_area(geo, bm)) =~= bitmap_area(geo, bm));
            let t = s.push(c);
            assert(!in_use(d.bytes, geo, bm, c as int));
            assert forall|i: int| 0 <= i < s.len() implies s[i] != c by {
                assert(members(s).contains(s[i] as int));
            }
            assert(t.no_duplicates());
            assert forall|i: int| 0 <= i < t.len() implies !in_use(
                disk.bytes,
                geo,
                bm,
                #[trigger] t[i] as int,
            ) by {
                if i < s.len() {
                    assert(t[i] == s[i]);
                } else {
                    assert(t[i] == c);
                }
            }
            assert forall|k: int| geo.has_cluster(k) implies #[trigger] in_use(
                d2.bytes,
                geo,
                bm,
                k,
            ) == (in_use(disk.bytes, geo, bm, k) || members(t).contains(k)) by {
                assert(in_use(d.bytes, geo, bm, k) == (in_use(disk.bytes, geo, bm, k) || members(
                    s,
                ).contains(k)));
                lemma_members_push(s, c, k);
            }
        }
    }
}

proof fn lemma_members_push(s: Seq<u32>, c: u32, k: int)
    ensures
        members(s.push(c)).contains(k) == (members(s).contains(k) || k == c),
{
    let t = s.push(c);
    if members(s).contains(k) {
        let i = choose|i: int| 0 <= i < s.len() && #[trigger] s[i] as int == k;
        assert(t[i] == s[i]);
    }
    if k == c {
        assert(t[s.len() as int] == c);
    }
    if members(t).contains(k) {
        let i = choose|i: int| 0 <= i < t.len() && #[trigger] t[i] as int == k;
        if i < s.len() {
            assert(s[i] == t[i]);
        }
    }
}

pub proof fn lemma_len(
    a: Seq<u8>,
    b: Seq<u8>,
    geo: Geometry,
    words: Set<int>,
    clusters: Set<int>,
)
    requires
        confined(a, b, geo, words, clusters),
    ensures
        a.len() == b.len(),
{
    reveal(confined);
}

/// What the table should say of the `i`-th cluster of a chain.
pub open spec fn next_of(chain: Seq<u32>, i: int) -> u32 {
    if i + 1 == chain.len() {
        END_OF_CHAIN
    } else {
        chain[i + 1]
    }
}

/// Whether the table links the first `n` clusters of a chain as it should.
pub open spec fn links(img: Seq<u8>, geo: Geometry, chain: Seq<u32>, n: int) -> bool {
    forall|i: int|
        0 <= i < n ==> fat_at(img, geo, #[trigger] chain[i] as int) == Ok::<u32, ExFault>(
            next_of(chain, i),
        )
}

/// Stringing a chain succeeds, touches the words of its clusters alone, and
/// links them.
pub proof fn strung_chain_is_linked(disk: Disk, geo: Geometry, chain: Seq<u32>, n: int)
    requires
        placed(geo, disk.bytes.len()),
        all_exist(geo, chain),
        chain.no_duplicates(),
        0 <= n <= chain.len(),
    ensures
        strung(disk, geo, chain, n).1 is Ok,
        strung(disk, geo, chain, n).0.fixed == disk.fixed,
        confined(
            disk.bytes,
            strung(disk, geo, chain, n).0.bytes,
            geo,
            members(chain),
            Set::empty(),
        ),
        links(strung(disk, geo, chain, n).0.bytes, geo, chain, n),
    decreases n,
{
    let m = members(chain);
    if n == 0 {
        confined_refl(disk.bytes, geo);
        confined_weaker(disk.bytes, disk.bytes, geo, Set::empty(), Set::empty(), m, Set::empty());
    } else {
        strung_chain_is_linked(disk, geo, chain, n - 1);
        let d = strung(disk, geo, chain, n - 1).0;
        let c = chain[n - 1] as int;
        lemma_len(disk.bytes, d.bytes, geo, m, Set::empty());
        linked_confined(d, geo, c, next_of(chain, n - 1));
        let d2 = linked(d, geo, c, next_of(chain, n - 1)).0;
        let one = Set::<int>::empty().insert(c);
        confined_trans(disk.bytes, d.bytes, d2.bytes, geo, m, Set::empty(), one, Set::empty());
        assert(m.union(one) =~= m);
        assert(Set::<int>::empty().union(Set::empty()) =~= Set::empty());
        assert forall|i: int| 0 <= i < n implies fat_at(d2.bytes, geo, #[trigger] chain[i] as int)
            == Ok::<u32, ExFault>(next_of(chain, i)) by {
            if i < n - 1 {
                assert(chain[i] != chain[n - 1]);
                confined_links(d.bytes, d2.bytes, geo, one, Set::empty(), chain[i] as int);
            }
        }
    }
}

/// A chain whose clusters are linked reads back as it is, from its `i`-th
/// cluster on, if the reader stops at its length or the table ends it.
pub proof fn lemma_reads_back(
    img: Seq<u8>,
    geo: Geometry,
    chain: Seq<u32>,
    i: int,
    cap: int,
    bounded: bool,
)
    requires
        placed(geo, img.len()),
        all_exist(geo, chain),
        0 <= i < chain.len(),
        links(img, geo, chain, chain.len() - 1),
        fat_at(img, geo, chain.last() as int) is Ok,
        fat_at(img, geo, chain.last() as int)->Ok_0 == END_OF_CHAIN || (bounded && cap
            == chain.len() && fat_at(img, geo, chain.last() as int)->Ok_0 != BAD_CLUSTER),
        chain.len() <= cap,
    ensures
        chain_from(img, geo, chain[i], i, cap, bounded) == Ok::<Seq<u32>, ExFault>(chain.skip(i)),
    decreases chain.len() - i,
{
    if i + 1 < chain.len() {
        lemma_reads_back(img, geo, chain, i + 1, cap, bounded);
        assert(fat_at(img, geo, chain[i] as int) == Ok::<u32, ExFault>(next_of(chain, i)));
        assert(geo.has_cluster(chain[i + 1] as int));
        assert(seq![chain[i]] + chain.skip(i + 1) =~= chain.skip(i));
    } else {
        assert(chain.last() == chain[i]);
        assert(chain.skip(i) =~= seq![chain[i]]);
        assert(seq![chain[i]] + Seq::<u32>::empty() =~= seq![chain[i]]);
        if fat_at(img, geo, chain[i] as int)->Ok_0 != END_OF_CHAIN {
            let next = fat_at(img, geo, chain[i] as int)->Ok_0;
            assert(chain_from(img, geo, next, i + 1, cap, bounded) == Ok::<Seq<u32>, ExFault>(
                seq![],
            ));
        }
    }
}

/// A chain that was read is linked: each cluster's word names the next, and
/// the last one's ends the chain unless the reader stopped there.
pub proof fn chain_is_linked(
    img: Seq<u8>,
    geo: Geometry,
    cur: u32,
    n: int,
    cap: int,
    bounded: bool,
)
    requires
        n <= cap,
    ensures
        chain_from(img, geo, cur, n, cap, bounded) matches Ok(c) ==> {
            &&& c.len() <= cap - n
            &&& c.len() > 0 ==> c[0] == cur
            &&& n < cap ==> c.len() > 0
            &&& links(img, geo, c, c.len() - 1)
            &&& c.len() > 0 ==> fat_at(img, geo, c.last() as int) is Ok
            &&& c.len() > 0 ==> fat_at(img, geo, c.last() as int)->Ok_0 != BAD_CLUSTER
            &&& c.len() > 0 ==> fat_at(img, geo, c.last() as int)->Ok_0 == END_OF_CHAIN || (bounded
                && c.len() == cap - n)
        },
    decreases cap - n,
{
    if n < cap {
        if let Ok(next) = fat_at(img, geo, cur as int) {
            if next != END_OF_CHAIN && next != BAD_CLUSTER {
                chain_is_linked(img, geo, next, n + 1, cap, bounded);
                if let Ok(rest) = chain_from(img, geo, next, n + 1, cap, bounded) {
                    let c = seq![cur] + rest;
                    assert forall|i: int| 0 <= i < c.len() - 1 implies fat_at(
                        img,
                        geo,
                        #[trigger] c[i] as int,
                    ) == Ok::<u32, ExFault>(next_of(c, i)) by {
                        if i > 0 {
                            assert(c[i] == rest[i - 1]);
                            assert(fat_at(img, geo, rest[i - 1] as int) == Ok::<u32, ExFault>(
                                next_of(rest, i - 1),
                            ));
                        } else {
                            assert(c[1] == rest[0]);
                        }
                    }
                    if rest.len() > 0 {
                        assert(c.last() == rest.last());
                    }
                }
            }
        }
    }
}

proof fn lemma_same_tail(
    img: Seq<u8>,
    geo: Geometry,
    cur: u32,
    n: int,
    m: int,
    cap: int,
)
    requires
        chain_from(img, geo, cur, n, cap, false) is Ok,
        chain_from(img, geo, cur, m, cap, false) is Ok,
    ensures
        chain_from(img, geo, cur, n, cap, false) == chain_from(img, geo, cur, m, cap, false),
    decreases cap - n,
{
    let next = fat_at(img, geo, cur as int)->Ok_0;
    if next != END_OF_CHAIN {
        lemma_same_tail(img, geo, next, n + 1, m + 1, cap);
    }
}

proof fn lemma_tail(img: Seq<u8>, geo: Geometry, cur: u32, n: int, cap: int, i: int)
    requires
        chain_from(img, geo, cur, n, cap, false) is Ok,
        0 <= i < chain_from(img, geo, cur, n, cap, false)->Ok_0.len(),
    ensures
        ({
            let c = chain_from(img, geo, cur, n, cap, false)->Ok_0;
            chain_from(img, geo, c[i], n + i, cap, false) == Ok::<Seq<u32>, ExFault>(c.skip(i))
        }),
    decreases i,
{
    let c = chain_from(img, geo, cur, n, cap, false)->Ok_0;
    if i == 0 {
        assert(c[0] == cur);
        assert(c.skip(0) =~= c);
    } else {
        let next = fat_at(img, geo, cur as int)->Ok_0;
        let rest = chain_from(img, geo, next, n + 1, cap, false)->Ok_0;
        assert(c == seq![cur] + rest);
        lemma_tail(img, geo, next, n + 1, cap, i - 1);
        assert(c.skip(i) =~= rest.skip(i - 1));
    }
}

/// A chain read to its end visits no cluster twice.
pub proof fn ended_chain_has_no_loop(img: Seq<u8>, geo: Geometry, cur: u32, n: int, cap: int)
    ensures
        chain_from(img, geo, cur, n, cap, false) matches Ok(c) ==> c.no_duplicates(),
{
    if let Ok(c) = chain_from(img, geo, cur, n, cap, false) {
        assert forall|i: int, j: int| 0 <= i < j < c.len() implies c[i] != c[j] by {
            if c[i] == c[j] {
                lemma_tail(img, geo, cur, n, cap, i);
                lemma_tail(img, geo, cur, n, cap, j);
                lemma_same_tail(img, geo, c[i], n + i, n + j, cap);
                assert(c.skip(i).len() == c.skip(j).len());
            }
        }
    }
}

/// A chain all of whose words stay is read as before.
pub proof fn confined_chain(
    a: Seq<u8>,
    b: Seq<u8>,
    geo: Geometry,
    words: Set<int>,
    clusters: Set<int>,
    cur: u32,
    n: int,
    cap: int,
    bounded: bool,
)
    requires
        confined(a, b, geo, words, clusters),
        placed(geo, a.len()),
        chain_from(a, geo, cur, n, cap, bounded) is Ok,
        members(chain_from(a, geo, cur, n, cap, bounded)->Ok_0).disjoint(words),
    ensures
        chain_from(b, geo, cur, n, cap, bounded) == chain_from(a, geo, cur, n, cap, bounded),
    decreases cap - n,
{
    if n < cap {
        let c = chain_from(a, geo, cur, n, cap, bounded)->Ok_0;
        assert(c[0] == cur);
        assert(members(c).contains(c[0] as int));
        confined_links(a, b, geo, words, clusters, cur as int);
        let next = fat_at(a, geo, cur as int)->Ok_0;
        if next != END_OF_CHAIN {
            let rest = chain_from(a, geo, next, n + 1, cap, bounded)->Ok_0;
            assert(c == seq![cur] + rest);
            assert forall|k: int| members(rest).contains(k) implies !words.contains(k) by {
                let i = choose|i: int| 0 <= i < rest.len() && #[trigger] rest[i] as int == k;
                assert(c[i + 1] == rest[i]);
                assert(members(c).contains(k));
            }
            confined_chain(a, b, geo, words, clusters, next, n + 1, cap, bounded);
        }
    }
}

/// An allocation succeeds with a chain of fresh clusters, linked to its end.
pub proof fn allocation_is_fresh(disk: Disk, geo: Geometry, bm: BitmapLoc, n: int)
    requires
        placed(geo, disk.bytes.len()),
        bitmap_placed(geo, bm),
        n > 0,
    ensures
        allocation(disk, geo, bm, n).1 matches Ok(s) ==> {
            let after = allocation(disk, geo, bm, n).0;
            &&& s.len() == n
            &&& after.fixed == disk.fixed
            &&& confined(disk.bytes, after.bytes, geo, members(s), bitmap_area(geo, bm))
            &&& all_exist(geo, s)
            &&& s.no_duplicates()
            &&& forall|i: int|
                0 <= i < s.len() ==> !in_use(disk.bytes, geo, bm, #[trigger] s[i] as int)
            &&& forall|k: int|
                geo.has_cluster(k) ==> #[trigger] in_use(after.bytes, geo, bm, k) == (in_use(
                    disk.bytes,
                    geo,
                    bm,
                    k,
                ) || members(s).contains(k))
            &&& links(after.bytes, geo, s, n)
        },
        allocation(disk, geo, bm, n).1 matches Err(f) ==> f == full(),
{
    taken_clusters_were_free(disk, geo, bm, n);
    if let Ok(s) = taken(disk, geo, bm, n).1 {
        let d = taken(disk, geo, bm, n).0;
        let area = bitmap_area(geo, bm);
        lemma_len(disk.bytes, d.bytes, geo, Set::empty(), area);
        strung_chain_is_linked(d, geo, s, n);
        let d2 = strung(d, geo, s, n).0;
        lemma_len(d.bytes, d2.bytes, geo, members(s), Set::empty());
        confined_trans(
            disk.bytes,
            d.bytes,
            d2.bytes,
            geo,
            Set::empty(),
            area,
            members(s),
            Set::empty(),
        );
        assert(Set::<int>::empty().union(members(s)) =~= members(s));
        assert(area.union(Set::empty()) =~= area);
        assert forall|k: int| geo.has_cluster(k) implies #[trigger] in_use(d2.bytes, geo, bm, k)
            == (in_use(disk.bytes, geo, bm, k) || members(s).contains(k)) by {
            confined_bits(d.bytes, d2.bytes, geo, bm, members(s), Set::empty(), k);
            assert(in_use(d.bytes, geo, bm, k) == (in_use(disk.bytes, geo, bm, k) || members(
                s,
            ).contains(k)));
        }
    }
}

pub proof fn lemma_members_add(a: Seq<u32>, b: Seq<u32>, k: int)
    ensures
        members(a + b).contains(k) == (members(a).contains(k) || members(b).contains(k)),
{
    let t = a + b;
    if members(a).contains(k) {
        let i = choose|i: int| 0 <= i < a.len() && #[trigger] a[i] as int == k;
        assert(t[i] == a[i]);
    }
    if members(b).contains(k) {
        let i = choose|i: int| 0 <= i < b.len() && #[trigger] b[i] as int == k;
        assert(t[a.len() + i] == b[i]);
    }
    if members(t).contains(k) {
        let i = choose|i: int| 0 <= i < t.len() && #[trigger] t[i] as int == k;
        if i < a.len() {
            assert(a[i] == t[i]);
        } else {
            assert(b[i - a.len()] == t[i]);
        }
    }
}

/// Extending a chain of clusters in use by fresh ones leaves the two strung
/// together, and touches the words of that whole and the bitmap alone.
pub proof fn extension_is_strung(
    disk: Disk,
    geo: Geometry,
    bm: BitmapLoc,
    chain: Seq<u32>,
    n: int,
)
    requires
        placed(geo, disk.bytes.len()),
        bitmap_placed(geo, bm),
        n > 0,
        chain.len() > 0,
        all_exist(geo, chain),
        chain.no_duplicates(),
        links(disk.bytes, geo, chain, chain.len() - 1),
        forall|i: int| 0 <= i < chain.len() ==> in_use(disk.bytes, geo, bm, #[trigger] chain[i] as int),
    ensures
        extension(disk, geo, bm, chain.last(), n).1 matches Ok(s) ==> {
            let after = extension(disk, geo, bm, chain.last(), n).0;
            let whole = chain + s;
            &&& s.len() == n
            &&& after.fixed == disk.fixed
            &&& confined(disk.bytes, after.bytes, geo, members(whole), bitmap_area(geo, bm))
            &&& all_exist(geo, whole)
            &&& whole.no_duplicates()
            &&& forall|i: int|
                0 <= i < s.len() ==> !in_use(disk.bytes, geo, bm, #[trigger] s[i] as int)
            &&& forall|k: int|
                geo.has_cluster(k) ==> #[trigger] in_use(after.bytes, geo, bm, k) == (in_use(
                    disk.bytes,
                    geo,
                    bm,
                    k,
                ) || members(s).contains(k))
            &&& links(after.bytes, geo, whole, whole.len() as int)
        },
        extension(disk, geo, bm, chain.last(), n).1 matches Err(f) ==> f == full(),
{
    allocation_is_fresh(disk, geo, bm, n);
    if let Ok(s) = allocation(disk, geo, bm, n).1 {
        let d = allocation(disk, geo, bm, n).0;
        let area = bitmap_area(geo, bm);
        let tail = chain.last() as int;
        let whole = chain + s;
        assert(chain[chain.len() - 1] == chain.last());
        lemma_len(disk.bytes, d.bytes, geo, members(s), area);
        linked_confined(d, geo, tail, s[0]);
        let d2 = linked(d, geo, tail, s[0]).0;
        let one = Set::<int>::empty().insert(tail);
        lemma_len(d.bytes, d2.bytes, geo, one, Set::empty());
        confined_trans(disk.bytes, d.bytes, d2.bytes, geo, members(s), area, one, Set::empty());
        assert forall|k: int| members(s).union(one).contains(k) implies members(whole).contains(
            k,
        ) by {
            lemma_members_add(chain, s, k);
            assert(members(chain).contains(tail));
        }
        assert(area.union(Set::empty()) =~= area);
        confined_weaker(
            disk.bytes,
            d2.bytes,
            geo,
            members(s).union(one),
            area,
            members(whole),
            area,
        );
        assert forall|i: int, j: int| 0 <= i < chain.len() && 0 <= j < s.len() implies chain[i]
            != s[j] by {
            assert(in_use(disk.bytes, geo, bm, chain[i] as int));
            assert(!in_use(disk.bytes, geo, bm, s[j] as int));
        }
        assert forall|i: int, j: int| 0 <= i < j < whole.len() implies whole[i] != whole[j] by {
            if j < chain.len() {
                assert(chain[i] != chain[j]);
            } else if i >= chain.len() {
                assert(s[i - chain.len()] != s[j - chain.len()]);
            } else {
                assert(chain[i] != s[j - chain.len()]);
            }
        }
        assert(all_exist(geo, whole)) by {
            assert forall|i: int| 0 <= i < whole.len() implies geo.has_cluster(
                #[trigger] whole[i] as int,
            ) by {
                if i < chain.len() {
                    assert(whole[i] == chain[i]);
                } else {
                    assert(whole[i] == s[i - chain.len()]);
                }
            }
        }
        assert forall|k: int| geo.has_cluster(k) implies #[trigger] in_use(d2.bytes, geo, bm, k)
            == (in_use(disk.bytes, geo, bm, k) || members(s).contains(k)) by {
            confined_bits(d.bytes, d2.bytes, geo, bm, one, Set::empty(), k);
            assert(in_use(d.bytes, geo, bm, k) == (in_use(disk.bytes, geo, bm, k) || members(
                s,
            ).contains(k)));
        }
        assert forall|i: int| 0 <= i < whole.len() implies fat_at(
            d2.bytes,
            geo,
            #[trigger] whole[i] as int,
        ) == Ok::<u32, ExFault>(next_of(whole, i)) by {
            if i < chain.len() - 1 {
                assert(whole[i] == chain[i]);
                assert(chain[i] != chain[chain.len() - 1]);
                assert(fat_at(disk.bytes, geo, chain[i] as int) == Ok::<u32, ExFault>(
                    next_of(chain, i),
                ));
                assert(!members(s).contains(chain[i] as int)) by {
                    if members(s).contains(chain[i] as int) {
                        let j = choose|j: int|
                            0 <= j < s.len() && #[trigger] s[j] as int == chain[i] as int;
                        assert(chain[i] != s[j]);
                    }
                }
                confined_links(
                    disk.bytes,
                    d.bytes,
                    geo,
                    members(s),
                    area,
                    chain[i] as int,
                );
                confined_links(d.bytes, d2.bytes, geo, one, Set::empty(), chain[i] as int);
            } else if i >= chain.len() {
                let j = i - chain.len();
                assert(whole[i] == s[j]);
                assert(chain[chain.len() - 1] != s[j]);
                assert(fat_at(d.bytes, geo, s[j] as int) == Ok::<u32, ExFault>(next_of(s, j)));
                confined_links(d.bytes, d2.bytes, geo, one, Set::empty(), s[j] as int);
            }
        }
    }
}

/// Whether a chain is what a file of `size` bytes has: long enough and no
/// longer, each cluster once, linked and in use.
pub open spec fn chain_fits(
    img: Seq<u8>,
    geo: Geometry,
    bm: BitmapLoc,
    chain: Seq<u32>,
    size: int,
) -> bool {
    &&& chain.len() == cluster_need(geo, size)
    &&& all_exist(geo, chain)
    &&& chain.no_duplicates()
    &&& forall|i: int| 0 <= i < chain.len() ==> in_use(img, geo, bm, #[trigger] chain[i] as int)
}

/// A file's chain is grown by fresh clusters: the old chain is the start of
/// the new one, which fits the new size and is the chain that is read.
pub proof fn grown_chain_is_read(
    disk: Disk,
    geo: Geometry,
    bm: BitmapLoc,
    loc: LocModel,
    size: u64,
)
    requires
        placed(geo, disk.bytes.len()),
        bitmap_placed(geo, bm),
        contiguous_len(geo, loc) is None,
        loc_chain(disk.bytes, geo, loc) is Ok,
        chain_fits(
            disk.bytes,
            geo,
            bm,
            loc_chain(disk.bytes, geo, loc)->Ok_0,
            loc.data_len as int,
        ),
        loc.data_len <= size,
        0 < size,
    ensures
        ({
            let chain = loc_chain(disk.bytes, geo, loc)->Ok_0;
            let (after, r) = chain_grown(disk, geo, bm, loc, chain, size as int);
            r matches Ok((first, whole)) ==> {
                &&& after.fixed == disk.fixed
                &&& confined(disk.bytes, after.bytes, geo, members(whole), bitmap_area(geo, bm))
                &&& chain_fits(after.bytes, geo, bm, whole, size as int)
                &&& whole.len() > 0
                &&& chain.len() <= whole.len()
                &&& whole.take(chain.len() as int) == chain
                &&& forall|i: int|
                    chain.len() <= i < whole.len() ==> !in_use(
                        disk.bytes,
                        geo,
                        bm,
                        #[trigger] whole[i] as int,
                    )
                &&& forall|k: int|
                    geo.has_cluster(k) && in_use(disk.bytes, geo, bm, k) ==> #[trigger] in_use(
                        after.bytes,
                        geo,
                        bm,
                        k,
                    )
                &&& chain_of(after.bytes, geo, first, Some(whole.len() as u64)) == Ok::<
                    Seq<u32>,
                    ExFault,
                >(whole)
            }
        }),
        chain_grown(
            disk,
            geo,
            bm,
            loc,
            loc_chain(disk.bytes, geo, loc)->Ok_0,
            size as int,
        ).1 matches Err(f) ==> f == full(),
{
    let img = disk.bytes;
    let chain = loc_chain(img, geo, loc)->Ok_0;
    let old_need = cluster_need(geo, loc.data_len as int);
    let need = cluster_need(geo, size as int);
    lemma_need(geo, loc.data_len as int, size as int);
    let (after, r) = chain_grown(disk, geo, bm, loc, chain, size as int);
    if loc.data_len > 0 {
        chain_is_linked(img, geo, loc.first_cluster, 0, old_need, true);
    }
    if need > old_need && chain.len() == 0 {
        allocation_is_fresh(disk, geo, bm, need);
    }
    if need > old_need && chain.len() > 0 {
        extension_is_strung(disk, geo, bm, chain, need - old_need);
    }
    if let Ok((first, whole)) = r {
        if need == old_need {
            assert(whole == chain);
            confined_refl(img, geo);
            confined_weaker(
                img,
                img,
                geo,
                Set::empty(),
                Set::empty(),
                members(whole),
                bitmap_area(geo, bm),
            );
            assert(whole.take(chain.len() as int) =~= chain);
        } else if chain.len() == 0 {
            assert(whole.take(0) =~= chain);
            assert forall|i: int| 0 <= i < whole.len() implies in_use(
                after.bytes,
                geo,
                bm,
                #[trigger] whole[i] as int,
            ) by {
                assert(members(whole).contains(whole[i] as int));
            }
            lemma_len(img, after.bytes, geo, members(whole), bitmap_area(geo, bm));
            assert(whole[whole.len() - 1] == whole.last());
            lemma_reads_back(after.bytes, geo, whole, 0, need, true);
            assert(whole.skip(0) =~= whole);
        } else {
            let s = extension(disk, geo, bm, chain.last(), need - old_need).1->Ok_0;
            assert(whole == chain + s);
            assert(whole.take(chain.len() as int) =~= chain);
            assert forall|i: int| chain.len() <= i < whole.len() implies !in_use(
                img,
                geo,
                bm,
                #[trigger] whole[i] as int,
            ) by {
                assert(whole[i] == s[i - chain.len()]);
            }
            assert forall|i: int| 0 <= i < whole.len() implies in_use(
                after.bytes,
                geo,
                bm,
                #[trigger] whole[i] as int,
            ) by {
                if i < chain.len() {
                    assert(whole[i] == chain[i]);
                } else {
                    assert(whole[i] == s[i - chain.len()]);
                    assert(members(s).contains(whole[i] as int));
                }
            }
            lemma_len(img, after.bytes, geo, members(whole), bitmap_area(geo, bm));
            assert(whole[whole.len() - 1] == whole.last());
            assert(whole[0] == chain[0]);
            lemma_reads_back(after.bytes, geo, whole, 0, need, true);
            assert(whole.skip(0) =~= whole);
        }
    }
}

pub proof fn lemma_need(geo: Geometry, a: int, b: int)
    requires
        geo.wf(),
        0 <= a <= b,
        0 < b <= u64::MAX,
    ensures
        0 <= cluster_need(geo, a) <= cluster_need(geo, b) <= u64::MAX,
        0 < cluster_need(geo, b),
        a > 0 ==> cluster_need(geo, a) > 0,
        a == 0 ==> cluster_need(geo, a) == 0,
{
    super::format::lemma_parts(a, geo.cluster_len());
    super::format::lemma_parts(b, geo.cluster_len());
    let cl = geo.cluster_len();
    assert((a + cl - 1) / cl <= (b + cl - 1) / cl) by (nonlinear_arith)
        requires
            a <= b,
            cl > 0,
    ;
}

/// A chain that is read to its end is the chain that is freed.
pub proof fn doomed_is_the_chain(img: Seq<u8>, geo: Geometry, cur: u32, n: int)
    requires
        0 <= n,
        chain_from(img, geo, cur, n, geo.cluster_count as int, false) is Ok,
    ensures
        doomed_from(img, geo, cur, n) == chain_from(img, geo, cur, n, geo.cluster_count as int, false),
    decreases geo.cluster_count - n,
{
    let next = fat_at(img, geo, cur as int)->Ok_0;
    if next != END_OF_CHAIN {
        assert(chain_from(img, geo, next, n + 1, geo.cluster_count as int, false) is Ok);
        doomed_is_the_chain(img, geo, next, n + 1);
    }
}

/// Clusters that are freed are free, and no other cluster's bit changes.
pub proof fn freed_clusters_are_free(
    disk: Disk,
    geo: Geometry,
    bm: BitmapLoc,
    clusters: Seq<u32>,
    n: int,
)
    requires
        placed(geo, disk.bytes.len()),
        bitmap_placed(geo, bm),
        all_exist(geo, clusters),
        0 <= n <= clusters.len(),
    ensures
        ({
            let (after, r) = freed(disk, geo, bm, clusters, n);
            &&& r is Ok
            &&& after.fixed == disk.fixed
            &&& confined(disk.bytes, after.bytes, geo, members(clusters), bitmap_area(geo, bm))
            &&& forall|k: int|
                geo.has_cluster(k) ==> #[trigger] in_use(after.bytes, geo, bm, k) == (in_use(
                    disk.bytes,
                    geo,
                    bm,
                    k,
                ) && !members(clusters.take(n)).contains(k))
        }),
    decreases n,
{
    let m = members(clusters);
    let area = bitmap_area(geo, bm);
    if n == 0 {
        confined_refl(disk.bytes, geo);
        confined_weaker(disk.bytes, disk.bytes, geo, Set::empty(), Set::empty(), m, area);
    } else {
        freed_clusters_are_free(disk, geo, bm, clusters, n - 1);
        let d = freed(disk, geo, bm, clusters, n - 1).0;
        let c = clusters[n - 1];
        assert(geo.has_cluster(c as int));
        lemma_len(disk.bytes, d.bytes, geo, m, area);
        marked_confined(d, geo, bm, c as int, false);
        let d2 = marked(d, geo, bm, c as int, false).0;
        lemma_len(d.bytes, d2.bytes, geo, Set::empty(), area);
        linked_confined(d2, geo, c as int, 0);
        let d3 = linked(d2, geo, c as int, 0).0;
        let one = Set::<int>::empty().insert(c as int);
        confined_trans(d.bytes, d2.bytes, d3.bytes, geo, Set::empty(), area, one, Set::empty());
        confined_trans(
            disk.bytes,
            d.bytes,
            d3.bytes,
            geo,
            m,
            area,
            Set::empty().union(one),
            area.union(Set::empty()),
        );
        assert(m.contains(c as int));
        assert(m.union(Set::empty().union(one)) =~= m);
        assert(area.union(area.union(Set::empty())) =~= area);
        assert(clusters.take(n) =~= clusters.take(n - 1).push(c));
        assert forall|k: int| geo.has_cluster(k) implies #[trigger] in_use(d3.bytes, geo, bm, k)
            == (in_use(disk.bytes, geo, bm, k) && !members(clusters.take(n)).contains(k)) by {
            confined_bits(d2.bytes, d3.bytes, geo, bm, one, Set::empty(), k);
            lemma_members_push(clusters.take(n - 1), c, k);
            assert(in_use(d.bytes, geo, bm, k) == (in_use(disk.bytes, geo, bm, k) && !members(
                clusters.take(n - 1),
            ).contains(k)));
            if k != c {
                assert(in_use(d2.bytes, geo, bm, k) == in_use(d.bytes, geo, bm, k));
            }
        }
    }
}

} // verus!
