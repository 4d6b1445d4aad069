//! What a power cut leaves of shrinking a file: its old length or its new one.

use vstd::prelude::*;

use super::areas::{
    bitmap_area, bitmap_placed, confined, confined_bits, confined_links, confined_refl,
    confined_trans, confined_weaker, in_use, linked_confined, marked_confined, members, placed,
};
use super::boot::Geometry;
use super::chains::{
    all_exist, chain_is_linked, freed_clusters_are_free, lemma_len, lemma_need, lemma_reads_back,
    links, next_of,
};
use super::clusters::{bitmap_byte, freed, linked, marked, with_bit};
use super::cuts::{
    all_cuts, cuts_of_a_flush, cuts_of_a_write, cuts_refl, cuts_trans, lemma_entry_log,
    lemma_last_cut, replayed,
};
use super::dir::EntryModel;
use super::fat::{fat_at, fat_slot, BAD_CLUSTER, END_OF_CHAIN};
use super::fs::{
    children, file_chain, file_read, lookup_result, named_from, BitmapLoc, Volume,
};
use super::io::ExFault;
use super::readback::{
    home_clusters, home_of, lemma_target, lemma_way_end, sound_file, swaps, upper_clusters,
};
use super::resizing::{
    a_shrunk_file_keeps_its_start, lemma_cut_chain, lemma_entry_shrunk, lemma_shrink_stages,
    lemma_shrunk_contents, shortened,
};
use super::ways::{dir_chain, dir_stays, lookup_goes_through, tidy_dir, way_stays};
use super::write::{
    cluster_need, existing, restreamed, shrunk_first, shrunk_flags, shrunk_valid, tail_cut,
    truncation,
};
use crate::bytes::le32_bytes;
use crate::device::Disk;
use crate::text::{a_path_is_its_directory_and_its_name, components, leaf_of, parent_of};

verus! {

/// What is left of a file of which all but the first `keep` clusters are being
/// given up: the clusters kept are linked, nothing but the file's own links
/// and the bitmap changed, and no other cluster is given up.
pub open spec fn half_given_up(
    img: Seq<u8>,
    x: Seq<u8>,
    geo: Geometry,
    bm: BitmapLoc,
    chain: Seq<u32>,
    keep: int,
) -> bool {
    &&& confined(img, x, geo, members(chain), bitmap_area(geo, bm))
    &&& keep > 0 ==> {
        &&& links(x, geo, chain.take(keep), keep - 1)
        &&& fat_at(x, geo, chain[keep - 1] as int) is Ok
        &&& fat_at(x, geo, chain[keep - 1] as int)->Ok_0 != BAD_CLUSTER
    }
    &&& forall|c: int|
        geo.has_cluster(c) && in_use(img, geo, bm, c) && !members(chain.skip(keep)).contains(c)
            ==> #[trigger] in_use(x, geo, bm, c)
}

/// Whether a kind of contents takes in the links of some clusters, and the
/// bitmap as long as no other cluster is given up in it.
spec fn takes_freeing(
    p: spec_fn(Seq<u8>) -> bool,
    img: Seq<u8>,
    geo: Geometry,
    bm: BitmapLoc,
    clusters: Seq<u32>,
) -> bool {
    forall|x: Seq<u8>| #[trigger]
        confined(img, x, geo, members(clusters), bitmap_area(geo, bm)) && (forall|c: int|
            geo.has_cluster(c) && in_use(img, geo, bm, c) && !members(clusters).contains(c)
                ==> #[trigger] in_use(x, geo, bm, c)) ==> p(x)
}

proof fn lemma_freeing_cuts(
    disk: Disk,
    geo: Geometry,
    bm: BitmapLoc,
    clusters: Seq<u32>,
    n: int,
    p: spec_fn(Seq<u8>) -> bool,
)
    requires
        placed(geo, disk.bytes.len()),
        bitmap_placed(geo, bm),
        all_exist(geo, clusters),
        0 <= n <= clusters.len(),
        takes_freeing(p, disk.bytes, geo, bm, clusters),
    ensures
        all_cuts(disk, freed(disk, geo, bm, clusters, n).0, p),
    decreases n,
{
    let img = disk.bytes;
    let m = members(clusters);
    let area = bitmap_area(geo, bm);
    if n == 0 {
        confined_refl(img, geo);
        confined_weaker(img, img, geo, Set::empty(), Set::empty(), m, area);
        assert(confined(img, img, geo, m, area));
        cuts_refl(disk, p);
    } else {
        lemma_freeing_cuts(disk, geo, bm, clusters, n - 1, p);
        freed_clusters_are_free(disk, geo, bm, clusters, n - 1);
        freed_clusters_are_free(disk, geo, bm, clusters, n);
        let d = freed(disk, geo, bm, clusters, n - 1).0;
        let c = clusters[n - 1] as int;
        assert(geo.has_cluster(clusters[n - 1] as int));
        assert forall|k: int|
            members(clusters.take(n - 1)).contains(k) || members(clusters.take(n)).contains(
                k,
            ) implies m.contains(k) by {
            if members(clusters.take(n - 1)).contains(k) {
                let i = choose|i: int|
                    0 <= i < n - 1 && #[trigger] clusters.take(n - 1)[i] as int == k;
                assert(clusters[i] as int == k);
            } else {
                let i = choose|i: int| 0 <= i < n && #[trigger] clusters.take(n)[i] as int == k;
                assert(clusters[i] as int == k);
            }
        }
        lemma_len(img, d.bytes, geo, m, area);
        marked_confined(d, geo, bm, c, false);
        let d2 = marked(d, geo, bm, c, false).0;
        confined_trans(img, d.bytes, d2.bytes, geo, m, area, Set::empty(), area);
        assert(m.union(Set::empty()) =~= m);
        assert(area.union(area) =~= area);
        lemma_len(d.bytes, d2.bytes, geo, Set::empty(), area);
        linked_confined(d2, geo, c, 0);
        let d3 = freed(disk, geo, bm, clusters, n).0;
        assert(d3 == linked(d2, geo, c, 0).0);
        assert(confined(img, d.bytes, geo, m, area));
        assert(confined(img, d2.bytes, geo, m, area));
        assert(confined(img, d3.bytes, geo, m, area));
        let one = Set::<int>::empty().insert(c);
        assert forall|k: int|
            geo.has_cluster(k) && in_use(img, geo, bm, k) && !m.contains(k) implies #[trigger] in_use(
            d2.bytes,
            geo,
            bm,
            k,
        ) by {
            confined_bits(d2.bytes, d3.bytes, geo, bm, one, Set::empty(), k);
            assert(in_use(d3.bytes, geo, bm, k));
        }
        assert(p(d.bytes) && p(d2.bytes) && p(d3.bytes));
        let (off, b) = bitmap_byte(d.bytes, geo, bm, c)->Ok_0;
        cuts_of_a_write(d, off, seq![with_bit(b, c, false)], p);
        cuts_of_a_write(d2, fat_slot(geo, c), le32_bytes(0), p);
        cuts_trans(disk, d, d2, p);
        cuts_trans(disk, d2, d3, p);
    }
}

/// Every cut of giving up the end of a chain leaves the start of it whole.
#[verifier::spinoff_prover]
#[verifier::rlimit(30)]
proof fn lemma_giving_up_cuts(
    disk: Disk,
    geo: Geometry,
    bm: BitmapLoc,
    chain: Seq<u32>,
    keep: int,
)
    requires
        placed(geo, disk.bytes.len()),
        bitmap_placed(geo, bm),
        all_exist(geo, chain),
        chain.no_duplicates(),
        chain.len() > 0,
        links(disk.bytes, geo, chain, chain.len() - 1),
        fat_at(disk.bytes, geo, chain.last() as int) is Ok,
        fat_at(disk.bytes, geo, chain.last() as int)->Ok_0 != BAD_CLUSTER,
        members(chain).disjoint(bitmap_area(geo, bm)),
        0 <= keep <= chain.len(),
    ensures
        ({
            let rest = chain.skip(keep);
            let d2 = tail_cut(disk, geo, chain, keep).0;
            let d3 = freed(d2, geo, bm, rest, rest.len() as int).0;
            all_cuts(
                disk,
                d3,
                |x: Seq<u8>| half_given_up(disk.bytes, x, geo, bm, chain, keep),
            )
        }),
{
    let img = disk.bytes;
    let area = bitmap_area(geo, bm);
    let m = members(chain);
    let rest = chain.skip(keep);
    let kept = chain.take(keep);
    let p = |x: Seq<u8>| half_given_up(img, x, geo, bm, chain, keep);
    let d2 = tail_cut(disk, geo, chain, keep).0;
    assert(p(img)) by {
        confined_refl(img, geo);
        confined_weaker(img, img, geo, Set::empty(), Set::empty(), m, area);
        assert forall|i: int| 0 <= i < keep - 1 implies fat_at(img, geo, #[trigger] kept[i] as int)
            == Ok::<u32, ExFault>(next_of(kept, i)) by {
            assert(kept[i] == chain[i] && kept[i + 1] == chain[i + 1]);
            assert(fat_at(img, geo, chain[i] as int) == Ok::<u32, ExFault>(next_of(chain, i)));
        }
        if keep > 0 {
            if keep < chain.len() {
                assert(fat_at(img, geo, chain[keep - 1] as int) == Ok::<u32, ExFault>(
                    next_of(chain, keep - 1),
                ));
                assert(geo.has_cluster(chain[keep] as int));
            } else {
                assert(chain[keep - 1] == chain.last());
            }
        }
    }
    if keep > 0 {
        let tail = chain[keep - 1] as int;
        let one = Set::<int>::empty().insert(tail);
        assert(geo.has_cluster(tail) && m.contains(tail));
        linked_confined(disk, geo, tail, END_OF_CHAIN);
        confined_weaker(img, d2.bytes, geo, one, Set::empty(), m, area);
        assert forall|i: int| 0 <= i < keep - 1 implies fat_at(
            d2.bytes,
            geo,
            #[trigger] kept[i] as int,
        ) == Ok::<u32, ExFault>(next_of(kept, i)) by {
            assert(kept[i] == chain[i]);
            assert(chain[i] != chain[keep - 1]);
            confined_links(img, d2.bytes, geo, one, Set::empty(), chain[i] as int);
            assert(fat_at(img, geo, kept[i] as int) == Ok::<u32, ExFault>(next_of(kept, i)));
        }
        assert forall|c: int|
            geo.has_cluster(c) && in_use(img, geo, bm, c) && !members(rest).contains(c) implies #[trigger] in_use(
            d2.bytes,
            geo,
            bm,
            c,
        ) by {
            confined_bits(img, d2.bytes, geo, bm, one, Set::empty(), c);
        }
        assert(p(d2.bytes));
        cuts_of_a_write(disk, fat_slot(geo, tail), le32_bytes(END_OF_CHAIN), p);
    } else {
        cuts_refl(disk, p);
    }
    lemma_len(img, d2.bytes, geo, m, area);
    assert(all_exist(geo, rest)) by {
        assert forall|i: int| 0 <= i < rest.len() implies geo.has_cluster(
            #[trigger] rest[i] as int,
        ) by {
            assert(rest[i] == chain[keep + i]);
        }
    }
    assert forall|c: int| members(rest).contains(c) implies m.contains(c) by {
        let i = choose|i: int| 0 <= i < rest.len() && #[trigger] rest[i] as int == c;
        assert(chain[keep + i] == rest[i]);
    }
    assert(takes_freeing(p, d2.bytes, geo, bm, rest)) by {
        assert forall|x: Seq<u8>| #[trigger]
            confined(d2.bytes, x, geo, members(rest), area) && (forall|c: int|
                geo.has_cluster(c) && in_use(d2.bytes, geo, bm, c) && !members(rest).contains(c)
                    ==> #[trigger] in_use(x, geo, bm, c)) implies p(x) by {
            confined_trans(img, d2.bytes, x, geo, m, area, members(rest), area);
            assert(m.union(members(rest)) =~= m);
            assert(area.union(area) =~= area);
            assert forall|i: int| 0 <= i < keep implies fat_at(x, geo, #[trigger] kept[i] as int)
                == fat_at(d2.bytes, geo, kept[i] as int) by {
                assert(!members(rest).contains(kept[i] as int)) by {
                    if members(rest).contains(kept[i] as int) {
                        let j = choose|j: int|
                            0 <= j < rest.len() && #[trigger] rest[j] as int == kept[i] as int;
                        assert(chain[i] != chain[keep + j]);
                    }
                }
                confined_links(d2.bytes, x, geo, members(rest), area, kept[i] as int);
            }
            if keep > 0 {
                assert(kept[keep - 1] == chain[keep - 1]);
            }
        }
    }
    let n = rest.len() as int;
    lemma_freeing_cuts(d2, geo, bm, rest, n, p);
    cuts_trans(disk, d2, freed(d2, geo, bm, rest, n).0, p);
}

/// A power cut in the course of shrinking a file leaves the disk as it was, or
/// the file at its new length: its entry, one write, is rewritten and flushed
/// before any cluster is given up. From then on the path leads to the new
/// entry, the file reads as it did up to its new end, and nothing else changes
/// but the bitmap and the file's own links; clusters of the end that is cut off
/// may still be marked. (A set whose File and stream entries lie in two
/// clusters is left out: its entry takes two writes.)
#[verifier::spinoff_prover]
#[verifier::rlimit(60)]
pub proof fn a_cut_of_a_truncation_leaves_the_old_or_the_new(
    disk: Disk,
    vol: Volume,
    path: Seq<char>,
    e: EntryModel,
    len: u64,
    cut: int,
)
    requires
        sound_file(disk.bytes, vol, path, e),
        len <= e.size,
        0 < e.size,
        existing(disk.bytes, vol, path) matches Ok(loc) && loc.offsets[1] == loc.offsets[0] + 32,
        disk.log.len() <= cut <= truncation(disk, vol, path, len).0.log.len(),
    ensures
        ({
            let img = disk.bytes;
            let geo = vol.geo;
            let bm = vol.bitmap->Some_0;
            let after = truncation(disk, vol, path, len).0;
            let x = replayed(img, after.log.subrange(disk.log.len() as int, cut));
            let chain = file_chain(img, geo, e)->Ok_0;
            let keep = cluster_need(geo, len as int);
            let home = home_of(img, vol, path);
            let e2 = shortened(e, len, keep);
            let old = file_read(img, geo, e, 0, e.size as int);
            x == img || {
                &&& lookup_result(x, vol, path) == Ok::<Option<EntryModel>, ExFault>(Some(e2))
                &&& swaps(img, x, vol, home, e, e2)
                &&& old is Ok
                &&& file_read(x, geo, e2, 0, len as int) == Ok::<Seq<u8>, ExFault>(
                    old->Ok_0.take(len as int),
                )
                &&& confined(
                    img,
                    x,
                    geo,
                    members(chain),
                    bitmap_area(geo, bm).union(home_clusters(img, vol, path)),
                )
                &&& forall|c: int|
                    geo.has_cluster(c) && in_use(img, geo, bm, c) && !members(
                        chain.skip(keep),
                    ).contains(c) ==> #[trigger] in_use(x, geo, bm, c)
            }
        }),
{
    let img = disk.bytes;
    let geo = vol.geo;
    let bm = vol.bitmap->Some_0;
    let area = bitmap_area(geo, bm);
    let home = home_of(img, vol, path);
    let hc = home_clusters(img, vol, path);
    let chain = file_chain(img, geo, e)->Ok_0;
    let m = members(chain);
    let keep = cluster_need(geo, len as int);
    let kept = chain.take(keep);
    let rest = chain.skip(keep);
    let none = Set::<int>::empty();
    lemma_target(img, vol, path, e);
    let loc = existing(img, vol, path)->Ok_0;
    lemma_entry_shrunk(disk, vol, path, e, len);
    a_shrunk_file_keeps_its_start(disk, vol, path, e, len);
    lemma_need(geo, 0, e.size as int);
    let first = shrunk_first(loc, keep);
    let valid = shrunk_valid(loc, len);
    let flags = shrunk_flags(geo, loc, keep);
    let d0 = restreamed(disk, loc, first, len, valid, flags).0;
    let d = d0.flushed();
    let e2 = shortened(e, len, keep);
    let (o, bytes) = lemma_entry_log(disk, loc, first, len, valid, flags);
    lemma_len(img, d.bytes, geo, none, hc);
    assert forall|i: int| 0 <= i < chain.len() implies in_use(
        d.bytes,
        geo,
        bm,
        #[trigger] chain[i] as int,
    ) by {
        assert(in_use(img, geo, bm, chain[i] as int));
    }
    lemma_cut_chain(d, geo, bm, chain, keep);
    lemma_shrink_stages(disk, vol, path, loc, len);
    lemma_giving_up_cuts(d, geo, bm, chain, keep);
    let q = |x: Seq<u8>| half_given_up(d.bytes, x, geo, bm, chain, keep);
    let p = |x: Seq<u8>| x == img || half_given_up(d.bytes, x, geo, bm, chain, keep);
    let d3 = freed(tail_cut(d, geo, chain, keep).0, geo, bm, rest, rest.len() as int).0;
    let after = d3.flushed();
    assert(truncation(disk, vol, path, len).0 == after);
    assert(all_cuts(d, d3, q));
    assert(all_cuts(d, d3, p));
    lemma_first_cut(d, d3, q);
    cuts_of_a_write(disk, o, bytes, p);
    cuts_of_a_flush(d0, p);
    cuts_trans(disk, d0, d, p);
    cuts_trans(disk, d, d3, p);
    lemma_last_cut(d, d3, p);
    cuts_of_a_flush(d3, p);
    cuts_trans(disk, d3, after, p);
    let x = replayed(img, after.log.subrange(disk.log.len() as int, cut));
    assert(p(x));
    if x != img {
        lemma_half_reads(img, d.bytes, x, vol, path, e, len);
    }
}

/// The first cut is what the disk held in the beginning.
proof fn lemma_first_cut(before: Disk, after: Disk, p: spec_fn(Seq<u8>) -> bool)
    requires
        all_cuts(before, after, p),
    ensures
        p(before.bytes),
{
    let n = before.log.len() as int;
    assert(after.log.subrange(n, n) =~= seq![]);
    assert(p(replayed(before.bytes, after.log.subrange(n, n))));
}

/// A file whose entry says that it is shorter is found and read, whatever of
/// its end is given up yet.
#[verifier::spinoff_prover]
#[verifier::rlimit(40)]
proof fn lemma_half_reads(
    img: Seq<u8>,
    d: Seq<u8>,
    x: Seq<u8>,
    vol: Volume,
    path: Seq<char>,
    e: EntryModel,
    len: u64,
)
    requires
        sound_file(img, vol, path, e),
        len <= e.size,
        0 < e.size,
        confined(img, d, vol.geo, Set::empty(), home_clusters(img, vol, path)),
        tidy_dir(d, vol, home_of(img, vol, path)),
        dir_chain(d, vol, home_of(img, vol, path)) == dir_chain(
            img,
            vol,
            home_of(img, vol, path),
        ),
        children(d, vol.geo, home_of(img, vol, path)) is Ok,
        swaps(
            img,
            d,
            vol,
            home_of(img, vol, path),
            e,
            shortened(e, len, cluster_need(vol.geo, len as int)),
        ),
        named_from(
            vol.upcase,
            children(d, vol.geo, home_of(img, vol, path))->Ok_0,
            leaf_of(path),
            0,
        ) == Some(shortened(e, len, cluster_need(vol.geo, len as int))),
        forall|c: int|
            vol.geo.has_cluster(c) ==> #[trigger] in_use(d, vol.geo, vol.bitmap->Some_0, c)
                == in_use(img, vol.geo, vol.bitmap->Some_0, c),
        half_given_up(
            d,
            x,
            vol.geo,
            vol.bitmap->Some_0,
            file_chain(img, vol.geo, e)->Ok_0,
            cluster_need(vol.geo, len as int),
        ),
    ensures
        ({
            let geo = vol.geo;
            let bm = vol.bitmap->Some_0;
            let chain = file_chain(img, geo, e)->Ok_0;
            let keep = cluster_need(geo, len as int);
            let e2 = shortened(e, len, keep);
            let old = file_read(img, geo, e, 0, e.size as int);
            &&& lookup_result(x, vol, path) == Ok::<Option<EntryModel>, ExFault>(Some(e2))
            &&& swaps(img, x, vol, home_of(img, vol, path), e, e2)
            &&& old is Ok
            &&& file_read(x, geo, e2, 0, len as int) == Ok::<Seq<u8>, ExFault>(
                old->Ok_0.take(len as int),
            )
            &&& confined(
                img,
                x,
                geo,
                members(chain),
                bitmap_area(geo, bm).union(home_clusters(img, vol, path)),
            )
            &&& forall|c: int|
                geo.has_cluster(c) && in_use(img, geo, bm, c) && !members(chain.skip(keep)).contains(
                    c,
                ) ==> #[trigger] in_use(x, geo, bm, c)
        }),
{
    let geo = vol.geo;
    let bm = vol.bitmap->Some_0;
    let area = bitmap_area(geo, bm);
    let home = home_of(img, vol, path);
    let hc = home_clusters(img, vol, path);
    let uc = upper_clusters(img, vol, path);
    let chain = file_chain(img, geo, e)->Ok_0;
    let m = members(chain);
    let keep = cluster_need(geo, len as int);
    let kept = chain.take(keep);
    let e2 = shortened(e, len, keep);
    let none = Set::<int>::empty();
    lemma_need(geo, len as int, e.size as int);
    lemma_len(img, d, geo, none, hc);
    lemma_len(d, x, geo, m, area);
    dir_stays(d, x, vol, m, area, home);
    confined_trans(img, d, x, geo, none, hc, m, area);
    assert(none.union(m) =~= m);
    assert(hc.union(area) =~= area.union(hc));
    lemma_way_end(img, vol, components(parent_of(path)), 0, None);
    way_stays(img, x, vol, m, area.union(hc), components(parent_of(path)), 0, None);
    a_path_is_its_directory_and_its_name(path);
    lookup_goes_through(x, vol, components(parent_of(path)), leaf_of(path), 0, None);
    assert(kept.no_duplicates()) by {
        assert forall|i: int, j: int| 0 <= i < j < kept.len() implies kept[i] != kept[j] by {
            assert(chain[i] != chain[j]);
        }
    }
    assert(all_exist(geo, kept)) by {
        assert forall|i: int| 0 <= i < kept.len() implies geo.has_cluster(
            #[trigger] kept[i] as int,
        ) by {
            assert(kept[i] == chain[i]);
        }
    }
    if keep > 0 {
        assert(kept[kept.len() - 1] == kept.last());
        assert(kept[keep - 1] == chain[keep - 1]);
        lemma_reads_back(x, geo, kept, 0, keep, true);
        assert(kept.skip(0) =~= kept);
        chain_is_linked(img, geo, e.first_cluster, 0, chain.len() as int, true);
        assert(kept[0] == chain[0]);
    } else {
        assert(kept =~= seq![]);
        lemma_need(geo, 0, e.size as int);
    }
    assert(file_chain(x, geo, e2) == Ok::<Seq<u32>, ExFault>(kept));
    lemma_shrunk_contents(img, x, geo, e, e2, chain, keep, m, area.union(hc));
}

} // verus!
