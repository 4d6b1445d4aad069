//! What setting a file's length does to its contents.

use vstd::prelude::*;

use super::areas::{
    bitmap_area, bitmap_placed, confined, confined_bits, confined_links, confined_refl,
    confined_trans, confined_weaker, in_use, linked_confined, members, placed,
};
use super::boot::Geometry;
use super::chains::{
    all_exist, chain_is_linked, freed_clusters_are_free, full, lemma_len, lemma_need,
    lemma_reads_back, links, next_of,
};
use super::clusters::{freed, linked};
use super::contents::{confined_bytes, file_bytes_are_the_chains, lemma_index};
use super::dir::EntryModel;
use super::fat::{fat_at, BAD_CLUSTER, END_OF_CHAIN};
use super::fs::{
    children, file_chain, file_read, lookup_result, named_from, BitmapLoc, Volume,
};
use super::io::ExFault;
use super::readback::{
    a_write_is_read_back, home_clusters, home_of, lemma_rewritten_home, lemma_room, lemma_target,
    lemma_way_kept, lookup_and_change_agree, overlaid, place_of, resized, sound_file, swaps, valid_in,
};
use super::upcase::lesser;
use super::ways::{dir_chain, dir_stays, tidy_dir};
use super::write::{
    cluster_need, contiguous_len, existing, loc_chain, restreamed, shrunk_first, shrunk_flags,
    shrunk_valid, tail_cut, truncation, LocModel,
};
use crate::bytes::zeros;
use crate::device::Disk;
use crate::text::leaf_of;

verus! {

/// Growing a file adds zeros: the longer file reads as before up to its old
/// end, and as zeros from there on. It fails only for want of free clusters.
pub proof fn a_grown_file_ends_in_zeros(
    disk: Disk,
    vol: Volume,
    path: Seq<char>,
    e: EntryModel,
    len: u64,
)
    requires
        sound_file(disk.bytes, vol, path, e),
        len > e.size,
    ensures
        match truncation(disk, vol, path, len) {
            (_, Err(f)) => f == full(),
            (after, Ok(_)) => {
                let old = file_read(disk.bytes, vol.geo, e, 0, e.size as int)->Ok_0;
                let e2 = lookup_result(after.bytes, vol, path)->Ok_0->Some_0;
                &&& sound_file(after.bytes, vol, path, e2)
                &&& e2.name == e.name
                &&& e2.size == len
                &&& file_read(after.bytes, vol.geo, e2, 0, len as int) == Ok::<Seq<u8>, ExFault>(
                    old + zeros((len - e.size) as nat),
                )
            },
        },
{
    let img = disk.bytes;
    let geo = vol.geo;
    lemma_target(img, vol, path, e);
    let pad = lesser(len - e.size, geo.cluster_len());
    let offset = (len - pad) as u64;
    let data = zeros(pad as nat);
    a_write_is_read_back(disk, vol, path, e, offset, data);
    super::readback::reads_are_pieces(img, vol, path, e, 0, e.size as int);
    let old = file_read(img, geo, e, 0, e.size as int)->Ok_0;
    assert(Seq::new(len as nat, |p: int| overlaid(old, offset as int, data, p)) =~= old + zeros(
        (len - e.size) as nat,
    ));
}

/// What the disk is like once a file's chain is cut: the clusters kept are
/// linked to their end, the others are free, and nothing else changed.
pub proof fn lemma_cut_chain(
    disk: Disk,
    geo: Geometry,
    bm: BitmapLoc,
    chain: Seq<u32>,
    keep: int,
)
    requires
        placed(geo, disk.bytes.len()),
        bitmap_placed(geo, bm),
        all_exist(geo, chain),
        chain.no_duplicates(),
        forall|i: int| 0 <= i < chain.len() ==> in_use(disk.bytes, geo, bm, #[trigger] chain[i] as int),
        chain.len() > 0 ==> links(disk.bytes, geo, chain, chain.len() - 1),
        members(chain).disjoint(bitmap_area(geo, bm)),
        0 <= keep <= chain.len(),
    ensures
        ({
            let rest = chain.skip(keep);
            let (d, r) = tail_cut(disk, geo, chain, keep);
            let (d2, r2) = freed(d, geo, bm, rest, rest.len() as int);
            let kept = chain.take(keep);
            &&& r is Ok
            &&& r2 is Ok
            &&& d2.fixed == disk.fixed
            &&& confined(disk.bytes, d2.bytes, geo, members(chain), bitmap_area(geo, bm))
            &&& links(d2.bytes, geo, kept, keep)
            &&& forall|c: int|
                geo.has_cluster(c) ==> #[trigger] in_use(d2.bytes, geo, bm, c) == (in_use(
                    disk.bytes,
                    geo,
                    bm,
                    c,
                ) && !members(rest).contains(c))
        }),
{
    let img = disk.bytes;
    let area = bitmap_area(geo, bm);
    let m = members(chain);
    let rest = chain.skip(keep);
    let kept = chain.take(keep);
    let d = tail_cut(disk, geo, chain, keep).0;
    if keep > 0 {
        let tail = chain[keep - 1] as int;
        assert(geo.has_cluster(tail));
        assert(m.contains(tail));
        linked_confined(disk, geo, tail, END_OF_CHAIN);
        let one = Set::<int>::empty().insert(tail);
        confined_weaker(img, d.bytes, geo, one, Set::empty(), m, Set::empty());
        assert forall|i: int| 0 <= i < keep implies fat_at(d.bytes, geo, #[trigger] kept[i] as int)
            == Ok::<u32, ExFault>(next_of(kept, i)) by {
            assert(kept[i] == chain[i]);
            if i < keep - 1 {
                assert(chain[i] != chain[keep - 1]);
                confined_links(img, d.bytes, geo, one, Set::empty(), chain[i] as int);
                assert(fat_at(img, geo, chain[i] as int) == Ok::<u32, ExFault>(next_of(chain, i)));
                assert(kept[i + 1] == chain[i + 1]);
            }
        }
    } else {
        confined_refl(img, geo);
        confined_weaker(img, img, geo, Set::empty(), Set::empty(), m, Set::empty());
    }
    lemma_len(img, d.bytes, geo, m, Set::empty());
    assert(all_exist(geo, rest)) by {
        assert forall|i: int| 0 <= i < rest.len() implies geo.has_cluster(
            #[trigger] rest[i] as int,
        ) by {
            assert(rest[i] == chain[keep + i]);
        }
    }
    let n = rest.len() as int;
    freed_clusters_are_free(d, geo, bm, rest, n);
    assert(rest.take(n) =~= rest);
    let d2 = freed(d, geo, bm, rest, n).0;
    confined_trans(img, d.bytes, d2.bytes, geo, m, Set::empty(), members(rest), area);
    assert forall|c: int| members(rest).contains(c) implies m.contains(c) by {
        let i = choose|i: int| 0 <= i < rest.len() && #[trigger] rest[i] as int == c;
        assert(chain[keep + i] == rest[i]);
    }
    assert(m.union(members(rest)) =~= m);
    assert(Set::empty().union(area) =~= area);
    assert forall|i: int| 0 <= i < keep implies fat_at(d2.bytes, geo, #[trigger] kept[i] as int)
        == Ok::<u32, ExFault>(next_of(kept, i)) by {
        assert(!members(rest).contains(kept[i] as int)) by {
            if members(rest).contains(kept[i] as int) {
                let j = choose|j: int|
                    0 <= j < rest.len() && #[trigger] rest[j] as int == kept[i] as int;
                assert(chain[i] != chain[keep + j]);
            }
        }
        confined_links(d.bytes, d2.bytes, geo, members(rest), area, kept[i] as int);
    }
    assert forall|c: int| geo.has_cluster(c) implies #[trigger] in_use(d2.bytes, geo, bm, c) == (
    in_use(img, geo, bm, c) && !members(rest).contains(c)) by {
        confined_bits(img, d.bytes, geo, bm, m, Set::empty(), c);
    }
}

/// Shrinking, taken apart.
pub proof fn lemma_shrink_stages(
    disk: Disk,
    vol: Volume,
    path: Seq<char>,
    loc: LocModel,
    len: u64,
)
    requires
        existing(disk.bytes, vol, path) == Ok::<LocModel, ExFault>(loc),
        vol.bitmap is Some,
        !loc.is_dir,
        len <= loc.data_len,
        0 < loc.data_len,
        contiguous_len(vol.geo, loc) is None,
        loc_chain(disk.bytes, vol.geo, loc) is Ok,
        cluster_need(vol.geo, len as int) <= loc_chain(disk.bytes, vol.geo, loc)->Ok_0.len(),
    ensures
        ({
            let geo = vol.geo;
            let bm = vol.bitmap->Some_0;
            let chain = loc_chain(disk.bytes, geo, loc)->Ok_0;
            let keep = cluster_need(geo, len as int);
            let rest = chain.skip(keep);
            let (d, r) = restreamed(
                disk,
                loc,
                shrunk_first(loc, keep),
                len,
                shrunk_valid(loc, len),
                shrunk_flags(geo, loc, keep),
            );
            let (d2, r2) = tail_cut(d.flushed(), geo, chain, keep);
            let (d3, r3) = freed(d2, geo, bm, rest, rest.len() as int);
            r is Ok && r2 is Ok && r3 is Ok ==> truncation(disk, vol, path, len) == (
                d3.flushed(),
                Ok::<(), ExFault>(()),
            )
        }),
{
}

/// The first half of shrinking a file: its entry says how long it is now, and
/// nothing but its directory changed.
#[verifier::spinoff_prover]
pub proof fn lemma_entry_shrunk(
    disk: Disk,
    vol: Volume,
    path: Seq<char>,
    e: EntryModel,
    len: u64,
)
    requires
        sound_file(disk.bytes, vol, path, e),
        len <= e.size,
        0 < e.size,
    ensures
        ({
            let img = disk.bytes;
            let geo = vol.geo;
            let bm = vol.bitmap->Some_0;
            let loc = existing(img, vol, path)->Ok_0;
            let keep = cluster_need(geo, len as int);
            let chain = file_chain(img, geo, e)->Ok_0;
            let home = home_of(img, vol, path);
            let e2 = shortened(e, len, keep);
            let (d, r) = restreamed(
                disk,
                loc,
                shrunk_first(loc, keep),
                len,
                shrunk_valid(loc, len),
                shrunk_flags(geo, loc, keep),
            );
            &&& r is Ok
            &&& keep <= chain.len()
            &&& confined(img, d.bytes, geo, Set::empty(), home_clusters(img, vol, path))
            &&& tidy_dir(d.bytes, vol, home)
            &&& dir_chain(d.bytes, vol, home) == dir_chain(img, vol, home)
            &&& children(d.bytes, geo, home) is Ok
            &&& named_from(vol.upcase, children(d.bytes, geo, home)->Ok_0, leaf_of(path), 0) == Some(
                e2,
            )
            &&& swaps(img, d.bytes, vol, home, e, e2)
            &&& links(d.bytes, geo, chain, chain.len() - 1)
            &&& fat_at(d.bytes, geo, chain.last() as int) is Ok
            &&& fat_at(d.bytes, geo, chain.last() as int)->Ok_0 != BAD_CLUSTER
            &&& forall|c: int|
                geo.has_cluster(c) ==> #[trigger] in_use(d.bytes, geo, bm, c) == in_use(
                    img,
                    geo,
                    bm,
                    c,
                )
        }),
{
    let img = disk.bytes;
    let geo = vol.geo;
    let bm = vol.bitmap->Some_0;
    let area = bitmap_area(geo, bm);
    let home = home_of(img, vol, path);
    let hc = home_clusters(img, vol, path);
    let chain = file_chain(img, geo, e)->Ok_0;
    let keep = cluster_need(geo, len as int);
    lemma_target(img, vol, path, e);
    let loc = existing(img, vol, path)->Ok_0;
    lemma_need(geo, len as int, e.size as int);
    lemma_need(geo, 0, e.size as int);
    chain_is_linked(img, geo, e.first_cluster, 0, chain.len() as int, true);
    lookup_and_change_agree(img, vol, path, e);
    lemma_rewritten_home(
        disk,
        vol,
        home,
        leaf_of(path),
        place_of(img, vol, path),
        shrunk_first(loc, keep),
        len,
        shrunk_valid(loc, len),
        shrunk_flags(geo, loc, keep),
    );
    let d = restreamed(
        disk,
        loc,
        shrunk_first(loc, keep),
        len,
        shrunk_valid(loc, len),
        shrunk_flags(geo, loc, keep),
    ).0;
    assert forall|i: int| 0 <= i < chain.len() implies fat_at(
        d.bytes,
        geo,
        #[trigger] chain[i] as int,
    ) == fat_at(img, geo, chain[i] as int) by {
        confined_links(img, d.bytes, geo, Set::empty(), hc, chain[i] as int);
    }
    assert(chain[chain.len() - 1] == chain.last());
    assert forall|c: int| geo.has_cluster(c) implies #[trigger] in_use(d.bytes, geo, bm, c)
        == in_use(img, geo, bm, c) by {
        confined_bits(img, d.bytes, geo, bm, Set::empty(), hc, c);
    }
}

/// An entry whose file is cut to `len` bytes, which take `keep` clusters.
pub open spec fn shortened(e: EntryModel, len: u64, keep: int) -> EntryModel {
    resized(
        e,
        if keep == 0 {
            0
        } else {
            e.first_cluster
        },
        len,
        if valid_in(e) <= len {
            valid_in(e)
        } else {
            len
        },
    )
}

/// Shrinking a file keeps what is left of it: the shorter file reads as before
/// up to its new end, and the clusters it no longer needs are free.
#[verifier::spinoff_prover]
#[verifier::rlimit(60)]
pub proof fn a_shrunk_file_keeps_its_start(
    disk: Disk,
    vol: Volume,
    path: Seq<char>,
    e: EntryModel,
    len: u64,
)
    requires
        sound_file(disk.bytes, vol, path, e),
        len <= e.size,
        0 < e.size,
    ensures
        ({
            let img = disk.bytes;
            let geo = vol.geo;
            let bm = vol.bitmap->Some_0;
            let (after, r) = truncation(disk, vol, path, len);
            let old = file_read(img, geo, e, 0, e.size as int)->Ok_0;
            let e2 = lookup_result(after.bytes, vol, path)->Ok_0->Some_0;
            let chain = file_chain(img, geo, e)->Ok_0;
            let keep = cluster_need(geo, len as int);
            &&& r is Ok
            &&& sound_file(after.bytes, vol, path, e2)
            &&& swaps(img, after.bytes, vol, home_of(img, vol, path), e, e2)
            &&& e2.name == e.name
            &&& e2.size == len
            &&& file_read(after.bytes, geo, e2, 0, len as int) == Ok::<Seq<u8>, ExFault>(
                old.take(len as int),
            )
            &&& file_chain(after.bytes, geo, e2) == Ok::<Seq<u32>, ExFault>(chain.take(keep))
            &&& forall|c: int|
                geo.has_cluster(c) ==> #[trigger] in_use(after.bytes, geo, bm, c) == (in_use(
                    img,
                    geo,
                    bm,
                    c,
                ) && !members(chain.skip(keep)).contains(c))
            &&& confined(
                img,
                after.bytes,
                geo,
                members(chain),
                bitmap_area(geo, bm).union(home_clusters(img, vol, path)),
            )
        }),
{
    let img = disk.bytes;
    let geo = vol.geo;
    let bm = vol.bitmap->Some_0;
    let area = bitmap_area(geo, bm);
    let home = home_of(img, vol, path);
    let hc = home_clusters(img, vol, path);
    let chain = file_chain(img, geo, e)->Ok_0;
    let m = members(chain);
    let keep = cluster_need(geo, len as int);
    let kept = chain.take(keep);
    let rest = chain.skip(keep);
    lemma_target(img, vol, path, e);
    let loc = existing(img, vol, path)->Ok_0;
    lemma_entry_shrunk(disk, vol, path, e, len);
    lemma_need(geo, 0, e.size as int);
    chain_is_linked(img, geo, e.first_cluster, 0, chain.len() as int, true);
    let d = restreamed(
        disk,
        loc,
        shrunk_first(loc, keep),
        len,
        shrunk_valid(loc, len),
        shrunk_flags(geo, loc, keep),
    ).0.flushed();
    lemma_len(img, d.bytes, geo, Set::empty(), hc);
    assert forall|i: int| 0 <= i < chain.len() implies in_use(
        d.bytes,
        geo,
        bm,
        #[trigger] chain[i] as int,
    ) by {
        assert(in_use(img, geo, bm, chain[i] as int));
    }
    lemma_cut_chain(d, geo, bm, chain, keep);
    lemma_shrink_stages(disk, vol, path, loc, len);
    let d2 = freed(tail_cut(d, geo, chain, keep).0, geo, bm, rest, rest.len() as int).0;
    lemma_len(d.bytes, d2.bytes, geo, m, area);
    let after = d2.flushed();
    let e2 = shortened(e, len, keep);
    assert(truncation(disk, vol, path, len) == (after, Ok::<(), ExFault>(())));
    dir_stays(d.bytes, d2.bytes, vol, m, area, home);
    confined_trans(img, d.bytes, d2.bytes, geo, Set::empty(), hc, m, area);
    assert(Set::empty().union(m) =~= m);
    assert(hc.union(area) =~= area.union(hc));
    assert forall|c: int| members(rest).contains(c) implies m.contains(c) by {
        let i = choose|i: int| 0 <= i < rest.len() && #[trigger] rest[i] as int == c;
        assert(chain[keep + i] == rest[i]);
    }
    assert forall|c: int| members(kept).contains(c) implies m.contains(c) && !members(
        rest,
    ).contains(c) by {
        let i = choose|i: int| 0 <= i < kept.len() && #[trigger] kept[i] as int == c;
        assert(chain[i] == kept[i]);
        if members(rest).contains(c) {
            let j = choose|j: int| 0 <= j < rest.len() && #[trigger] rest[j] as int == c;
            assert(chain[i] != chain[keep + j]);
        }
    }
    lemma_way_kept(img, after.bytes, vol, path, m, area.union(hc));
    // The chain that is left.
    assert forall|i: int| 0 <= i < kept.len() implies geo.has_cluster(#[trigger] kept[i] as int)
        && in_use(after.bytes, geo, bm, kept[i] as int) by {
        assert(kept[i] == chain[i]);
        assert(members(kept).contains(kept[i] as int));
        assert(in_use(img, geo, bm, chain[i] as int));
    }
    assert(kept.no_duplicates()) by {
        assert forall|i: int, j: int| 0 <= i < j < kept.len() implies kept[i] != kept[j] by {
            assert(chain[i] != chain[j]);
        }
    }
    if keep > 0 {
        assert(kept[kept.len() - 1] == kept.last());
        assert(fat_at(after.bytes, geo, kept[keep - 1] as int) == Ok::<u32, ExFault>(
            next_of(kept, keep - 1),
        ));
        lemma_reads_back(after.bytes, geo, kept, 0, keep, true);
        assert(kept.skip(0) =~= kept);
        assert(kept[0] == chain[0]);
    } else {
        assert(kept =~= seq![]);
    }
    assert(file_chain(after.bytes, geo, e2) == Ok::<Seq<u32>, ExFault>(kept));
    assert(sound_file(after.bytes, vol, path, e2));
    lemma_shrunk_contents(img, after.bytes, geo, e, e2, chain, keep, m, area.union(hc));
}

/// What a shrunk file reads as.
pub proof fn lemma_shrunk_contents(
    img: Seq<u8>,
    after: Seq<u8>,
    geo: Geometry,
    e: EntryModel,
    e2: EntryModel,
    chain: Seq<u32>,
    keep: int,
    words: Set<int>,
    clusters: Set<int>,
)
    requires
        placed(geo, img.len()),
        placed(geo, after.len()),
        confined(img, after, geo, words, clusters),
        !e.is_dir,
        !e.no_fat_chain,
        !e2.is_dir,
        !e2.no_fat_chain,
        0 < e.size,
        e2.size <= e.size,
        e2.valid_size == lesser(valid_in(e) as int, e2.size as int),
        all_exist(geo, chain),
        chain.len() == cluster_need(geo, e.size as int),
        keep == cluster_need(geo, e2.size as int),
        keep <= chain.len(),
        file_chain(img, geo, e) == Ok::<Seq<u32>, ExFault>(chain),
        file_chain(after, geo, e2) == Ok::<Seq<u32>, ExFault>(chain.take(keep)),
        members(chain).disjoint(clusters),
    ensures
        file_read(img, geo, e, 0, e.size as int) matches Ok(old) && old.len() == e.size
            && file_read(after, geo, e2, 0, e2.size as int) == Ok::<Seq<u8>, ExFault>(
            old.take(e2.size as int),
        ),
{
    let kept = chain.take(keep);
    lemma_room(geo, chain.len() as int, e.size as int);
    lemma_room(geo, keep, e2.size as int);
    file_bytes_are_the_chains(img, geo, e, chain, 0, e.size as int);
    let old = file_read(img, geo, e, 0, e.size as int)->Ok_0;
    if e2.size > 0 {
        assert(all_exist(geo, kept)) by {
            assert forall|i: int| 0 <= i < kept.len() implies geo.has_cluster(
                #[trigger] kept[i] as int,
            ) by {
                assert(kept[i] == chain[i]);
            }
        }
        file_bytes_are_the_chains(after, geo, e2, kept, 0, e2.size as int);
        let now = file_read(after, geo, e2, 0, e2.size as int)->Ok_0;
        assert forall|q: int| 0 <= q < e2.size implies now[q] == old[q] by {
            lemma_index(q, geo.cluster_len(), keep);
            let i = q / geo.cluster_len();
            assert(kept[i] == chain[i]);
            assert(members(chain).contains(chain[i] as int));
            confined_bytes(img, after, geo, words, clusters, kept, q);
        }
        assert(now =~= old.take(e2.size as int));
    } else {
        assert(old.take(0) =~= seq![]);
    }
}

} // verus!
