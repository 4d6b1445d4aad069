//! What an operation on one path leaves alone: every other path.

use vstd::prelude::*;

use super::areas::{bitmap_area, confined, confined_trans, in_use, members, placed};
use super::chains::{confined_chain, lemma_len, lemma_need};
use super::contents::{confined_bytes, file_bytes_are_the_chains, lemma_index};
use super::creating::{gains, new_entry};
use super::dir::EntryModel;
use super::fat::chain_clusters_exist;
use super::fs::{
    children, file_chain, file_read, lookup_from, lookup_result, named_from, same_name, Volume,
};
use super::io::ExFault;
use super::readback::{
    a_write_is_read_back, data_is_stored, data_stage, home_clusters, home_of,
    lemma_entry_rewritten, lemma_target, lemma_write_stages, sound_file, swaps,
};
use super::removing::loses;
use super::resizing::a_shrunk_file_keeps_its_start;
use super::tree_laws::{
    a_created_directory_is_empty, a_created_file_is_found, a_removed_entry_is_gone, owned_clusters,
    removable, vacant,
};
use super::upcase::{lesser, parts};
use super::ways::{dir_chain, dir_stays, tidy_children, tidy_dir};
use super::write::{creation, existing, file_written, removal, truncation};
use crate::bytes::zeros;
use crate::device::Disk;
use crate::text::{components, leaf_of};

verus! {

/// Whether a directory is as it was but for entries of one name.
pub open spec fn same_but_for(
    img: Seq<u8>,
    after: Seq<u8>,
    vol: Volume,
    dir: Option<EntryModel>,
    name: Seq<char>,
) -> bool {
    &&& children(img, vol.geo, dir) is Ok
    &&& children(after, vol.geo, dir) is Ok
    &&& forall|n: Seq<char>|
        !same_name(vol.upcase, n, name) ==> #[trigger] named_from(
            vol.upcase,
            children(after, vol.geo, dir)->Ok_0,
            n,
            0,
        ) == named_from(vol.upcase, children(img, vol.geo, dir)->Ok_0, n, 0)
}

/// Names other than that of an entry added to a listing lead where they led.
pub proof fn lemma_inserted(
    upcase: Seq<u16>,
    es: Seq<EntryModel>,
    e: EntryModel,
    at: int,
    name: Seq<char>,
    i: int,
)
    requires
        0 <= at <= es.len(),
        0 <= i,
        !same_name(upcase, e.name, name),
    ensures
        named_from(upcase, es.insert(at, e), name, i) == named_from(
            upcase,
            es,
            name,
            if i <= at {
                i
            } else {
                i - 1
            },
        ),
    decreases es.len() + 1 - i,
{
    let es2 = es.insert(at, e);
    if i < es2.len() {
        lemma_inserted(upcase, es, e, at, name, i + 1);
        if i < at {
            assert(es2[i] == es[i]);
        } else if i == at {
            assert(es2[i] == e);
        } else {
            assert(es2[i] == es[i - 1]);
        }
    }
}

proof fn lemma_updated(
    upcase: Seq<u16>,
    es: Seq<EntryModel>,
    e: EntryModel,
    at: int,
    name: Seq<char>,
    i: int,
)
    requires
        0 <= at < es.len(),
        0 <= i,
        !same_name(upcase, e.name, name),
        !same_name(upcase, es[at].name, name),
    ensures
        named_from(upcase, es.update(at, e), name, i) == named_from(upcase, es, name, i),
    decreases es.len() - i,
{
    let es2 = es.update(at, e);
    if i < es.len() {
        lemma_updated(upcase, es, e, at, name, i + 1);
        if i != at {
            assert(es2[i] == es[i]);
        }
    }
}

/// A directory that gained an entry is as it was but for that name.
pub proof fn gaining_keeps_the_rest(
    img: Seq<u8>,
    after: Seq<u8>,
    vol: Volume,
    dir: Option<EntryModel>,
    e: EntryModel,
)
    requires
        gains(img, after, vol, dir, e),
    ensures
        same_but_for(img, after, vol, dir, e.name),
{
    let es = children(img, vol.geo, dir)->Ok_0;
    let es2 = children(after, vol.geo, dir)->Ok_0;
    let j = choose|j: int|
        0 <= j <= es.len() && children(after, vol.geo, dir) == Ok::<Seq<EntryModel>, ExFault>(
            #[trigger] es.insert(j, e),
        );
    assert forall|n: Seq<char>| !same_name(vol.upcase, n, e.name) implies #[trigger] named_from(
        vol.upcase,
        es2,
        n,
        0,
    ) == named_from(vol.upcase, es, n, 0) by {
        lemma_inserted(vol.upcase, es, e, j, n, 0);
    }
}

/// A directory that lost an entry is as it was but for that name.
pub proof fn losing_keeps_the_rest(
    img: Seq<u8>,
    after: Seq<u8>,
    vol: Volume,
    dir: Option<EntryModel>,
    e: EntryModel,
)
    requires
        loses(img, after, vol, dir, e),
    ensures
        same_but_for(img, after, vol, dir, e.name),
{
    let es = children(img, vol.geo, dir)->Ok_0;
    let es2 = children(after, vol.geo, dir)->Ok_0;
    let j = choose|j: int|
        0 <= j < es.len() && es[j] == e && children(after, vol.geo, dir) == Ok::<
            Seq<EntryModel>,
            ExFault,
        >(#[trigger] es.remove(j));
    assert(es2.insert(j, e) =~= es);
    assert forall|n: Seq<char>| !same_name(vol.upcase, n, e.name) implies #[trigger] named_from(
        vol.upcase,
        es2,
        n,
        0,
    ) == named_from(vol.upcase, es, n, 0) by {
        lemma_inserted(vol.upcase, es2, e, j, n, 0);
    }
}

/// A directory in which an entry was replaced by one of the same name is as it
/// was but for that name.
pub proof fn swapping_keeps_the_rest(
    img: Seq<u8>,
    after: Seq<u8>,
    vol: Volume,
    dir: Option<EntryModel>,
    e: EntryModel,
    e2: EntryModel,
)
    requires
        swaps(img, after, vol, dir, e, e2),
        e2.name == e.name,
    ensures
        same_but_for(img, after, vol, dir, e.name),
{
    let es = children(img, vol.geo, dir)->Ok_0;
    let es2 = children(after, vol.geo, dir)->Ok_0;
    let j = choose|j: int|
        0 <= j < es.len() && es[j] == e && children(after, vol.geo, dir) == Ok::<
            Seq<EntryModel>,
            ExFault,
        >(#[trigger] es.update(j, e2));
    assert forall|n: Seq<char>| !same_name(vol.upcase, n, e.name) implies #[trigger] named_from(
        vol.upcase,
        es2,
        n,
        0,
    ) == named_from(vol.upcase, es, n, 0) by {
        lemma_updated(vol.upcase, es, e2, j, n, 0);
    }
}

/// Whether the way along some components, from `cur` on, keeps clear of a
/// change: its directories are tidy, in use and none of `mine`, and where it
/// goes through the directory `home`, which changes, it takes another name.
pub open spec fn keeps_clear(
    img: Seq<u8>,
    vol: Volume,
    comps: Seq<Seq<char>>,
    i: int,
    cur: Option<EntryModel>,
    home: Option<EntryModel>,
    name: Seq<char>,
    mine: Set<int>,
) -> bool
    decreases comps.len() - i,
{
    let here = members(dir_chain(img, vol, cur));
    i < 0 || i >= comps.len() || {
        &&& tidy_dir(img, vol, cur)
        &&& here.disjoint(mine)
        &&& forall|c: int| #[trigger] here.contains(c) ==> in_use(img, vol.geo, vol.bitmap->Some_0, c)
        &&& if cur == home {
            !same_name(vol.upcase, comps[i], name)
        } else {
            here.disjoint(members(dir_chain(img, vol, home)))
        }
        &&& match named_from(vol.upcase, children(img, vol.geo, cur)->Ok_0, comps[i], 0) {
            None => true,
            Some(e) => keeps_clear(img, vol, comps, i + 1, Some(e), home, name, mine),
        }
    }
}

/// Whether a change is confined to a directory, to clusters that are its own
/// and to clusters that were free.
pub open spec fn local_change(
    img: Seq<u8>,
    after: Seq<u8>,
    vol: Volume,
    home: Option<EntryModel>,
    name: Seq<char>,
    mine: Set<int>,
    words: Set<int>,
    clusters: Set<int>,
) -> bool {
    let bm = vol.bitmap->Some_0;
    &&& placed(vol.geo, img.len())
    &&& confined(img, after, vol.geo, words, clusters)
    &&& same_but_for(img, after, vol, home, name)
    &&& forall|c: int| #[trigger]
        words.contains(c) ==> mine.contains(c) || members(dir_chain(img, vol, home)).contains(c)
            || !in_use(img, vol.geo, bm, c)
    &&& forall|c: int| #[trigger]
        clusters.contains(c) ==> mine.contains(c) || members(dir_chain(img, vol, home)).contains(c)
            || !in_use(img, vol.geo, bm, c)
}

/// A lookup that keeps clear of a change finds what it found.
pub proof fn clear_lookup_stays(
    img: Seq<u8>,
    after: Seq<u8>,
    vol: Volume,
    comps: Seq<Seq<char>>,
    i: int,
    cur: Option<EntryModel>,
    home: Option<EntryModel>,
    name: Seq<char>,
    mine: Set<int>,
    words: Set<int>,
    clusters: Set<int>,
)
    requires
        0 <= i <= comps.len(),
        local_change(img, after, vol, home, name, mine, words, clusters),
        keeps_clear(img, vol, comps, i, cur, home, name, mine),
    ensures
        lookup_from(after, vol, comps, i, cur) == lookup_from(img, vol, comps, i, cur),
    decreases comps.len() - i,
{
    if i < comps.len() {
        let here = members(dir_chain(img, vol, cur));
        tidy_children(img, vol, cur);
        let found = named_from(vol.upcase, children(img, vol.geo, cur)->Ok_0, comps[i], 0);
        if cur != home {
            assert forall|c: int| here.contains(c) implies !words.contains(c) && !clusters.contains(
                c,
            ) by {
                assert(in_use(img, vol.geo, vol.bitmap->Some_0, c));
            }
            dir_stays(img, after, vol, words, clusters, cur);
        }
        if let Some(e) = found {
            clear_lookup_stays(
                img,
                after,
                vol,
                comps,
                i + 1,
                Some(e),
                home,
                name,
                mine,
                words,
                clusters,
            );
        }
    }
}

/// Whether a file's clusters are in use and none of some others.
pub open spec fn file_clear(img: Seq<u8>, vol: Volume, e: EntryModel, others: Set<int>) -> bool {
    &&& !e.is_dir
    &&& !e.no_fat_chain
    &&& file_chain(img, vol.geo, e) is Ok
    &&& file_chain(img, vol.geo, e)->Ok_0.len() == parts(e.size as int, vol.geo.cluster_len())
    &&& members(file_chain(img, vol.geo, e)->Ok_0).disjoint(others)
    &&& forall|c: int| #[trigger]
        members(file_chain(img, vol.geo, e)->Ok_0).contains(c) ==> in_use(
            img,
            vol.geo,
            vol.bitmap->Some_0,
            c,
        )
}

/// A file whose clusters keep clear of a change reads as it read.
pub proof fn clear_file_stays(
    img: Seq<u8>,
    after: Seq<u8>,
    vol: Volume,
    e: EntryModel,
    home: Option<EntryModel>,
    name: Seq<char>,
    mine: Set<int>,
    words: Set<int>,
    clusters: Set<int>,
)
    requires
        local_change(img, after, vol, home, name, mine, words, clusters),
        file_clear(img, vol, e, mine.union(members(dir_chain(img, vol, home)))),
    ensures
        file_read(after, vol.geo, e, 0, e.size as int) == file_read(
            img,
            vol.geo,
            e,
            0,
            e.size as int,
        ),
{
    let chain = file_chain(img, vol.geo, e)->Ok_0;
    let others = mine.union(members(dir_chain(img, vol, home)));
    assert forall|c: int| members(chain).contains(c) implies !words.contains(c)
        && !clusters.contains(c) by {
        assert(in_use(img, vol.geo, vol.bitmap->Some_0, c));
        assert(!others.contains(c));
    }
    apart_file_stays(img, after, vol, e, words, clusters);
}

/// A file whose clusters lie apart from a change reads as it read.
pub proof fn apart_file_stays(
    img: Seq<u8>,
    after: Seq<u8>,
    vol: Volume,
    e: EntryModel,
    words: Set<int>,
    clusters: Set<int>,
)
    requires
        placed(vol.geo, img.len()),
        confined(img, after, vol.geo, words, clusters),
        !e.is_dir,
        !e.no_fat_chain,
        file_chain(img, vol.geo, e) is Ok,
        file_chain(img, vol.geo, e)->Ok_0.len() == parts(e.size as int, vol.geo.cluster_len()),
        members(file_chain(img, vol.geo, e)->Ok_0).disjoint(words),
        members(file_chain(img, vol.geo, e)->Ok_0).disjoint(clusters),
    ensures
        file_read(after, vol.geo, e, 0, e.size as int) == file_read(
            img,
            vol.geo,
            e,
            0,
            e.size as int,
        ),
        e.size > 0 ==> file_chain(after, vol.geo, e) == file_chain(img, vol.geo, e),
{
    let geo = vol.geo;
    let chain = file_chain(img, geo, e)->Ok_0;
    let here = members(chain);
    let n = parts(e.size as int, geo.cluster_len());
    lemma_len(img, after, geo, words, clusters);
    if e.size > 0 {
        lemma_need(geo, 0, e.size as int);
        super::format::lemma_parts(e.size as int, geo.cluster_len());
        confined_chain(img, after, geo, words, clusters, e.first_cluster, 0, n, true);
        chain_clusters_exist(img, geo, e.first_cluster, 0, n, true);
        file_bytes_are_the_chains(img, geo, e, chain, 0, e.size as int);
        file_bytes_are_the_chains(after, geo, e, chain, 0, e.size as int);
        let old = file_read(img, geo, e, 0, e.size as int)->Ok_0;
        let now = file_read(after, geo, e, 0, e.size as int)->Ok_0;
        assert forall|q: int| 0 <= q < e.size implies now[q] == old[q] by {
            lemma_index(q, geo.cluster_len(), chain.len() as int);
            assert(here.contains(chain[q / geo.cluster_len()] as int));
            confined_bytes(img, after, geo, words, clusters, chain, q);
        }
        assert(now =~= old);
    }
}

/// Whether a path leads to a file that has nothing to do with a change to the
/// entries of one name in a directory, and to clusters of its own.
pub open spec fn bystander(
    img: Seq<u8>,
    vol: Volume,
    home: Option<EntryModel>,
    name: Seq<char>,
    mine: Set<int>,
    other: Seq<char>,
    f: EntryModel,
) -> bool {
    &&& keeps_clear(img, vol, components(other), 0, None, home, name, mine)
    &&& lookup_result(img, vol, other) == Ok::<Option<EntryModel>, ExFault>(Some(f))
    &&& file_clear(img, vol, f, mine.union(members(dir_chain(img, vol, home))))
}

/// Whether a path still leads to a file, which reads as it read.
pub open spec fn unharmed(
    img: Seq<u8>,
    after: Seq<u8>,
    vol: Volume,
    other: Seq<char>,
    f: EntryModel,
) -> bool {
    &&& lookup_result(after, vol, other) == Ok::<Option<EntryModel>, ExFault>(Some(f))
    &&& file_read(after, vol.geo, f, 0, f.size as int) == file_read(
        img,
        vol.geo,
        f,
        0,
        f.size as int,
    )
}

/// What has nothing to do with a change is not harmed by it.
pub proof fn bystanders_are_unharmed(
    img: Seq<u8>,
    after: Seq<u8>,
    vol: Volume,
    home: Option<EntryModel>,
    name: Seq<char>,
    mine: Set<int>,
    words: Set<int>,
    clusters: Set<int>,
    other: Seq<char>,
    f: EntryModel,
)
    requires
        local_change(img, after, vol, home, name, mine, words, clusters),
        bystander(img, vol, home, name, mine, other, f),
    ensures
        unharmed(img, after, vol, other, f),
{
    clear_lookup_stays(
        img,
        after,
        vol,
        components(other),
        0,
        None,
        home,
        name,
        mine,
        words,
        clusters,
    );
    clear_file_stays(img, after, vol, f, home, name, mine, words, clusters);
}

/// A directory that stays is as it was, whatever the name.
pub proof fn staying_keeps_all(
    img: Seq<u8>,
    after: Seq<u8>,
    vol: Volume,
    dir: Option<EntryModel>,
    words: Set<int>,
    clusters: Set<int>,
    name: Seq<char>,
)
    requires
        placed(vol.geo, img.len()),
        confined(img, after, vol.geo, words, clusters),
        tidy_dir(img, vol, dir),
        members(dir_chain(img, vol, dir)).disjoint(words),
        members(dir_chain(img, vol, dir)).disjoint(clusters),
    ensures
        same_but_for(img, after, vol, dir, name),
        children(after, vol.geo, dir) == children(img, vol.geo, dir),
{
    dir_stays(img, after, vol, words, clusters, dir);
    tidy_children(img, vol, dir);
}

/// A write leaves every other path alone: what keeps clear of the file's
/// directory entry and clusters is found as before, and reads as before.
pub proof fn a_write_leaves_others_alone(
    disk: Disk,
    vol: Volume,
    path: Seq<char>,
    e: EntryModel,
    offset: u64,
    data: Seq<u8>,
    other: Seq<char>,
    f: EntryModel,
)
    requires
        sound_file(disk.bytes, vol, path, e),
        data.len() > 0,
        offset + data.len() <= u64::MAX,
        file_written(disk, vol, path, offset, data).1 is Ok,
        ({
            let img = disk.bytes;
            let home = home_of(img, vol, path);
            let mine = members(file_chain(img, vol.geo, e)->Ok_0).union(
                bitmap_area(vol.geo, vol.bitmap->Some_0),
            );
            &&& keeps_clear(img, vol, components(other), 0, None, home, e.name, mine)
            &&& lookup_result(img, vol, other) == Ok::<Option<EntryModel>, ExFault>(Some(f))
            &&& file_clear(img, vol, f, mine.union(home_clusters(img, vol, path)))
        }),
    ensures
        ({
            let after = file_written(disk, vol, path, offset, data).0;
            &&& lookup_result(after.bytes, vol, other) == Ok::<Option<EntryModel>, ExFault>(Some(f))
            &&& file_read(after.bytes, vol.geo, f, 0, f.size as int) == file_read(
                disk.bytes,
                vol.geo,
                f,
                0,
                f.size as int,
            )
        }),
{
    let img = disk.bytes;
    let geo = vol.geo;
    let bm = vol.bitmap->Some_0;
    let home = home_of(img, vol, path);
    let hc = home_clusters(img, vol, path);
    let area = bitmap_area(geo, bm);
    let mine = members(file_chain(img, geo, e)->Ok_0).union(area);
    lemma_target(img, vol, path, e);
    let loc = existing(img, vol, path)->Ok_0;
    data_is_stored(disk, geo, bm, loc, offset, data);
    lemma_write_stages(disk, vol, path, loc, offset, data);
    let (mid, r) = data_stage(disk, geo, bm, loc, offset, data);
    let (first, whole) = r->Ok_0;
    lemma_entry_rewritten(disk, mid.flushed(), vol, path, e, loc, offset, data, first, whole);
    a_write_is_read_back(disk, vol, path, e, offset, data);
    let after = file_written(disk, vol, path, offset, data).0;
    let e2 = lookup_result(after.bytes, vol, path)->Ok_0->Some_0;
    swapping_keeps_the_rest(img, after.bytes, vol, home, e, e2);
    let m = members(whole);
    confined_trans(img, mid.bytes, after.bytes, geo, m, area.union(m), Set::empty(), hc);
    let words = m.union(Set::empty());
    let clusters = area.union(m).union(hc);
    assert forall|c: int| #[trigger] words.contains(c) implies mine.contains(c) || !in_use(
        img,
        geo,
        bm,
        c,
    ) by {
        assert(m.contains(c));
    }
    assert forall|c: int| #[trigger] clusters.contains(c) implies mine.contains(c) || hc.contains(c)
        || !in_use(img, geo, bm, c) by {
        if m.contains(c) {
            assert(words.contains(c));
        }
    }
    clear_lookup_stays(
        img,
        after.bytes,
        vol,
        components(other),
        0,
        None,
        home,
        e.name,
        mine,
        words,
        clusters,
    );
    clear_file_stays(img, after.bytes, vol, f, home, e.name, mine, words, clusters);
}

/// Creating a file leaves every other path alone.
pub proof fn a_creation_leaves_others_alone(
    disk: Disk,
    vol: Volume,
    path: Seq<char>,
    other: Seq<char>,
    f: EntryModel,
)
    requires
        vacant(disk.bytes, vol, path),
        ({
            let img = disk.bytes;
            let home = home_of(img, vol, path);
            let leaf = leaf_of(path);
            &&& keeps_clear(img, vol, components(other), 0, None, home, leaf, Set::empty())
            &&& lookup_result(img, vol, other) == Ok::<Option<EntryModel>, ExFault>(Some(f))
            &&& file_clear(img, vol, f, home_clusters(img, vol, path))
        }),
    ensures
        ({
            let after = creation(disk, vol, path, false).0;
            &&& lookup_result(after.bytes, vol, other) == Ok::<Option<EntryModel>, ExFault>(Some(f))
            &&& file_read(after.bytes, vol.geo, f, 0, f.size as int) == file_read(
                disk.bytes,
                vol.geo,
                f,
                0,
                f.size as int,
            )
        }),
{
    let img = disk.bytes;
    let home = home_of(img, vol, path);
    let hc = home_clusters(img, vol, path);
    let leaf = leaf_of(path);
    a_created_file_is_found(disk, vol, path);
    let after = creation(disk, vol, path, false).0;
    gaining_keeps_the_rest(img, after.bytes, vol, home, new_entry(leaf, false, 0, 0, 0, 0));
    clear_lookup_stays(
        img,
        after.bytes,
        vol,
        components(other),
        0,
        None,
        home,
        leaf,
        Set::empty(),
        Set::empty(),
        hc,
    );
    assert(Set::<int>::empty().union(hc) =~= hc);
    clear_file_stays(img, after.bytes, vol, f, home, leaf, Set::empty(), Set::empty(), hc);
}

/// Removing an entry leaves every other path alone.
pub proof fn a_removal_leaves_others_alone(
    disk: Disk,
    vol: Volume,
    path: Seq<char>,
    e: EntryModel,
    other: Seq<char>,
    f: EntryModel,
)
    requires
        removable(disk.bytes, vol, path, e),
        ({
            let img = disk.bytes;
            let home = home_of(img, vol, path);
            let mine = members(owned_clusters(img, vol.geo, e)).union(
                bitmap_area(vol.geo, vol.bitmap->Some_0),
            );
            &&& keeps_clear(img, vol, components(other), 0, None, home, e.name, mine)
            &&& lookup_result(img, vol, other) == Ok::<Option<EntryModel>, ExFault>(Some(f))
            &&& file_clear(img, vol, f, mine.union(home_clusters(img, vol, path)))
        }),
    ensures
        ({
            let after = removal(disk, vol, path).0;
            &&& lookup_result(after.bytes, vol, other) == Ok::<Option<EntryModel>, ExFault>(Some(f))
            &&& file_read(after.bytes, vol.geo, f, 0, f.size as int) == file_read(
                disk.bytes,
                vol.geo,
                f,
                0,
                f.size as int,
            )
        }),
{
    let img = disk.bytes;
    let geo = vol.geo;
    let home = home_of(img, vol, path);
    let hc = home_clusters(img, vol, path);
    let area = bitmap_area(geo, vol.bitmap->Some_0);
    let own = members(owned_clusters(img, geo, e));
    let mine = own.union(area);
    a_removed_entry_is_gone(disk, vol, path, e);
    let after = removal(disk, vol, path).0;
    losing_keeps_the_rest(img, after.bytes, vol, home, e);
    clear_lookup_stays(
        img,
        after.bytes,
        vol,
        components(other),
        0,
        None,
        home,
        e.name,
        mine,
        own,
        hc.union(area),
    );
    clear_file_stays(img, after.bytes, vol, f, home, e.name, mine, own, hc.union(area));
}

/// Shrinking a file leaves every other path alone.
proof fn lemma_shrinking_leaves_others_alone(
    disk: Disk,
    vol: Volume,
    path: Seq<char>,
    e: EntryModel,
    len: u64,
    other: Seq<char>,
    f: EntryModel,
)
    requires
        sound_file(disk.bytes, vol, path, e),
        len <= e.size,
        0 < e.size,
        bystander(
            disk.bytes,
            vol,
            home_of(disk.bytes, vol, path),
            e.name,
            file_reach(disk.bytes, vol, e),
            other,
            f,
        ),
    ensures
        unharmed(disk.bytes, truncation(disk, vol, path, len).0.bytes, vol, other, f),
{
    let img = disk.bytes;
    let home = home_of(img, vol, path);
    let hc = home_clusters(img, vol, path);
    let area = bitmap_area(vol.geo, vol.bitmap->Some_0);
    let m = members(file_chain(img, vol.geo, e)->Ok_0);
    a_shrunk_file_keeps_its_start(disk, vol, path, e, len);
    let after = truncation(disk, vol, path, len).0.bytes;
    let e2 = lookup_result(after, vol, path)->Ok_0->Some_0;
    swapping_keeps_the_rest(img, after, vol, home, e, e2);
    bystanders_are_unharmed(
        img,
        after,
        vol,
        home,
        e.name,
        file_reach(img, vol, e),
        m,
        area.union(hc),
        other,
        f,
    );
}

/// What an operation on a file may reach beside its directory: its clusters and
/// the bitmap.
pub open spec fn file_reach(img: Seq<u8>, vol: Volume, e: EntryModel) -> Set<int> {
    members(file_chain(img, vol.geo, e)->Ok_0).union(bitmap_area(vol.geo, vol.bitmap->Some_0))
}

/// Setting a file's length leaves every other path alone, whether the file
/// grows or shrinks.
pub proof fn a_truncation_leaves_others_alone(
    disk: Disk,
    vol: Volume,
    path: Seq<char>,
    e: EntryModel,
    len: u64,
    other: Seq<char>,
    f: EntryModel,
)
    requires
        sound_file(disk.bytes, vol, path, e),
        truncation(disk, vol, path, len).1 is Ok,
        bystander(
            disk.bytes,
            vol,
            home_of(disk.bytes, vol, path),
            e.name,
            file_reach(disk.bytes, vol, e),
            other,
            f,
        ),
    ensures
        unharmed(disk.bytes, truncation(disk, vol, path, len).0.bytes, vol, other, f),
{
    let img = disk.bytes;
    lemma_target(img, vol, path, e);
    if len > e.size {
        let pad = lesser(len - e.size, vol.geo.cluster_len());
        a_write_leaves_others_alone(
            disk,
            vol,
            path,
            e,
            (len - pad) as u64,
            zeros(pad as nat),
            other,
            f,
        );
    } else if e.size > 0 {
        lemma_shrinking_leaves_others_alone(disk, vol, path, e, len, other, f);
    }
}

/// Creating a directory leaves every other path alone.
pub proof fn a_new_directory_leaves_others_alone(
    disk: Disk,
    vol: Volume,
    path: Seq<char>,
    other: Seq<char>,
    f: EntryModel,
)
    requires
        vacant(disk.bytes, vol, path),
        creation(disk, vol, path, true).1 is Ok,
        bystander(
            disk.bytes,
            vol,
            home_of(disk.bytes, vol, path),
            leaf_of(path),
            bitmap_area(vol.geo, vol.bitmap->Some_0),
            other,
            f,
        ),
    ensures
        unharmed(disk.bytes, creation(disk, vol, path, true).0.bytes, vol, other, f),
{
    let img = disk.bytes;
    let geo = vol.geo;
    let bm = vol.bitmap->Some_0;
    let home = home_of(img, vol, path);
    let area = bitmap_area(geo, bm);
    a_created_directory_is_empty(disk, vol, path);
    let after = creation(disk, vol, path, true).0.bytes;
    let e = lookup_result(after, vol, path)->Ok_0->Some_0;
    let one = Set::<int>::empty().insert(e.first_cluster as int);
    let clusters = area.union(one).union(home_clusters(img, vol, path));
    gaining_keeps_the_rest(img, after, vol, home, e);
    bystanders_are_unharmed(img, after, vol, home, leaf_of(path), area, one, clusters, other, f);
}

} // verus!
