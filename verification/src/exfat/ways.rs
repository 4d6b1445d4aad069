//! The way to a path: the directories a lookup goes through. What leaves them
//! alone leaves the lookup alone; and a change takes the same way.

use vstd::prelude::*;

use super::areas::{cluster_of, confined, members, placed};
use super::chains::{all_exist, confined_chain, lemma_len};
use super::dir::{chain_len_bound, parsed_from, per_cluster, EntryModel};
use super::entries::{
    directory_of_rows, found_at, lemma_row, loc_at, located_is_found, named_is_found, row_in,
    rows_in, set_from, slots_hold_rows, sound_names, until_end,
};
use super::fat::{chain_clusters_exist, chain_from, chain_of};
use super::fs::{children, lookup_from, named_from, Volume};
use super::io::ExFault;
use super::write::{dir_from, located, slots, DirModel, LocModel};

verus! {

/// Where a directory starts, given the entry it was reached by; `None` stands
/// for the root.
pub open spec fn dir_first(vol: Volume, dir: Option<EntryModel>) -> u32 {
    match dir {
        None => vol.geo.root_first_cluster,
        Some(e) => e.first_cluster,
    }
}

/// The chain that a directory lies in.
pub open spec fn dir_chain(img: Seq<u8>, vol: Volume, dir: Option<EntryModel>) -> Seq<u32> {
    chain_of(img, vol.geo, dir_first(vol, dir), None)->Ok_0
}

/// The raw entries of a directory up to its end.
pub open spec fn dir_rows(img: Seq<u8>, vol: Volume, dir: Option<EntryModel>) -> Seq<Seq<u8>> {
    until_end(rows_in(img, vol.geo, dir_chain(img, vol, dir)), 0)
}

/// Whether a directory is in order: chained, as long as its entry says at
/// most, and with entries that parse and names that are well-formed.
pub open spec fn tidy_dir(img: Seq<u8>, vol: Volume, dir: Option<EntryModel>) -> bool {
    &&& chain_of(img, vol.geo, dir_first(vol, dir), None) is Ok
    &&& dir matches Some(e) ==> e.is_dir && !e.no_fat_chain && dir_chain(img, vol, dir).len()
        * vol.geo.cluster_len() <= e.size
    &&& parsed_from(dir_rows(img, vol, dir), 0) is Ok
    &&& sound_names(dir_rows(img, vol, dir), 0)
}

/// Whether the directories from `cur` on along a path are all in order, the
/// last one, which the path leads to, among them.
pub open spec fn tidy_way(
    img: Seq<u8>,
    vol: Volume,
    comps: Seq<Seq<char>>,
    i: int,
    cur: Option<EntryModel>,
) -> bool
    decreases comps.len() - i,
{
    &&& tidy_dir(img, vol, cur)
    &&& i < 0 || i >= comps.len() || match named_from(
        vol.upcase,
        parsed_from(dir_rows(img, vol, cur), 0)->Ok_0,
        comps[i],
        0,
    ) {
        None => false,
        Some(e) => tidy_way(img, vol, comps, i + 1, Some(e)),
    }
}

/// The clusters of the directories from `cur` on along a path, without those
/// of the last one.
pub open spec fn way_clusters(
    img: Seq<u8>,
    vol: Volume,
    comps: Seq<Seq<char>>,
    i: int,
    cur: Option<EntryModel>,
) -> Set<int>
    decreases comps.len() - i,
{
    if i < 0 || i >= comps.len() {
        Set::empty()
    } else {
        members(dir_chain(img, vol, cur)).union(
            match named_from(
                vol.upcase,
                parsed_from(dir_rows(img, vol, cur), 0)->Ok_0,
                comps[i],
                0,
            ) {
                None => Set::empty(),
                Some(e) => way_clusters(img, vol, comps, i + 1, Some(e)),
            },
        )
    }
}

/// A directory in order holds what its raw entries say.
pub proof fn tidy_children(img: Seq<u8>, vol: Volume, dir: Option<EntryModel>)
    requires
        placed(vol.geo, img.len()),
        tidy_dir(img, vol, dir),
    ensures
        children(img, vol.geo, dir) == parsed_from(dir_rows(img, vol, dir), 0),
        all_exist(vol.geo, dir_chain(img, vol, dir)),
        dir_first(vol, dir) != 0,
{
    let geo = vol.geo;
    let first = dir_first(vol, dir);
    let n = dir_chain(img, vol, dir).len() as int;
    let cl = geo.cluster_len();
    chain_clusters_exist(img, geo, first, 0, geo.cluster_count as int, false);
    chain_len_bound(img, geo, first, 0, geo.cluster_count as int, false);
    assert(first != 0) by {
        assert(chain_from(img, geo, first, 0, geo.cluster_count as int, false) is Ok);
    }
    if dir is None {
        assert(n * cl <= u64::MAX) by (nonlinear_arith)
            requires
                0 <= n <= 0xFFFF_FFFF,
                0 <= cl <= 0x200_0000,
        ;
        directory_of_rows(img, geo, first, u64::MAX);
    } else {
        directory_of_rows(img, geo, first, dir->Some_0.size);
    }
}

/// A directory whose words and clusters stay is the directory it was.
pub proof fn dir_stays(
    a: Seq<u8>,
    b: Seq<u8>,
    vol: Volume,
    words: Set<int>,
    clusters: Set<int>,
    dir: Option<EntryModel>,
)
    requires
        placed(vol.geo, a.len()),
        confined(a, b, vol.geo, words, clusters),
        tidy_dir(a, vol, dir),
        members(dir_chain(a, vol, dir)).disjoint(words),
        members(dir_chain(a, vol, dir)).disjoint(clusters),
    ensures
        tidy_dir(b, vol, dir),
        dir_chain(b, vol, dir) == dir_chain(a, vol, dir),
        rows_in(b, vol.geo, dir_chain(a, vol, dir)) == rows_in(a, vol.geo, dir_chain(a, vol, dir)),
        dir_rows(b, vol, dir) == dir_rows(a, vol, dir),
        children(b, vol.geo, dir) == children(a, vol.geo, dir),
{
    let geo = vol.geo;
    lemma_len(a, b, geo, words, clusters);
    confined_chain(
        a,
        b,
        geo,
        words,
        clusters,
        dir_first(vol, dir),
        0,
        geo.cluster_count as int,
        false,
    );
    let chain = dir_chain(a, vol, dir);
    tidy_children(a, vol, dir);
    assert(rows_in(b, geo, chain) =~= rows_in(a, geo, chain)) by {
        assert forall|k: int| 0 <= k < chain.len() * per_cluster(geo) implies row_in(
            b,
            geo,
            chain,
            k,
        ) == row_in(a, geo, chain, k) by {
            lemma_row(geo, chain.len() as int, k);
            let c = chain[k / per_cluster(geo)] as int;
            assert(members(chain).contains(c));
            assert(geo.has_cluster(c));
            reveal(confined);
            assert(cluster_of(b, geo, c) == cluster_of(a, geo, c));
        }
    }
    tidy_children(b, vol, dir);
}

/// A way whose directories stay leads where it led; the last directory may
/// change.
pub proof fn way_stays(
    a: Seq<u8>,
    b: Seq<u8>,
    vol: Volume,
    words: Set<int>,
    clusters: Set<int>,
    comps: Seq<Seq<char>>,
    i: int,
    cur: Option<EntryModel>,
)
    requires
        placed(vol.geo, a.len()),
        confined(a, b, vol.geo, words, clusters),
        0 <= i <= comps.len(),
        tidy_way(a, vol, comps, i, cur),
        way_clusters(a, vol, comps, i, cur).disjoint(words),
        way_clusters(a, vol, comps, i, cur).disjoint(clusters),
    ensures
        lookup_from(a, vol, comps, i, cur) is Ok,
        lookup_from(b, vol, comps, i, cur) == lookup_from(a, vol, comps, i, cur),
        way_clusters(b, vol, comps, i, cur) == way_clusters(a, vol, comps, i, cur),
        tidy_dir(a, vol, lookup_from(a, vol, comps, i, cur)->Ok_0),
        tidy_dir(b, vol, lookup_from(a, vol, comps, i, cur)->Ok_0) ==> tidy_way(
            b,
            vol,
            comps,
            i,
            cur,
        ),
    decreases comps.len() - i,
{
    if i < comps.len() {
        let here = members(dir_chain(a, vol, cur));
        let es = parsed_from(dir_rows(a, vol, cur), 0)->Ok_0;
        tidy_children(a, vol, cur);
        let e = named_from(vol.upcase, es, comps[i], 0)->Some_0;
        let rest = way_clusters(a, vol, comps, i + 1, Some(e));
        assert(way_clusters(a, vol, comps, i, cur) == here.union(rest));
        assert forall|k: int| here.contains(k) implies !words.contains(k) && !clusters.contains(
            k,
        ) by {
            assert(here.union(rest).contains(k));
        }
        assert forall|k: int| rest.contains(k) implies !words.contains(k) && !clusters.contains(
            k,
        ) by {
            assert(here.union(rest).contains(k));
        }
        dir_stays(a, b, vol, words, clusters, cur);
        way_stays(a, b, vol, words, clusters, comps, i + 1, Some(e));
    }
}

/// In a directory in order, a change finds the set of a name where a lookup
/// finds its entry.
pub proof fn tidy_located(img: Seq<u8>, vol: Volume, dir: Option<EntryModel>, name: Seq<char>)
    requires
        placed(vol.geo, img.len()),
        tidy_dir(img, vol, dir),
    ensures
        located(img, vol, dir_first(vol, dir), name) == Ok::<Option<LocModel>, ExFault>(
            match found_at(vol.upcase, dir_rows(img, vol, dir), name, 0) {
                Some(k) => Some(
                    loc_at(
                        dir_rows(img, vol, dir),
                        slots(vol.geo, dir_chain(img, vol, dir)),
                        k,
                    ),
                ),
                None => None,
            },
        ),
{
    let chain = dir_chain(img, vol, dir);
    tidy_children(img, vol, dir);
    slots_hold_rows(img, vol.geo, chain);
    located_is_found(
        img,
        vol.upcase,
        slots(vol.geo, chain),
        dir_rows(img, vol, dir),
        name,
        0,
    );
}

/// A change takes the way that a lookup takes.
pub proof fn ways_agree(
    img: Seq<u8>,
    vol: Volume,
    comps: Seq<Seq<char>>,
    i: int,
    cur: Option<EntryModel>,
    dir: DirModel,
)
    requires
        placed(vol.geo, img.len()),
        0 <= i <= comps.len(),
        tidy_way(img, vol, comps, i, cur),
        dir.first_cluster == dir_first(vol, cur),
    ensures
        lookup_from(img, vol, comps, i, cur) is Ok,
        dir_from(img, vol, comps, i, dir) matches Ok(d) && d.first_cluster == dir_first(
            vol,
            lookup_from(img, vol, comps, i, cur)->Ok_0,
        ),
    decreases comps.len() - i,
{
    if i < comps.len() {
        let raws = dir_rows(img, vol, cur);
        tidy_children(img, vol, cur);
        tidy_located(img, vol, cur, comps[i]);
        named_is_found(vol.upcase, raws, comps[i], 0);
        let k = found_at(vol.upcase, raws, comps[i], 0)->Some_0;
        let e = named_from(vol.upcase, parsed_from(raws, 0)->Ok_0, comps[i], 0)->Some_0;
        let set = set_from(raws, k);
        assert(set[0] == raws[k] && set[1] == raws[k + 1]);
        let loc = loc_at(raws, slots(vol.geo, dir_chain(img, vol, cur)), k);
        assert(loc.first_cluster == e.first_cluster);
        assert(tidy_way(img, vol, comps, i + 1, Some(e)));
        assert(tidy_dir(img, vol, Some(e)));
        ways_agree(
            img,
            vol,
            comps,
            i + 1,
            Some(e),
            DirModel { first_cluster: loc.first_cluster, entry: Some(loc) },
        );
    }
}

/// A lookup of a longer path goes through the shorter one.
pub proof fn lookup_goes_through(
    img: Seq<u8>,
    vol: Volume,
    comps: Seq<Seq<char>>,
    name: Seq<char>,
    i: int,
    cur: Option<EntryModel>,
)
    requires
        0 <= i <= comps.len(),
    ensures
        lookup_from(img, vol, comps.push(name), i, cur) == (match lookup_from(
            img,
            vol,
            comps,
            i,
            cur,
        ) {
            Err(f) => Err(f),
            Ok(dir) => match children(img, vol.geo, dir) {
                Err(f) => Err(f),
                Ok(entries) => match named_from(vol.upcase, entries, name, 0) {
                    None => Err(ExFault::NotFound),
                    Some(e) => Ok(Some(e)),
                },
            },
        }),
    decreases comps.len() - i,
{
    let longer = comps.push(name);
    if i < comps.len() {
        assert(longer[i] == comps[i]);
        if let Ok(entries) = children(img, vol.geo, cur) {
            if let Some(e) = named_from(vol.upcase, entries, comps[i], 0) {
                lookup_goes_through(img, vol, comps, name, i + 1, Some(e));
            }
        }
    } else {
        assert(longer[i] == name);
        if let Ok(entries) = children(img, vol.geo, cur) {
            if let Some(e) = named_from(vol.upcase, entries, name, 0) {
                assert(lookup_from(img, vol, longer, i + 1, Some(e)) == Ok::<
                    Option<EntryModel>,
                    ExFault,
                >(Some(e)));
            }
        }
    }
}

} // verus!
