//! What becomes of a directory's listing when a set in it is replaced, added
//! or cleared.

use vstd::prelude::*;

use super::dir::{parsed_from, set_entry, EntryModel, ENTRY_FILE};
use super::entries::{
    found_at, named_is_found, set_from, sound_names,
};
use super::fs::{named_from, same_name};
use super::write::usable;

verus! {

/// Where no set straddles the `k`-th raw entry, a listing is that of the raw
/// entries before it, followed by that of the rest.
pub proof fn listing_splits(raws: Seq<Seq<u8>>, i: int, k: int)
    requires
        0 <= i <= k <= raws.len(),
        parsed_from(raws.take(k), i) is Ok,
    ensures
        parsed_from(raws, i) == (match parsed_from(raws, k) {
            Ok(q) => Ok(parsed_from(raws.take(k), i)->Ok_0 + q),
            Err(f) => Err(f),
        }),
    decreases k - i,
{
    let head = raws.take(k);
    if i == k {
        if let Ok(q) = parsed_from(raws, k) {
            assert(Seq::<EntryModel>::empty() + q =~= q);
        }
    } else {
        assert(head[i] == raws[i]);
        if raws[i][0] != ENTRY_FILE {
            listing_splits(raws, i + 1, k);
        } else {
            let next = i + 1 + raws[i][1];
            assert(head.subrange(i, next) =~= raws.subrange(i, next));
            listing_splits(raws, next, k);
            let e = set_entry(set_from(raws, i))->Ok_0;
            let p = parsed_from(head, next)->Ok_0;
            if let Ok(q) = parsed_from(raws, k) {
                assert(seq![e] + (p + q) =~= (seq![e] + p) + q);
            }
        }
    }
}

/// No set straddles the place where a name is found, and no set before it has
/// the name.
pub proof fn found_splits(upcase: Seq<u16>, raws: Seq<Seq<u8>>, name: Seq<char>, i: int)
    requires
        0 <= i,
        parsed_from(raws, i) is Ok,
        found_at(upcase, raws, name, i) is Some,
    ensures
        ({
            let k = found_at(upcase, raws, name, i)->Some_0;
            &&& i <= k < raws.len()
            &&& parsed_from(raws.take(k), i) is Ok
            &&& named_from(upcase, parsed_from(raws.take(k), i)->Ok_0, name, 0) is None
        }),
    decreases raws.len() - i,
{
    named_is_found(upcase, raws, name, i);
    let k = found_at(upcase, raws, name, i)->Some_0;
    let head = raws.take(k);
    if i < k {
        assert(head[i] == raws[i]);
        if raws[i][0] != ENTRY_FILE {
            found_splits(upcase, raws, name, i + 1);
        } else {
            let next = i + 1 + raws[i][1];
            found_splits(upcase, raws, name, next);
            assert(head.subrange(i, next) =~= raws.subrange(i, next));
            let e = set_entry(set_from(raws, i))->Ok_0;
            let p = parsed_from(head, next)->Ok_0;
            lemma_none_ahead(upcase, e, p, name);
        }
    }
}

proof fn lemma_none_ahead(upcase: Seq<u16>, e: EntryModel, p: Seq<EntryModel>, name: Seq<char>)
    requires
        named_from(upcase, p, name, 0) is None,
        !same_name(upcase, e.name, name),
    ensures
        named_from(upcase, seq![e] + p, name, 0) is None,
{
    lemma_none(upcase, p, name, 0);
    lemma_all(upcase, seq![e] + p, name, 0);
}

/// Whether none of a listing's entries has a name.
pub open spec fn unnamed(upcase: Seq<u16>, es: Seq<EntryModel>, name: Seq<char>) -> bool {
    forall|i: int| 0 <= i < es.len() ==> !same_name(upcase, (#[trigger] es[i]).name, name)
}

pub proof fn lemma_none(upcase: Seq<u16>, es: Seq<EntryModel>, name: Seq<char>, j: int)
    requires
        0 <= j,
        named_from(upcase, es, name, j) is None,
    ensures
        forall|i: int| j <= i < es.len() ==> !same_name(upcase, (#[trigger] es[i]).name, name),
    decreases es.len() - j,
{
    if j < es.len() {
        lemma_none(upcase, es, name, j + 1);
    }
}

pub proof fn lemma_all(upcase: Seq<u16>, es: Seq<EntryModel>, name: Seq<char>, j: int)
    requires
        0 <= j,
        forall|i: int| j <= i < es.len() ==> !same_name(upcase, (#[trigger] es[i]).name, name),
    ensures
        named_from(upcase, es, name, j) is None,
    decreases es.len() - j,
{
    if j < es.len() {
        assert(!same_name(upcase, es[j].name, name));
        lemma_all(upcase, es, name, j + 1);
    }
}

/// The first entry with a name is the one that no other with it precedes.
pub proof fn lemma_first(upcase: Seq<u16>, es: Seq<EntryModel>, name: Seq<char>, j: int, k: int)
    requires
        0 <= j <= k < es.len(),
        forall|i: int| j <= i < k ==> !same_name(upcase, (#[trigger] es[i]).name, name),
        same_name(upcase, es[k].name, name),
    ensures
        named_from(upcase, es, name, j) == Some(es[k]),
    decreases k - j,
{
    if j < k {
        assert(!same_name(upcase, es[j].name, name));
        lemma_first(upcase, es, name, j + 1, k);
    }
}

/// Whether all raw entries of every set, from the `i`-th on, are in use, and
/// stay something when they are cleared.
pub open spec fn whole_sets(raws: Seq<Seq<u8>>, i: int) -> bool
    decreases raws.len() - i,
{
    if i < 0 || i >= raws.len() {
        true
    } else if raws[i][0] != ENTRY_FILE {
        whole_sets(raws, i + 1)
    } else if raws[i][1] < 2 || i + 1 + raws[i][1] > raws.len() {
        false
    } else {
        (forall|j: int| i <= j < i + 1 + raws[i][1] ==> (#[trigger] raws[j])[0] > 0x80)
            && whole_sets(raws, i + 1 + raws[i][1])
    }
}

/// No set straddles a raw entry that is not in use.
pub proof fn gap_splits(raws: Seq<Seq<u8>>, i: int, s: int)
    requires
        0 <= i <= s <= raws.len(),
        parsed_from(raws, i) is Ok,
        whole_sets(raws, i),
        s < raws.len() ==> usable(raws[s]),
    ensures
        parsed_from(raws.take(s), i) is Ok,
        parsed_from(raws, s) is Ok,
        whole_sets(raws, s),
    decreases s - i,
{
    let head = raws.take(s);
    if i < s {
        assert(head[i] == raws[i]);
        if raws[i][0] != ENTRY_FILE {
            gap_splits(raws, i + 1, s);
        } else {
            let next = i + 1 + raws[i][1];
            assert(next <= s) by {
                if s < next {
                    assert(raws[s][0] > 0x80);
                }
            }
            gap_splits(raws, next, s);
            assert(head.subrange(i, next) =~= raws.subrange(i, next));
        }
    }
}

/// Raw entries that start no set are passed over.
pub proof fn passed_over(raws: Seq<Seq<u8>>, i: int, k: int)
    requires
        0 <= i <= k <= raws.len(),
        forall|j: int| i <= j < k ==> (#[trigger] raws[j])[0] != ENTRY_FILE,
    ensures
        parsed_from(raws, i) == parsed_from(raws, k),
        whole_sets(raws, i) == whole_sets(raws, k),
    decreases k - i,
{
    if i < k {
        assert(raws[i][0] != ENTRY_FILE);
        passed_over(raws, i + 1, k);
    }
}

/// What is whole before and after a place where no set straddles is whole
/// throughout.
pub proof fn whole_joins(raws: Seq<Seq<u8>>, i: int, k: int)
    requires
        0 <= i <= k <= raws.len(),
        parsed_from(raws.take(k), i) is Ok,
        whole_sets(raws.take(k), i),
        whole_sets(raws, k),
    ensures
        whole_sets(raws, i),
    decreases k - i,
{
    let head = raws.take(k);
    if i < k {
        assert(head[i] == raws[i]);
        if raws[i][0] != ENTRY_FILE {
            whole_joins(raws, i + 1, k);
        } else {
            let next = i + 1 + raws[i][1];
            whole_joins(raws, next, k);
            assert forall|j: int| i <= j < next implies (#[trigger] raws[j])[0] > 0x80 by {
                assert(head[j] == raws[j]);
            }
        }
    }
}

/// What is whole throughout is whole before a place where no set straddles,
/// and after it.
pub proof fn whole_splits(raws: Seq<Seq<u8>>, i: int, k: int)
    requires
        0 <= i <= k <= raws.len(),
        parsed_from(raws.take(k), i) is Ok,
        whole_sets(raws, i),
    ensures
        whole_sets(raws.take(k), i),
        whole_sets(raws, k),
    decreases k - i,
{
    let head = raws.take(k);
    if i < k {
        assert(head[i] == raws[i]);
        if raws[i][0] != ENTRY_FILE {
            whole_splits(raws, i + 1, k);
        } else {
            let next = i + 1 + raws[i][1];
            whole_splits(raws, next, k);
            assert forall|j: int| i <= j < next implies (#[trigger] head[j])[0] > 0x80 by {
                assert(head[j] == raws[j]);
            }
        }
    }
}

/// What comes from the `i`-th raw entry on decides whether the sets there are
/// whole.
pub proof fn whole_tail(a: Seq<Seq<u8>>, b: Seq<Seq<u8>>, i: int)
    requires
        a.len() == b.len(),
        0 <= i,
        whole_sets(a, i),
        forall|j: int| i <= j < a.len() ==> #[trigger] a[j] == b[j],
    ensures
        whole_sets(b, i),
    decreases a.len() - i,
{
    if i < a.len() {
        assert(a[i] == b[i]);
        if a[i][0] != ENTRY_FILE {
            whole_tail(a, b, i + 1);
        } else {
            let next = i + 1 + a[i][1];
            whole_tail(a, b, next);
            assert forall|j: int| i <= j < next implies (#[trigger] b[j])[0] > 0x80 by {
                assert(a[j] == b[j]);
            }
        }
    }
}

/// Names sound before and after a place where no set straddles are sound
/// throughout.
pub proof fn names_join(raws: Seq<Seq<u8>>, i: int, k: int)
    requires
        0 <= i <= k <= raws.len(),
        parsed_from(raws.take(k), i) is Ok,
        sound_names(raws.take(k), i),
        sound_names(raws, k),
    ensures
        sound_names(raws, i),
    decreases k - i,
{
    let head = raws.take(k);
    if i < k {
        assert(head[i] == raws[i]);
        if raws[i][0] != ENTRY_FILE {
            names_join(raws, i + 1, k);
        } else {
            let next = i + 1 + raws[i][1];
            assert(set_from(head, i) =~= set_from(raws, i));
            names_join(raws, next, k);
        }
    }
}

/// Names sound throughout are sound before a place where no set straddles, and
/// after it.
pub proof fn names_split(raws: Seq<Seq<u8>>, i: int, k: int)
    requires
        0 <= i <= k <= raws.len(),
        parsed_from(raws.take(k), i) is Ok,
        sound_names(raws, i),
    ensures
        sound_names(raws.take(k), i),
        sound_names(raws, k),
    decreases k - i,
{
    let head = raws.take(k);
    if i < k {
        assert(head[i] == raws[i]);
        if raws[i][0] != ENTRY_FILE {
            names_split(raws, i + 1, k);
        } else {
            let next = i + 1 + raws[i][1];
            assert(set_from(head, i) =~= set_from(raws, i));
            names_split(raws, next, k);
        }
    }
}

/// Raw entries that start no set hold no name.
pub proof fn names_passed_over(raws: Seq<Seq<u8>>, i: int, k: int)
    requires
        0 <= i <= k <= raws.len(),
        forall|j: int| i <= j < k ==> (#[trigger] raws[j])[0] != ENTRY_FILE,
    ensures
        sound_names(raws, i) == sound_names(raws, k),
    decreases k - i,
{
    if i < k {
        assert(raws[i][0] != ENTRY_FILE);
        names_passed_over(raws, i + 1, k);
    }
}

} // verus!
