//! The order in which a directory is shown: directories first, then by name
//! without regard to case.

use vstd::prelude::*;

use super::tree::{dirs_of, DirEntry, DirModel};
use crate::text::chars_of;

verus! {

/// A text in lower case, as Unicode has it.
pub uninterp spec fn lowercase_of(s: Seq<char>) -> Seq<char>;

/// `str::to_lowercase`: the text in lower case by Unicode's own mapping, which
/// depends on the text alone. What the mapping is, is left unsaid.
#[verifier::external_body]
fn lowercase(s: &str) -> (r: String)
    ensures
        r@ == lowercase_of(s@),
{
    s.to_lowercase()
}

/// Whether a text comes before another, from the `i`-th character on.
pub open spec fn before(a: Seq<char>, b: Seq<char>, i: int) -> bool
    decreases b.len() - i,
{
    if i < 0 || i >= b.len() {
        false
    } else if i >= a.len() {
        true
    } else if a[i] != b[i] {
        (a[i] as int) < b[i] as int
    } else {
        before(a, b, i + 1)
    }
}

/// Whether what has one kind and name is shown before what has another.
pub open spec fn shown_before(a_dir: bool, a: Seq<char>, b_dir: bool, b: Seq<char>) -> bool {
    if a_dir != b_dir {
        a_dir
    } else {
        before(a, b, 0)
    }
}

/// Whether the `i`-th of some entries is shown before the `j`-th: those that
/// are alike stay in their order.
pub open spec fn earlier(dirs: Seq<bool>, names: Seq<Seq<char>>, i: int, j: int) -> bool {
    ||| shown_before(dirs[i], names[i], dirs[j], names[j])
    ||| dirs[i] == dirs[j] && names[i] == names[j] && i < j
}

/// Whether `order` holds each of `n` places once, those shown earlier first.
pub open spec fn in_order(
    dirs: Seq<bool>,
    names: Seq<Seq<char>>,
    n: int,
    order: Seq<usize>,
) -> bool {
    &&& order.len() == n
    &&& forall|i: int| 0 <= i < n ==> (#[trigger] order[i]) < n
    &&& forall|i: int, j: int|
        0 <= i < j < n ==> earlier(dirs, names, #[trigger] order[i] as int, #[trigger] order[j] as int)
}

/// The texts of some strings.
pub open spec fn texts(v: Seq<String>) -> Seq<Seq<char>> {
    v.map_values(|s: String| s@)
}

proof fn lemma_before_trans(a: Seq<char>, b: Seq<char>, c: Seq<char>, i: int)
    requires
        before(a, b, i),
        before(b, c, i),
    ensures
        before(a, c, i),
    decreases c.len() - i,
{
    if i < a.len() && i < b.len() && a[i] == b[i] && b[i] == c[i] {
        lemma_before_trans(a, b, c, i + 1);
    }
}

proof fn lemma_before_or_same(a: Seq<char>, b: Seq<char>, i: int)
    requires
        0 <= i <= a.len(),
        i <= b.len(),
        !before(a, b, i),
        !before(b, a, i),
        forall|j: int| 0 <= j < i ==> a[j] == b[j],
    ensures
        a == b,
    decreases a.len() - i,
{
    if i < a.len() && i < b.len() {
        lemma_before_or_same(a, b, i + 1);
    } else {
        assert(a =~= b);
    }
}

proof fn lemma_not_both_ways(a: Seq<char>, b: Seq<char>, i: int)
    requires
        before(a, b, i),
    ensures
        !before(b, a, i),
    decreases b.len() - i,
{
    if i < a.len() && a[i] == b[i] {
        lemma_not_both_ways(a, b, i + 1);
    }
}

/// Being shown earlier goes on from one to the next, and nothing is shown
/// earlier than itself or both ways.
pub proof fn the_order_is_one(dirs: Seq<bool>, names: Seq<Seq<char>>, i: int, j: int, k: int)
    ensures
        earlier(dirs, names, i, j) && earlier(dirs, names, j, k) ==> earlier(dirs, names, i, k),
        i != j ==> (earlier(dirs, names, i, j) <==> !earlier(dirs, names, j, i)),
        !earlier(dirs, names, i, i),
{
    if before(names[i], names[i], 0) {
        lemma_not_both_ways(names[i], names[i], 0);
    }
    if before(names[i], names[j], 0) {
        lemma_not_both_ways(names[i], names[j], 0);
        if before(names[j], names[k], 0) {
            lemma_before_trans(names[i], names[j], names[k], 0);
        }
    } else if !before(names[j], names[i], 0) {
        lemma_before_or_same(names[i], names[j], 0);
    }
}

fn code_of(c: char) -> (r: u32)
    ensures
        r == c as int,
{
    c as u32
}

/// Whether one text comes before another.
fn comes_before(a: &Vec<char>, b: &Vec<char>) -> (r: bool)
    ensures
        r == before(a@, b@, 0),
{
    let mut i: usize = 0;
    while i < a.len() && i < b.len()
        invariant
            i <= a@.len(),
            i <= b@.len(),
            before(a@, b@, 0) == before(a@, b@, i as int),
        decreases a@.len() - i,
    {
        if a[i] != b[i] {
            return code_of(a[i]) < code_of(b[i]);
        }
        i = i + 1;
    }
    i < b.len()
}

/// The places of some entries in the order in which they are shown, given
/// which of them are directories and their names in lower case.
pub fn order_of(dirs: &Vec<bool>, names: &Vec<String>) -> (r: Vec<usize>)
    requires
        dirs@.len() == names@.len(),
    ensures
        in_order(dirs@, texts(names@), names@.len() as int, r@),
{
    let ghost ns = texts(names@);
    let n: usize = names.len();
    let mut keys: Vec<Vec<char>> = Vec::new();
    let mut i: usize = 0;
    while i < n
        invariant
            i <= n,
            n == names@.len(),
            ns == texts(names@),
            keys@.len() == i,
            forall|j: int| 0 <= j < i ==> (#[trigger] keys@[j])@ == ns[j],
        decreases n - i,
    {
        keys.push(chars_of(names[i].as_str()));
        i = i + 1;
    }
    let mut order: Vec<usize> = Vec::new();
    let mut k: usize = 0;
    while k < n
        invariant
            k <= n,
            n == dirs@.len(),
            n == ns.len(),
            keys@.len() == n,
            forall|j: int| 0 <= j < n ==> (#[trigger] keys@[j])@ == ns[j],
            in_order(dirs@, ns, k as int, order@),
        decreases n - k,
    {
        let mut p: usize = order.len();
        while p > 0 && first_shown(dirs, &keys, k, order[p - 1])
            invariant
                p <= k < n,
                n == dirs@.len(),
                n == ns.len(),
                keys@.len() == n,
                forall|j: int| 0 <= j < n ==> (#[trigger] keys@[j])@ == ns[j],
                in_order(dirs@, ns, k as int, order@),
                forall|q: int| p <= q < k ==> earlier(dirs@, ns, k as int, #[trigger] order@[q] as int),
            decreases p,
        {
            p = p - 1;
        }
        proof {
            assert forall|q: int| 0 <= q < p implies earlier(
                dirs@,
                ns,
                #[trigger] order@[q] as int,
                k as int,
            ) by {
                let last = order@[p - 1] as int;
                the_order_is_one(dirs@, ns, last, k as int, k as int);
                the_order_is_one(dirs@, ns, order@[q] as int, last, k as int);
            }
        }
        let ghost was = order@;
        order.insert(p, k);
        assert(order@ =~= was.insert(p as int, k));
        k = k + 1;
    }
    order
}

/// Whether an entry is shown before one that precedes it.
fn first_shown(dirs: &Vec<bool>, keys: &Vec<Vec<char>>, i: usize, j: usize) -> (r: bool)
    requires
        j < i < dirs@.len(),
        dirs@.len() == keys@.len(),
    ensures
        r == earlier(dirs@, keys@.map_values(|v: Vec<char>| v@), i as int, j as int),
{
    if dirs[i] != dirs[j] {
        dirs[i]
    } else {
        comes_before(&keys[i], &keys[j])
    }
}

/// The places of a directory's entries in the order in which they are shown.
pub fn listing_order(entries: &Vec<DirEntry>) -> (r: Vec<usize>)
    ensures
        in_order(
            dirs_of(entries@).map_values(|e: DirModel| e.is_dir),
            dirs_of(entries@).map_values(|e: DirModel| lowercase_of(e.name)),
            entries@.len() as int,
            r@,
        ),
{
    let ghost ds = dirs_of(entries@).map_values(|e: DirModel| e.is_dir);
    let ghost ns = dirs_of(entries@).map_values(
        |e: DirModel| lowercase_of(e.name),
    );
    let mut dirs: Vec<bool> = Vec::new();
    let mut names: Vec<String> = Vec::new();
    let n: usize = entries.len();
    let mut i: usize = 0;
    while i < n
        invariant
            i <= n,
            n == entries@.len(),
            ds == dirs_of(entries@).map_values(|e: DirModel| e.is_dir),
            ns == dirs_of(entries@).map_values(
                |e: DirModel| lowercase_of(e.name),
            ),
            dirs@ == ds.take(i as int),
            texts(names@) == ns.take(i as int),
            names@.len() == i,
        decreases n - i,
    {
        let ghost was = names@;
        dirs.push(entries[i].is_dir);
        names.push(lowercase(entries[i].name.as_str()));
        assert(dirs@ =~= ds.take(i + 1));
        assert(texts(names@) =~= texts(was).push(names@[i as int]@));
        assert(texts(names@) =~= ns.take(i + 1));
        i = i + 1;
    }
    assert(ds.take(n as int) =~= ds);
    assert(ns.take(n as int) =~= ns);
    order_of(&dirs, &names)
}

proof fn lemma_first_difference(a: Seq<char>, b: Seq<char>, p: int, i: int)
    requires
        0 <= i <= p,
        p < a.len(),
        p < b.len(),
        forall|q: int| 0 <= q < p ==> a[q] == b[q],
        (a[p] as int) < b[p] as int,
    ensures
        before(a, b, i),
        !before(b, a, i),
    decreases p - i,
{
    if i < p {
        lemma_first_difference(a, b, p, i + 1);
    }
}

proof fn lemma_prefix(a: Seq<char>, b: Seq<char>, i: int)
    requires
        0 <= i <= a.len() < b.len(),
        forall|q: int| 0 <= q < a.len() ==> a[q] == b[q],
    ensures
        before(a, b, i),
        !before(b, a, i),
    decreases a.len() - i,
{
    if i < a.len() {
        lemma_prefix(a, b, i + 1);
    }
}

proof fn lemma_text_comes_before(a: Seq<char>, b: Seq<char>, p: int)
    requires
        before(a, b, 0),
        0 <= p <= a.len(),
        p <= b.len(),
        forall|q: int| 0 <= q < p ==> a[q] == b[q],
        p == a.len() || p == b.len() || a[p] != b[p],
    ensures
        p < b.len(),
        p < a.len() ==> (a[p] as int) < b[p] as int,
{
    if p < a.len() && p < b.len() {
        if (b[p] as int) < a[p] as int {
            lemma_first_difference(b, a, p, 0);
        }
        assert(a[p] as int != b[p] as int);
    } else if p == b.len() {
        if p < a.len() {
            lemma_prefix(b, a, 0);
        } else {
            assert(a =~= b);
            lemma_not_both_ways(a, b, 0);
        }
    }
}

/// What an order shows, of any two places `i` before `j`: no file is shown
/// before a directory. Of two of a kind, where their names first differ at a
/// place of both, the lesser character is shown first, however long the names
/// are; a name that begins another is shown before it; and of two with the same
/// name the earlier stays first. And each entry is shown once.
pub proof fn what_an_order_shows(
    dirs: Seq<bool>,
    names: Seq<Seq<char>>,
    n: int,
    order: Seq<usize>,
    i: int,
    j: int,
    p: int,
)
    requires
        in_order(dirs, names, n, order),
        0 <= i < j < n,
    ensures
        order.len() == n,
        order[i] < n,
        order[i] != order[j],
        ({
            let a = order[i] as int;
            let b = order[j] as int;
            &&& dirs[b] ==> dirs[a]
            &&& dirs[a] == dirs[b] && 0 <= p <= names[a].len() && p <= names[b].len() && (forall|
                q: int,
            |
                0 <= q < p ==> names[a][q] == names[b][q]) ==> {
                &&& p < names[a].len() && p < names[b].len() && names[a][p] != names[b][p] ==> (
                names[a][p] as int) < names[b][p] as int
                &&& p == names[b].len() ==> names[a].len() == p && a < b
            }
        }),
{
    let a = order[i] as int;
    let b = order[j] as int;
    assert(earlier(dirs, names, a, b));
    the_order_is_one(dirs, names, a, a, a);
    if dirs[a] == dirs[b] && 0 <= p <= names[a].len() && p <= names[b].len() && (forall|q: int|
        0 <= q < p ==> names[a][q] == names[b][q]) {
        if before(names[a], names[b], 0) {
            if p == names[a].len() || p == names[b].len() || names[a][p] != names[b][p] {
                lemma_text_comes_before(names[a], names[b], p);
            }
        }
    }
}

/// Of any two entries one is shown before the other: a directory before a file,
/// and of two of a kind the one with the lesser character where their names
/// first differ, or the one whose name begins the other's.
pub proof fn which_entry_is_shown_first(
    dirs: Seq<bool>,
    names: Seq<Seq<char>>,
    a: int,
    b: int,
    p: int,
)
    requires
        0 <= p <= names[a].len(),
        p < names[b].len(),
        forall|q: int| 0 <= q < p ==> names[a][q] == names[b][q],
        p == names[a].len() || (names[a][p] as int) < names[b][p] as int,
    ensures
        dirs[a] == dirs[b] ==> earlier(dirs, names, a, b) && !earlier(dirs, names, b, a),
        dirs[a] && !dirs[b] ==> earlier(dirs, names, a, b) && !earlier(dirs, names, b, a),
        !dirs[a] && dirs[b] ==> earlier(dirs, names, b, a) && !earlier(dirs, names, a, b),
{
    if p < names[a].len() {
        lemma_first_difference(names[a], names[b], p, 0);
    } else {
        lemma_prefix(names[a], names[b], 0);
    }
    assert(names[a] != names[b]);
}

} // verus!
