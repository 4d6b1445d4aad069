//! The rules of the FAT adapter: paths, names, times, and how a gap is filled.

use vstd::prelude::*;

use super::tree::{dirs_of, DirEntry, DirModel};
use crate::text::{chars_of, last_slash, same_text, string_of};
use crate::time::{civil_ms, moment_ms};

verus! {

/// A path without its leading slashes.
pub open spec fn without_leading(path: Seq<char>) -> Seq<char>
    decreases path.len(),
{
    if path.len() > 0 && path[0] == '/' {
        without_leading(path.skip(1))
    } else {
        path
    }
}

/// A path as FAT code takes it: without leading slashes.
pub fn fat_path(path: &str) -> (r: String)
    ensures
        r@ == without_leading(path@),
{
    let chars: Vec<char> = chars_of(path);
    let n: usize = chars.len();
    let mut i: usize = 0;
    assert(path@.skip(0) =~= path@);
    while i < n && chars[i] == '/'
        invariant
            i <= n == chars@.len(),
            chars@ == path@,
            without_leading(path@) == without_leading(path@.skip(i as int)),
        decreases n - i,
    {
        assert(path@.skip(i as int).skip(1) =~= path@.skip(i + 1));
        i = i + 1;
    }
    let all: &[char] = chars.as_slice();
    let out: String = string_of(&all[i..n]);
    assert(out@ =~= path@.skip(i as int));
    out
}

/// Where the last slash splits a path; without one all of it is the name.
pub open spec fn split_last(path: Seq<char>) -> (Seq<char>, Seq<char>) {
    match last_slash(path) {
        Some(i) => (path.take(i), path.skip(i + 1)),
        None => (seq![], path),
    }
}

/// The directory and the name of a path.
pub fn split_name(path: &str) -> (r: (String, String))
    ensures
        (r.0@, r.1@) == split_last(path@),
{
    let chars: Vec<char> = chars_of(path);
    let n: usize = chars.len();
    let mut cut: usize = n;
    assert(path@.take(n as int) =~= path@);
    while cut > 0 && chars[cut - 1] != '/'
        invariant
            cut <= n == chars@.len(),
            chars@ == path@,
            last_slash(path@) == last_slash(path@.take(cut as int)),
        decreases cut,
    {
        assert(path@.take(cut as int).drop_last() =~= path@.take(cut - 1));
        cut = cut - 1;
    }
    let all: &[char] = chars.as_slice();
    if cut == 0 {
        let none: String = String::new();
        assert(none@ =~= seq![]);
        let name: String = string_of(all);
        (none, name)
    } else {
        let dir: String = string_of(&all[0..cut - 1]);
        let name: String = string_of(&all[cut..n]);
        assert(last_slash(path@) == Some(cut - 1));
        assert(dir@ =~= path@.take(cut - 1));
        assert(name@ =~= path@.skip(cut as int));
        (dir, name)
    }
}

/// Whether a listing shows a name: all but the two dot entries.
pub fn listed(name: &str) -> (r: bool)
    ensures
        r == (name@ != "."@ && name@ != ".."@),
{
    !same_text(name, ".") && !same_text(name, "..")
}

pub open spec fn lower(c: char) -> char {
    if 'A' <= c <= 'Z' {
        (c as int + 32) as char
    } else {
        c
    }
}

/// Whether two names are equal but for the case of ASCII letters.
pub open spec fn alike(a: Seq<char>, b: Seq<char>) -> bool {
    a.len() == b.len() && forall|i: int|
        0 <= i < a.len() ==> lower(#[trigger] a[i]) == lower(b[i])
}

fn lower_code(c: char) -> (r: u32)
    ensures
        r == lower(c) as int,
{
    let n: u32 = c as u32;
    if 0x41 <= n && n <= 0x5A {
        n + 32
    } else {
        n
    }
}

fn same_name(a: &str, b: &str) -> (r: bool)
    ensures
        r == alike(a@, b@),
{
    let x: Vec<char> = chars_of(a);
    let y: Vec<char> = chars_of(b);
    if x.len() != y.len() {
        return false;
    }
    let n: usize = x.len();
    let mut i: usize = 0;
    while i < n
        invariant
            i <= n,
            n == x@.len(),
            n == y@.len(),
            x@ == a@,
            y@ == b@,
            forall|j: int| 0 <= j < i ==> lower(#[trigger] a@[j]) == lower(b@[j]),
        decreases n - i,
    {
        if lower_code(x[i]) != lower_code(y[i]) {
            assert(lower(a@[i as int]) != lower(b@[i as int]));
            return false;
        }
        i = i + 1;
    }
    true
}

/// The first entry from the `j`-th on whose name is alike.
pub open spec fn alike_from(entries: Seq<DirModel>, name: Seq<char>, j: int) -> Option<int>
    decreases entries.len() - j,
{
    if j < 0 || j >= entries.len() {
        None
    } else if alike(entries[j].name, name) {
        Some(j)
    } else {
        alike_from(entries, name, j + 1)
    }
}

/// Which entry of a directory has a name, in whatever case.
pub fn find_entry(entries: &Vec<DirEntry>, name: &str) -> (r: Option<usize>)
    ensures
        match r {
            Some(i) => i < entries@.len() && alike_from(dirs_of(entries@), name@, 0) == Some(
                i as int,
            ),
            None => alike_from(dirs_of(entries@), name@, 0) is None,
        },
{
    let ghost ev = dirs_of(entries@);
    let n: usize = entries.len();
    let mut i: usize = 0;
    while i < n
        invariant
            i <= n == entries@.len(),
            ev == dirs_of(entries@),
            alike_from(ev, name@, 0) == alike_from(ev, name@, i as int),
        decreases n - i,
    {
        assert(ev[i as int] == entries@[i as int]@);
        if same_name(entries[i].name.as_str(), name) {
            return Some(i);
        }
        i = i + 1;
    }
    None
}

/// A FAT date and time, each field as wide as it is stored, as Unix
/// milliseconds.
pub fn to_unix_ms(
    year: u16,
    month: u16,
    day: u16,
    hour: u16,
    min: u16,
    sec: u16,
    millis: u16,
) -> (r: i64)
    requires
        1980 <= year <= 2107,
        month <= 15,
        day <= 31,
        hour <= 31,
        min <= 63,
        sec <= 64,
        millis <= 990,
    ensures
        r == moment_ms(
            year as int,
            month as int,
            day as int,
            3600 * hour + 60 * min + sec,
            millis as int,
        ),
{
    civil_ms(
        year as i64,
        month as i64,
        day as i64,
        3600 * (hour as i64) + 60 * (min as i64) + sec as i64,
        millis as i64,
    )
}

/// How many bytes of a gap still `remaining` are filled next: 4096 at most.
pub fn fill_step(remaining: u64) -> (r: usize)
    ensures
        r == if remaining <= 4096 {
            remaining as int
        } else {
            4096
        },
{
    if remaining <= 4096 {
        remaining as usize
    } else {
        4096
    }
}

/// How many zeros go between the end of a file of `size` bytes and a write at
/// `offset`.
pub fn gap_before(size: u64, offset: u64) -> (r: u64)
    ensures
        r == if offset > size {
            offset - size
        } else {
            0
        },
{
    if offset > size {
        offset - size
    } else {
        0
    }
}

/// A path is its leading slashes and the rest, which begins with none.
pub proof fn a_path_loses_its_leading_slashes(path: Seq<char>)
    ensures
        ({
            let r = without_leading(path);
            let k = path.len() - r.len();
            &&& 0 <= k
            &&& r == path.skip(k)
            &&& r.len() > 0 ==> r[0] != '/'
            &&& forall|i: int| 0 <= i < k ==> path[i] == '/'
        }),
    decreases path.len(),
{
    if path.len() > 0 && path[0] == '/' {
        a_path_loses_its_leading_slashes(path.skip(1));
        let r = without_leading(path.skip(1));
        let k = path.len() - r.len();
        assert(path.skip(1).skip(k - 1) =~= path.skip(k));
        assert forall|i: int| 0 <= i < k implies path[i] == '/' by {
            if i > 0 {
                assert(path.skip(1)[i - 1] == path[i]);
            }
        }
    } else {
        assert(path.skip(0) =~= path);
    }
}

/// A path with a slash is its directory, that slash and its name; the name has
/// none, and is all of a path that has none.
pub proof fn a_path_splits_at_its_last_slash(path: Seq<char>)
    ensures
        ({
            let (dir, name) = split_last(path);
            &&& !name.contains('/')
            &&& path.contains('/') ==> path == dir + seq!['/'] + name
            &&& !path.contains('/') ==> dir == Seq::<char>::empty() && name == path
        }),
{
    lemma_last_slash(path);
    if let Some(i) = last_slash(path) {
        assert(path[i] == '/');
        assert(path =~= path.take(i) + seq!['/'] + path.skip(i + 1));
        let name = path.skip(i + 1);
        assert forall|j: int| 0 <= j < name.len() implies #[trigger] name[j] != '/' by {
            assert(name[j] == path[i + 1 + j]);
        }
    }
}

proof fn lemma_last_slash(path: Seq<char>)
    ensures
        match last_slash(path) {
            Some(i) => 0 <= i < path.len() && path[i] == '/' && forall|j: int|
                i < j < path.len() ==> path[j] != '/',
            None => forall|j: int| 0 <= j < path.len() ==> path[j] != '/',
        },
    decreases path.len(),
{
    if path.len() > 0 && path.last() != '/' {
        lemma_last_slash(path.drop_last());
        assert forall|j: int| 0 <= j < path.len() - 1 implies path[j] == path.drop_last()[j] by {}
    }
}

/// Names are alike where each character is the other's, or its ASCII letter in
/// the other case; and the entry that is found is the first that is alike.
pub proof fn names_are_alike_but_for_case(a: Seq<char>, b: Seq<char>)
    ensures
        alike(a, b) <==> a.len() == b.len() && forall|i: int|
            0 <= i < a.len() ==> #[trigger] a[i] == b[i] || (0x41 <= a[i] as int && a[i] as int
                <= 0x5A && b[i] as int == a[i] as int + 32) || (0x41 <= b[i] as int && b[i] as int
                <= 0x5A && a[i] as int == b[i] as int + 32),
{
    assert forall|c: char, d: char| #![trigger lower(c), lower(d)]
        lower(c) == lower(d) <==> c == d || (0x41 <= c as int && c as int <= 0x5A && d as int
            == c as int + 32) || (0x41 <= d as int && d as int <= 0x5A && c as int == d as int
            + 32) by {}
    if alike(a, b) {
        assert forall|i: int| 0 <= i < a.len() implies #[trigger] a[i] == b[i] || (0x41
            <= a[i] as int && a[i] as int <= 0x5A && b[i] as int == a[i] as int + 32) || (0x41
            <= b[i] as int && b[i] as int <= 0x5A && a[i] as int == b[i] as int + 32) by {
            assert(lower(a[i]) == lower(b[i]));
        }
    }
}

/// The entry that is found is the first whose name is alike.
pub proof fn the_first_alike_is_found(entries: Seq<DirModel>, name: Seq<char>, j: int)
    requires
        0 <= j <= entries.len(),
    ensures
        match alike_from(entries, name, j) {
            Some(i) => j <= i < entries.len() && alike(entries[i].name, name) && forall|k: int|
                j <= k < i ==> !alike((#[trigger] entries[k]).name, name),
            None => forall|k: int|
                j <= k < entries.len() ==> !alike((#[trigger] entries[k]).name, name),
        },
    decreases entries.len() - j,
{
    if j < entries.len() && !alike(entries[j].name, name) {
        the_first_alike_is_found(entries, name, j + 1);
    }
}

} // verus!
