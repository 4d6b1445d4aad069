//! The rules of the NTFS adapter: times, and which names are shown.

use vstd::prelude::*;

use crate::text::{chars_of, components, path_components, same_text, texts};
use crate::time::{moment_ms, month_start};

verus! {

/// NT time (100 ns ticks since 1601-01-01) as Unix milliseconds.
pub fn nt_to_unix_ms(nt: u64) -> (r: i64)
    ensures
        r == nt as int / 10_000 - 11_644_473_600_000,
        r == nt as int / 10_000 + moment_ms(1601, 1, 1, 0, 0),
{
    assert(month_start(1) == 0);
    (nt / 10_000) as i64 - 11_644_473_600_000
}

/// Whether a listing shows a name: not the short duplicate of a long one, not
/// a system file, not the directory itself.
pub open spec fn visible(name: Seq<char>, dos_namespace: bool) -> bool {
    !dos_namespace && !(name.len() > 0 && name[0] == '$') && name != "."@
}

/// Whether a listing shows a name.
pub fn shown(name: &str, dos_namespace: bool) -> (r: bool)
    ensures
        r == visible(name@, dos_namespace),
{
    if dos_namespace {
        return false;
    }
    let chars: Vec<char> = chars_of(name);
    if chars.len() > 0 && chars[0] == '$' {
        return false;
    }
    !same_text(name, ".")
}

/// Whether a path is the root: it has no component.
pub fn is_root(path: &str) -> (r: bool)
    ensures
        r == (components(path@).len() == 0),
{
    let comps: Vec<String> = path_components(path);
    assert(texts(comps@).len() == comps@.len());
    comps.len() == 0
}

/// A listing hides short duplicates, names that begin with a dollar sign, and
/// the directory's own; nothing else.
pub proof fn what_a_listing_hides(name: Seq<char>, rest: Seq<char>)
    ensures
        !visible(name, true),
        !visible(seq!['$'] + rest, false),
        !visible(seq!['.'], false),
        visible(name, false) || (name.len() > 0 && name[0] == '$') || name == seq!['.'],
{
    reveal_strlit(".");
    assert("."@ =~= seq!['.']);
    assert((seq!['$'] + rest)[0] == '$');
}

} // verus!
