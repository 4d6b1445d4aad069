//! Text: characters and strings, UTF-16 as directory entries store it, and
//! paths as slash-separated components.

use vstd::prelude::*;

verus! {

/// `String::push` appends the character at the end.
pub assume_specification[ String::push ](s: &mut String, c: char)
    ensures
        final(s)@ == old(s)@.push(c),
;

/// `char::from_u32` gives the character of a Unicode scalar value, and `None`
/// for a surrogate code point or a number above `0x10FFFF`.
pub assume_specification[ char::from_u32 ](i: u32) -> (r: Option<char>)
    ensures
        r == if i < 0xD800 || 0xE000 <= i <= 0x10FFFF {
            Some(i as char)
        } else {
            None
        },
;

/// The characters of `s`, in order.
pub fn chars_of(s: &str) -> (r: Vec<char>)
    ensures
        r@ == s@,
{
    let mut v: Vec<char> = Vec::new();
    for c in it: s.chars()
        invariant
            v@ == it.seq().take(it.index()),
            it.seq() == s@,
    {
        v.push(c);
    }
    v
}

/// The string of the given characters.
pub fn string_of(chars: &[char]) -> (r: String)
    ensures
        r@ == chars@,
{
    let mut s: String = String::new();
    let n: usize = chars.len();
    let mut i: usize = 0;
    while i < n
        invariant
            i <= n,
            n == chars@.len(),
            s@ =~= chars@.subrange(0, i as int),
        decreases n - i,
    {
        s.push(chars[i]);
        i = i + 1;
    }
    s
}

/// Whether two character strings are the same.
pub fn same_chars(a: &[char], b: &[char]) -> (r: bool)
    ensures
        r == (a@ == b@),
{
    if a.len() != b.len() {
        return false;
    }
    let n: usize = a.len();
    let mut i: usize = 0;
    while i < n
        invariant
            i <= n,
            n == a@.len(),
            n == b@.len(),
            forall|j: int| 0 <= j < i ==> a@[j] == b@[j],
        decreases n - i,
    {
        if a[i] != b[i] {
            return false;
        }
        i = i + 1;
    }
    assert(a@ =~= b@);
    true
}

/// Whether two strings are the same.
pub fn same_text(a: &str, b: &str) -> (r: bool)
    ensures
        r == (a@ == b@),
{
    let x: Vec<char> = chars_of(a);
    let y: Vec<char> = chars_of(b);
    same_chars(x.as_slice(), y.as_slice())
}

/// `a` followed by `b`.
pub fn concat(a: &str, b: &str) -> (r: String)
    ensures
        r@ == a@ + b@,
{
    let mut s: String = a.to_string();
    s.append(b);
    s
}

// ---------------------------------------------------------------------------
// UTF-16

pub open spec fn is_high(u: u16) -> bool {
    0xD800 <= u < 0xDC00
}

pub open spec fn is_low(u: u16) -> bool {
    0xDC00 <= u < 0xE000
}

/// The UTF-16 code units of one character: itself below `0x10000`, else a
/// surrogate pair.
pub open spec fn char_units(c: char) -> Seq<u16> {
    let n = c as int;
    if n < 0x1_0000 {
        seq![n as u16]
    } else {
        seq![(0xD800 + (n - 0x1_0000) / 0x400) as u16, (0xDC00 + (n - 0x1_0000) % 0x400) as u16]
    }
}

/// The UTF-16 encoding of a text.
pub open spec fn utf16_of(s: Seq<char>) -> Seq<u16>
    decreases s.len(),
{
    if s.len() == 0 {
        seq![]
    } else {
        char_units(s[0]) + utf16_of(s.skip(1))
    }
}

/// The text of a sequence of UTF-16 code units, every unpaired surrogate read
/// as U+FFFD.
pub open spec fn text_of_utf16(u: Seq<u16>) -> Seq<char>
    decreases u.len(),
{
    if u.len() == 0 {
        seq![]
    } else if is_high(u[0]) && u.len() >= 2 && is_low(u[1]) {
        seq![(0x1_0000 + 0x400 * (u[0] - 0xD800) + (u[1] - 0xDC00)) as char] + text_of_utf16(
            u.skip(2),
        )
    } else if is_high(u[0]) || is_low(u[0]) {
        seq!['\u{FFFD}'] + text_of_utf16(u.skip(1))
    } else {
        seq![u[0] as char] + text_of_utf16(u.skip(1))
    }
}

proof fn lemma_char_units(c: char)
    ensures
        c as int <= 0x10FFFF,
        c as int >= 0x1_0000 ==> {
            let u = char_units(c);
            &&& is_high(u[0]) && is_low(u[1])
            &&& (0x1_0000 + 0x400 * (u[0] - 0xD800) + (u[1] - 0xDC00)) as char == c
        },
        (c as int) < 0x1_0000 ==> {
            let u = char_units(c);
            &&& !is_high(u[0]) && !is_low(u[0])
            &&& u[0] as char == c
        },
{
}

/// A text survives being stored as UTF-16 and read back.
pub proof fn utf16_round_trip(s: Seq<char>)
    ensures
        text_of_utf16(utf16_of(s)) == s,
    decreases s.len(),
{
    if s.len() > 0 {
        utf16_round_trip(s.skip(1));
        let head = char_units(s[0]);
        let tail = utf16_of(s.skip(1));
        let u = head + tail;
        assert(u.skip(head.len() as int) =~= tail);
        assert(u[0] == head[0]);
        lemma_char_units(s[0]);
        if s[0] as int >= 0x1_0000 {
            assert(u[1] == head[1]);
        }
        assert(seq![s[0]] + s.skip(1) =~= s);
    } else {
        assert(text_of_utf16(utf16_of(s)) =~= s);
    }
}

/// The UTF-16 code units of `s`.
pub fn encode_utf16(s: &str) -> (r: Vec<u16>)
    ensures
        r@ == utf16_of(s@),
{
    let chars: Vec<char> = chars_of(s);
    let n: usize = chars.len();
    let mut out: Vec<u16> = Vec::new();
    let mut i: usize = 0;
    assert(chars@.skip(0) =~= s@);
    while i < n
        invariant
            i <= n,
            n == chars@.len(),
            chars@ == s@,
            out@ + utf16_of(s@.skip(i as int)) =~= utf16_of(s@),
        decreases n - i,
    {
        let ch: char = chars[i];
        let c: u32 = ch as u32;
        proof {
            lemma_char_units(ch);
            assert(s@.skip(i as int)[0] == ch);
            assert(c == ch as int);
        }
        let ghost rest = s@.skip(i as int);
        assert(rest.skip(1) =~= s@.skip(i + 1));
        let ghost before = out@;
        if c < 0x1_0000 {
            out.push(c as u16);
            assert(out@ =~= before + char_units(rest[0]));
        } else {
            out.push((0xD800 + (c - 0x1_0000) / 0x400) as u16);
            out.push((0xDC00 + (c - 0x1_0000) % 0x400) as u16);
            assert(out@ =~= before + char_units(rest[0]));
        }
        i = i + 1;
    }
    assert(s@.skip(n as int) =~= seq![]);
    out
}

/// The text that `units` encode, unpaired surrogates replaced by U+FFFD.
pub fn decode_utf16(units: &[u16]) -> (r: String)
    ensures
        r@ == text_of_utf16(units@),
{
    let n: usize = units.len();
    let mut out: String = String::new();
    let mut i: usize = 0;
    assert(units@.skip(0) =~= units@);
    while i < n
        invariant
            i <= n,
            n == units@.len(),
            out@ + text_of_utf16(units@.skip(i as int)) =~= text_of_utf16(units@),
        decreases n - i,
    {
        let u: u16 = units[i];
        let ghost rest = units@.skip(i as int);
        assert(rest.skip(1) =~= units@.skip(i + 1));
        let high: bool = 0xD800 <= u && u < 0xDC00;
        let low: bool = 0xDC00 <= u && u < 0xE000;
        let mut c: Option<char> = None;
        let mut step: usize = 1;
        if high {
            if i + 1 < n {
                let v: u16 = units[i + 1];
                assert(rest[1] == v);
                if 0xDC00 <= v && v < 0xE000 {
                    c = char::from_u32(0x1_0000 + 0x400 * (u as u32 - 0xD800) + (v as u32 - 0xDC00));
                    step = 2;
                    assert(rest.skip(2) =~= units@.skip(i + 2));
                }
            }
        } else if !low {
            c = char::from_u32(u as u32);
        }
        let ch: char = match c {
            Some(ch) => ch,
            None => '\u{FFFD}',
        };
        let ghost before = out@;
        out.push(ch);
        assert(out@ =~= before + seq![ch]);
        i = i + step;
    }
    assert(units@.skip(n as int) =~= seq![]);
    out
}

// ---------------------------------------------------------------------------
// Paths

/// How a path splits when read up to its end: the components finished by a
/// slash, and the one still open.
pub open spec fn split_state(path: Seq<char>) -> (Seq<Seq<char>>, Seq<char>)
    decreases path.len(),
{
    if path.len() == 0 {
        (seq![], seq![])
    } else {
        let (done, open) = split_state(path.drop_last());
        if path.last() == '/' {
            (if open.len() > 0 { done.push(open) } else { done }, seq![])
        } else {
            (done, open.push(path.last()))
        }
    }
}

/// The non-empty components of a slash-separated path.
pub open spec fn components(path: Seq<char>) -> Seq<Seq<char>> {
    let (done, open) = split_state(path);
    if open.len() > 0 {
        done.push(open)
    } else {
        done
    }
}

/// The views of a list of strings.
pub open spec fn texts(v: Seq<String>) -> Seq<Seq<char>> {
    v.map_values(|s: String| s@)
}

/// The non-empty components of a slash-separated path.
pub fn path_components(path: &str) -> (r: Vec<String>)
    ensures
        texts(r@) == components(path@),
{
    let chars: Vec<char> = chars_of(path);
    let n: usize = chars.len();
    let mut done: Vec<String> = Vec::new();
    let mut open: Vec<char> = Vec::new();
    let mut i: usize = 0;
    assert(path@.take(0) =~= seq![]);
    assert(texts(done@) =~= seq![]);
    while i < n
        invariant
            i <= n,
            n == chars@.len(),
            chars@ == path@,
            (texts(done@), open@) == split_state(path@.take(i as int)),
        decreases n - i,
    {
        let c: char = chars[i];
        let ghost longer = path@.take(i + 1);
        assert(longer.drop_last() =~= path@.take(i as int));
        assert(longer.last() == c);
        if c == '/' {
            if open.len() > 0 {
                let ghost was = done@;
                done.push(string_of(open.as_slice()));
                assert(texts(done@) =~= texts(was).push(open@));
            }
            open = Vec::new();
            assert(open@ =~= seq![]);
        } else {
            open.push(c);
        }
        i = i + 1;
    }
    assert(path@.take(n as int) =~= path@);
    if open.len() > 0 {
        let ghost was = done@;
        done.push(string_of(open.as_slice()));
        assert(texts(done@) =~= texts(was).push(open@));
    }
    done
}

/// A path without its trailing slashes.
pub open spec fn trimmed(path: Seq<char>) -> Seq<char>
    decreases path.len(),
{
    if path.len() > 0 && path.last() == '/' {
        trimmed(path.drop_last())
    } else {
        path
    }
}

/// Where the last slash of a text is.
pub open spec fn last_slash(s: Seq<char>) -> Option<int>
    decreases s.len(),
{
    if s.len() == 0 {
        None
    } else if s.last() == '/' {
        Some(s.len() - 1)
    } else {
        last_slash(s.drop_last())
    }
}

/// A path's directory: what comes before the last slash that is not trailing.
pub open spec fn parent_of(path: Seq<char>) -> Seq<char> {
    let t = trimmed(path);
    match last_slash(t) {
        Some(i) => t.take(i),
        None => seq![],
    }
}

/// A path's own name: what comes after that slash.
pub open spec fn leaf_of(path: Seq<char>) -> Seq<char> {
    let t = trimmed(path);
    match last_slash(t) {
        Some(i) => t.skip(i + 1),
        None => t,
    }
}

proof fn lemma_split_at_slash(t: Seq<char>)
    ensures
        match last_slash(t) {
            Some(i) => 0 <= i < t.len() && split_state(t) == (components(t.take(i)), t.skip(i + 1)),
            None => split_state(t) == (Seq::<Seq<char>>::empty(), t),
        },
    decreases t.len(),
{
    if t.len() > 0 {
        let u = t.drop_last();
        lemma_split_at_slash(u);
        if t.last() == '/' {
            let i = t.len() - 1;
            assert(t.take(i) =~= u);
            assert(t.skip(i + 1) =~= seq![]);
        } else {
            match last_slash(u) {
                Some(i) => {
                    assert(t.take(i) =~= u.take(i));
                    assert(u.skip(i + 1).push(t.last()) =~= t.skip(i + 1));
                },
                None => {
                    assert(u.push(t.last()) =~= t);
                },
            }
        }
    } else {
        assert(t =~= seq![]);
    }
}

proof fn lemma_trimmed(path: Seq<char>)
    ensures
        components(trimmed(path)) == components(path),
    decreases path.len(),
{
    if path.len() > 0 && path.last() == '/' {
        lemma_trimmed(path.drop_last());
    }
}

/// The components of a path that has a name of its own are those of its
/// directory, followed by that name.
pub proof fn a_path_is_its_directory_and_its_name(path: Seq<char>)
    requires
        leaf_of(path).len() > 0,
    ensures
        components(path) == components(parent_of(path)).push(leaf_of(path)),
{
    let t = trimmed(path);
    lemma_trimmed(path);
    lemma_split_at_slash(t);
    if last_slash(t) is None {
        assert(split_state(Seq::<char>::empty()) == (
            Seq::<Seq<char>>::empty(),
            Seq::<char>::empty(),
        ));
    }
}

/// A path's directory and its own name.
pub fn split_parent(path: &str) -> (r: (String, String))
    ensures
        r.0@ == parent_of(path@),
        r.1@ == leaf_of(path@),
{
    let chars: Vec<char> = chars_of(path);
    let mut end: usize = chars.len();
    assert(path@.take(end as int) =~= path@);
    while end > 0 && chars[end - 1] == '/'
        invariant
            end <= chars@.len(),
            chars@ == path@,
            trimmed(path@) == trimmed(path@.take(end as int)),
        decreases end,
    {
        assert(path@.take(end as int).drop_last() =~= path@.take(end - 1));
        end = end - 1;
    }
    let ghost t = path@.take(end as int);
    assert(trimmed(path@) == t);
    let mut cut: usize = end;
    assert(t.take(cut as int) =~= t);
    while cut > 0 && chars[cut - 1] != '/'
        invariant
            cut <= end <= chars@.len(),
            chars@ == path@,
            t == path@.take(end as int),
            last_slash(t) == last_slash(t.take(cut as int)),
        decreases cut,
    {
        assert(t.take(cut as int).drop_last() =~= t.take(cut - 1));
        cut = cut - 1;
    }
    let all: &[char] = chars.as_slice();
    if cut == 0 {
        let leaf: String = string_of(&all[0..end]);
        assert(leaf@ =~= t);
        (String::new(), leaf)
    } else {
        let parent: String = string_of(&all[0..cut - 1]);
        let leaf: String = string_of(&all[cut..end]);
        assert(last_slash(t) == Some(cut - 1));
        assert(parent@ =~= t.take(cut - 1));
        assert(leaf@ =~= t.skip(cut as int));
        (parent, leaf)
    }
}

/// Whether a name stands for an entry of the directory it is in, wherever it
/// is joined to a path: not for none, the directory itself or the one above,
/// and for nothing below or elsewhere.
pub open spec fn stays_in_its_directory(name: Seq<char>) -> bool {
    &&& name.len() > 0
    &&& name != "."@
    &&& name != ".."@
    &&& !name.contains('/')
    &&& !name.contains('\\')
    &&& !name.contains('\0')
}

/// Whether a name can be joined to a directory's path and stay in it.
pub fn is_entry_name(name: &str) -> (r: bool)
    ensures
        r == stays_in_its_directory(name@),
{
    let chars: Vec<char> = chars_of(name);
    if chars.len() == 0 || same_text(name, ".") || same_text(name, "..") {
        return false;
    }
    let n: usize = chars.len();
    let mut i: usize = 0;
    while i < n
        invariant
            i <= n == chars@.len(),
            chars@ == name@,
            forall|j: int| 0 <= j < i ==> name@[j] != '/' && name@[j] != '\\' && name@[j] != '\0',
        decreases n - i,
    {
        let c: char = chars[i];
        if c == '/' || c == '\\' || c == '\0' {
            assert(name@.contains(name@[i as int]));
            return false;
        }
        i = i + 1;
    }
    true
}

/// The path of a name in a directory.
pub open spec fn child_of(dir: Seq<char>, name: Seq<char>) -> Seq<char> {
    trimmed(dir) + seq!['/'] + name
}

/// The path of a name in a directory.
pub fn child_path(dir: &str, name: &str) -> (r: String)
    ensures
        r@ == child_of(dir@, name@),
{
    let chars: Vec<char> = chars_of(dir);
    let mut end: usize = chars.len();
    assert(dir@.take(end as int) =~= dir@);
    while end > 0 && chars[end - 1] == '/'
        invariant
            end <= chars@.len(),
            chars@ == dir@,
            trimmed(dir@) == trimmed(dir@.take(end as int)),
        decreases end,
    {
        assert(dir@.take(end as int).drop_last() =~= dir@.take(end - 1));
        end = end - 1;
    }
    let all: &[char] = chars.as_slice();
    let mut s: String = string_of(&all[0..end]);
    assert(s@ =~= trimmed(dir@));
    s.push('/');
    s.append(name);
    assert(s@ =~= child_of(dir@, name@));
    s
}

proof fn lemma_slash_before(a: Seq<char>, name: Seq<char>)
    requires
        !name.contains('/'),
    ensures
        last_slash(a + seq!['/'] + name) == Some(a.len() as int),
    decreases name.len(),
{
    let s = a + seq!['/'] + name;
    if name.len() == 0 {
        assert(s.last() == '/');
    } else {
        assert(name.contains(name[name.len() - 1]));
        assert(s.last() == name.last());
        assert(!name.drop_last().contains('/')) by {
            if name.drop_last().contains('/') {
                let i = choose|i: int|
                    0 <= i < name.drop_last().len() && name.drop_last()[i] == '/';
                assert(name[i] == '/');
            }
        }
        assert(s.drop_last() =~= a + seq!['/'] + name.drop_last());
        lemma_slash_before(a, name.drop_last());
    }
}

/// A child's path has its directory's components, then its own name, which is
/// what the path is split into.
pub proof fn a_child_lies_in_its_directory(dir: Seq<char>, name: Seq<char>)
    requires
        name.len() > 0,
        !name.contains('/'),
    ensures
        leaf_of(child_of(dir, name)) == name,
        components(parent_of(child_of(dir, name))) == components(dir),
        components(child_of(dir, name)) == components(dir).push(name),
{
    let t = trimmed(dir);
    let path = child_of(dir, name);
    assert(name.contains(name[name.len() - 1]));
    assert(path.last() == name.last());
    assert(trimmed(path) == path);
    lemma_slash_before(t, name);
    assert(path.take(t.len() as int) =~= t);
    assert(path.skip(t.len() as int + 1) =~= name);
    lemma_trimmed(dir);
    a_path_is_its_directory_and_its_name(path);
}

// ---------------------------------------------------------------------------
// Numbers

pub open spec fn hex_digit(d: int) -> char {
    if d < 10 {
        ('0' as int + d) as char
    } else {
        ('a' as int + d - 10) as char
    }
}

/// A 16-bit number in hexadecimal, `0x` and four lower-case digits.
pub open spec fn hex4(v: u16) -> Seq<char> {
    seq![
        '0',
        'x',
        hex_digit(v as int / 0x1000),
        hex_digit(v as int / 0x100 % 16),
        hex_digit(v as int / 0x10 % 16),
        hex_digit(v as int % 16),
    ]
}

fn digit(d: u16) -> (r: char)
    requires
        d < 16,
    ensures
        r == hex_digit(d as int),
{
    if d < 10 {
        (0x30 + d as u8) as char
    } else {
        (0x61 + (d - 10) as u8) as char
    }
}

/// `v` as `0x` and four lower-case hexadecimal digits.
pub fn hex(v: u16) -> (r: String)
    ensures
        r@ == hex4(v),
{
    let mut s: String = String::new();
    s.push('0');
    s.push('x');
    s.push(digit(v / 0x1000));
    s.push(digit(v / 0x100 % 16));
    s.push(digit(v / 0x10 % 16));
    s.push(digit(v % 16));
    assert(s@ =~= hex4(v));
    s
}

/// A number in decimal.
pub open spec fn decimal_text(n: nat) -> Seq<char>
    decreases n,
{
    if n < 10 {
        seq![hex_digit(n as int)]
    } else {
        decimal_text(n / 10).push(hex_digit(n as int % 10))
    }
}

/// `n` in decimal.
pub fn decimal(n: u64) -> (r: String)
    ensures
        r@ == decimal_text(n as nat),
    decreases n,
{
    if n < 10 {
        let mut s: String = String::new();
        s.push(digit(n as u16));
        assert(s@ =~= decimal_text(n as nat));
        s
    } else {
        let mut s: String = decimal(n / 10);
        s.push(digit((n % 10) as u16));
        s
    }
}

/// A character beyond the first plane is two code units: a high surrogate with
/// the upper ten bits of what it is beyond, and a low one with the lower ten.
/// Any other is one unit, and the code units of a text are those of its
/// characters in order.
pub proof fn characters_are_code_units(a: Seq<char>, c: char)
    ensures
        utf16_of(seq![]) == Seq::<u16>::empty(),
        (c as int) < 0x1_0000 ==> utf16_of(a.push(c)) == utf16_of(a).push(c as u16),
        c as int >= 0x1_0000 ==> ({
            let u = utf16_of(a.push(c));
            let n = utf16_of(a).len() as int;
            &&& u.len() == n + 2
            &&& u.take(n) == utf16_of(a)
            &&& 0xD800 <= u[n] < 0xDC00
            &&& 0xDC00 <= u[n + 1] < 0xE000
            &&& (u[n] - 0xD800) * 0x400 + (u[n + 1] - 0xDC00) + 0x1_0000 == c as int
        }),
    decreases a.len(),
{
    let all = a.push(c);
    if a.len() == 0 {
        assert(all.skip(1) =~= seq![]);
        assert(all[0] == c);
        assert(utf16_of(all.skip(1)) == Seq::<u16>::empty());
        assert(utf16_of(a) == Seq::<u16>::empty());
        assert(utf16_of(all) =~= char_units(c));
    } else {
        assert(all.skip(1) =~= a.skip(1).push(c));
        characters_are_code_units(a.skip(1), c);
        assert(all[0] == a[0]);
        let tail = utf16_of(all.skip(1));
        let head = char_units(a[0]);
        if (c as int) < 0x1_0000 {
            assert(head + utf16_of(a.skip(1)).push(c as u16) =~= (head + utf16_of(a.skip(1))).push(
                c as u16,
            ));
        } else {
            let m = utf16_of(a.skip(1)).len() as int;
            assert((head + tail).take(head.len() + m) =~= head + tail.take(m));
        }
    }
}

/// A code unit that is no surrogate is its character; a surrogate without its
/// other half is the replacement character.
pub proof fn code_units_are_characters(u: u16, rest: Seq<u16>)
    ensures
        u < 0xD800 || 0xE000 <= u ==> text_of_utf16(seq![u] + rest) == seq![u as char]
            + text_of_utf16(rest),
        0xDC00 <= u < 0xE000 || (0xD800 <= u < 0xDC00 && !(rest.len() > 0 && 0xDC00 <= rest[0]
            < 0xE000)) ==> text_of_utf16(seq![u] + rest) == seq!['\u{FFFD}'] + text_of_utf16(rest),
{
    let all = seq![u] + rest;
    assert(all.skip(1) =~= rest);
    assert(all.len() >= 2 ==> all[1] == rest[0]);
}

proof fn lemma_split_behind(a: Seq<char>, b: Seq<char>)
    ensures
        ({
            let (done, open) = split_state(b);
            split_state(a + seq!['/'] + b) == (components(a) + done, open)
        }),
    decreases b.len(),
{
    let all = a + seq!['/'] + b;
    if b.len() == 0 {
        assert(all.drop_last() =~= a);
        assert(all.last() == '/');
        assert(components(a) + Seq::<Seq<char>>::empty() =~= components(a));
    } else {
        let (done, open) = split_state(b.drop_last());
        lemma_split_behind(a, b.drop_last());
        assert(all.drop_last() =~= a + seq!['/'] + b.drop_last());
        assert(all.last() == b.last());
        assert((components(a) + done).push(open) =~= components(a) + done.push(open));
    }
}

proof fn lemma_no_slash(name: Seq<char>)
    requires
        !name.contains('/'),
    ensures
        split_state(name) == (Seq::<Seq<char>>::empty(), name),
    decreases name.len(),
{
    if name.len() > 0 {
        assert(name.contains(name[name.len() - 1]));
        assert forall|c: char| name.drop_last().contains(c) implies name.contains(c) by {
            let i = choose|i: int| 0 <= i < name.drop_last().len() && name.drop_last()[i] == c;
            assert(name[i] == c);
        }
        lemma_no_slash(name.drop_last());
        assert(name.drop_last().push(name.last()) =~= name);
    }
}

/// A slash parts the components before it from those behind it; what has no
/// slash is one component; and nothing has none. So empty ones never count.
pub proof fn slashes_part_components(a: Seq<char>, b: Seq<char>)
    ensures
        components(a + seq!['/'] + b) == components(a) + components(b),
        !a.contains('/') && a.len() > 0 ==> components(a) == seq![a],
        components(seq![]) == Seq::<Seq<char>>::empty(),
{
    lemma_split_behind(a, b);
    let (done, open) = split_state(b);
    if open.len() > 0 {
        assert((components(a) + done).push(open) =~= components(a) + done.push(open));
    }
    if !a.contains('/') && a.len() > 0 {
        lemma_no_slash(a);
        assert(Seq::<Seq<char>>::empty().push(a) =~= seq![a]);
    }
}

/// What a numeral is worth, digit by digit.
pub open spec fn worth(digits: Seq<char>, base: int) -> int
    decreases digits.len(),
{
    if digits.len() == 0 {
        0
    } else {
        let c = digits.last() as int;
        base * worth(digits.drop_last(), base) + (if 0x30 <= c <= 0x39 {
            c - 0x30
        } else {
            c - 0x61 + 10
        })
    }
}

/// A number is written in decimal digits, without a leading zero, that are
/// worth it.
pub proof fn a_number_is_worth_its_digits(n: nat)
    ensures
        worth(decimal_text(n), 10) == n,
        decimal_text(n).len() > 0,
        forall|i: int|
            0 <= i < decimal_text(n).len() ==> 0x30 <= #[trigger] decimal_text(n)[i] as int
                && decimal_text(n)[i] as int <= 0x39,
        n > 0 ==> decimal_text(n)[0] as int != 0x30,
    decreases n,
{
    let s = decimal_text(n);
    let c = hex_digit(n as int % 10);
    assert(c as int == 0x30 + n as int % 10);
    if n < 10 {
        assert(s.drop_last() =~= seq![]);
        assert(worth(s.drop_last(), 10) == 0);
        assert(s.last() == c);
    } else {
        a_number_is_worth_its_digits(n / 10);
        assert(s.drop_last() =~= decimal_text(n / 10));
        assert(s.last() == c);
    }
}

/// A version is written as `0x` and four digits to the base of sixteen that
/// are worth it.
pub proof fn a_version_is_worth_its_digits(v: u16)
    ensures
        hex4(v).len() == 6,
        hex4(v)[0] == '0' && hex4(v)[1] == 'x',
        worth(hex4(v).skip(2), 16) == v,
        forall|i: int|
            2 <= i < 6 ==> (0x30 <= #[trigger] hex4(v)[i] as int && hex4(v)[i] as int <= 0x39) || (
            0x61 <= hex4(v)[i] as int && hex4(v)[i] as int <= 0x66),
{
    let a = v as int / 0x1000;
    let b = v as int / 0x100 % 16;
    let c = v as int / 0x10 % 16;
    let e = v as int % 16;
    let none = Seq::<char>::empty();
    lemma_digit(none, a);
    lemma_digit(none.push(hex_digit(a)), b);
    lemma_digit(none.push(hex_digit(a)).push(hex_digit(b)), c);
    lemma_digit(none.push(hex_digit(a)).push(hex_digit(b)).push(hex_digit(c)), e);
    assert(hex4(v).skip(2) =~= none.push(hex_digit(a)).push(hex_digit(b)).push(hex_digit(c)).push(
        hex_digit(e),
    ));
    assert(v == 0x1000 * a + 0x100 * b + 0x10 * c + e);
}

proof fn lemma_digit(s: Seq<char>, d: int)
    requires
        0 <= d < 16,
    ensures
        worth(s.push(hex_digit(d)), 16) == 16 * worth(s, 16) + d,
        s.len() == 0 ==> worth(s, 16) == 0,
        (0x30 <= hex_digit(d) as int && hex_digit(d) as int <= 0x39) || (0x61
            <= hex_digit(d) as int && hex_digit(d) as int <= 0x66),
{
    assert(s.push(hex_digit(d)).drop_last() =~= s);
}

/// A name that leads out of its directory is none: not the directory or the one
/// above it, nor any with a separator or an end in it; and every other is one.
pub proof fn what_is_no_name(a: Seq<char>, b: Seq<char>)
    ensures
        !stays_in_its_directory(seq![]),
        !stays_in_its_directory(seq!['.']),
        !stays_in_its_directory(seq!['.', '.']),
        !stays_in_its_directory(a + seq!['/'] + b),
        !stays_in_its_directory(a + seq!['\\'] + b),
        !stays_in_its_directory(a + seq!['\0'] + b),
        stays_in_its_directory(a) || a.len() == 0 || a == seq!['.'] || a == seq!['.', '.'] || exists|
            i: int,
        |
            0 <= i < a.len() && (#[trigger] a[i] == '/' || a[i] == '\\' || a[i] == '\0'),
{
    reveal_strlit(".");
    reveal_strlit("..");
    assert("."@ =~= seq!['.']);
    assert(".."@ =~= seq!['.', '.']);
    let n = a.len() as int;
    assert((a + seq!['/'] + b)[n] == '/');
    assert((a + seq!['\\'] + b)[n] == '\\');
    assert((a + seq!['\0'] + b)[n] == '\0');
}

} // verus!
