//! The case folding of a new volume, and the table that stores it: the
//! recommended up-case table of exFAT, 5836 bytes with its identity runs
//! compressed.

use vstd::prelude::*;

use super::io::ExFault;
use super::upcase::{expanded, identity_run, words_of};
use crate::bytes::{append_le16, le16_bytes, read_16, slice_of};

verus! {

broadcast use crate::bytes::group_widths;

/// Latin letters and phonetic signs with an upper case.
pub open spec fn latin(u: int) -> int {
    if (0x61 <= u && u <= 0x7A) || (0xE0 <= u && u <= 0xF6) || (0xF8 <= u && u <= 0xFE) {
        u - 0x20
    } else if u == 0xFF {
        u + 0x79
    } else if (0x101 <= u && u <= 0x12F && u % 2 == 1) || (0x133 <= u && u <= 0x137 && u % 2 == 1)
            || (0x13A <= u && u <= 0x148 && u % 2 == 0)
            || (0x14B <= u && u <= 0x177 && u % 2 == 1)
            || (0x17A <= u && u <= 0x17E && u % 2 == 0)
            || (0x183 <= u && u <= 0x185 && u % 2 == 1) || u == 0x188 || u == 0x18C
            || u == 0x192 || u == 0x199 || (0x1A1 <= u && u <= 0x1A5 && u % 2 == 1)
            || u == 0x1A8 || u == 0x1AD || u == 0x1B0
            || (0x1B4 <= u && u <= 0x1B6 && u % 2 == 0) || u == 0x1B9 || u == 0x1BD
            || (0x1CE <= u && u <= 0x1DC && u % 2 == 0)
            || (0x1DF <= u && u <= 0x1EF && u % 2 == 1) || u == 0x1F5
            || (0x1F9 <= u && u <= 0x21F && u % 2 == 1)
            || (0x223 <= u && u <= 0x233 && u % 2 == 1) || u == 0x23C || u == 0x242
            || (0x247 <= u && u <= 0x24F && u % 2 == 1) {
        u - 0x1
    } else if u == 0x180 {
        u + 0xC3
    } else if u == 0x195 {
        u + 0x61
    } else if u == 0x19A {
        u + 0xA3
    } else if u == 0x19E {
        u + 0x82
    } else if u == 0x1BF {
        u + 0x38
    } else if u == 0x1C6 || u == 0x1C9 || u == 0x1CC || u == 0x1F3 {
        u - 0x2
    } else if u == 0x1DD {
        u - 0x4F
    } else if u == 0x23A {
        u + 0x2A2B
    } else if u == 0x23E {
        u + 0x2A28
    } else if u == 0x253 {
        u - 0xD2
    } else if u == 0x254 {
        u - 0xCE
    } else if (0x256 <= u && u <= 0x257) || u == 0x260 {
        u - 0xCD
    } else if u == 0x259 {
        u - 0xCA
    } else if u == 0x25B {
        u - 0xCB
    } else if u == 0x263 {
        u - 0xCF
    } else if u == 0x268 {
        u - 0xD1
    } else if u == 0x269 || u == 0x26F {
        u - 0xD3
    } else if u == 0x26B {
        u + 0x29F7
    } else if u == 0x272 {
        u - 0xD5
    } else if u == 0x275 {
        u - 0xD6
    } else if u == 0x27D {
        u + 0x29E7
    } else if u == 0x280 || u == 0x283 || u == 0x288 {
        u - 0xDA
    } else if u == 0x289 {
        u - 0x45
    } else if (0x28A <= u && u <= 0x28B) {
        u - 0xD9
    } else if u == 0x28C {
        u - 0x47
    } else if u == 0x292 {
        u - 0xDB
    } else {
        u
    }
}

fn latin_of(u: u32) -> (r: u32)
    requires
        u <= 0xFFFF,
    ensures
        r == latin(u as int),
{
    if (0x61 <= u && u <= 0x7A) || (0xE0 <= u && u <= 0xF6) || (0xF8 <= u && u <= 0xFE) {
        u - 0x20
    } else if u == 0xFF {
        u + 0x79
    } else if (0x101 <= u && u <= 0x12F && u % 2 == 1) || (0x133 <= u && u <= 0x137 && u % 2 == 1)
            || (0x13A <= u && u <= 0x148 && u % 2 == 0)
            || (0x14B <= u && u <= 0x177 && u % 2 == 1)
            || (0x17A <= u && u <= 0x17E && u % 2 == 0)
            || (0x183 <= u && u <= 0x185 && u % 2 == 1) || u == 0x188 || u == 0x18C
            || u == 0x192 || u == 0x199 || (0x1A1 <= u && u <= 0x1A5 && u % 2 == 1)
            || u == 0x1A8 || u == 0x1AD || u == 0x1B0
            || (0x1B4 <= u && u <= 0x1B6 && u % 2 == 0) || u == 0x1B9 || u == 0x1BD
            || (0x1CE <= u && u <= 0x1DC && u % 2 == 0)
            || (0x1DF <= u && u <= 0x1EF && u % 2 == 1) || u == 0x1F5
            || (0x1F9 <= u && u <= 0x21F && u % 2 == 1)
            || (0x223 <= u && u <= 0x233 && u % 2 == 1) || u == 0x23C || u == 0x242
            || (0x247 <= u && u <= 0x24F && u % 2 == 1) {
        u - 0x1
    } else if u == 0x180 {
        u + 0xC3
    } else if u == 0x195 {
        u + 0x61
    } else if u == 0x19A {
        u + 0xA3
    } else if u == 0x19E {
        u + 0x82
    } else if u == 0x1BF {
        u + 0x38
    } else if u == 0x1C6 || u == 0x1C9 || u == 0x1CC || u == 0x1F3 {
        u - 0x2
    } else if u == 0x1DD {
        u - 0x4F
    } else if u == 0x23A {
        u + 0x2A2B
    } else if u == 0x23E {
        u + 0x2A28
    } else if u == 0x253 {
        u - 0xD2
    } else if u == 0x254 {
        u - 0xCE
    } else if (0x256 <= u && u <= 0x257) || u == 0x260 {
        u - 0xCD
    } else if u == 0x259 {
        u - 0xCA
    } else if u == 0x25B {
        u - 0xCB
    } else if u == 0x263 {
        u - 0xCF
    } else if u == 0x268 {
        u - 0xD1
    } else if u == 0x269 || u == 0x26F {
        u - 0xD3
    } else if u == 0x26B {
        u + 0x29F7
    } else if u == 0x272 {
        u - 0xD5
    } else if u == 0x275 {
        u - 0xD6
    } else if u == 0x27D {
        u + 0x29E7
    } else if u == 0x280 || u == 0x283 || u == 0x288 {
        u - 0xDA
    } else if u == 0x289 {
        u - 0x45
    } else if (0x28A <= u && u <= 0x28B) {
        u - 0xD9
    } else if u == 0x28C {
        u - 0x47
    } else if u == 0x292 {
        u - 0xDB
    } else {
        u
    }
}

/// Greek, Cyrillic and Armenian letters with an upper case.
pub open spec fn greek_or_cyrillic(u: int) -> int {
    if (0x37B <= u && u <= 0x37D) {
        u + 0x82
    } else if u == 0x3AC {
        u - 0x26
    } else if (0x3AD <= u && u <= 0x3AF) {
        u - 0x25
    } else if (0x3B1 <= u && u <= 0x3C1) || (0x3C3 <= u && u <= 0x3CB) || (0x430 <= u && u <= 0x44F) {
        u - 0x20
    } else if u == 0x3C2 {
        u - 0x1F
    } else if u == 0x3CC {
        u - 0x40
    } else if (0x3CD <= u && u <= 0x3CE) {
        u - 0x3F
    } else if (0x3D9 <= u && u <= 0x3EF && u % 2 == 1) || u == 0x3F8 || u == 0x3FB
            || (0x461 <= u && u <= 0x481 && u % 2 == 1)
            || (0x48B <= u && u <= 0x4BF && u % 2 == 1)
            || (0x4C2 <= u && u <= 0x4CE && u % 2 == 0)
            || (0x4D1 <= u && u <= 0x513 && u % 2 == 1) {
        u - 0x1
    } else if u == 0x3F2 {
        u + 0x7
    } else if (0x450 <= u && u <= 0x45F) {
        u - 0x50
    } else if u == 0x4CF {
        u - 0xF
    } else if (0x561 <= u && u <= 0x586) {
        u - 0x30
    } else {
        u
    }
}

fn greek_or_cyrillic_of(u: u32) -> (r: u32)
    requires
        u <= 0xFFFF,
    ensures
        r == greek_or_cyrillic(u as int),
{
    if (0x37B <= u && u <= 0x37D) {
        u + 0x82
    } else if u == 0x3AC {
        u - 0x26
    } else if (0x3AD <= u && u <= 0x3AF) {
        u - 0x25
    } else if (0x3B1 <= u && u <= 0x3C1) || (0x3C3 <= u && u <= 0x3CB) || (0x430 <= u && u <= 0x44F) {
        u - 0x20
    } else if u == 0x3C2 {
        u - 0x1F
    } else if u == 0x3CC {
        u - 0x40
    } else if (0x3CD <= u && u <= 0x3CE) {
        u - 0x3F
    } else if (0x3D9 <= u && u <= 0x3EF && u % 2 == 1) || u == 0x3F8 || u == 0x3FB
            || (0x461 <= u && u <= 0x481 && u % 2 == 1)
            || (0x48B <= u && u <= 0x4BF && u % 2 == 1)
            || (0x4C2 <= u && u <= 0x4CE && u % 2 == 0)
            || (0x4D1 <= u && u <= 0x513 && u % 2 == 1) {
        u - 0x1
    } else if u == 0x3F2 {
        u + 0x7
    } else if (0x450 <= u && u <= 0x45F) {
        u - 0x50
    } else if u == 0x4CF {
        u - 0xF
    } else if (0x561 <= u && u <= 0x586) {
        u - 0x30
    } else {
        u
    }
}

/// Further Latin and Greek letters with an upper case.
pub open spec fn extended(u: int) -> int {
    if u == 0x1D7D {
        u + 0xEE6
    } else if (0x1E01 <= u && u <= 0x1E95 && u % 2 == 1) || (0x1EA1 <= u && u <= 0x1EF9 && u % 2 == 1) {
        u - 0x1
    } else if (0x1F00 <= u && u <= 0x1F07) || (0x1F10 <= u && u <= 0x1F15)
            || (0x1F20 <= u && u <= 0x1F27) || (0x1F30 <= u && u <= 0x1F37)
            || (0x1F40 <= u && u <= 0x1F45) || (0x1F51 <= u && u <= 0x1F57 && u % 2 == 1)
            || (0x1F60 <= u && u <= 0x1F67) || (0x1F80 <= u && u <= 0x1F87)
            || (0x1F90 <= u && u <= 0x1F97) || (0x1FA0 <= u && u <= 0x1FA7)
            || (0x1FB0 <= u && u <= 0x1FB1) || (0x1FD0 <= u && u <= 0x1FD1)
            || (0x1FE0 <= u && u <= 0x1FE1) {
        u + 0x8
    } else if (0x1F70 <= u && u <= 0x1F71) {
        u + 0x4A
    } else if (0x1F72 <= u && u <= 0x1F75) {
        u + 0x56
    } else if (0x1F76 <= u && u <= 0x1F77) {
        u + 0x64
    } else if (0x1F78 <= u && u <= 0x1F79) {
        u + 0x80
    } else if (0x1F7A <= u && u <= 0x1F7B) {
        u + 0x70
    } else if (0x1F7C <= u && u <= 0x1F7D) {
        u + 0x7E
    } else if u == 0x1FB3 {
        u + 0x9
    } else if u == 0x1FCC || u == 0x1FFC {
        u - 0x9
    } else if u == 0x1FE5 {
        u + 0x7
    } else {
        u
    }
}

fn extended_of(u: u32) -> (r: u32)
    requires
        u <= 0xFFFF,
    ensures
        r == extended(u as int),
{
    if u == 0x1D7D {
        u + 0xEE6
    } else if (0x1E01 <= u && u <= 0x1E95 && u % 2 == 1) || (0x1EA1 <= u && u <= 0x1EF9 && u % 2 == 1) {
        u - 0x1
    } else if (0x1F00 <= u && u <= 0x1F07) || (0x1F10 <= u && u <= 0x1F15)
            || (0x1F20 <= u && u <= 0x1F27) || (0x1F30 <= u && u <= 0x1F37)
            || (0x1F40 <= u && u <= 0x1F45) || (0x1F51 <= u && u <= 0x1F57 && u % 2 == 1)
            || (0x1F60 <= u && u <= 0x1F67) || (0x1F80 <= u && u <= 0x1F87)
            || (0x1F90 <= u && u <= 0x1F97) || (0x1FA0 <= u && u <= 0x1FA7)
            || (0x1FB0 <= u && u <= 0x1FB1) || (0x1FD0 <= u && u <= 0x1FD1)
            || (0x1FE0 <= u && u <= 0x1FE1) {
        u + 0x8
    } else if (0x1F70 <= u && u <= 0x1F71) {
        u + 0x4A
    } else if (0x1F72 <= u && u <= 0x1F75) {
        u + 0x56
    } else if (0x1F76 <= u && u <= 0x1F77) {
        u + 0x64
    } else if (0x1F78 <= u && u <= 0x1F79) {
        u + 0x80
    } else if (0x1F7A <= u && u <= 0x1F7B) {
        u + 0x70
    } else if (0x1F7C <= u && u <= 0x1F7D) {
        u + 0x7E
    } else if u == 0x1FB3 {
        u + 0x9
    } else if u == 0x1FCC || u == 0x1FFC {
        u - 0x9
    } else if u == 0x1FE5 {
        u + 0x7
    } else {
        u
    }
}

/// Letter-like symbols, numerals and the scripts behind them with an upper case.
pub open spec fn symbol(u: int) -> int {
    if u == 0x214E {
        u - 0x1C
    } else if (0x2170 <= u && u <= 0x217F) {
        u - 0x10
    } else if u == 0x2184 || u == 0x2C61 || (0x2C68 <= u && u <= 0x2C6C && u % 2 == 0) || u == 0x2C76
            || (0x2C81 <= u && u <= 0x2CE3 && u % 2 == 1) {
        u - 0x1
    } else if (0x24D0 <= u && u <= 0x24E9) {
        u - 0x1A
    } else if (0x2C30 <= u && u <= 0x2C5E) {
        u - 0x30
    } else if (0x2D00 <= u && u <= 0x2D25) {
        u - 0x1C60
    } else if (0xFF41 <= u && u <= 0xFF5A) {
        u - 0x20
    } else {
        u
    }
}

fn symbol_of(u: u32) -> (r: u32)
    requires
        u <= 0xFFFF,
    ensures
        r == symbol(u as int),
{
    if u == 0x214E {
        u - 0x1C
    } else if (0x2170 <= u && u <= 0x217F) {
        u - 0x10
    } else if u == 0x2184 || u == 0x2C61 || (0x2C68 <= u && u <= 0x2C6C && u % 2 == 0) || u == 0x2C76
            || (0x2C81 <= u && u <= 0x2CE3 && u % 2 == 1) {
        u - 0x1
    } else if (0x24D0 <= u && u <= 0x24E9) {
        u - 0x1A
    } else if (0x2C30 <= u && u <= 0x2C5E) {
        u - 0x30
    } else if (0x2D00 <= u && u <= 0x2D25) {
        u - 0x1C60
    } else if (0xFF41 <= u && u <= 0xFF5A) {
        u - 0x20
    } else {
        u
    }
}

/// The upper case of a code unit; one without any is its own.
pub open spec fn upper(u: int) -> int {
    if u < 0x300 {
        latin(u)
    } else if u < 0x587 {
        greek_or_cyrillic(u)
    } else if u < 0x1D7D {
        u
    } else if u < 0x2000 {
        extended(u)
    } else {
        symbol(u)
    }
}

fn upper_of(u: u32) -> (r: u32)
    requires
        u <= 0xFFFF,
    ensures
        r == upper(u as int),
{
    if u < 0x300 {
        latin_of(u)
    } else if u < 0x587 {
        greek_or_cyrillic_of(u)
    } else if u < 0x1D7D {
        u
    } else if u < 0x2000 {
        extended_of(u)
    } else {
        symbol_of(u)
    }
}

/// The case folding of a new volume.
pub open spec fn folding() -> Seq<u16> {
    Seq::new(0x1_0000, |i: int| upper(i) as u16)
}

/// The words of the stored table: five stretches of the folding, and between
/// them the runs of code units that are their own upper case.
pub open spec fn table_word(i: int) -> u16 {
    if i < 1415 {
        upper(i) as u16
    } else if i == 1415 || i == 2449 || i == 2477 || i == 2725 {
        0xFFFF
    } else if i == 1416 {
        0x17F6
    } else if i < 2449 {
        upper(i - 1417 + 0x1D7D) as u16
    } else if i == 2450 {
        0x34B
    } else if i < 2477 {
        upper(i - 2451 + 0x24D0) as u16
    } else if i == 2478 {
        0x746
    } else if i < 2725 {
        upper(i - 2479 + 0x2C30) as u16
    } else if i == 2726 {
        0xD21B
    } else {
        upper(i - 2727 + 0xFF41) as u16
    }
}

fn table_word_of(i: u32) -> (r: u16)
    requires
        i < 2918,
    ensures
        r == table_word(i as int),
{
    proof {
        if i != 1415 && i != 1416 && i != 2449 && i != 2450 && i != 2477 && i != 2478 && i != 2725
            && i != 2726 {
            lemma_upper(unit_of(i as int));
        }
    }
    if i < 1415 {
        upper_of(i) as u16
    } else if i == 1415 || i == 2449 || i == 2477 || i == 2725 {
        0xFFFF
    } else if i == 1416 {
        0x17F6
    } else if i < 2449 {
        upper_of(i - 1417 + 0x1D7D) as u16
    } else if i == 2450 {
        0x34B
    } else if i < 2477 {
        upper_of(i - 2451 + 0x24D0) as u16
    } else if i == 2478 {
        0x746
    } else if i < 2725 {
        upper_of(i - 2479 + 0x2C30) as u16
    } else if i == 2726 {
        0xD21B
    } else {
        upper_of(i - 2727 + 0xFF41) as u16
    }
}

/// The code unit whose upper case a word of the table is.
spec fn unit_of(i: int) -> int {
    if i < 1415 {
        i
    } else if i < 2449 {
        i - 1417 + 0x1D7D
    } else if i < 2477 {
        i - 2451 + 0x24D0
    } else if i < 2725 {
        i - 2479 + 0x2C30
    } else {
        i - 2727 + 0xFF41
    }
}

/// An upper case is a code unit, and none but the last is the last.
#[verifier::spinoff_prover]
proof fn lemma_upper(u: int)
    requires
        0 <= u <= 0xFFFF,
    ensures
        0 <= upper(u) <= 0xFFFF,
        upper(u) == 0xFFFF ==> u == 0xFFFF,
        upper(0xFFFF) == 0xFFFF,
{
}

/// Between the stretches every code unit is its own upper case.
#[verifier::spinoff_prover]
proof fn lemma_between(u: int)
    requires
        0x587 <= u < 0x1D7D || 0x2185 <= u < 0x24D0 || 0x24EA <= u < 0x2C30 || 0x2D26 <= u
            < 0xFF41,
    ensures
        upper(u) == u,
{
}

/// The up-case table a new volume gets, as it is stored.
pub open spec fn table_bytes() -> Seq<u8> {
    Seq::new(5836, |b: int| le16_bytes(table_word(b / 2))[b % 2])
}

/// The up-case table a new volume gets.
pub fn build_table() -> (r: Vec<u8>)
    ensures
        r@ == table_bytes(),
{
    let mut v: Vec<u8> = Vec::new();
    let mut i: u32 = 0;
    while i < 2918
        invariant
            i <= 2918,
            v@.len() == 2 * i,
            forall|b: int| 0 <= b < v@.len() ==> v@[b] == le16_bytes(table_word(b / 2))[b % 2],
        decreases 2918 - i,
    {
        let ghost was = v@;
        append_le16(&mut v, table_word_of(i));
        assert forall|b: int| 0 <= b < v@.len() implies v@[b] == le16_bytes(
            table_word(b / 2),
        )[b % 2] by {
            if b < was.len() {
                assert(v@[b] == was[b]);
            }
        }
        i = i + 1;
    }
    assert(v@ =~= table_bytes());
    v
}

/// A stretch of the table expands to that stretch of the folding.
proof fn lemma_stretch(words: Seq<u16>, i: int, j: int, c: int)
    requires
        words.len() == 2918,
        0 <= i <= j <= 2918,
        0 <= c,
        c + (j - i) <= 0x1_0000,
        c + (j - i) == 0x1_0000 ==> j == 2918,
        forall|k: int| i <= k < j ==> #[trigger] words[k] == upper(c + (k - i)) as u16,
    ensures
        expanded(words, i, folding().take(c)) == expanded(
            words,
            j,
            folding().take(c + (j - i)),
        ),
    decreases j - i,
{
    if i < j {
        lemma_upper(c);
        let m = folding().take(c);
        assert(words[i] == upper(c + (i - i)) as u16);
        assert(m.push(words[i]) =~= folding().take(c + 1));
        assert forall|k: int| i + 1 <= k < j implies #[trigger] words[k] == upper(
            c + 1 + (k - (i + 1)),
        ) as u16 by {}
        lemma_stretch(words, i + 1, j, c + 1);
        if words[i] == 0xFFFF {
            assert(c == 0xFFFF);
            assert(i + 1 == j);
            assert(expanded(words, 2918, folding().take(0x1_0000)) == Ok::<Seq<u16>, ExFault>(
                folding().take(0x1_0000),
            ));
        }
    }
}

/// A run of the table expands to that run of the folding.
proof fn lemma_run(words: Seq<u16>, i: int, c: int, n: int)
    requires
        words.len() == 2918,
        0 <= i,
        i + 2 <= 2918,
        words[i] == 0xFFFF,
        words[i + 1] == n,
        0 <= c,
        0 < n,
        c + n < 0x1_0000,
        forall|u: int| c <= u < c + n ==> #[trigger] upper(u) == u,
    ensures
        expanded(words, i, folding().take(c)) == expanded(words, i + 2, folding().take(c + n)),
{
    let m = folding().take(c);
    assert(m + identity_run(c, n) =~= folding().take(c + n)) by {
        assert forall|k: int| 0 <= k < c + n implies (m + identity_run(c, n))[k] == folding().take(
            c + n,
        )[k] by {
            if k >= c {
                assert(upper(k) == k);
            }
        }
    }
}

/// The stored table expands to the folding.
pub proof fn the_table_is_the_folding()
    ensures
        expanded(words_of(table_bytes()), 0, seq![]) == Ok::<Seq<u16>, ExFault>(folding()),
{
    let raw = table_bytes();
    let words = words_of(raw);
    assert forall|k: int| 0 <= k < 2918 implies #[trigger] words[k] == table_word(k) by {
        assert(slice_of(raw, 2 * k, 2) =~= le16_bytes(table_word(k))) by {
            assert forall|j: int| 0 <= j < 2 implies raw[2 * k + j] == le16_bytes(
                table_word(k),
            )[j] by {
                assert((2 * k + j) / 2 == k && (2 * k + j) % 2 == j);
            }
        }
        read_16(raw, 2 * k, table_word(k));
    }
    assert forall|u: int|
        0x587 <= u < 0x1D7D || 0x2185 <= u < 0x24D0 || 0x24EA <= u < 0x2C30 || 0x2D26 <= u
            < 0xFF41 implies #[trigger] upper(u) == u by {
        lemma_between(u);
    }
    assert(words[1415] == table_word(1415) && words[1416] == table_word(1416));
    assert(words[2449] == table_word(2449) && words[2450] == table_word(2450));
    assert(words[2477] == table_word(2477) && words[2478] == table_word(2478));
    assert(words[2725] == table_word(2725) && words[2726] == table_word(2726));
    assert(folding().take(0) =~= seq![]);
    lemma_stretch(words, 0, 1415, 0);
    lemma_run(words, 1415, 0x587, 0x17F6);
    lemma_stretch(words, 1417, 2449, 0x1D7D);
    lemma_run(words, 2449, 0x2185, 0x34B);
    lemma_stretch(words, 2451, 2477, 0x24D0);
    lemma_run(words, 2477, 0x24EA, 0x746);
    lemma_stretch(words, 2479, 2725, 0x2C30);
    lemma_run(words, 2725, 0x2D26, 0xD21B);
    lemma_stretch(words, 2727, 2918, 0xFF41);
    assert(folding().take(0x1_0000) =~= folding());
}

/// The alphabets fold: small letters of ASCII, Latin-1 (but for the division
/// sign), Greek, Cyrillic and full width lie 32 behind their capitals, Cyrillic's
/// second row 80, Armenian ones 48, Georgian ones 7264, Roman numerals 16 and
/// circled letters 26; in Latin Extended, the later Cyrillic and Coptic a small
/// letter follows its capital. Capitals, digits, and the scripts that have no
/// case stay as they are.
pub proof fn alphabets_fold(u: int)
    requires
        0 <= u < 0x1_0000,
    ensures
        folding().len() == 0x1_0000,
        ({
            let up = folding()[u] as int;
            &&& (0x61 <= u <= 0x7A || (0xE0 <= u <= 0xFE && u != 0xF7) || (0x3B1 <= u <= 0x3CB && u
                != 0x3C2) || 0x430 <= u <= 0x44F || 0xFF41 <= u <= 0xFF5A) ==> up == u - 32
            &&& 0x450 <= u <= 0x45F ==> up == u - 80
            &&& 0x561 <= u <= 0x586 ==> up == u - 48
            &&& 0x2D00 <= u <= 0x2D25 ==> up == u - 7264
            &&& 0x2170 <= u <= 0x217F ==> up == u - 16
            &&& 0x24D0 <= u <= 0x24E9 ==> up == u - 26
            &&& 0x2C30 <= u <= 0x2C5E ==> up == u - 48
            &&& (0x101 <= u <= 0x12F || 0x133 <= u <= 0x137 || 0x14B <= u <= 0x177 || 0x1DF <= u
                <= 0x1EF || 0x1F9 <= u <= 0x21F || 0x223 <= u <= 0x233 || 0x247 <= u <= 0x24F
                || 0x3D9 <= u <= 0x3EF || 0x461 <= u <= 0x481 || 0x48B <= u <= 0x4BF || 0x4D1 <= u
                <= 0x513 || 0x1E01 <= u <= 0x1E95 || 0x1EA1 <= u <= 0x1EF9 || 0x2C81 <= u
                <= 0x2CE3) ==> up == u - u % 2
            &&& (0x13A <= u <= 0x148 || 0x17A <= u <= 0x17E || 0x1CE <= u <= 0x1DC || 0x4C2 <= u
                <= 0x4CE) ==> up == u - (u + 1) % 2
            &&& (0x1F00 <= u <= 0x1F07 || 0x1F10 <= u <= 0x1F15 || 0x1F20 <= u <= 0x1F27 || 0x1F30
                <= u <= 0x1F37 || 0x1F40 <= u <= 0x1F45 || 0x1F60 <= u <= 0x1F67) ==> up == u + 8
            &&& (u < 0x61 || 0x7B <= u < 0xE0 || u == 0xF7 || 0x391 <= u <= 0x3A9 || 0x400 <= u
                <= 0x42F || 0x531 <= u <= 0x560 || 0x587 <= u <= 0x1D7C || 0x2000 <= u <= 0x214D
                || 0x2D26 <= u <= 0xFF40 || 0xFF5B <= u) ==> up == u
        }),
{
}

/// What is in upper case stays as it is.
pub proof fn upper_case_stays(u: int)
    requires
        0 <= u < 0x1_0000,
    ensures
        folding()[folding()[u] as int] == folding()[u],
{
    lemma_upper(u);
    let v = upper(u);
    assert(0 <= v < 0x1_0000);
    if u < 0x300 {
        lemma_latin_stays(u);
    } else if u < 0x587 {
        lemma_greek_stays(u);
    } else if 0x1D7D <= u < 0x2000 {
        lemma_extended_stays(u);
    } else if u >= 0x2000 {
        lemma_symbol_stays(u);
    }
}

#[verifier::spinoff_prover]
#[verifier::rlimit(60)]
proof fn lemma_latin_stays(u: int)
    requires
        0 <= u < 0x300,
    ensures
        upper(latin(u)) == latin(u),
{
}

#[verifier::spinoff_prover]
#[verifier::rlimit(60)]
proof fn lemma_greek_stays(u: int)
    requires
        0x300 <= u < 0x587,
    ensures
        upper(greek_or_cyrillic(u)) == greek_or_cyrillic(u),
{
}

#[verifier::spinoff_prover]
#[verifier::rlimit(60)]
proof fn lemma_extended_stays(u: int)
    requires
        0x1D7D <= u < 0x2000,
    ensures
        upper(extended(u)) == extended(u),
{
}

#[verifier::spinoff_prover]
#[verifier::rlimit(60)]
proof fn lemma_symbol_stays(u: int)
    requires
        0x2000 <= u < 0x1_0000,
    ensures
        upper(symbol(u)) == symbol(u),
{
}

} // verus!
