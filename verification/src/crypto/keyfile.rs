//! Keyfiles: a 64-byte pool is mixed from each keyfile's bytes through a
//! running CRC-32 register and added into the passphrase.

use vstd::prelude::*;

use super::crc::{crc32_of, crc32_update, crc_register};
use super::secret::wipe;
use crate::bytes::{be32_bytes, zeros};

verus! {

/// Keyfile pool size.
pub const POOL_SIZE: usize = 64;

/// How many bytes of a keyfile count.
pub const MAX_READ: usize = 1_048_576;

/// Addition of bytes, modulo 256.
pub open spec fn byte_sum(a: u8, b: u8) -> u8 {
    ((a + b) % 0x100) as u8
}

/// The pool with the four bytes of `crc`, highest first, added from `pos` on.
pub open spec fn pool_add(pool: Seq<u8>, pos: int, crc: u32) -> Seq<u8> {
    Seq::new(
        pool.len(),
        |i: int|
            if pos <= i < pos + 4 {
                byte_sum(pool[i], be32_bytes(crc)[i - pos])
            } else {
                pool[i]
            },
    )
}

/// The pool after the first `n` bytes of a keyfile: each byte advances the
/// register, whose four bytes are added at the next four places, going round.
pub open spec fn pool_mixed(pool: Seq<u8>, data: Seq<u8>, n: nat) -> Seq<u8>
    decreases n,
{
    if n == 0 {
        pool
    } else {
        pool_add(
            pool_mixed(pool, data, (n - 1) as nat),
            4 * (n - 1) % 64,
            crc_register(0xFFFF_FFFF, data.take(n as int)),
        )
    }
}

/// How many bytes of a keyfile of this length are mixed in.
pub open spec fn read_len(len: nat) -> nat {
    if len <= MAX_READ {
        len
    } else {
        MAX_READ as nat
    }
}

/// The pool that a list of keyfiles mixes, from all zeros.
pub open spec fn pool_of(keyfiles: Seq<Seq<u8>>) -> Seq<u8>
    decreases keyfiles.len(),
{
    if keyfiles.len() == 0 {
        zeros(64)
    } else {
        pool_mixed(
            pool_of(keyfiles.drop_last()),
            keyfiles.last(),
            read_len(keyfiles.last().len()),
        )
    }
}

/// The secret that goes into key derivation: the passphrase itself without
/// keyfiles, else the passphrase, extended with zeros to 64 bytes, with the
/// pool added to its first 64.
pub open spec fn secret_of(passphrase: Seq<u8>, keyfiles: Seq<Seq<u8>>) -> Seq<u8> {
    if keyfiles.len() == 0 {
        passphrase
    } else {
        Seq::new(
            if passphrase.len() < 64 {
                64
            } else {
                passphrase.len()
            },
            |i: int|
                byte_sum(
                    if i < passphrase.len() {
                        passphrase[i]
                    } else {
                        0
                    },
                    if i < 64 {
                        pool_of(keyfiles)[i]
                    } else {
                        0
                    },
                ),
        )
    }
}

/// The contents of a list of byte vectors.
pub open spec fn contents_of(v: Seq<Vec<u8>>) -> Seq<Seq<u8>> {
    v.map_values(|f: Vec<u8>| f@)
}

fn add_byte(pool: &mut Vec<u8>, pos: usize, b: u8)
    requires
        pos < old(pool)@.len(),
    ensures
        final(pool)@ == old(pool)@.update(pos as int, byte_sum(old(pool)@[pos as int], b)),
{
    let sum: u16 = pool[pos] as u16 + b as u16;
    pool[pos] = (sum % 0x100) as u8;
}

fn add_register(pool: &mut Vec<u8>, pos: usize, crc: u32)
    requires
        pos + 4 <= old(pool)@.len() == 64,
    ensures
        final(pool)@ == pool_add(old(pool)@, pos as int, crc),
        final(pool)@.len() == old(pool)@.len(),
{
    proof {
        reveal(be32_bytes);
    }
    add_byte(pool, pos, (crc / 0x100_0000) as u8);
    add_byte(pool, pos + 1, (crc / 0x1_0000 % 0x100) as u8);
    add_byte(pool, pos + 2, (crc / 0x100 % 0x100) as u8);
    add_byte(pool, pos + 3, (crc % 0x100) as u8);
    assert(pool@ =~= pool_add(old(pool)@, pos as int, crc));
}

/// Fold one keyfile's bytes into the pool.
#[verifier::spinoff_prover]
#[verifier::rlimit(30)]
fn mix_into_pool(pool: &mut Vec<u8>, data: &[u8])
    requires
        old(pool)@.len() == 64,
    ensures
        final(pool)@ == pool_mixed(old(pool)@, data@, read_len(data@.len())),
        final(pool)@.len() == 64,
{
    let n: usize = if data.len() <= MAX_READ {
        data.len()
    } else {
        MAX_READ
    };
    let ghost before = pool@;
    let mut pos: usize = 0;
    let mut crc: u32 = 0xFFFF_FFFF;
    let mut i: usize = 0;
    assert(data@.take(0) =~= seq![]);
    while i < n
        invariant
            i <= n <= data@.len(),
            pos < 64,
            pos == 4 * i as int % 64,
            crc == crc_register(0xFFFF_FFFF, data@.take(i as int)),
            pool@ == pool_mixed(before, data@, i as nat),
            pool@.len() == 64,
        decreases n - i,
    {
        assert(data@.take(i + 1).drop_last() =~= data@.take(i as int));
        crc = crc32_update(crc, data[i]);
        add_register(pool, pos, crc);
        pos = pos + 4;
        if pos >= POOL_SIZE {
            pos = 0;
        }
        i = i + 1;
    }
}

/// Apply keyfiles to a passphrase, giving the secret to feed key derivation.
pub fn apply_keyfiles(passphrase: &[u8], keyfiles: &[Vec<u8>]) -> (r: Vec<u8>)
    ensures
        r@ == secret_of(passphrase@, contents_of(keyfiles@)),
{
    let n: usize = passphrase.len();
    let mut out: Vec<u8> = Vec::new();
    let mut i: usize = 0;
    while i < n
        invariant
            i <= n,
            n == passphrase@.len(),
            out@ =~= passphrase@.take(i as int),
        decreases n - i,
    {
        out.push(passphrase[i]);
        i = i + 1;
    }
    if keyfiles.len() == 0 {
        return out;
    }
    let mut pool: Vec<u8> = vec![0u8; POOL_SIZE];
    let ghost files = contents_of(keyfiles@);
    assert(pool@ =~= zeros(64));
    assert(files.take(0) =~= seq![]);
    let mut k: usize = 0;
    while k < keyfiles.len()
        invariant
            k <= keyfiles@.len(),
            files == contents_of(keyfiles@),
            pool@ == pool_of(files.take(k as int)),
            pool@.len() == 64,
        decreases keyfiles@.len() - k,
    {
        assert(files.take(k + 1).drop_last() =~= files.take(k as int));
        assert(files.take(k + 1).last() == keyfiles@[k as int]@);
        mix_into_pool(&mut pool, keyfiles[k].as_slice());
        k = k + 1;
    }
    assert(files.take(k as int) =~= files);
    while out.len() < POOL_SIZE
        invariant
            n == passphrase@.len(),
            n <= out@.len(),
            out@.len() <= if n < 64 { 64 } else { n as int },
            forall|j: int| 0 <= j < n ==> out@[j] == passphrase@[j],
            forall|j: int| n <= j < out@.len() ==> out@[j] == 0,
        decreases 64 - out@.len(),
    {
        out.push(0);
    }
    let ghost padded = out@;
    let mut j: usize = 0;
    while j < POOL_SIZE
        invariant
            j <= 64,
            pool@.len() == 64,
            64 <= padded.len() == out@.len(),
            forall|m: int| 0 <= m < j ==> out@[m] == byte_sum(padded[m], pool@[m]),
            forall|m: int| j <= m < out@.len() ==> out@[m] == padded[m],
        decreases 64 - j,
    {
        let p: u8 = pool[j];
        add_byte(&mut out, j, p);
        j = j + 1;
    }
    wipe(pool.as_mut_slice());
    assert(out@ =~= secret_of(passphrase@, files));
    out
}

/// Without keyfiles the passphrase is the secret; with any, the secret is at
/// least 64 bytes long and the passphrase bytes past the 64th are kept.
pub proof fn keyfiles_extend_the_secret(passphrase: Seq<u8>, keyfiles: Seq<Seq<u8>>)
    ensures
        keyfiles.len() == 0 ==> secret_of(passphrase, keyfiles) == passphrase,
        keyfiles.len() > 0 ==> secret_of(passphrase, keyfiles).len() >= 64,
        keyfiles.len() > 0 ==> forall|i: int|
            64 <= i < passphrase.len() ==> secret_of(passphrase, keyfiles)[i] == passphrase[i],
{
}

/// Empty keyfiles add nothing but the extension to 64 bytes.
pub proof fn empty_keyfiles_add_zeros(passphrase: Seq<u8>, keyfiles: Seq<Seq<u8>>)
    requires
        keyfiles.len() > 0,
        forall|i: int| 0 <= i < keyfiles.len() ==> (#[trigger] keyfiles[i]).len() == 0,
    ensures
        secret_of(passphrase, keyfiles) == passphrase + zeros(
            if passphrase.len() < 64 {
                (64 - passphrase.len()) as nat
            } else {
                0
            },
        ),
{
    lemma_empty_pool(keyfiles);
    assert(secret_of(passphrase, keyfiles) =~= passphrase + zeros(
        if passphrase.len() < 64 {
            (64 - passphrase.len()) as nat
        } else {
            0
        },
    ));
}

proof fn lemma_empty_pool(keyfiles: Seq<Seq<u8>>)
    requires
        forall|i: int| 0 <= i < keyfiles.len() ==> (#[trigger] keyfiles[i]).len() == 0,
    ensures
        pool_of(keyfiles) == zeros(64),
    decreases keyfiles.len(),
{
    if keyfiles.len() > 0 {
        assert(keyfiles.last() == keyfiles[keyfiles.len() - 1]);
        assert forall|i: int| 0 <= i < keyfiles.drop_last().len() implies (
        #[trigger] keyfiles.drop_last()[i]).len() == 0 by {
            assert(keyfiles.drop_last()[i] == keyfiles[i]);
        }
        lemma_empty_pool(keyfiles.drop_last());
    }
}

/// Two pools, added place by place.
pub open spec fn pool_sum(a: Seq<u8>, b: Seq<u8>) -> Seq<u8> {
    Seq::new(64, |i: int| byte_sum(a[i], b[i]))
}

/// What one keyfile adds to a pool.
pub open spec fn share_of(keyfile: Seq<u8>) -> Seq<u8> {
    pool_mixed(zeros(64), keyfile, read_len(keyfile.len()))
}

proof fn lemma_byte_sum(a: u8, b: u8)
    ensures
        byte_sum(a, b) as int == (if a + b < 0x100 {
            a + b
        } else {
            a + b - 0x100
        }),
{
    let n: int = a + b;
    assert(n % 0x100 == (if n < 0x100 {
        n
    } else {
        n - 0x100
    }));
}

proof fn lemma_byte_sums(a: u8, b: u8, c: u8)
    ensures
        byte_sum(byte_sum(a, b), c) == byte_sum(a, byte_sum(b, c)),
        byte_sum(a, b) == byte_sum(b, a),
{
    lemma_byte_sum(a, b);
    lemma_byte_sum(b, a);
    lemma_byte_sum(b, c);
    lemma_byte_sum(byte_sum(a, b), c);
    lemma_byte_sum(a, byte_sum(b, c));
}

proof fn lemma_mixing_adds(pool: Seq<u8>, data: Seq<u8>, n: nat)
    requires
        pool.len() == 64,
    ensures
        pool_mixed(pool, data, n) == pool_sum(pool, pool_mixed(zeros(64), data, n)),
        pool_mixed(zeros(64), data, n).len() == 64,
    decreases n,
{
    if n == 0 {
        assert(pool =~= pool_sum(pool, zeros(64)));
    } else {
        lemma_mixing_adds(pool, data, (n - 1) as nat);
        let before = pool_mixed(zeros(64), data, (n - 1) as nat);
        let pos = 4 * (n - 1) % 64;
        let crc = crc_register(0xFFFF_FFFF, data.take(n as int));
        lemma_add_to_sum(pool, before, pos, crc);
    }
}

proof fn lemma_add_to_sum(a: Seq<u8>, b: Seq<u8>, pos: int, crc: u32)
    requires
        a.len() == 64,
        b.len() == 64,
    ensures
        pool_add(pool_sum(a, b), pos, crc) == pool_sum(a, pool_add(b, pos, crc)),
        pool_add(b, pos, crc).len() == 64,
{
    let l = pool_add(pool_sum(a, b), pos, crc);
    let r = pool_sum(a, pool_add(b, pos, crc));
    assert forall|i: int| 0 <= i < 64 implies l[i] == r[i] by {
        if pos <= i < pos + 4 {
            lemma_byte_sums(a[i], b[i], be32_bytes(crc)[i - pos]);
        }
    }
    assert(l =~= r);
}

proof fn lemma_sum_swaps(a: Seq<u8>, b: Seq<u8>, c: Seq<u8>)
    ensures
        pool_sum(pool_sum(a, b), c) == pool_sum(pool_sum(a, c), b),
{
    let l = pool_sum(pool_sum(a, b), c);
    let r = pool_sum(pool_sum(a, c), b);
    assert forall|i: int| 0 <= i < 64 implies l[i] == r[i] by {
        lemma_byte_sums(a[i], b[i], c[i]);
        lemma_byte_sums(a[i], c[i], b[i]);
        lemma_byte_sums(b[i], c[i], a[i]);
    }
    assert(l =~= r);
}

proof fn lemma_pool_len(keyfiles: Seq<Seq<u8>>)
    ensures
        pool_of(keyfiles).len() == 64,
    decreases keyfiles.len(),
{
    if keyfiles.len() > 0 {
        lemma_pool_len(keyfiles.drop_last());
        lemma_mixing_adds(
            pool_of(keyfiles.drop_last()),
            keyfiles.last(),
            read_len(keyfiles.last().len()),
        );
    }
}

/// A pool is that of all keyfiles but one, with the share of that one added.
proof fn lemma_share_apart(keyfiles: Seq<Seq<u8>>, j: int)
    requires
        0 <= j < keyfiles.len(),
    ensures
        pool_of(keyfiles) == pool_sum(pool_of(keyfiles.remove(j)), share_of(keyfiles[j])),
    decreases keyfiles.len(),
{
    let head = keyfiles.drop_last();
    let last = keyfiles.last();
    lemma_pool_len(head);
    lemma_mixing_adds(pool_of(head), last, read_len(last.len()));
    if j == keyfiles.len() - 1 {
        assert(keyfiles.remove(j) =~= head);
    } else {
        lemma_share_apart(head, j);
        let rest = keyfiles.remove(j);
        assert(rest.drop_last() =~= head.remove(j));
        assert(rest.last() == last);
        lemma_pool_len(head.remove(j));
        lemma_mixing_adds(pool_of(head.remove(j)), last, read_len(last.len()));
        assert(head[j] == keyfiles[j]);
        lemma_sum_swaps(pool_of(head.remove(j)), share_of(keyfiles[j]), share_of(last));
    }
}

/// The order of keyfiles does not matter.
pub proof fn keyfiles_have_no_order(passphrase: Seq<u8>, a: Seq<Seq<u8>>, b: Seq<Seq<u8>>)
    requires
        a.to_multiset() == b.to_multiset(),
    ensures
        secret_of(passphrase, a) == secret_of(passphrase, b),
{
    a.to_multiset_ensures();
    b.to_multiset_ensures();
    lemma_same_pool(a, b);
}

proof fn lemma_same_pool(a: Seq<Seq<u8>>, b: Seq<Seq<u8>>)
    requires
        a.to_multiset() == b.to_multiset(),
    ensures
        pool_of(a) == pool_of(b),
        a.len() == b.len(),
    decreases b.len(),
{
    a.to_multiset_ensures();
    b.to_multiset_ensures();
    if b.len() > 0 {
        let k = b.len() - 1;
        let x = b[k];
        assert(b.contains(x));
        assert(b.to_multiset().count(x) > 0);
        assert(a.contains(x));
        let j = choose|j: int| 0 <= j < a.len() && a[j] == x;
        assert(a.remove(j).to_multiset() =~= b.remove(k).to_multiset());
        lemma_same_pool(a.remove(j), b.remove(k));
        lemma_share_apart(a, j);
        lemma_share_apart(b, k);
    }
}

proof fn lemma_mixed_of_start(pool: Seq<u8>, a: Seq<u8>, b: Seq<u8>, n: nat)
    requires
        n <= a.len(),
        n <= b.len(),
        forall|i: int| 0 <= i < n ==> a[i] == b[i],
    ensures
        pool_mixed(pool, a, n) == pool_mixed(pool, b, n),
    decreases n,
{
    if n > 0 {
        assert(a.take(n as int) =~= b.take(n as int));
        lemma_mixed_of_start(pool, a, b, (n - 1) as nat);
    }
}

proof fn lemma_one_file(passphrase: Seq<u8>, keyfile: Seq<u8>)
    ensures
        pool_of(seq![keyfile]) == share_of(keyfile),
        share_of(keyfile).len() == 64,
        secret_of(passphrase, seq![keyfile]).len() == (if passphrase.len() < 64 {
            64
        } else {
            passphrase.len()
        }),
{
    let one = seq![keyfile];
    assert(one.drop_last() =~= seq![]);
    assert(pool_of(one.drop_last()) == zeros(64));
    lemma_mixing_adds(zeros(64), keyfile, read_len(keyfile.len()));
}

/// Each byte of a keyfile, up to the first mebibyte, adds to four places of the
/// secret and to no others: the `n`-th, counted from 0, to those from
/// `4 * (n % 16)` on, so that the seventeenth is the first to come back to the
/// start. What it adds are the bytes, highest first, of the inverted CRC-32 of
/// the keyfile up to and with that byte.
pub proof fn each_byte_adds_at_its_place(keyfile: Seq<u8>, j: int)
    requires
        0 < keyfile.len() <= 1_048_576,
        0 <= j < 64,
    ensures
        ({
            let at = 4 * ((keyfile.len() - 1) % 16);
            let r = 0xFFFF_FFFF - crc32_of(keyfile);
            secret_of(seq![], seq![keyfile])[j] as int == (secret_of(
                seq![],
                seq![keyfile.drop_last()],
            )[j] + (if j == at {
                r / 0x100_0000
            } else if j == at + 1 {
                r / 0x1_0000 % 0x100
            } else if j == at + 2 {
                r / 0x100 % 0x100
            } else if j == at + 3 {
                r % 0x100
            } else {
                0
            })) % 0x100
        }),
{
    let n = keyfile.len();
    let start = keyfile.drop_last();
    let at = 4 * ((n - 1) % 16);
    lemma_one_file(seq![], keyfile);
    lemma_one_file(seq![], start);
    lemma_mixed_of_start(zeros(64), keyfile, start, (n - 1) as nat);
    assert(4 * (n - 1) % 64 == at);
    assert(keyfile.take(n as int) =~= keyfile);
    let c = crc_register(0xFFFF_FFFF, keyfile);
    assert(!c == 0xFFFF_FFFFu32 - c) by (bit_vector);
    reveal(be32_bytes);
    lemma_byte_sum(0, share_of(keyfile)[j]);
    lemma_byte_sum(0, share_of(start)[j]);
    assert(c as int / 0x100_0000 < 0x100);
}

/// Of a keyfile longer than a mebibyte only the first mebibyte counts.
pub proof fn a_mebibyte_of_a_keyfile_counts(passphrase: Seq<u8>, keyfile: Seq<u8>)
    requires
        keyfile.len() > 1_048_576,
    ensures
        secret_of(passphrase, seq![keyfile]) == secret_of(
            passphrase,
            seq![keyfile.take(1_048_576)],
        ),
{
    lemma_one_file(passphrase, keyfile);
    lemma_one_file(passphrase, keyfile.take(1_048_576));
    lemma_mixed_of_start(zeros(64), keyfile, keyfile.take(1_048_576), 1_048_576);
}

/// Passphrase and keyfiles are added byte by byte, modulo 256: what a list of
/// keyfiles makes of a passphrase is the passphrase with zeros behind it and
/// what each keyfile makes of an empty one.
pub proof fn secrets_add_up(passphrase: Seq<u8>, keyfiles: Seq<Seq<u8>>, keyfile: Seq<u8>, i: int)
    requires
        0 <= i < 64,
    ensures
        secret_of(passphrase, seq![keyfile])[i] as int == ((if i < passphrase.len() {
            passphrase[i] as int
        } else {
            0
        }) + secret_of(seq![], seq![keyfile])[i]) % 0x100,
        keyfiles.len() > 0 ==> secret_of(passphrase, keyfiles.push(keyfile))[i] as int == (
        secret_of(passphrase, keyfiles)[i] + secret_of(seq![], seq![keyfile])[i]) % 0x100,
        keyfiles.len() > 0 ==> secret_of(passphrase, keyfiles.push(keyfile)).len() == secret_of(
            passphrase,
            keyfiles,
        ).len(),
{
    let own = if i < passphrase.len() {
        passphrase[i]
    } else {
        0u8
    };
    lemma_one_file(passphrase, keyfile);
    lemma_one_file(seq![], keyfile);
    let all = keyfiles.push(keyfile);
    lemma_share_apart(all, keyfiles.len() as int);
    assert(all.remove(keyfiles.len() as int) =~= keyfiles);
    lemma_pool_len(keyfiles);
    lemma_byte_sum(0, share_of(keyfile)[i]);
    lemma_byte_sum(own, share_of(keyfile)[i]);
    lemma_byte_sum(own, pool_of(keyfiles)[i]);
    lemma_byte_sums(own, pool_of(keyfiles)[i], share_of(keyfile)[i]);
    lemma_byte_sum(byte_sum(own, pool_of(keyfiles)[i]), share_of(keyfile)[i]);
}

} // verus!
