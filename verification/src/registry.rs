//! The ciphers, cascades and password hashes a container can use.

use vstd::prelude::*;

verus! {

pub const PIM_ITER_BASE: u32 = 15_000;

pub const PIM_ITER_PER_UNIT: u32 = 1_000;

/// Base block ciphers, all used in XTS mode with 512-byte data units.
#[derive(Debug, Clone, Copy, PartialEq, Eq, Hash, Structural)]
pub enum Cipher {
    Aes,
    Serpent,
    Twofish,
    Camellia,
    Kuznyechik,
}

pub open spec fn cipher_text(c: Cipher) -> Seq<char> {
    match c {
        Cipher::Aes => "AES"@,
        Cipher::Serpent => "Serpent"@,
        Cipher::Twofish => "Twofish"@,
        Cipher::Camellia => "Camellia"@,
        Cipher::Kuznyechik => "Kuznyechik"@,
    }
}

impl Cipher {
    pub fn name(self) -> (r: &'static str)
        ensures
            r@ == cipher_text(self),
    {
        match self {
            Cipher::Aes => "AES",
            Cipher::Serpent => "Serpent",
            Cipher::Twofish => "Twofish",
            Cipher::Camellia => "Camellia",
            Cipher::Kuznyechik => "Kuznyechik",
        }
    }
}

/// A cipher, or a cascade of ciphers as VeraCrypt names it. Data is encrypted
/// with the listed layers in order; each layer has an XTS key pair of its own.
#[derive(Debug, Clone, Copy)]
pub struct EncryptionScheme {
    pub name: &'static str,
    /// Innermost-first list of ciphers.
    pub layers: &'static [Cipher],
}

/// A scheme as a value.
#[verifier::ext_equal]
pub struct Scheme {
    pub name: Seq<char>,
    pub layers: Seq<Cipher>,
}

impl View for EncryptionScheme {
    type V = Scheme;

    open spec fn view(&self) -> Scheme {
        Scheme { name: self.name@, layers: self.layers@ }
    }
}

impl EncryptionScheme {
    /// Total master-key bytes this scheme consumes: 64 per layer (two 256-bit
    /// XTS keys).
    pub fn key_bytes(&self) -> (r: usize)
        requires
            self.layers@.len() * 64 <= usize::MAX,
        ensures
            r == self.layers@.len() * 64,
    {
        self.layers.len() * 64
    }
}

/// A password hash for header-key derivation (PBKDF2).
#[derive(Debug, Clone, Copy)]
pub struct Prf {
    pub name: &'static str,
    /// PBKDF2 iterations with no PIM.
    pub default_iterations: u32,
    /// Whether the unlock search should try this hash early.
    pub popularity_rank: u8,
}

/// A password hash as a value.
#[verifier::ext_equal]
pub struct PrfModel {
    pub name: Seq<char>,
    pub default_iterations: u32,
    pub popularity_rank: u8,
}

impl View for Prf {
    type V = PrfModel;

    open spec fn view(&self) -> PrfModel {
        PrfModel {
            name: self.name@,
            default_iterations: self.default_iterations,
            popularity_rank: self.popularity_rank,
        }
    }
}

pub open spec fn scheme(name: Seq<char>, layers: Seq<Cipher>) -> Scheme {
    Scheme { name, layers }
}

/// The supported schemes, in menu order: single ciphers, then cascades.
pub open spec fn scheme_table() -> Seq<Scheme> {
    seq![
        scheme("AES"@, seq![Cipher::Aes]),
        scheme("Serpent"@, seq![Cipher::Serpent]),
        scheme("Twofish"@, seq![Cipher::Twofish]),
        scheme("Camellia"@, seq![Cipher::Camellia]),
        scheme("Kuznyechik"@, seq![Cipher::Kuznyechik]),
        scheme("AES(Twofish)"@, seq![Cipher::Twofish, Cipher::Aes]),
        scheme("AES(Twofish(Serpent))"@, seq![Cipher::Serpent, Cipher::Twofish, Cipher::Aes]),
        scheme("Serpent(AES)"@, seq![Cipher::Aes, Cipher::Serpent]),
        scheme("Serpent(Twofish(AES))"@, seq![Cipher::Aes, Cipher::Twofish, Cipher::Serpent]),
        scheme("Twofish(Serpent)"@, seq![Cipher::Serpent, Cipher::Twofish]),
        scheme("Camellia(Kuznyechik)"@, seq![Cipher::Kuznyechik, Cipher::Camellia]),
        scheme("Kuznyechik(Twofish)"@, seq![Cipher::Twofish, Cipher::Kuznyechik]),
        scheme("Camellia(Serpent)"@, seq![Cipher::Serpent, Cipher::Camellia]),
        scheme("Kuznyechik(AES)"@, seq![Cipher::Aes, Cipher::Kuznyechik]),
        scheme(
            "Kuznyechik(Serpent(Camellia))"@,
            seq![Cipher::Camellia, Cipher::Serpent, Cipher::Kuznyechik],
        ),
    ]
}

pub open spec fn prf_model(name: Seq<char>, rank: u8) -> PrfModel {
    PrfModel { name, default_iterations: 500_000, popularity_rank: rank }
}

/// The supported password hashes, in the order an unlock tries them.
pub open spec fn prf_table() -> Seq<PrfModel> {
    seq![
        prf_model("SHA-512"@, 0),
        prf_model("Whirlpool"@, 1),
        prf_model("SHA-256"@, 2),
        prf_model("BLAKE2s-256"@, 3),
        prf_model("Streebog"@, 4),
    ]
}

/// Every scheme has one to three layers, so its keys fit the 256-byte master
/// key area.
pub proof fn schemes_fit_the_key_area(i: int)
    requires
        0 <= i < scheme_table().len(),
    ensures
        1 <= scheme_table()[i].layers.len() <= 3,
        64 * scheme_table()[i].layers.len() <= 256,
{
    let t = scheme_table();
    assert(t[0].layers.len() == 1 && t[1].layers.len() == 1 && t[2].layers.len() == 1);
    assert(t[3].layers.len() == 1 && t[4].layers.len() == 1 && t[5].layers.len() == 2);
    assert(t[6].layers.len() == 3 && t[7].layers.len() == 2 && t[8].layers.len() == 3);
    assert(t[9].layers.len() == 2 && t[10].layers.len() == 2 && t[11].layers.len() == 2);
    assert(t[12].layers.len() == 2 && t[13].layers.len() == 2 && t[14].layers.len() == 3);
}

/// The registry holds fifteen schemes and five hashes.
pub proof fn registry_size()
    ensures
        scheme_table().len() == 15,
        prf_table().len() == 5,
{
}

/// The views of a list of schemes.
pub open spec fn schemes_of(v: Seq<EncryptionScheme>) -> Seq<Scheme> {
    v.map_values(|s: EncryptionScheme| s@)
}

/// The views of a list of hashes.
pub open spec fn prfs_of(v: Seq<Prf>) -> Seq<PrfModel> {
    v.map_values(|p: Prf| p@)
}

fn entry(name: &'static str, layers: &'static [Cipher]) -> (r: EncryptionScheme)
    ensures
        r@ == scheme(name@, layers@),
{
    EncryptionScheme { name, layers }
}

/// The supported schemes, in menu order: single ciphers, then cascades.
pub fn schemes() -> (r: Vec<EncryptionScheme>)
    ensures
        schemes_of(r@) == scheme_table(),
{
    let v: Vec<EncryptionScheme> = vec![
        entry("AES", &[Cipher::Aes]),
        entry("Serpent", &[Cipher::Serpent]),
        entry("Twofish", &[Cipher::Twofish]),
        entry("Camellia", &[Cipher::Camellia]),
        entry("Kuznyechik", &[Cipher::Kuznyechik]),
        entry("AES(Twofish)", &[Cipher::Twofish, Cipher::Aes]),
        entry("AES(Twofish(Serpent))", &[Cipher::Serpent, Cipher::Twofish, Cipher::Aes]),
        entry("Serpent(AES)", &[Cipher::Aes, Cipher::Serpent]),
        entry("Serpent(Twofish(AES))", &[Cipher::Aes, Cipher::Twofish, Cipher::Serpent]),
        entry("Twofish(Serpent)", &[Cipher::Serpent, Cipher::Twofish]),
        entry("Camellia(Kuznyechik)", &[Cipher::Kuznyechik, Cipher::Camellia]),
        entry("Kuznyechik(Twofish)", &[Cipher::Twofish, Cipher::Kuznyechik]),
        entry("Camellia(Serpent)", &[Cipher::Serpent, Cipher::Camellia]),
        entry("Kuznyechik(AES)", &[Cipher::Aes, Cipher::Kuznyechik]),
        entry(
            "Kuznyechik(Serpent(Camellia))",
            &[Cipher::Camellia, Cipher::Serpent, Cipher::Kuznyechik],
        ),
    ];
    assert(schemes_of(v@) =~~= scheme_table());
    v
}

/// The supported password hashes, in the order an unlock tries them.
pub fn prfs() -> (r: Vec<Prf>)
    ensures
        prfs_of(r@) == prf_table(),
{
    let v: Vec<Prf> = vec![
        Prf { name: "SHA-512", default_iterations: 500_000, popularity_rank: 0 },
        Prf { name: "Whirlpool", default_iterations: 500_000, popularity_rank: 1 },
        Prf { name: "SHA-256", default_iterations: 500_000, popularity_rank: 2 },
        Prf { name: "BLAKE2s-256", default_iterations: 500_000, popularity_rank: 3 },
        Prf { name: "Streebog", default_iterations: 500_000, popularity_rank: 4 },
    ];
    assert(prfs_of(v@) =~~= prf_table());
    v
}

/// PBKDF2 iterations under a PIM: `15000 + 1000 * PIM`, or the hash's default
/// where the PIM is 0.
pub open spec fn pim_iterations(prf: PrfModel, pim: u32) -> int {
    if pim == 0 {
        prf.default_iterations as int
    } else {
        15_000 + 1_000 * pim
    }
}

/// Whether a PIM keeps the iteration count within 32 bits.
pub open spec fn pim_ok(pim: u32) -> bool {
    15_000 + 1_000 * pim <= u32::MAX
}

/// Iterations for a given PIM.
pub fn iterations_for_pim(prf: &Prf, pim: u32) -> (r: u32)
    requires
        pim_iterations(prf@, pim) <= u32::MAX,
    ensures
        r == pim_iterations(prf@, pim),
{
    if pim == 0 {
        prf.default_iterations
    } else {
        PIM_ITER_BASE + pim * PIM_ITER_PER_UNIT
    }
}

/// Each step of the PIM is a thousand iterations, from sixteen thousand at 1
/// on; and without a PIM a registered hash takes what a PIM of 485 asks for.
pub proof fn a_pim_step_is_a_thousand_iterations(prf: PrfModel, pim: u32, k: int)
    requires
        1 <= pim < u32::MAX,
        0 <= k < prf_table().len(),
    ensures
        pim_iterations(prf, (pim + 1) as u32) == pim_iterations(prf, pim) + 1_000,
        pim_iterations(prf, 1) == 16_000,
        pim_iterations(prf_table()[k], 0) == pim_iterations(prf_table()[k], 485),
{
    let t = prf_table();
    assert(t[0].default_iterations == 500_000 && t[1].default_iterations == 500_000
        && t[2].default_iterations == 500_000 && t[3].default_iterations == 500_000
        && t[4].default_iterations == 500_000);
}

/// A cascade's name as it is read: the cipher that is applied last, and in
/// brackets behind it those before it.
pub open spec fn spelled(layers: Seq<Cipher>) -> Seq<char>
    decreases layers.len(),
{
    if layers.len() == 0 {
        seq![]
    } else if layers.len() == 1 {
        cipher_text(layers[0])
    } else {
        cipher_text(layers.last()) + seq!['('] + spelled(layers.drop_last()) + seq![')']
    }
}

proof fn lemma_spelled_two(a: Cipher, b: Cipher)
    ensures
        spelled(seq![a, b]) == cipher_text(b) + seq!['('] + cipher_text(a) + seq![')'],
{
    reveal_with_fuel(spelled, 3);
    assert(seq![a, b].drop_last() =~= seq![a]);
}

proof fn lemma_spelled_three(a: Cipher, b: Cipher, c: Cipher)
    ensures
        spelled(seq![a, b, c]) == cipher_text(c) + seq!['('] + (cipher_text(b) + seq!['(']
            + cipher_text(a) + seq![')']) + seq![')'],
{
    lemma_spelled_two(a, b);
    assert(seq![a, b, c].drop_last() =~= seq![a, b]);
}

proof fn lemma_cipher_texts()
    ensures
        cipher_text(Cipher::Aes) == seq!['A', 'E', 'S'],
        cipher_text(Cipher::Serpent) == seq!['S', 'e', 'r', 'p', 'e', 'n', 't'],
        cipher_text(Cipher::Twofish) == seq!['T', 'w', 'o', 'f', 'i', 's', 'h'],
        cipher_text(Cipher::Camellia) == seq!['C', 'a', 'm', 'e', 'l', 'l', 'i', 'a'],
        cipher_text(Cipher::Kuznyechik) == seq![
            'K',
            'u',
            'z',
            'n',
            'y',
            'e',
            'c',
            'h',
            'i',
            'k',
        ],
{
    reveal_strlit("AES");
    reveal_strlit("Serpent");
    reveal_strlit("Twofish");
    reveal_strlit("Camellia");
    reveal_strlit("Kuznyechik");
    assert("AES"@ =~= seq!['A', 'E', 'S']);
    assert("Serpent"@ =~= seq!['S', 'e', 'r', 'p', 'e', 'n', 't']);
    assert("Twofish"@ =~= seq!['T', 'w', 'o', 'f', 'i', 's', 'h']);
    assert("Camellia"@ =~= seq!['C', 'a', 'm', 'e', 'l', 'l', 'i', 'a']);
    assert("Kuznyechik"@ =~= seq!['K', 'u', 'z', 'n', 'y', 'e', 'c', 'h', 'i', 'k']);
}

#[verifier::spinoff_prover]
proof fn lemma_name_5()
    ensures
        "AES(Twofish)"@ == spelled(seq![Cipher::Twofish, Cipher::Aes]),
{
    lemma_cipher_texts();
    lemma_spelled_two(Cipher::Twofish, Cipher::Aes);
    reveal_strlit("AES(Twofish)");
    assert("AES(Twofish)"@ =~= spelled(seq![Cipher::Twofish, Cipher::Aes]));
}

#[verifier::spinoff_prover]
proof fn lemma_name_6()
    ensures
        "AES(Twofish(Serpent))"@ == spelled(seq![Cipher::Serpent, Cipher::Twofish, Cipher::Aes]),
{
    lemma_cipher_texts();
    lemma_spelled_three(Cipher::Serpent, Cipher::Twofish, Cipher::Aes);
    reveal_strlit("AES(Twofish(Serpent))");
    assert("AES(Twofish(Serpent))"@ =~= spelled(seq![Cipher::Serpent, Cipher::Twofish, Cipher::Aes]));
}

#[verifier::spinoff_prover]
proof fn lemma_name_7()
    ensures
        "Serpent(AES)"@ == spelled(seq![Cipher::Aes, Cipher::Serpent]),
{
    lemma_cipher_texts();
    lemma_spelled_two(Cipher::Aes, Cipher::Serpent);
    reveal_strlit("Serpent(AES)");
    assert("Serpent(AES)"@ =~= spelled(seq![Cipher::Aes, Cipher::Serpent]));
}

#[verifier::spinoff_prover]
proof fn lemma_name_8()
    ensures
        "Serpent(Twofish(AES))"@ == spelled(seq![Cipher::Aes, Cipher::Twofish, Cipher::Serpent]),
{
    lemma_cipher_texts();
    lemma_spelled_three(Cipher::Aes, Cipher::Twofish, Cipher::Serpent);
    reveal_strlit("Serpent(Twofish(AES))");
    assert("Serpent(Twofish(AES))"@ =~= spelled(seq![Cipher::Aes, Cipher::Twofish, Cipher::Serpent]));
}

#[verifier::spinoff_prover]
proof fn lemma_name_9()
    ensures
        "Twofish(Serpent)"@ == spelled(seq![Cipher::Serpent, Cipher::Twofish]),
{
    lemma_cipher_texts();
    lemma_spelled_two(Cipher::Serpent, Cipher::Twofish);
    reveal_strlit("Twofish(Serpent)");
    assert("Twofish(Serpent)"@ =~= spelled(seq![Cipher::Serpent, Cipher::Twofish]));
}

#[verifier::spinoff_prover]
proof fn lemma_name_10()
    ensures
        "Camellia(Kuznyechik)"@ == spelled(seq![Cipher::Kuznyechik, Cipher::Camellia]),
{
    lemma_cipher_texts();
    lemma_spelled_two(Cipher::Kuznyechik, Cipher::Camellia);
    reveal_strlit("Camellia(Kuznyechik)");
    assert("Camellia(Kuznyechik)"@ =~= spelled(seq![Cipher::Kuznyechik, Cipher::Camellia]));
}

#[verifier::spinoff_prover]
proof fn lemma_name_11()
    ensures
        "Kuznyechik(Twofish)"@ == spelled(seq![Cipher::Twofish, Cipher::Kuznyechik]),
{
    lemma_cipher_texts();
    lemma_spelled_two(Cipher::Twofish, Cipher::Kuznyechik);
    reveal_strlit("Kuznyechik(Twofish)");
    assert("Kuznyechik(Twofish)"@ =~= spelled(seq![Cipher::Twofish, Cipher::Kuznyechik]));
}

#[verifier::spinoff_prover]
proof fn lemma_name_12()
    ensures
        "Camellia(Serpent)"@ == spelled(seq![Cipher::Serpent, Cipher::Camellia]),
{
    lemma_cipher_texts();
    lemma_spelled_two(Cipher::Serpent, Cipher::Camellia);
    reveal_strlit("Camellia(Serpent)");
    assert("Camellia(Serpent)"@ =~= spelled(seq![Cipher::Serpent, Cipher::Camellia]));
}

#[verifier::spinoff_prover]
proof fn lemma_name_13()
    ensures
        "Kuznyechik(AES)"@ == spelled(seq![Cipher::Aes, Cipher::Kuznyechik]),
{
    lemma_cipher_texts();
    lemma_spelled_two(Cipher::Aes, Cipher::Kuznyechik);
    reveal_strlit("Kuznyechik(AES)");
    assert("Kuznyechik(AES)"@ =~= spelled(seq![Cipher::Aes, Cipher::Kuznyechik]));
}

#[verifier::spinoff_prover]
proof fn lemma_name_14()
    ensures
        "Kuznyechik(Serpent(Camellia))"@ == spelled(seq![Cipher::Camellia, Cipher::Serpent, Cipher::Kuznyechik]),
{
    lemma_cipher_texts();
    lemma_spelled_three(Cipher::Camellia, Cipher::Serpent, Cipher::Kuznyechik);
    reveal_strlit("Kuznyechik(Serpent(Camellia))");
    assert("Kuznyechik(Serpent(Camellia))"@ =~= spelled(seq![Cipher::Camellia, Cipher::Serpent, Cipher::Kuznyechik]));
}

/// The name of every scheme spells its layers, the one applied last first.
pub proof fn names_spell_the_layers(i: int)
    requires
        0 <= i < scheme_table().len(),
    ensures
        scheme_table()[i].name == spelled(scheme_table()[i].layers),
{
    lemma_name_5();
    lemma_name_6();
    lemma_name_7();
    lemma_name_8();
    lemma_name_9();
    lemma_name_10();
    lemma_name_11();
    lemma_name_12();
    lemma_name_13();
    lemma_name_14();
    let t = scheme_table();
    assert(t[0].layers == seq![Cipher::Aes] && t[1].layers == seq![Cipher::Serpent]);
    assert(t[2].layers == seq![Cipher::Twofish] && t[3].layers == seq![Cipher::Camellia]);
    assert(t[4].layers == seq![Cipher::Kuznyechik]);
    assert(t[5].layers == seq![Cipher::Twofish, Cipher::Aes]);
    assert(t[6].layers == seq![Cipher::Serpent, Cipher::Twofish, Cipher::Aes]);
    assert(t[7].layers == seq![Cipher::Aes, Cipher::Serpent]);
    assert(t[8].layers == seq![Cipher::Aes, Cipher::Twofish, Cipher::Serpent]);
    assert(t[9].layers == seq![Cipher::Serpent, Cipher::Twofish]);
    assert(t[10].layers == seq![Cipher::Kuznyechik, Cipher::Camellia]);
    assert(t[11].layers == seq![Cipher::Twofish, Cipher::Kuznyechik]);
    assert(t[12].layers == seq![Cipher::Serpent, Cipher::Camellia]);
    assert(t[13].layers == seq![Cipher::Aes, Cipher::Kuznyechik]);
    assert(t[14].layers == seq![Cipher::Camellia, Cipher::Serpent, Cipher::Kuznyechik]);
}

/// A PIM is taken where its iterations can be counted in 32 bits.
pub proof fn a_pim_is_taken_where_it_can_be_counted(prf: PrfModel, pim: u32)
    requires
        pim > 0,
    ensures
        pim_ok(pim) <==> pim_iterations(prf, pim) <= 0xFFFF_FFFF,
{
}

} // verus!
