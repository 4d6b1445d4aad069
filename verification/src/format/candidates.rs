//! The unlock search space, in the order it is tried.

use vstd::prelude::*;

use crate::header::HeaderPosition;
use crate::registry::{
    prf_table, prfs, prfs_of, scheme_table, schemes, schemes_of, EncryptionScheme, Prf, PrfModel,
    Scheme,
};

verus! {

/// One cell of the search space.
#[derive(Debug, Clone, Copy)]
pub struct Candidate {
    pub prf: Prf,
    pub scheme: EncryptionScheme,
    pub position: HeaderPosition,
}

/// A candidate as a value.
#[verifier::ext_equal]
pub struct CandidateModel {
    pub prf: PrfModel,
    pub scheme: Scheme,
    pub position: HeaderPosition,
}

impl View for Candidate {
    type V = CandidateModel;

    open spec fn view(&self) -> CandidateModel {
        CandidateModel { prf: self.prf@, scheme: self.scheme@, position: self.position }
    }
}

/// The `i`-th candidate: position by position, under each hash by hash, under
/// each of those scheme by scheme.
pub open spec fn candidate_at(positions: Seq<HeaderPosition>, i: int) -> CandidateModel {
    CandidateModel {
        prf: prf_table()[i / 15 % 5],
        scheme: scheme_table()[i % 15],
        position: positions[i / 75],
    }
}

/// The views of a list of candidates.
pub open spec fn candidates_of(v: Seq<Candidate>) -> Seq<CandidateModel> {
    v.map_values(|c: Candidate| c@)
}

/// Enumerate candidates in try-order for a given set of positions.
pub fn ordered_candidates(positions: &[HeaderPosition]) -> (r: Vec<Candidate>)
    ensures
        candidates_of(r@) == Seq::new(75 * positions@.len(), |i: int| candidate_at(positions@, i)),
{
    let hashes: Vec<Prf> = prfs();
    let ciphers: Vec<EncryptionScheme> = schemes();
    assert(prfs_of(hashes@).len() == 5);
    assert(schemes_of(ciphers@).len() == 15);
    let mut out: Vec<Candidate> = Vec::new();
    let mut p: usize = 0;
    while p < positions.len()
        invariant
            p <= positions@.len(),
            prfs_of(hashes@) == prf_table(),
            schemes_of(ciphers@) == scheme_table(),
            hashes@.len() == 5,
            ciphers@.len() == 15,
            out@.len() == 75 * p,
            forall|i: int| 0 <= i < out@.len() ==> (#[trigger] out@[i])@ == candidate_at(positions@, i),
        decreases positions@.len() - p,
    {
        let mut f: usize = 0;
        while f < hashes.len()
            invariant
                p < positions@.len(),
                f <= 5,
                prfs_of(hashes@) == prf_table(),
                schemes_of(ciphers@) == scheme_table(),
                hashes@.len() == 5,
                ciphers@.len() == 15,
                out@.len() == 75 * p + 15 * f,
                forall|i: int|
                    0 <= i < out@.len() ==> (#[trigger] out@[i])@ == candidate_at(positions@, i),
            decreases 5 - f,
        {
            let mut s: usize = 0;
            while s < ciphers.len()
                invariant
                    p < positions@.len(),
                    f < 5,
                    s <= 15,
                    prfs_of(hashes@) == prf_table(),
                    schemes_of(ciphers@) == scheme_table(),
                    hashes@.len() == 5,
                    ciphers@.len() == 15,
                    out@.len() == 75 * p + 15 * f + s,
                    forall|i: int|
                        0 <= i < out@.len() ==> (#[trigger] out@[i])@ == candidate_at(positions@, i),
                decreases 15 - s,
            {
                let c = Candidate { prf: hashes[f], scheme: ciphers[s], position: positions[p] };
                assert(hashes@[f as int]@ == prfs_of(hashes@)[f as int]);
                assert(ciphers@[s as int]@ == schemes_of(ciphers@)[s as int]);
                assert(c@ == candidate_at(positions@, out@.len() as int));
                out.push(c);
                s = s + 1;
            }
            f = f + 1;
        }
        p = p + 1;
    }
    assert(candidates_of(out@) =~= Seq::new(
        75 * positions@.len(),
        |i: int| candidate_at(positions@, i),
    ));
    out
}

/// The commonest combination is tried first.
pub proof fn sha512_aes_is_first(positions: Seq<HeaderPosition>)
    requires
        positions.len() > 0,
    ensures
        candidate_at(positions, 0).prf.name == "SHA-512"@,
        candidate_at(positions, 0).scheme.name == "AES"@,
        candidate_at(positions, 0).position == positions[0],
{
}

/// Every combination of a position, a hash and a scheme is a candidate: the
/// schemes follow each other fastest, and the positions slowest.
pub proof fn every_combination_is_a_candidate(
    positions: Seq<HeaderPosition>,
    p: int,
    f: int,
    s: int,
)
    requires
        0 <= p < positions.len(),
        0 <= f < prf_table().len(),
        0 <= s < scheme_table().len(),
    ensures
        ({
            let c = candidate_at(positions, (p * 5 + f) * 15 + s);
            c.position == positions[p] && c.prf == prf_table()[f] && c.scheme == scheme_table()[s]
        }),
        prf_table().len() == 5,
        scheme_table().len() == 15,
{
    let i = (p * 5 + f) * 15 + s;
    assert(i / 15 == p * 5 + f && i % 15 == s);
    assert(i / 75 == p);
    assert((p * 5 + f) % 5 == f);
}

} // verus!
