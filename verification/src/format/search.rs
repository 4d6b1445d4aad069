//! The search for a header that validates.
//!
//! Nothing in a container states its hash or scheme: candidate header keys are
//! derived and the header is test-decrypted until magic and checksums hold.
//! The password alone decides which volume opens. A wrong one walks the whole
//! list, and the error is the same whatever the container holds.

use vstd::prelude::*;

use crate::bytes::slice_of;
use crate::consts::{
    BACKUP_HIDDEN_FROM_END, BACKUP_STANDARD_FROM_END, HEADER_REGION_LEN, HIDDEN_HEADER_OFFSET,
    PRIMARY_HEADER_OFFSET, SALT_LEN,
};
use crate::crypto::kdf::{
    derive_header_key, key_of, registered_prfs_are_known, shorter_key_is_a_prefix, HeaderKey,
    MAX_KEY_LEN,
};
use crate::crypto::secret::wipe;
use crate::crypto::xts::{layers_of, unit_decrypted, SchemeXts};
use crate::device::BlockDevice;
use crate::error::{fails_with, VcError, VcFault, VcResult};
use crate::format::parse::{parse_decrypted_header, parsed};
use crate::header::{HeaderModel, HeaderPosition, VolumeHeader};
use crate::registry::{
    iterations_for_pim, pim_iterations, pim_ok, prf_table, prfs, prfs_of, scheme_table, schemes,
    schemes_fit_the_key_area, schemes_of, EncryptionScheme, Prf, PrfModel, Scheme,
};

verus! {

/// Everything the user supplies to an unlock attempt.
pub struct UnlockSecret<'a> {
    pub passphrase: &'a [u8],
    /// PIM; 0 means the hash's default schedule.
    pub pim: u32,
}

/// One progress report: about to try candidate `step` of `total`, under the
/// hash of this name.
#[verifier::ext_equal]
pub struct Report {
    pub step: int,
    pub total: int,
    pub prf: Seq<char>,
}

/// Progress of an unlock, so that a slow one does not look like a hang.
pub trait UnlockProgress {
    /// The reports received so far.
    open spec fn reports(&self) -> Seq<Report> {
        arbitrary()
    }

    /// Candidate `step` of `total` is about to be tried, under hash `prf`.
    fn report(&mut self, step: usize, total: usize, prf: &str)
        ensures
            final(self).reports() == old(self).reports().push(
                Report { step: step as int, total: total as int, prf: prf@ },
            ),
    ;
}

/// A listener that shows nothing.
pub struct Silent {
    heard: Ghost<Seq<Report>>,
}

impl Silent {
    pub fn new() -> (r: Silent)
        ensures
            r.reports() == Seq::<Report>::empty(),
    {
        Silent { heard: Ghost(Seq::empty()) }
    }
}

impl UnlockProgress for Silent {
    closed spec fn reports(&self) -> Seq<Report> {
        self.heard@
    }

    fn report(&mut self, step: usize, total: usize, prf: &str) {
        self.heard = Ghost(
            self.heard@.push(Report { step: step as int, total: total as int, prf: prf@ }),
        );
    }
}

/// Where a header position lies in a container of `len` bytes, if the
/// container is large enough to have it.
pub open spec fn offset_of(position: HeaderPosition, len: int) -> Option<int> {
    match position {
        HeaderPosition::Primary => if len >= 512 {
            Some(0)
        } else {
            None
        },
        HeaderPosition::Hidden => if len >= 65_536 + 512 {
            Some(65_536)
        } else {
            None
        },
        HeaderPosition::BackupPrimary => if len >= 131_072 {
            Some(len - 131_072)
        } else {
            None
        },
        HeaderPosition::BackupHidden => if len >= 65_536 {
            Some(len - 65_536)
        } else {
            None
        },
    }
}

/// Byte offset of a header position within a container of `len` bytes, or
/// `None` when the container is too small to hold it.
pub fn position_offset(position: HeaderPosition, len: u64) -> (r: Option<u64>)
    ensures
        match r {
            Some(o) => offset_of(position, len as int) == Some(o as int),
            None => offset_of(position, len as int) is None,
        },
{
    match position {
        HeaderPosition::Primary => if len >= HEADER_REGION_LEN as u64 {
            Some(PRIMARY_HEADER_OFFSET)
        } else {
            None
        },
        HeaderPosition::Hidden => if len >= HIDDEN_HEADER_OFFSET + HEADER_REGION_LEN as u64 {
            Some(HIDDEN_HEADER_OFFSET)
        } else {
            None
        },
        HeaderPosition::BackupPrimary => len.checked_sub(BACKUP_STANDARD_FROM_END),
        HeaderPosition::BackupHidden => len.checked_sub(BACKUP_HIDDEN_FROM_END),
    }
}

/// A header region of a container: where it is, its salt, its ciphertext.
#[verifier::ext_equal]
pub struct Slot {
    pub position: HeaderPosition,
    pub salt: Seq<u8>,
    pub enc: Seq<u8>,
}

/// The slots of a container at the given positions, those it is too small for
/// left out.
pub open spec fn slots_of(bytes: Seq<u8>, positions: Seq<HeaderPosition>) -> Seq<Slot>
    decreases positions.len(),
{
    if positions.len() == 0 {
        seq![]
    } else {
        let before = slots_of(bytes, positions.drop_last());
        match offset_of(positions.last(), bytes.len() as int) {
            None => before,
            Some(o) => before.push(
                Slot {
                    position: positions.last(),
                    salt: slice_of(bytes, o, 64),
                    enc: slice_of(bytes, o + 64, 448),
                },
            ),
        }
    }
}

/// The passphrase and the PIM.
pub struct SecretModel {
    pub passphrase: Seq<u8>,
    pub pim: u32,
}

impl<'a> View for UnlockSecret<'a> {
    type V = SecretModel;

    open spec fn view(&self) -> SecretModel {
        SecretModel { passphrase: self.passphrase@, pim: self.pim }
    }
}

/// The key that a secret gives a scheme under a hash and a salt.
pub open spec fn header_key(
    prf: PrfModel,
    secret: SecretModel,
    salt: Seq<u8>,
    len: nat,
) -> Seq<u8> {
    key_of(prf.name, secret.passphrase, salt, pim_iterations(prf, secret.pim) as u32, len)
}

/// The layers with which a secret encrypts a header.
pub open spec fn header_layers(
    prf: PrfModel,
    scheme: Scheme,
    secret: SecretModel,
    salt: Seq<u8>,
) -> Seq<crate::crypto::xts::LayerKeys> {
    layers_of(scheme.layers, header_key(prf, secret, salt, 64 * scheme.layers.len()))
}

/// What one scheme makes of a slot.
pub open spec fn scheme_trial(
    prf: PrfModel,
    scheme: Scheme,
    secret: SecretModel,
    slot: Slot,
) -> Result<HeaderModel, VcFault> {
    parsed(
        unit_decrypted(header_layers(prf, scheme, secret, slot.salt), slot.enc, 0),
        slot.position,
    )
}

/// What the schemes make of a slot under one hash: the first header that
/// validates; else the last that had the right magic and failed; else nothing.
pub enum Trial {
    Found { header: HeaderModel, scheme: Scheme },
    Finding(VcFault),
    Miss,
}

/// The trial from scheme `i` on, with what was found amiss before.
pub open spec fn trial_from(
    prf: PrfModel,
    secret: SecretModel,
    slot: Slot,
    i: int,
    finding: Option<VcFault>,
) -> Trial
    decreases scheme_table().len() - i,
{
    if 0 <= i < scheme_table().len() {
        let scheme = scheme_table()[i];
        match scheme_trial(prf, scheme, secret, slot) {
            Ok(header) => Trial::Found { header, scheme },
            Err(VcFault::NotFoundOrWrongPassword) => trial_from(prf, secret, slot, i + 1, finding),
            Err(f) => trial_from(prf, secret, slot, i + 1, Some(f)),
        }
    } else {
        match finding {
            Some(f) => Trial::Finding(f),
            None => Trial::Miss,
        }
    }
}

/// A header that was found, with the combination that opened it.
#[verifier::ext_equal]
pub struct FoundModel {
    pub header: HeaderModel,
    pub scheme: Scheme,
    pub prf: PrfModel,
}

/// The search from hash `f` at slot `j` on: hash by hash in registry order,
/// under each slot by slot. The first header that validates is the answer;
/// where there is none, the last thing found amiss is, and a wrong password
/// where nothing was.
pub open spec fn search_from(
    slots: Seq<Slot>,
    secret: SecretModel,
    f: int,
    j: int,
    amiss: Option<VcFault>,
) -> Result<FoundModel, VcFault>
    decreases prf_table().len() - f, slots.len() - j,
{
    if f < 0 || f >= prf_table().len() || j < 0 {
        Err(
            match amiss {
                Some(e) => e,
                None => VcFault::NotFoundOrWrongPassword,
            },
        )
    } else if j >= slots.len() {
        search_from(slots, secret, f + 1, 0, amiss)
    } else {
        let prf = prf_table()[f];
        match trial_from(prf, secret, slots[j], 0, None) {
            Trial::Found { header, scheme } => Ok(FoundModel { header, scheme, prf }),
            Trial::Finding(e) => search_from(slots, secret, f, j + 1, Some(e)),
            Trial::Miss => search_from(slots, secret, f, j + 1, amiss),
        }
    }
}

/// What a secret opens in a container, searched at the given positions.
pub open spec fn search(
    bytes: Seq<u8>,
    secret: SecretModel,
    positions: Seq<HeaderPosition>,
) -> Result<FoundModel, VcFault> {
    search_from(slots_of(bytes, positions), secret, 0, 0, None)
}

/// All the reports of a search over `m` slots that finds nothing.
pub open spec fn all_reports(m: int) -> Seq<Report> {
    Seq::new(
        (5 * m) as nat,
        |i: int| Report { step: i, total: 5 * m, prf: prf_table()[i / m].name },
    )
}

/// The positions a full search looks at, in order.
pub open spec fn all_positions() -> Seq<HeaderPosition> {
    seq![
        HeaderPosition::Primary,
        HeaderPosition::Hidden,
        HeaderPosition::BackupPrimary,
        HeaderPosition::BackupHidden,
    ]
}

/// A successful header find: the validated header and the candidate that
/// matched.
pub struct FoundHeader {
    pub header: VolumeHeader,
    pub scheme: EncryptionScheme,
    pub prf: Prf,
}

impl View for FoundHeader {
    type V = FoundModel;

    open spec fn view(&self) -> FoundModel {
        FoundModel { header: self.header@, scheme: self.scheme@, prf: self.prf@ }
    }
}

/// What a find promises beyond validity: the scheme is one of the registry's,
/// so its keys fit the header's key area.
pub open spec fn registered(scheme: Scheme) -> bool {
    exists|i: int| 0 <= i < scheme_table().len() && scheme == #[trigger] scheme_table()[i]
}

struct SlotBytes {
    position: HeaderPosition,
    salt: [u8; 64],
    enc: [u8; 448],
}

impl View for SlotBytes {
    type V = Slot;

    closed spec fn view(&self) -> Slot {
        Slot { position: self.position, salt: self.salt@, enc: self.enc@ }
    }
}

spec fn slot_views(v: Seq<SlotBytes>) -> Seq<Slot> {
    v.map_values(|s: SlotBytes| s@)
}

/// What the schemes made of a slot under one key.
pub enum SchemeOutcome {
    Found(VolumeHeader, EncryptionScheme),
    Finding(VcError),
    Miss,
}

impl View for SchemeOutcome {
    type V = Trial;

    open spec fn view(&self) -> Trial {
        match *self {
            SchemeOutcome::Found(h, s) => Trial::Found { header: h@, scheme: s@ },
            SchemeOutcome::Finding(e) => Trial::Finding(e@),
            SchemeOutcome::Miss => Trial::Miss,
        }
    }
}

/// What one scheme makes of a header region under a derived key, of which it
/// takes as much as it needs.
pub open spec fn key_trial(
    key: Seq<u8>,
    scheme: Scheme,
    enc: Seq<u8>,
    position: HeaderPosition,
) -> Result<HeaderModel, VcFault> {
    parsed(
        unit_decrypted(
            layers_of(scheme.layers, key.take(64 * scheme.layers.len() as int)),
            enc,
            0,
        ),
        position,
    )
}

/// What the schemes from the `i`-th on make of a header region under a derived
/// key, with what was found amiss before.
pub open spec fn key_trial_from(
    key: Seq<u8>,
    enc: Seq<u8>,
    position: HeaderPosition,
    i: int,
    finding: Option<VcFault>,
) -> Trial
    decreases scheme_table().len() - i,
{
    if 0 <= i < scheme_table().len() {
        let scheme = scheme_table()[i];
        match key_trial(key, scheme, enc, position) {
            Ok(header) => Trial::Found { header, scheme },
            Err(VcFault::NotFoundOrWrongPassword) => key_trial_from(
                key,
                enc,
                position,
                i + 1,
                finding,
            ),
            Err(f) => key_trial_from(key, enc, position, i + 1, Some(f)),
        }
    } else {
        match finding {
            Some(f) => Trial::Finding(f),
            None => Trial::Miss,
        }
    }
}

/// A slot's trial under a hash and a secret is the trial under the key that
/// they give.
proof fn lemma_key_trial(
    prf: PrfModel,
    secret: SecretModel,
    slot: Slot,
    i: int,
    finding: Option<VcFault>,
)
    requires
        0 <= i,
    ensures
        trial_from(prf, secret, slot, i, finding) == key_trial_from(
            header_key(prf, secret, slot.salt, 192),
            slot.enc,
            slot.position,
            i,
            finding,
        ),
    decreases scheme_table().len() - i,
{
    if i < scheme_table().len() {
        let scheme = scheme_table()[i];
        schemes_fit_the_key_area(i);
        shorter_key_is_a_prefix(
            prf.name,
            secret.passphrase,
            slot.salt,
            pim_iterations(prf, secret.pim) as u32,
            64 * scheme.layers.len(),
            192,
        );
        match scheme_trial(prf, scheme, secret, slot) {
            Ok(_) => {},
            Err(VcFault::NotFoundOrWrongPassword) => {
                lemma_key_trial(prf, secret, slot, i + 1, finding);
            },
            Err(f) => {
                lemma_key_trial(prf, secret, slot, i + 1, Some(f));
            },
        }
    }
}

/// Try every scheme on a header region under a derived key, single ciphers
/// first.
pub fn try_schemes(key: &[u8], enc: &[u8; 448], position: HeaderPosition) -> (r: SchemeOutcome)
    requires
        key@.len() >= 192,
    ensures
        r@ == key_trial_from(key@, enc@, position, 0, None),
{
    let supported: Vec<EncryptionScheme> = schemes();
    let mut finding: Option<VcError> = None;
    let n: usize = supported.len();
    let mut i: usize = 0;
    assert(schemes_of(supported@).len() == 15);
    while i < n
        invariant
            i <= n == supported@.len() == 15,
            schemes_of(supported@) == scheme_table(),
            key@.len() >= 192,
            key_trial_from(key@, enc@, position, 0, None) == key_trial_from(
                key@,
                enc@,
                position,
                i as int,
                match finding {
                    Some(e) => Some(e@),
                    None => None,
                },
            ),
        decreases n - i,
    {
        let scheme: EncryptionScheme = supported[i];
        assert(scheme@ == schemes_of(supported@)[i as int]);
        proof {
            schemes_fit_the_key_area(i as int);
        }
        i = i + 1;
        let made: VcResult<SchemeXts> = SchemeXts::new(&scheme, &key[0..scheme.key_bytes()]);
        let mut xts: SchemeXts = match made {
            Ok(x) => x,
            Err(_) => {
                assert(false);
                continue ;
            },
        };
        let mut dec: [u8; 448] = *enc;
        xts.decrypt_header(&mut dec);
        let parsed_header: VcResult<VolumeHeader> = parse_decrypted_header(&dec, position);
        wipe(&mut dec);
        xts.wipe();
        match parsed_header {
            Ok(header) => {
                return SchemeOutcome::Found(header, scheme);
            },
            Err(VcError::NotFoundOrWrongPassword) => {},
            Err(e) => {
                finding = Some(e);
            },
        }
    }
    match finding {
        Some(e) => SchemeOutcome::Finding(e),
        None => SchemeOutcome::Miss,
    }
}

fn derive_for(prf: &Prf, secret: &UnlockSecret<'_>, salt: &[u8; 64]) -> (r: VcResult<HeaderKey>)
    requires
        pim_ok(secret.pim),
        crate::crypto::kdf::prf_known(prf@.name),
    ensures
        r matches Ok(k) && k@ == header_key(prf@, secret@, salt@, 192),
{
    let iterations: u32 = iterations_for_pim(prf, secret.pim);
    derive_header_key(prf.name, secret.passphrase, salt, iterations, MAX_KEY_LEN)
}

/// The slots at the given positions, read once.
fn read_slots<D: BlockDevice>(container: &mut D, positions: &[HeaderPosition]) -> (r: VcResult<
    Vec<SlotBytes>,
>)
    ensures
        final(container).disk() == old(container).disk(),
        old(container).reliable() ==> final(container).reliable(),
        r matches Ok(v) ==> slot_views(v@) == slots_of(old(container).disk().bytes, positions@),
        old(container).reliable() ==> r is Ok,
{
    let ghost bytes = container.disk().bytes;
    let len: u64 = container.len()?;
    let mut slots: Vec<SlotBytes> = Vec::new();
    let mut i: usize = 0;
    assert(positions@.take(0) =~= seq![]);
    assert(slot_views(slots@) =~= seq![]);
    while i < positions.len()
        invariant
            i <= positions@.len(),
            len == bytes.len(),
            bytes == container.disk().bytes,
            container.disk() == old(container).disk(),
            old(container).reliable() ==> container.reliable(),
            slot_views(slots@) == slots_of(bytes, positions@.take(i as int)),
        decreases positions@.len() - i,
    {
        let position: HeaderPosition = positions[i];
        assert(positions@.take(i + 1).drop_last() =~= positions@.take(i as int));
        if let Some(offset) = position_offset(position, len) {
            let mut salt: [u8; 64] = [0u8; 64];
            container.read_at(offset, &mut salt)?;
            let mut enc: [u8; 448] = [0u8; 448];
            container.read_at(offset + SALT_LEN as u64, &mut enc)?;
            let ghost was = slots@;
            slots.push(SlotBytes { position, salt, enc });
            assert(slot_views(slots@) =~= slot_views(was).push(slots@.last()@));
        }
        i = i + 1;
    }
    assert(positions@.take(i as int) =~= positions@);
    Ok(slots)
}

proof fn lemma_step(f: int, j: int, m: int)
    requires
        0 <= f,
        0 <= j < m,
    ensures
        (f * m + j) / m == f,
        f * m + j < (f + 1) * m,
        f * m >= 0,
{
    assert((f * m + j) / m == f) by (nonlinear_arith)
        requires
            0 <= f,
            0 <= j < m,
    ;
    assert(f * m + j < (f + 1) * m) by (nonlinear_arith)
        requires
            0 <= j < m,
    ;
    assert(f * m >= 0) by (nonlinear_arith)
        requires
            0 <= f,
            0 < m,
    ;
}

/// `find_header` with an explicit position list; repair probes single
/// positions through this.
pub fn find_header_at<D: BlockDevice, P: UnlockProgress>(
    container: &mut D,
    secret: &UnlockSecret<'_>,
    positions: &[HeaderPosition],
    progress: &mut P,
) -> (r: VcResult<FoundHeader>)
    requires
        pim_ok(secret.pim),
        5 * positions@.len() <= usize::MAX,
    ensures
        final(container).disk() == old(container).disk(),
        old(container).reliable() ==> final(container).reliable(),
        r matches Ok(found) ==> search(old(container).disk().bytes, secret@, positions@) == Ok::<FoundModel, VcFault>(
            found@,
        ) && registered(found@.scheme),
        old(container).reliable() ==> match search(old(container).disk().bytes, secret@, positions@) {
            Ok(found) => r matches Ok(f) && f@ == found,
            Err(f) => fails_with(r, f),
        },
        r is Err && old(container).reliable() ==> final(progress).reports() == old(progress).reports() + all_reports(
            slots_of(old(container).disk().bytes, positions@).len() as int,
        ),
        r is Ok ==> exists|n: int|
            1 <= n <= 5 * slots_of(old(container).disk().bytes, positions@).len()
                && final(progress).reports() == old(progress).reports() + #[trigger] all_reports(
                slots_of(old(container).disk().bytes, positions@).len() as int,
            ).take(n),
{
    let hashes: Vec<Prf> = prfs();
    assert(prfs_of(hashes@).len() == 5);
    let ghost bytes = container.disk().bytes;
    let ghost slots_model = slots_of(bytes, positions@);
    let ghost before = progress.reports();
    let slots: Vec<SlotBytes> = read_slots(container, positions)?;
    let m: usize = slots.len();
    proof {
        lemma_slot_count(bytes, positions@);
        assert(slot_views(slots@).len() == slots@.len());
    }
    let total: usize = m * 5;
    let ghost reports = all_reports(m as int);
    // A magic match with a bad checksum or refused flags is a finding, not a
    // miss: it is what is reported if nothing unlocks.
    let mut amiss: Option<VcError> = None;
    let mut step: usize = 0;
    let mut f: usize = 0;
    assert(before + reports.take(0) =~= before);
    while f < hashes.len()
        invariant
            pim_ok(secret.pim),
            f <= 5,
            hashes@.len() == 5,
            prfs_of(hashes@) == prf_table(),
            m == slots@.len(),
            5 * m <= usize::MAX,
            total == 5 * m,
            slot_views(slots@) == slots_model,
            slots_model.len() == m,
            slots_model == slots_of(bytes, positions@),
            bytes == old(container).disk().bytes,
            container.disk() == old(container).disk(),
            old(container).reliable() ==> container.reliable(),
            before == old(progress).reports(),
            step == f * m,
            reports == all_reports(m as int),
            progress.reports() == before + reports.take(step as int),
            search(bytes, secret@, positions@) == search_from(
                slots_model,
                secret@,
                f as int,
                0,
                match amiss {
                    Some(e) => Some(e@),
                    None => None,
                },
            ),
        decreases 5 - f,
    {
        let prf: Prf = hashes[f];
        assert(prf@ == prfs_of(hashes@)[f as int]);
        proof {
            registered_prfs_are_known(f as int);
        }
        let mut j: usize = 0;
        while j < m
            invariant
                pim_ok(secret.pim),
                f < 5,
                j <= m,
                prf@ == prf_table()[f as int],
                crate::crypto::kdf::prf_known(prf@.name),
                m == slots@.len(),
                5 * m <= usize::MAX,
                total == 5 * m,
                slot_views(slots@) == slots_model,
                slots_model.len() == m,
                slots_model == slots_of(bytes, positions@),
                bytes == old(container).disk().bytes,
                container.disk() == old(container).disk(),
                old(container).reliable() ==> container.reliable(),
                before == old(progress).reports(),
                step == f * m + j,
                reports == all_reports(m as int),
                progress.reports() == before + reports.take(step as int),
                search(bytes, secret@, positions@) == search_from(
                    slots_model,
                    secret@,
                    f as int,
                    j as int,
                    match amiss {
                        Some(e) => Some(e@),
                        None => None,
                    },
                ),
            decreases m - j,
        {
            proof {
                lemma_step(f as int, j as int, m as int);
                assert((f + 1) * m <= 5 * m) by (nonlinear_arith)
                    requires
                        f < 5,
                        0 <= m,
                ;
            }
            progress.report(step, total, prf.name);
            assert(progress.reports() =~= before + reports.take(step + 1));
            step = step + 1;
            let slot: &SlotBytes = &slots[j];
            assert(slot@ == slot_views(slots@)[j as int]);
            let derived: VcResult<HeaderKey> = derive_for(&prf, secret, &slot.salt);
            let mut key: HeaderKey = derived?;
            proof {
                lemma_key_trial(prf@, secret@, slot@, 0, None);
            }
            let tried: SchemeOutcome = try_schemes(key.as_bytes(), &slot.enc, slot.position);
            key.wipe();
            match tried {
                SchemeOutcome::Found(header, scheme) => {
                    proof {
                        lemma_trial_registered(prf@, secret@, slot@, 0, None);
                        assert(1 <= step <= 5 * m);
                    }
                    return Ok(FoundHeader { header, scheme, prf });
                },
                SchemeOutcome::Finding(e) => {
                    amiss = Some(e);
                },
                SchemeOutcome::Miss => {},
            }
            assert(f * m + (j + 1) == step);
            j = j + 1;
        }
        assert(f * m + m == (f + 1) * m) by (nonlinear_arith);
        f = f + 1;
    }
    assert(reports.take(step as int) =~= reports) by {
        assert(step == 5 * m);
    }
    match amiss {
        Some(e) => Err(e),
        None => Err(VcError::NotFoundOrWrongPassword),
    }
}

proof fn lemma_slot_count(bytes: Seq<u8>, positions: Seq<HeaderPosition>)
    ensures
        slots_of(bytes, positions).len() <= positions.len(),
    decreases positions.len(),
{
    if positions.len() > 0 {
        lemma_slot_count(bytes, positions.drop_last());
    }
}

proof fn lemma_trial_registered(
    prf: PrfModel,
    secret: SecretModel,
    slot: Slot,
    i: int,
    finding: Option<VcFault>,
)
    requires
        0 <= i,
    ensures
        trial_from(prf, secret, slot, i, finding) matches Trial::Found { scheme, .. } ==> registered(
            scheme,
        ),
    decreases scheme_table().len() - i,
{
    if i < scheme_table().len() {
        match scheme_trial(prf, scheme_table()[i], secret, slot) {
            Ok(_) => {},
            Err(VcFault::NotFoundOrWrongPassword) => {
                lemma_trial_registered(prf, secret, slot, i + 1, finding);
            },
            Err(f) => {
                lemma_trial_registered(prf, secret, slot, i + 1, Some(f));
            },
        }
    }
}

/// Search for a header that validates: primary, hidden, then the two embedded
/// backups. The supplied password alone decides which volume opens.
pub fn find_header<D: BlockDevice, P: UnlockProgress>(
    container: &mut D,
    secret: &UnlockSecret<'_>,
    progress: &mut P,
) -> (r: VcResult<FoundHeader>)
    requires
        pim_ok(secret.pim),
    ensures
        final(container).disk() == old(container).disk(),
        old(container).reliable() ==> final(container).reliable(),
        r matches Ok(found) ==> search(old(container).disk().bytes, secret@, all_positions()) == Ok::<
            FoundModel,
            VcFault,
        >(found@) && registered(found@.scheme),
        old(container).reliable() ==> match search(
            old(container).disk().bytes,
            secret@,
            all_positions(),
        ) {
            Ok(found) => r matches Ok(f) && f@ == found,
            Err(f) => fails_with(r, f),
        },
        r is Err && old(container).reliable() ==> final(progress).reports() == old(progress).reports() + all_reports(
            slots_of(old(container).disk().bytes, all_positions()).len() as int,
        ),
        r is Ok ==> exists|n: int|
            1 <= n <= 5 * slots_of(old(container).disk().bytes, all_positions()).len()
                && final(progress).reports() == old(progress).reports() + #[trigger] all_reports(
                slots_of(old(container).disk().bytes, all_positions()).len() as int,
            ).take(n),
{
    let positions: [HeaderPosition; 4] = [
        HeaderPosition::Primary,
        HeaderPosition::Hidden,
        HeaderPosition::BackupPrimary,
        HeaderPosition::BackupHidden,
    ];
    assert(positions@ =~= all_positions());
    find_header_at(container, secret, positions.as_slice(), progress)
}

/// Where no combination decrypts any slot to the right magic, the answer is a
/// wrong password: for a container of any contents, with a hidden volume or
/// without.
pub proof fn no_match_is_a_wrong_password(
    bytes: Seq<u8>,
    secret: SecretModel,
    positions: Seq<HeaderPosition>,
)
    requires
        forall|f: int, j: int, i: int|
            0 <= f < prf_table().len() && 0 <= j < slots_of(bytes, positions).len() && 0 <= i
                < scheme_table().len() ==> #[trigger] scheme_trial(
                prf_table()[f],
                scheme_table()[i],
                secret,
                slots_of(bytes, positions)[j],
            ) == Err::<HeaderModel, VcFault>(VcFault::NotFoundOrWrongPassword),
    ensures
        search(bytes, secret, positions) == Err::<FoundModel, VcFault>(
            VcFault::NotFoundOrWrongPassword,
        ),
{
    lemma_all_miss(slots_of(bytes, positions), secret, 0, 0);
}

proof fn lemma_all_miss(slots: Seq<Slot>, secret: SecretModel, f: int, j: int)
    requires
        0 <= f,
        0 <= j,
        forall|f: int, j: int, i: int|
            0 <= f < prf_table().len() && 0 <= j < slots.len() && 0 <= i < scheme_table().len()
                ==> #[trigger] scheme_trial(prf_table()[f], scheme_table()[i], secret, slots[j])
                == Err::<HeaderModel, VcFault>(VcFault::NotFoundOrWrongPassword),
    ensures
        search_from(slots, secret, f, j, None) == Err::<FoundModel, VcFault>(
            VcFault::NotFoundOrWrongPassword,
        ),
    decreases prf_table().len() - f, slots.len() - j,
{
    if f < prf_table().len() {
        if j < slots.len() {
            assert forall|i: int| 0 <= i < scheme_table().len() implies #[trigger] scheme_trial(
                prf_table()[f],
                scheme_table()[i],
                secret,
                slots[j],
            ) == Err::<HeaderModel, VcFault>(VcFault::NotFoundOrWrongPassword) by {}
            lemma_schemes_miss(prf_table()[f], secret, slots[j], 0);
            lemma_all_miss(slots, secret, f, j + 1);
        } else {
            lemma_all_miss(slots, secret, f + 1, 0);
        }
    }
}

proof fn lemma_schemes_miss(prf: PrfModel, secret: SecretModel, slot: Slot, i: int)
    requires
        0 <= i,
        forall|i: int|
            0 <= i < scheme_table().len() ==> #[trigger] scheme_trial(
                prf,
                scheme_table()[i],
                secret,
                slot,
            ) == Err::<HeaderModel, VcFault>(VcFault::NotFoundOrWrongPassword),
    ensures
        trial_from(prf, secret, slot, i, None) is Miss,
    decreases scheme_table().len() - i,
{
    if i < scheme_table().len() {
        lemma_schemes_miss(prf, secret, slot, i + 1);
    }
}

/// Whether combination `(f, j)`, a hash and a slot, is tried before `(g, k)`.
pub open spec fn tried_before(f: int, j: int, g: int, k: int) -> bool {
    f < g || (f == g && j < k)
}

/// The password alone selects the volume: what opens is the first slot, hash
/// by hash, in which some scheme finds a valid header, and that header is what
/// is returned.
pub proof fn first_valid_slot_opens(
    bytes: Seq<u8>,
    secret: SecretModel,
    positions: Seq<HeaderPosition>,
    g: int,
    k: int,
    header: HeaderModel,
    scheme: Scheme,
)
    requires
        0 <= g < prf_table().len(),
        0 <= k < slots_of(bytes, positions).len(),
        trial_from(prf_table()[g], secret, slots_of(bytes, positions)[k], 0, None) == (
        Trial::Found { header, scheme }),
        forall|f: int, j: int|
            0 <= f < prf_table().len() && 0 <= j < slots_of(bytes, positions).len()
                && tried_before(f, j, g, k) ==> !(#[trigger] trial_from(
                prf_table()[f],
                secret,
                slots_of(bytes, positions)[j],
                0,
                None,
            ) is Found),
    ensures
        search(bytes, secret, positions) == Ok::<FoundModel, VcFault>(
            FoundModel { header, scheme, prf: prf_table()[g] },
        ),
{
    lemma_first_opens(slots_of(bytes, positions), secret, 0, 0, None, g, k, header, scheme);
}

proof fn lemma_first_opens(
    slots: Seq<Slot>,
    secret: SecretModel,
    f: int,
    j: int,
    amiss: Option<VcFault>,
    g: int,
    k: int,
    header: HeaderModel,
    scheme: Scheme,
)
    requires
        0 <= f,
        0 <= j,
        0 <= g < prf_table().len(),
        0 <= k < slots.len(),
        f == g && j == k || tried_before(f, j, g, k),
        trial_from(prf_table()[g], secret, slots[k], 0, None) == (Trial::Found { header, scheme }),
        forall|f: int, j: int|
            0 <= f < prf_table().len() && 0 <= j < slots.len() && tried_before(f, j, g, k) ==> !(
            #[trigger] trial_from(prf_table()[f], secret, slots[j], 0, None) is Found),
    ensures
        search_from(slots, secret, f, j, amiss) == Ok::<FoundModel, VcFault>(
            FoundModel { header, scheme, prf: prf_table()[g] },
        ),
    decreases prf_table().len() - f, slots.len() - j,
{
    if j >= slots.len() {
        lemma_first_opens(slots, secret, f + 1, 0, amiss, g, k, header, scheme);
    } else if f == g && j == k {
    } else {
        match trial_from(prf_table()[f], secret, slots[j], 0, None) {
            Trial::Found { .. } => {},
            Trial::Finding(e) => {
                lemma_first_opens(slots, secret, f, j + 1, Some(e), g, k, header, scheme);
            },
            Trial::Miss => {
                lemma_first_opens(slots, secret, f, j + 1, amiss, g, k, header, scheme);
            },
        }
    }
}

/// How many slots are searched depends on the container's size alone, so a
/// failed unlock does the same work whatever the container holds.
pub proof fn work_depends_on_size_alone(
    a: Seq<u8>,
    b: Seq<u8>,
    positions: Seq<HeaderPosition>,
)
    requires
        a.len() == b.len(),
    ensures
        slots_of(a, positions).len() == slots_of(b, positions).len(),
    decreases positions.len(),
{
    if positions.len() > 0 {
        work_depends_on_size_alone(a, b, positions.drop_last());
    }
}

/// What a search finds depends on the header regions alone: whatever is written
/// to the data between them, the same secret opens the same volume.
pub proof fn data_writes_keep_the_headers(
    a: Seq<u8>,
    b: Seq<u8>,
    secret: SecretModel,
    positions: Seq<HeaderPosition>,
)
    requires
        a.len() == b.len(),
        a.len() >= 262_144,
        forall|i: int|
            0 <= i < a.len() && (i < 131_072 || i >= a.len() - 131_072) ==> a[i] == #[trigger] b[i],
    ensures
        search(b, secret, positions) == search(a, secret, positions),
{
    lemma_same_slots(a, b, positions);
}

proof fn lemma_same_slots(a: Seq<u8>, b: Seq<u8>, positions: Seq<HeaderPosition>)
    requires
        a.len() == b.len(),
        a.len() >= 262_144,
        forall|i: int|
            0 <= i < a.len() && (i < 131_072 || i >= a.len() - 131_072) ==> a[i] == #[trigger] b[i],
    ensures
        slots_of(b, positions) == slots_of(a, positions),
    decreases positions.len(),
{
    if positions.len() > 0 {
        lemma_same_slots(a, b, positions.drop_last());
        let o = offset_of(positions.last(), a.len() as int)->0;
        assert(slice_of(b, o, 64) =~= slice_of(a, o, 64));
        assert(slice_of(b, o + 64, 448) =~= slice_of(a, o + 64, 448));
    }
}

/// The slot of a container at one position.
pub open spec fn slot_at(bytes: Seq<u8>, position: HeaderPosition) -> Slot {
    let o = offset_of(position, bytes.len() as int)->0;
    Slot { position, salt: slice_of(bytes, o, 64), enc: slice_of(bytes, o + 64, 448) }
}

/// What a search finds really lies where it says: at the header's position the
/// container has a slot which the named hash and scheme of the registry open,
/// and which holds that header.
pub proof fn found_header_is_in_its_slot(
    bytes: Seq<u8>,
    secret: SecretModel,
    positions: Seq<HeaderPosition>,
)
    requires
        search(bytes, secret, positions) is Ok,
    ensures
        ({
            let found = search(bytes, secret, positions)->Ok_0;
            let position = found.header.position;
            &&& positions.contains(position)
            &&& offset_of(position, bytes.len() as int) is Some
            &&& scheme_trial(found.prf, found.scheme, secret, slot_at(bytes, position)) == Ok::<
                HeaderModel,
                VcFault,
            >(found.header)
            &&& registered(found.scheme)
            &&& prf_registered(found.prf)
        }),
{
    let slots = slots_of(bytes, positions);
    lemma_found(slots, secret, 0, 0, None);
    let found = search(bytes, secret, positions)->Ok_0;
    let k = choose|k: int|
        0 <= k < slots.len() && #[trigger] scheme_trial(
            found.prf,
            found.scheme,
            secret,
            slots[k],
        ) == Ok::<HeaderModel, VcFault>(found.header);
    lemma_slot(bytes, positions, k);
}

/// Whether a hash is one of the registry's.
pub open spec fn prf_registered(prf: PrfModel) -> bool {
    exists|f: int| 0 <= f < prf_table().len() && prf == #[trigger] prf_table()[f]
}

proof fn lemma_slot(bytes: Seq<u8>, positions: Seq<HeaderPosition>, k: int)
    requires
        0 <= k < slots_of(bytes, positions).len(),
    ensures
        ({
            let slot = slots_of(bytes, positions)[k];
            &&& positions.contains(slot.position)
            &&& offset_of(slot.position, bytes.len() as int) is Some
            &&& slot == slot_at(bytes, slot.position)
        }),
    decreases positions.len(),
{
    if positions.len() > 0 {
        let before = slots_of(bytes, positions.drop_last());
        if k < before.len() {
            lemma_slot(bytes, positions.drop_last(), k);
            let p = before[k].position;
            let i = choose|i: int|
                0 <= i < positions.drop_last().len() && positions.drop_last()[i] == p;
            assert(positions[i] == p);
        } else {
            assert(positions[positions.len() - 1] == positions.last());
        }
    }
}

#[verifier::spinoff_prover]
proof fn lemma_found(
    slots: Seq<Slot>,
    secret: SecretModel,
    f: int,
    j: int,
    amiss: Option<VcFault>,
)
    requires
        0 <= f,
        0 <= j,
    ensures
        search_from(slots, secret, f, j, amiss) matches Ok(found) ==> {
            &&& exists|k: int|
                0 <= k < slots.len() && #[trigger] scheme_trial(
                    found.prf,
                    found.scheme,
                    secret,
                    slots[k],
                ) == Ok::<HeaderModel, VcFault>(found.header)
            &&& registered(found.scheme)
            &&& prf_registered(found.prf)
        },
    decreases prf_table().len() - f, slots.len() - j,
{
    if f < prf_table().len() {
        if j >= slots.len() {
            lemma_found(slots, secret, f + 1, 0, amiss);
        } else {
            let prf = prf_table()[f];
            lemma_trial_registered(prf, secret, slots[j], 0, None);
            lemma_trial_found(prf, secret, slots[j], 0, None);
            match trial_from(prf, secret, slots[j], 0, None) {
                Trial::Found { header, scheme } => {
                    assert(prf_registered(prf_table()[f]));
                    let found = FoundModel { header, scheme, prf };
                    assert(search_from(slots, secret, f, j, amiss) == Ok::<FoundModel, VcFault>(found));
                    assert(scheme_trial(found.prf, found.scheme, secret, slots[j]) == Ok::<
                        HeaderModel,
                        VcFault,
                    >(found.header));
                },
                Trial::Finding(e) => {
                    lemma_found(slots, secret, f, j + 1, Some(e));
                },
                Trial::Miss => {
                    lemma_found(slots, secret, f, j + 1, amiss);
                },
            }
        }
    }
}

proof fn lemma_trial_found(
    prf: PrfModel,
    secret: SecretModel,
    slot: Slot,
    i: int,
    finding: Option<VcFault>,
)
    requires
        0 <= i,
    ensures
        trial_from(prf, secret, slot, i, finding) matches Trial::Found { header, scheme }
            ==> scheme_trial(prf, scheme, secret, slot) == Ok::<HeaderModel, VcFault>(header),
    decreases scheme_table().len() - i,
{
    if i < scheme_table().len() {
        match scheme_trial(prf, scheme_table()[i], secret, slot) {
            Ok(_) => {},
            Err(VcFault::NotFoundOrWrongPassword) => {
                lemma_trial_found(prf, secret, slot, i + 1, finding);
            },
            Err(f) => {
                lemma_trial_found(prf, secret, slot, i + 1, Some(f));
            },
        }
    }
}

/// Where one of the registry's combinations validates at one of the positions,
/// the search succeeds.
pub proof fn some_match_opens(
    bytes: Seq<u8>,
    secret: SecretModel,
    positions: Seq<HeaderPosition>,
    k: int,
    prf: PrfModel,
    scheme: Scheme,
)
    requires
        0 <= k < positions.len(),
        offset_of(positions[k], bytes.len() as int) is Some,
        prf_registered(prf),
        registered(scheme),
        scheme_trial(prf, scheme, secret, slot_at(bytes, positions[k])) is Ok,
    ensures
        search(bytes, secret, positions) is Ok,
{
    let slots = slots_of(bytes, positions);
    let j = lemma_slot_index(bytes, positions, k);
    let g = choose|f: int| 0 <= f < prf_table().len() && prf == #[trigger] prf_table()[f];
    let i = choose|i: int| 0 <= i < scheme_table().len() && scheme == #[trigger] scheme_table()[i];
    lemma_trial_succeeds(prf, secret, slots[j], 0, None, i);
    lemma_search_succeeds(slots, secret, 0, 0, None, g, j);
}

proof fn lemma_slot_index(bytes: Seq<u8>, positions: Seq<HeaderPosition>, k: int) -> (j: int)
    requires
        0 <= k < positions.len(),
        offset_of(positions[k], bytes.len() as int) is Some,
    ensures
        0 <= j < slots_of(bytes, positions).len(),
        slots_of(bytes, positions)[j] == slot_at(bytes, positions[k]),
    decreases positions.len(),
{
    if k == positions.len() - 1 {
        slots_of(bytes, positions.drop_last()).len() as int
    } else {
        lemma_slot_index(bytes, positions.drop_last(), k)
    }
}

proof fn lemma_trial_succeeds(
    prf: PrfModel,
    secret: SecretModel,
    slot: Slot,
    i: int,
    finding: Option<VcFault>,
    target: int,
)
    requires
        0 <= i <= target < scheme_table().len(),
        scheme_trial(prf, scheme_table()[target], secret, slot) is Ok,
    ensures
        trial_from(prf, secret, slot, i, finding) is Found,
    decreases target - i,
{
    if i < target {
        match scheme_trial(prf, scheme_table()[i], secret, slot) {
            Ok(_) => {},
            Err(VcFault::NotFoundOrWrongPassword) => {
                lemma_trial_succeeds(prf, secret, slot, i + 1, finding, target);
            },
            Err(f) => {
                lemma_trial_succeeds(prf, secret, slot, i + 1, Some(f), target);
            },
        }
    }
}

proof fn lemma_search_succeeds(
    slots: Seq<Slot>,
    secret: SecretModel,
    f: int,
    j: int,
    amiss: Option<VcFault>,
    g: int,
    k: int,
)
    requires
        0 <= f,
        0 <= j,
        0 <= g < prf_table().len(),
        0 <= k < slots.len(),
        f == g && j == k || tried_before(f, j, g, k),
        trial_from(prf_table()[g], secret, slots[k], 0, None) is Found,
    ensures
        search_from(slots, secret, f, j, amiss) is Ok,
    decreases prf_table().len() - f, slots.len() - j,
{
    if j >= slots.len() {
        lemma_search_succeeds(slots, secret, f + 1, 0, amiss, g, k);
    } else if f == g && j == k {
    } else {
        match trial_from(prf_table()[f], secret, slots[j], 0, None) {
            Trial::Found { .. } => {},
            Trial::Finding(e) => {
                lemma_search_succeeds(slots, secret, f, j + 1, Some(e), g, k);
            },
            Trial::Miss => {
                lemma_search_succeeds(slots, secret, f, j + 1, amiss, g, k);
            },
        }
    }
}

/// Whether nothing that a search tries before hash `g`, position `k` and scheme
/// `i` of the registry holds a valid header.
pub open spec fn nothing_earlier(
    bytes: Seq<u8>,
    secret: SecretModel,
    positions: Seq<HeaderPosition>,
    g: int,
    k: int,
    i: int,
) -> bool {
    forall|f: int, j: int, s: int|
        0 <= f < prf_table().len() && 0 <= j < positions.len() && 0 <= s < scheme_table().len()
            && offset_of(positions[j], bytes.len() as int) is Some && (tried_before(f, j, g, k) || (f
            == g && j == k && s < i)) ==> #[trigger] scheme_trial(
            prf_table()[f],
            scheme_table()[s],
            secret,
            slot_at(bytes, positions[j]),
        ) is Err
}

/// Whether a hash and scheme of the registry at a position are what a full
/// search comes to first, of all that it could find: nothing tried before them
/// holds a valid header.
pub open spec fn comes_first(
    bytes: Seq<u8>,
    secret: SecretModel,
    prf: PrfModel,
    scheme: Scheme,
    position: HeaderPosition,
) -> bool {
    exists|g: int, k: int, i: int|
        {
            &&& 0 <= g < prf_table().len()
            &&& 0 <= k < all_positions().len()
            &&& 0 <= i < scheme_table().len()
            &&& prf_table()[g] == prf
            &&& all_positions()[k] == position
            &&& scheme_table()[i] == scheme
            &&& #[trigger] nothing_earlier(bytes, secret, all_positions(), g, k, i)
        }
}

/// What comes first is found: a full search gives the header that it holds.
pub proof fn what_comes_first_is_found(
    bytes: Seq<u8>,
    secret: SecretModel,
    prf: PrfModel,
    scheme: Scheme,
    position: HeaderPosition,
)
    requires
        comes_first(bytes, secret, prf, scheme, position),
        offset_of(position, bytes.len() as int) is Some,
        scheme_trial(prf, scheme, secret, slot_at(bytes, position)) is Ok,
    ensures
        search(bytes, secret, all_positions()) == Ok::<FoundModel, VcFault>(
            FoundModel {
                header: scheme_trial(prf, scheme, secret, slot_at(bytes, position))->Ok_0,
                scheme,
                prf,
            },
        ),
{
    let positions = all_positions();
    let (g, k, i) = choose|g: int, k: int, i: int|
        {
            &&& 0 <= g < prf_table().len()
            &&& 0 <= k < all_positions().len()
            &&& 0 <= i < scheme_table().len()
            &&& prf_table()[g] == prf
            &&& all_positions()[k] == position
            &&& scheme_table()[i] == scheme
            &&& #[trigger] nothing_earlier(bytes, secret, all_positions(), g, k, i)
        };
    let slots = slots_of(bytes, positions);
    let at = lemma_slot_order(bytes, positions, k);
    let header = scheme_trial(prf, scheme, secret, slot_at(bytes, position))->Ok_0;
    assert forall|s: int| 0 <= s < i implies #[trigger] scheme_trial(
        prf,
        scheme_table()[s],
        secret,
        slots[at],
    ) is Err by {
        assert(scheme_trial(prf_table()[g], scheme_table()[s], secret, slot_at(bytes, positions[k]))
            is Err);
    }
    lemma_trial_reaches(prf, secret, slots[at], 0, None, i);
    assert forall|f: int, j: int|
        0 <= f < prf_table().len() && 0 <= j < slots.len() && tried_before(f, j, g, at) implies !(
    #[trigger] trial_from(prf_table()[f], secret, slots[j], 0, None) is Found) by {
        let j2 = lemma_slot_source(bytes, positions, j);
        assert(tried_before(f, j2, g, k)) by {
            if f == g {
                lemma_sources_in_order(bytes, positions, j, at, j2, k);
            }
        }
        assert forall|s: int| 0 <= s < scheme_table().len() implies #[trigger] scheme_trial(
            prf_table()[f],
            scheme_table()[s],
            secret,
            slots[j],
        ) is Err by {
            assert(scheme_trial(
                prf_table()[f],
                scheme_table()[s],
                secret,
                slot_at(bytes, positions[j2]),
            ) is Err);
        }
        lemma_none_valid(prf_table()[f], secret, slots[j], 0, None);
    }
    first_valid_slot_opens(bytes, secret, positions, g, at, header, scheme);
}

/// Where the slot of a position stands among those of a container.
proof fn lemma_slot_order(bytes: Seq<u8>, positions: Seq<HeaderPosition>, k: int) -> (j: int)
    requires
        0 <= k < positions.len(),
        offset_of(positions[k], bytes.len() as int) is Some,
    ensures
        0 <= j < slots_of(bytes, positions).len(),
        slots_of(bytes, positions)[j] == slot_at(bytes, positions[k]),
        j == slots_of(bytes, positions.take(k)).len(),
    decreases positions.len(),
{
    if k == positions.len() - 1 {
        assert(positions.take(k) =~= positions.drop_last());
        slots_of(bytes, positions.drop_last()).len() as int
    } else {
        assert(positions.drop_last().take(k) =~= positions.take(k));
        lemma_slot_order(bytes, positions.drop_last(), k)
    }
}

/// The position that a slot is of.
proof fn lemma_slot_source(bytes: Seq<u8>, positions: Seq<HeaderPosition>, j: int) -> (k: int)
    requires
        0 <= j < slots_of(bytes, positions).len(),
    ensures
        0 <= k < positions.len(),
        offset_of(positions[k], bytes.len() as int) is Some,
        slots_of(bytes, positions)[j] == slot_at(bytes, positions[k]),
        j == slots_of(bytes, positions.take(k)).len(),
    decreases positions.len(),
{
    let before = slots_of(bytes, positions.drop_last());
    if j < before.len() {
        let k = lemma_slot_source(bytes, positions.drop_last(), j);
        assert(positions.drop_last().take(k) =~= positions.take(k));
        k
    } else {
        assert(positions.take(positions.len() - 1) =~= positions.drop_last());
        positions.len() - 1
    }
}

/// Slots stand in the order of their positions.
proof fn lemma_sources_in_order(
    bytes: Seq<u8>,
    positions: Seq<HeaderPosition>,
    a: int,
    b: int,
    j: int,
    k: int,
)
    requires
        0 <= j < positions.len(),
        0 <= k < positions.len(),
        a == slots_of(bytes, positions.take(j)).len(),
        b == slots_of(bytes, positions.take(k)).len(),
        a < b,
    ensures
        j < k,
{
    if k <= j {
        lemma_more_slots(bytes, positions, k, j);
    }
}

proof fn lemma_more_slots(bytes: Seq<u8>, positions: Seq<HeaderPosition>, a: int, b: int)
    requires
        0 <= a <= b <= positions.len(),
    ensures
        slots_of(bytes, positions.take(a)).len() <= slots_of(bytes, positions.take(b)).len(),
    decreases b - a,
{
    if a < b {
        lemma_more_slots(bytes, positions, a, b - 1);
        assert(positions.take(b).drop_last() =~= positions.take(b - 1));
    }
}

/// The first scheme that makes a header of a slot is the one found.
proof fn lemma_trial_reaches(
    prf: PrfModel,
    secret: SecretModel,
    slot: Slot,
    i: int,
    finding: Option<VcFault>,
    target: int,
)
    requires
        0 <= i <= target < scheme_table().len(),
        scheme_trial(prf, scheme_table()[target], secret, slot) is Ok,
        forall|s: int|
            0 <= s < target ==> #[trigger] scheme_trial(prf, scheme_table()[s], secret, slot) is Err,
    ensures
        trial_from(prf, secret, slot, i, finding) == (Trial::Found {
            header: scheme_trial(prf, scheme_table()[target], secret, slot)->Ok_0,
            scheme: scheme_table()[target],
        }),
    decreases target - i,
{
    if i < target {
        assert(scheme_trial(prf, scheme_table()[i], secret, slot) is Err);
        match scheme_trial(prf, scheme_table()[i], secret, slot) {
            Ok(_) => {},
            Err(VcFault::NotFoundOrWrongPassword) => {
                lemma_trial_reaches(prf, secret, slot, i + 1, finding, target);
            },
            Err(f) => {
                lemma_trial_reaches(prf, secret, slot, i + 1, Some(f), target);
            },
        }
    }
}

/// Where no scheme makes a header of a slot, none is found there.
proof fn lemma_none_valid(
    prf: PrfModel,
    secret: SecretModel,
    slot: Slot,
    i: int,
    finding: Option<VcFault>,
)
    requires
        0 <= i,
        forall|s: int|
            0 <= s < scheme_table().len() ==> #[trigger] scheme_trial(
                prf,
                scheme_table()[s],
                secret,
                slot,
            ) is Err,
    ensures
        !(trial_from(prf, secret, slot, i, finding) is Found),
    decreases scheme_table().len() - i,
{
    if i < scheme_table().len() {
        assert(scheme_trial(prf, scheme_table()[i], secret, slot) is Err);
        match scheme_trial(prf, scheme_table()[i], secret, slot) {
            Ok(_) => {},
            Err(VcFault::NotFoundOrWrongPassword) => {
                lemma_none_valid(prf, secret, slot, i + 1, finding);
            },
            Err(f) => {
                lemma_none_valid(prf, secret, slot, i + 1, Some(f));
            },
        }
    }
}

/// Whether a combination misses its slot: what it decrypts to is no header.
pub open spec fn misses(slots: Seq<Slot>, secret: SecretModel, f: int, j: int, s: int) -> bool {
    scheme_trial(prf_table()[f], scheme_table()[s], secret, slots[j]) == Err::<
        HeaderModel,
        VcFault,
    >(VcFault::NotFoundOrWrongPassword)
}

/// Whether a combination has something to tell of its slot, and none that is
/// tried after it has.
pub open spec fn told_last(
    slots: Seq<Slot>,
    secret: SecretModel,
    f: int,
    j: int,
    s: int,
    e: VcFault,
) -> bool {
    &&& 0 <= f < prf_table().len() && 0 <= j < slots.len() && 0 <= s < scheme_table().len()
    &&& !(e is NotFoundOrWrongPassword)
    &&& scheme_trial(prf_table()[f], scheme_table()[s], secret, slots[j]) == Err::<
        HeaderModel,
        VcFault,
    >(e)
    &&& forall|g: int, k: int, t: int|
        0 <= g < prf_table().len() && 0 <= k < slots.len() && 0 <= t < scheme_table().len() && (
        tried_before(f, j, g, k) || (f == g && j == k && s < t)) ==> #[trigger] misses(
            slots,
            secret,
            g,
            k,
            t,
        )
}

proof fn lemma_trial_tells(
    prf: PrfModel,
    secret: SecretModel,
    slot: Slot,
    i: int,
    finding: Option<VcFault>,
) -> (s: int)
    requires
        0 <= i <= scheme_table().len(),
        finding matches Some(e) ==> !(e is NotFoundOrWrongPassword),
    ensures
        ({
            let miss = Err::<HeaderModel, VcFault>(VcFault::NotFoundOrWrongPassword);
            let none = forall|t: int|
                i <= t < scheme_table().len() ==> #[trigger] scheme_trial(
                    prf,
                    scheme_table()[t],
                    secret,
                    slot,
                ) == miss;
            match trial_from(prf, secret, slot, i, finding) {
                Trial::Found { .. } => true,
                Trial::Miss => none && finding is None,
                Trial::Finding(e) => {
                    &&& !(e is NotFoundOrWrongPassword)
                    &&& (none && finding == Some(e) && s < i) || (i <= s < scheme_table().len()
                        && scheme_trial(prf, scheme_table()[s], secret, slot) == Err::<
                        HeaderModel,
                        VcFault,
                    >(e) && forall|t: int|
                        s < t < scheme_table().len() ==> #[trigger] scheme_trial(
                            prf,
                            scheme_table()[t],
                            secret,
                            slot,
                        ) == miss)
                },
            }
        }),
    decreases scheme_table().len() - i,
{
    if i < scheme_table().len() {
        match scheme_trial(prf, scheme_table()[i], secret, slot) {
            Ok(_) => 0,
            Err(VcFault::NotFoundOrWrongPassword) => {
                let s = lemma_trial_tells(prf, secret, slot, i + 1, finding);
                if s < i + 1 {
                    -1
                } else {
                    s
                }
            },
            Err(f) => {
                let s = lemma_trial_tells(prf, secret, slot, i + 1, Some(f));
                if s < i + 1 {
                    i
                } else {
                    s
                }
            },
        }
    } else {
        -1
    }
}

proof fn lemma_search_tells(
    slots: Seq<Slot>,
    secret: SecretModel,
    f: int,
    j: int,
    amiss: Option<VcFault>,
)
    requires
        0 <= f <= prf_table().len(),
        0 <= j <= slots.len(),
        amiss matches Some(e) ==> !(e is NotFoundOrWrongPassword),
    ensures
        search_from(slots, secret, f, j, amiss) matches Err(e) ==> {
            ||| exists|g: int, k: int, s: int| #[trigger]
                told_last(slots, secret, g, k, s, e) && !tried_before(g, k, f, j)
            ||| {
                &&& e == (match amiss {
                    Some(was) => was,
                    None => VcFault::NotFoundOrWrongPassword,
                })
                &&& forall|g: int, k: int, t: int|
                    0 <= g < prf_table().len() && 0 <= k < slots.len() && 0 <= t
                        < scheme_table().len() && !tried_before(g, k, f, j) ==> #[trigger] misses(
                        slots,
                        secret,
                        g,
                        k,
                        t,
                    )
            }
        },
    decreases prf_table().len() - f, slots.len() - j,
{
    if f < prf_table().len() {
        if j >= slots.len() {
            lemma_search_tells(slots, secret, f + 1, 0, amiss);
            if let Err(e) = search_from(slots, secret, f + 1, 0, amiss) {
                if exists|g: int, k: int, s: int| #[trigger]
                    told_last(slots, secret, g, k, s, e) && !tried_before(g, k, f + 1, 0) {
                    let (g, k, s) = choose|g: int, k: int, s: int| #[trigger]
                        told_last(slots, secret, g, k, s, e) && !tried_before(g, k, f + 1, 0);
                    assert(told_last(slots, secret, g, k, s, e) && !tried_before(g, k, f, j));
                }
            }
        } else {
            let prf = prf_table()[f];
            let s0 = lemma_trial_tells(prf, secret, slots[j], 0, None);
            let t = trial_from(prf, secret, slots[j], 0, None);
            let next = match t {
                Trial::Finding(e) => Some(e),
                _ => amiss,
            };
            if !(t is Found) {
                lemma_search_tells(slots, secret, f, j + 1, next);
                if let Err(e) = search_from(slots, secret, f, j + 1, next) {
                    if exists|g: int, k: int, s: int| #[trigger]
                        told_last(slots, secret, g, k, s, e) && !tried_before(g, k, f, j + 1) {
                        let (g, k, s) = choose|g: int, k: int, s: int| #[trigger]
                            told_last(slots, secret, g, k, s, e) && !tried_before(g, k, f, j + 1);
                        assert(told_last(slots, secret, g, k, s, e) && !tried_before(g, k, f, j));
                    } else if t is Finding {
                        assert(told_last(slots, secret, f, j, s0, e) && !tried_before(f, j, f, j));
                    }
                }
            }
        }
    }
}

/// A search that opens nothing answers with what the last combination told that
/// had anything to tell; and only where none had, that there is no header or
/// the password is wrong.
pub proof fn the_last_finding_is_told(
    bytes: Seq<u8>,
    secret: SecretModel,
    positions: Seq<HeaderPosition>,
)
    ensures
        search(bytes, secret, positions) matches Err(e) ==> {
            let slots = slots_of(bytes, positions);
            if e is NotFoundOrWrongPassword {
                forall|g: int, k: int, t: int|
                    0 <= g < prf_table().len() && 0 <= k < slots.len() && 0 <= t
                        < scheme_table().len() ==> #[trigger] misses(slots, secret, g, k, t)
            } else {
                exists|g: int, k: int, s: int| #[trigger]
                    told_last(slots, secret, g, k, s, e)
            }
        },
{
    lemma_search_tells(slots_of(bytes, positions), secret, 0, 0, None);
}

/// A search reports each of its steps once: the slots under one hash after the
/// other, counted through from 0, with how many there are in all.
pub proof fn every_step_is_reported(m: int, f: int, j: int)
    requires
        0 <= f < prf_table().len(),
        0 <= j < m,
    ensures
        all_reports(m).len() == m * prf_table().len(),
        all_reports(m)[f * m + j].step == f * m + j,
        all_reports(m)[f * m + j].total == m * prf_table().len(),
        all_reports(m)[f * m + j].prf == prf_table()[f].name,
{
    let i = f * m + j;
    assert(0 <= i < 5 * m && i / m == f) by (nonlinear_arith)
        requires
            0 <= f < 5,
            0 <= j < m,
            i == f * m + j,
    ;
}

} // verus!
