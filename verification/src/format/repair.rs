//! Header backup, restore, and change of password.
//!
//! The leading 128 KiB of a container hold the primary header region (64 KiB,
//! header in its first 512 bytes) and the hidden header slot (64 KiB). The
//! trailing 128 KiB mirror both as embedded backups. A backup keeps accepting
//! the password it was taken under, whatever the container's is later.

use vstd::prelude::*;

use crate::bytes::{copy_range, put, slice_of, zeroed};
use crate::consts::{HIDDEN_HEADER_OFFSET, PRIMARY_HEADER_OFFSET, SALT_LEN};
use crate::crypto::kdf::{derive_header_key, prf_known, registered_prfs_are_known, HeaderKey};
use crate::crypto::secret::{is_rng_fault, random_fill, wipe};
use crate::crypto::xts::{unit_decrypted, unit_encrypted, SchemeXts};
use crate::device::{BlockDevice, Disk, MemDevice};
use crate::error::{fails_with, outcome, VcError, VcFault, VcResult};
use crate::format::parse::{parse_decrypted_header, parsed};
use crate::format::search::{
    all_positions, comes_first, find_header_at, found_header_is_in_its_slot, header_layers,
    position_offset, scheme_trial, search, search_from, slot_at, slots_of, some_match_opens,
    trial_from, what_comes_first_is_found, FoundHeader, FoundModel, SecretModel, Silent, Slot,
    Trial, UnlockSecret,
};
use crate::header::{HeaderModel, HeaderPosition, VolumeHeader};
use crate::registry::{
    iterations_for_pim, pim_ok, prf_table, scheme_table, schemes_fit_the_key_area,
    EncryptionScheme, Prf, PrfModel, Scheme,
};
use crate::text::{concat, decimal, decimal_text};

verus! {

/// Size of one header region.
pub const HEADER_REGION: u64 = 65_536;

/// Size of the leading header group, primary and hidden slot: the unit of
/// external backup.
pub const HEADER_GROUP: u64 = 131_072;

/// A header region as it lies on disk: the salt, and the header encrypted
/// under the key that the secret gives with it.
pub open spec fn sealed(
    prf: PrfModel,
    scheme: Scheme,
    secret: SecretModel,
    salt: Seq<u8>,
    plaintext: Seq<u8>,
) -> Seq<u8> {
    salt + unit_encrypted(header_layers(prf, scheme, secret, salt), plaintext, 0)
}

/// Whether the secret recovers `plaintext` from its sealed region.
pub open spec fn opens(
    prf: PrfModel,
    scheme: Scheme,
    secret: SecretModel,
    salt: Seq<u8>,
    plaintext: Seq<u8>,
) -> bool {
    let layers = header_layers(prf, scheme, secret, salt);
    &&& unit_decrypted(layers, unit_encrypted(layers, plaintext, 0), 0) == plaintext
    &&& unit_encrypted(layers, plaintext, 0).len() == 448
}

/// The engine that a secret gives a scheme under a hash and a salt.
pub(crate) fn header_engine(
    prf: &Prf,
    scheme: &EncryptionScheme,
    secret: &UnlockSecret<'_>,
    salt: &[u8; 64],
) -> (r: VcResult<SchemeXts>)
    requires
        scheme@.layers.len() <= 3,
        pim_ok(secret.pim),
    ensures
        prf_known(prf@.name) ==> r is Ok,
        r matches Ok(x) ==> x@ == header_layers(prf@, scheme@, secret@, salt@),
        !prf_known(prf@.name) ==> fails_with(r, VcFault::Internal("unknown PRF "@ + prf@.name)),
{
    let iterations: u32 = iterations_for_pim(prf, secret.pim);
    let mut key: HeaderKey = derive_header_key(
        prf.name,
        secret.passphrase,
        salt,
        iterations,
        scheme.key_bytes(),
    )?;
    let made: VcResult<SchemeXts> = SchemeXts::new(scheme, key.as_bytes());
    key.wipe();
    made
}

/// Seal a header plaintext under a secret and a salt.
pub(crate) fn seal(
    prf: &Prf,
    scheme: &EncryptionScheme,
    secret: &UnlockSecret<'_>,
    salt: &[u8; 64],
    plaintext: &[u8; 448],
) -> (r: VcResult<Vec<u8>>)
    requires
        scheme@.layers.len() <= 3,
        pim_ok(secret.pim),
    ensures
        prf_known(prf@.name) ==> r is Ok,
        r matches Ok(v) ==> v@ == sealed(prf@, scheme@, secret@, salt@, plaintext@) && v@.len() == 512
            && opens(prf@, scheme@, secret@, salt@, plaintext@),
        !prf_known(prf@.name) ==> fails_with(r, VcFault::Internal("unknown PRF "@ + prf@.name)),
{
    let mut xts: SchemeXts = header_engine(prf, scheme, secret, salt)?;
    let mut enc: [u8; 448] = *plaintext;
    xts.encrypt_header(&mut enc);
    xts.wipe();
    let mut region: Vec<u8> = zeroed(512);
    put(region.as_mut_slice(), 0, salt.as_slice());
    put(region.as_mut_slice(), SALT_LEN, enc.as_slice());
    assert(region@ =~= sealed(prf@, scheme@, secret@, salt@, plaintext@));
    Ok(region)
}

/// Export the leading header group (ciphertext, 128 KiB) for safekeeping.
pub fn export_headers<D: BlockDevice>(dev: &mut D) -> (r: VcResult<Vec<u8>>)
    ensures
        final(dev).disk() == old(dev).disk(),
        old(dev).reliable() ==> final(dev).reliable(),
        r matches Ok(v) ==> old(dev).disk().bytes.len() >= 131_072 && v@
            == old(dev).disk().bytes.take(131_072),
        old(dev).reliable() && old(dev).disk().bytes.len() >= 131_072 ==> r is Ok,
        old(dev).reliable() && old(dev).disk().bytes.len() < 131_072 ==> fails_with(
            r,
            VcFault::NotFoundOrWrongPassword,
        ),
{
    let len: u64 = dev.len()?;
    if len < HEADER_GROUP {
        return Err(VcError::NotFoundOrWrongPassword);
    }
    let mut out: Vec<u8> = zeroed(131_072);
    dev.read_at(0, out.as_mut_slice())?;
    assert(out@ =~= old(dev).disk().bytes.take(131_072));
    Ok(out)
}

/// The position at which an exported backup is verified.
pub open spec fn primary_only() -> Seq<HeaderPosition> {
    seq![HeaderPosition::Primary]
}

/// The position of the container's own backup.
pub open spec fn backup_only() -> Seq<HeaderPosition> {
    seq![HeaderPosition::BackupPrimary]
}

/// What is said of a backup of the wrong size.
pub open spec fn wrong_backup_size(got: nat) -> VcFault {
    VcFault::Internal("backup must be 131072 bytes, got "@ + decimal_text(got))
}

/// Restore the leading header group from an exported backup. The backup's
/// primary slot must unlock with `secret` before a single byte is written.
pub fn restore_from_file<D: BlockDevice>(
    dev: &mut D,
    backup: &[u8],
    secret: &UnlockSecret<'_>,
) -> (r: VcResult<FoundHeader>)
    requires
        pim_ok(secret.pim),
    ensures
        old(dev).reliable() ==> final(dev).reliable(),
        backup@.len() != 131_072 ==> fails_with(r, wrong_backup_size(backup@.len()))
            && final(dev).disk() == old(dev).disk(),
        backup@.len() == 131_072 ==> match search(backup@, secret@, primary_only()) {
            Err(f) => fails_with(r, f) && final(dev).disk() == old(dev).disk(),
            Ok(found) => {
                &&& r matches Ok(h) ==> h@ == found && final(dev).disk() == old(
                    dev,
                ).disk().written(0, backup@).flushed()
                &&& old(dev).reliable() && old(dev).disk().accepts(0, 131_072) ==> r is Ok
            },
        },
{
    if backup.len() != 131_072 {
        return Err(
            VcError::Internal(
                concat("backup must be 131072 bytes, got ", decimal(backup.len() as u64).as_str()),
            ),
        );
    }
    let copy: Vec<u8> = copy_range(backup, 0, backup.len());
    assert(copy@ =~= backup@);
    let mut image: MemDevice = MemDevice::new(copy);
    let mut silent: Silent = Silent::new();
    let positions: [HeaderPosition; 1] = [HeaderPosition::Primary];
    assert(positions@ =~= primary_only());
    let found: FoundHeader = find_header_at(&mut image, secret, positions.as_slice(), &mut silent)?;
    dev.write_at(0, backup)?;
    dev.flush()?;
    Ok(found)
}

/// Restore the primary header from the container's own embedded backup. The
/// backup must unlock with `secret` first; then its full 64 KiB region is
/// copied over the primary one.
pub fn restore_primary_from_embedded<D: BlockDevice>(
    dev: &mut D,
    secret: &UnlockSecret<'_>,
) -> (r: VcResult<FoundHeader>)
    requires
        pim_ok(secret.pim),
    ensures
        old(dev).reliable() ==> final(dev).reliable(),
        match search(old(dev).disk().bytes, secret@, backup_only()) {
            Err(f) => {
                &&& r is Err
                &&& final(dev).disk() == old(dev).disk()
                &&& old(dev).reliable() ==> fails_with(r, f)
            },
            Ok(found) => {
                &&& r matches Ok(h) ==> h@ == found && final(dev).disk() == old(
                    dev,
                ).disk().written(
                    0,
                    slice_of(
                        old(dev).disk().bytes,
                        old(dev).disk().bytes.len() - 131_072,
                        65_536,
                    ),
                ).flushed()
                &&& old(dev).reliable() ==> r is Ok
            },
        },
{
    let ghost bytes = dev.disk().bytes;
    let mut silent: Silent = Silent::new();
    let positions: [HeaderPosition; 1] = [HeaderPosition::BackupPrimary];
    assert(positions@ =~= backup_only());
    let found: FoundHeader = find_header_at(dev, secret, positions.as_slice(), &mut silent)?;
    proof {
        found_header_is_in_its_slot(bytes, secret@, backup_only());
    }
    let len: u64 = dev.len()?;
    let mut region: Vec<u8> = zeroed(65_536);
    dev.read_at(len - HEADER_GROUP, region.as_mut_slice())?;
    dev.write_at(0, region.as_slice())?;
    dev.flush()?;
    Ok(found)
}

/// The plaintext of the header that a secret opens in a container.
pub open spec fn opened_plaintext(bytes: Seq<u8>, secret: SecretModel, found: FoundModel) -> Seq<u8> {
    let slot = slot_at(bytes, found.header.position);
    unit_decrypted(header_layers(found.prf, found.scheme, secret, slot.salt), slot.enc, 0)
}

/// Where a volume's header and its embedded backup lie.
pub open spec fn header_pair(position: HeaderPosition, len: int) -> (int, int) {
    if position.hidden() {
        (65_536, len - 65_536)
    } else {
        (0, len - 131_072)
    }
}

/// A container whose header, in both its places, is sealed anew under a fresh
/// salt each.
pub open spec fn rekeyed(
    disk: Disk,
    found: FoundModel,
    new: SecretModel,
    plaintext: Seq<u8>,
    first_salt: Seq<u8>,
    second_salt: Seq<u8>,
) -> Disk {
    let (primary, backup) = header_pair(found.header.position, disk.bytes.len() as int);
    disk.written(
        primary,
        sealed(found.prf, found.scheme, new, first_salt, plaintext),
    ).written(backup, sealed(found.prf, found.scheme, new, second_salt, plaintext)).flushed()
}

/// Whether a container is large enough for the embedded backup of the header
/// at `position`.
pub open spec fn has_backup(position: HeaderPosition, len: int) -> bool {
    len >= if position.hidden() {
        65_536int
    } else {
        131_072int
    }
}

/// What is said of a container with no place for the backup of a header.
pub open spec fn no_backup_place() -> VcFault {
    VcFault::Internal("container too small for a backup header"@)
}

/// Whether a change of password did what is due to a container with the given
/// header in it: with some pair of salts, drawn at random, both places of the
/// header are sealed anew. A container without a place for the backup is
/// refused; on a reliable device that takes the header, nothing else fails but
/// the drawing of the salts, and then nothing is written.
pub open spec fn rekeying_due(
    reliable: bool,
    before: Disk,
    found: FoundModel,
    new: SecretModel,
    plaintext: Seq<u8>,
    r: Result<(), VcFault>,
    after: Disk,
) -> bool {
    let place = header_pair(found.header.position, before.bytes.len() as int).0;
    &&& r is Ok ==> exists|a: Seq<u8>, b: Seq<u8>|
        #![trigger rekeyed(before, found, new, plaintext, a, b)]
        a.len() == 64 && b.len() == 64 && opens(found.prf, found.scheme, new, a, plaintext)
            && opens(found.prf, found.scheme, new, b, plaintext) && after == rekeyed(
            before,
            found,
            new,
            plaintext,
            a,
            b,
        )
    &&& !has_backup(found.header.position, before.bytes.len() as int) ==> r is Err && after
        == before && (reliable ==> r == Err::<(), VcFault>(no_backup_place()))
    &&& has_backup(found.header.position, before.bytes.len() as int) && reliable && before.accepts(
        place,
        512,
    ) ==> (r matches Err(f) ==> is_rng_fault(f) && after == before)
}

/// Seal a header anew, under the given salts, in both its places.
pub fn rekey<D: BlockDevice>(
    dev: &mut D,
    found: &FoundHeader,
    plaintext: &[u8; 448],
    new: &UnlockSecret<'_>,
    first_salt: &[u8; 64],
    second_salt: &[u8; 64],
) -> (r: VcResult<()>)
    requires
        pim_ok(new.pim),
        prf_known(found@.prf.name),
        found@.scheme.layers.len() <= 3,
    ensures
        old(dev).reliable() ==> final(dev).reliable(),
        ({
            let len = old(dev).disk().bytes.len() as int;
            let position = found@.header.position;
            &&& r is Ok ==> has_backup(position, len) && final(dev).disk() == rekeyed(
                old(dev).disk(),
                found@,
                new@,
                plaintext@,
                first_salt@,
                second_salt@,
            ) && opens(found@.prf, found@.scheme, new@, first_salt@, plaintext@) && opens(
                found@.prf,
                found@.scheme,
                new@,
                second_salt@,
                plaintext@,
            )
            &&& !has_backup(position, len) ==> r is Err && final(dev).disk() == old(dev).disk() && (
            old(dev).reliable() ==> fails_with(r, no_backup_place()))
            &&& has_backup(position, len) && old(dev).reliable() && old(dev).disk().accepts(
                header_pair(position, len).0,
                512,
            ) ==> r is Ok
        }),
{
    let len: u64 = dev.len()?;
    let position: HeaderPosition = found.header.position;
    let primary_offset: u64 = if position.is_hidden() {
        HIDDEN_HEADER_OFFSET
    } else {
        PRIMARY_HEADER_OFFSET
    };
    let mirror: HeaderPosition = if position.is_hidden() {
        HeaderPosition::BackupHidden
    } else {
        HeaderPosition::BackupPrimary
    };
    let backup_offset: u64 = match position_offset(mirror, len) {
        Some(o) => o,
        None => {
            return Err(VcError::Internal("container too small for a backup header".to_string()));
        },
    };
    let first: Vec<u8> = seal(&found.prf, &found.scheme, new, first_salt, plaintext)?;
    let second: Vec<u8> = seal(&found.prf, &found.scheme, new, second_salt, plaintext)?;
    dev.write_at(primary_offset, first.as_slice())?;
    dev.write_at(backup_offset, second.as_slice())?;
    dev.flush()
}

/// Draw two salts.
fn fill_both(first: &mut [u8; 64], second: &mut [u8; 64]) -> (r: VcResult<()>)
    ensures
        r matches Err(e) ==> is_rng_fault(e@),
{
    random_fill(first)?;
    random_fill(second)
}

/// Change a volume's password or PIM without touching its data: the master
/// keys stay, only the header key that protects them is derived anew.
///
/// The current secret decides which volume is re-keyed: it opens either the
/// outer or normal header or the hidden one, and that volume's header and
/// embedded backup are rewritten together. A wrong secret fails before anything is
/// touched. The salts are random, so nothing is said of what they are.
pub fn change_password<D: BlockDevice>(
    dev: &mut D,
    current: &UnlockSecret<'_>,
    new: &UnlockSecret<'_>,
) -> (r: VcResult<()>)
    requires
        pim_ok(current.pim),
        pim_ok(new.pim),
    ensures
        old(dev).reliable() ==> final(dev).reliable(),
        match search(old(dev).disk().bytes, current@, all_positions()) {
            Err(f) => {
                &&& r is Err
                &&& final(dev).disk() == old(dev).disk()
                &&& old(dev).reliable() ==> fails_with(r, f)
            },
            Ok(found) => rekeying_due(
                old(dev).reliable(),
                old(dev).disk(),
                found,
                new@,
                opened_plaintext(old(dev).disk().bytes, current@, found),
                outcome(r),
                final(dev).disk(),
            ),
        },
{
    let ghost bytes = dev.disk().bytes;
    let len: u64 = dev.len()?;
    let mut silent: Silent = Silent::new();
    let positions: [HeaderPosition; 4] = [
        HeaderPosition::Primary,
        HeaderPosition::Hidden,
        HeaderPosition::BackupPrimary,
        HeaderPosition::BackupHidden,
    ];
    assert(positions@ =~= all_positions());
    let mut found: FoundHeader = find_header_at(dev, current, positions.as_slice(), &mut silent)?;
    let ghost model = found@;
    let position: HeaderPosition = found.header.position;
    found.header.wipe();
    proof {
        found_header_is_in_its_slot(bytes, current@, all_positions());
        let f = choose|f: int|
            0 <= f < prf_table().len() && model.prf == #[trigger] prf_table()[f];
        registered_prfs_are_known(f);
        let i = choose|i: int|
            0 <= i < scheme_table().len() && model.scheme == #[trigger] scheme_table()[i];
        schemes_fit_the_key_area(i);
    }
    // The exact header plaintext, so that the master keys and every reserved
    // field carry over byte for byte.
    let offset: u64 = match position_offset(position, len) {
        Some(o) => o,
        None => {
            return Err(VcError::Internal("matched header offset missing".to_string()));
        },
    };
    let mut salt: [u8; 64] = [0u8; 64];
    dev.read_at(offset, &mut salt)?;
    let mut plaintext: [u8; 448] = [0u8; 448];
    dev.read_at(offset + SALT_LEN as u64, &mut plaintext)?;
    let mut xts: SchemeXts = header_engine(&found.prf, &found.scheme, current, &salt)?;
    xts.decrypt_header(&mut plaintext);
    xts.wipe();
    let ghost plain = plaintext@;
    assert(plain == opened_plaintext(bytes, current@, model));
    let mut confirmed: VolumeHeader = match parse_decrypted_header(&plaintext, position) {
        Ok(h) => h,
        Err(e) => {
            wipe(&mut plaintext);
            return Err(e);
        },
    };
    confirmed.wipe();
    let mirror: HeaderPosition = if position.is_hidden() {
        HeaderPosition::BackupHidden
    } else {
        HeaderPosition::BackupPrimary
    };
    if position_offset(mirror, len).is_none() {
        wipe(&mut plaintext);
        return Err(VcError::Internal("container too small for a backup header".to_string()));
    }
    let mut first_salt: [u8; 64] = [0u8; 64];
    let mut second_salt: [u8; 64] = [0u8; 64];
    match fill_both(&mut first_salt, &mut second_salt) {
        Ok(_) => {},
        Err(e) => {
            wipe(&mut plaintext);
            return Err(e);
        },
    }
    let done: VcResult<()> = rekey(dev, &found, &plaintext, new, &first_salt, &second_salt);
    assert(rekeyed(old(dev).disk(), found@, new@, plain, first_salt@, second_salt@) == rekeyed(
        old(dev).disk(),
        model,
        new@,
        plain,
        first_salt@,
        second_salt@,
    ));
    wipe(&mut plaintext);
    done
}

/// The two positions of a volume's header: its own, and its backup's.
pub open spec fn position_pair(position: HeaderPosition) -> (HeaderPosition, HeaderPosition) {
    if position.hidden() {
        (HeaderPosition::Hidden, HeaderPosition::BackupHidden)
    } else {
        (HeaderPosition::Primary, HeaderPosition::BackupPrimary)
    }
}

/// A change of password rewrites the volume's two header regions and nothing
/// else: every byte outside them stays.
pub proof fn rekeying_keeps_the_data(
    disk: Disk,
    found: FoundModel,
    new: SecretModel,
    plaintext: Seq<u8>,
    a: Seq<u8>,
    b: Seq<u8>,
    i: int,
)
    requires
        a.len() == 64,
        b.len() == 64,
        opens(found.prf, found.scheme, new, a, plaintext),
        opens(found.prf, found.scheme, new, b, plaintext),
        0 <= i < disk.bytes.len(),
        ({
            let (primary, backup) = header_pair(found.header.position, disk.bytes.len() as int);
            &&& !(primary <= i < primary + 512)
            &&& !(backup <= i < backup + 512)
        }),
    ensures
        rekeyed(disk, found, new, plaintext, a, b).bytes[i] == disk.bytes[i],
{
}

/// After a change of password a full search with the new secret succeeds, and
/// the new secret opens the volume's header under the same hash and scheme, in
/// its own place and in its backup's, and finds there what the old one found:
/// the same fields and the same master keys. Where nothing that the search
/// tries before that place, hash and scheme holds a valid header by chance, it
/// is this header that it gives. (A container so small that the two places
/// overlap is left out.)
pub proof fn new_password_opens_the_same_header(
    disk: Disk,
    current: SecretModel,
    new: SecretModel,
    a: Seq<u8>,
    b: Seq<u8>,
)
    requires
        search(disk.bytes, current, all_positions()) is Ok,
        ({
            let found = search(disk.bytes, current, all_positions())->Ok_0;
            let plaintext = opened_plaintext(disk.bytes, current, found);
            let (primary, backup) = header_pair(found.header.position, disk.bytes.len() as int);
            &&& a.len() == 64
            &&& b.len() == 64
            &&& opens(found.prf, found.scheme, new, a, plaintext)
            &&& opens(found.prf, found.scheme, new, b, plaintext)
            &&& primary + 512 <= backup
        }),
    ensures
        ({
            let found = search(disk.bytes, current, all_positions())->Ok_0;
            let plaintext = opened_plaintext(disk.bytes, current, found);
            let after = rekeyed(disk, found, new, plaintext, a, b).bytes;
            let (own, mirror) = position_pair(found.header.position);
            &&& scheme_trial(found.prf, found.scheme, new, slot_at(after, own)) == Ok::<
                HeaderModel,
                VcFault,
            >(HeaderModel { position: own, ..found.header })
            &&& scheme_trial(found.prf, found.scheme, new, slot_at(after, mirror)) == Ok::<
                HeaderModel,
                VcFault,
            >(HeaderModel { position: mirror, ..found.header })
            &&& search(after, new, all_positions()) is Ok
            &&& comes_first(after, new, found.prf, found.scheme, own) ==> search(
                after,
                new,
                all_positions(),
            ) == Ok::<FoundModel, VcFault>(
                FoundModel { header: HeaderModel { position: own, ..found.header }, ..found },
            )
        }),
{
    let found = search(disk.bytes, current, all_positions())->Ok_0;
    found_header_is_in_its_slot(disk.bytes, current, all_positions());
    let plaintext = opened_plaintext(disk.bytes, current, found);
    let after = rekeyed(disk, found, new, plaintext, a, b).bytes;
    let (primary, backup) = header_pair(found.header.position, disk.bytes.len() as int);
    let (own, mirror) = position_pair(found.header.position);
    assert(after.len() == disk.bytes.len());
    let first = sealed(found.prf, found.scheme, new, a, plaintext);
    let second = sealed(found.prf, found.scheme, new, b, plaintext);
    assert(slot_at(after, own).salt =~= a) by {
        assert forall|k: int| 0 <= k < 64 implies slot_at(after, own).salt[k] == a[k] by {
            assert(after[primary + k] == first[k]);
        }
    }
    assert(slot_at(after, own).enc =~= first.skip(64)) by {
        assert forall|k: int| 0 <= k < 448 implies slot_at(after, own).enc[k] == first.skip(64)[k] by {
            assert(after[primary + 64 + k] == first[64 + k]);
        }
    }
    assert(slot_at(after, mirror).salt =~= b) by {
        assert forall|k: int| 0 <= k < 64 implies slot_at(after, mirror).salt[k] == b[k] by {
            assert(after[backup + k] == second[k]);
        }
    }
    assert(slot_at(after, mirror).enc =~= second.skip(64)) by {
        assert forall|k: int| 0 <= k < 448 implies slot_at(after, mirror).enc[k] == second.skip(
            64,
        )[k] by {
            assert(after[backup + 64 + k] == second[64 + k]);
        }
    }
    assert(first.skip(64) =~= unit_encrypted(
        header_layers(found.prf, found.scheme, new, a),
        plaintext,
        0,
    ));
    assert(second.skip(64) =~= unit_encrypted(
        header_layers(found.prf, found.scheme, new, b),
        plaintext,
        0,
    ));
    lemma_position_is_carried(plaintext, found.header.position, own);
    lemma_position_is_carried(plaintext, found.header.position, mirror);
    let at: int = if found.header.position.hidden() {
        3
    } else {
        2
    };
    assert(all_positions()[at] == mirror);
    some_match_opens(after, new, all_positions(), at, found.prf, found.scheme);
    if comes_first(after, new, found.prf, found.scheme, own) {
        what_comes_first_is_found(after, new, found.prf, found.scheme, own);
    }
}

proof fn lemma_position_is_carried(d: Seq<u8>, from: HeaderPosition, to: HeaderPosition)
    requires
        parsed(d, from) is Ok,
    ensures
        parsed(d, to) == Ok::<HeaderModel, VcFault>(
            HeaderModel { position: to, ..parsed(d, from)->Ok_0 },
        ),
{
}

/// A container's primary slot is searched by its first bytes alone.
proof fn lemma_primary_search(a: Seq<u8>, b: Seq<u8>, secret: SecretModel)
    requires
        512 <= a.len(),
        512 <= b.len(),
        forall|i: int| 0 <= i < 512 ==> a[i] == b[i],
    ensures
        search(a, secret, primary_only()) == search(b, secret, primary_only()),
{
    reveal_with_fuel(slots_of, 2);
    assert(primary_only().drop_last() =~= seq![]);
    assert(slice_of(a, 0, 64) =~= slice_of(b, 0, 64));
    assert(slice_of(a, 64, 448) =~= slice_of(b, 64, 448));
    assert(slots_of(a, primary_only()) =~= slots_of(b, primary_only()));
}

/// A header group restored from a backup opens in its place as the backup did:
/// the same fields and the same master keys.
pub proof fn a_restored_backup_opens(disk: Disk, backup: Seq<u8>, secret: SecretModel)
    requires
        backup.len() == 131_072,
    ensures
        search(disk.written(0, backup).flushed().bytes, secret, primary_only()) == search(
            backup,
            secret,
            primary_only(),
        ),
{
    lemma_primary_search(disk.written(0, backup).flushed().bytes, backup, secret);
}

/// A find, had it been made at another position.
pub open spec fn found_elsewhere(
    r: Result<FoundModel, VcFault>,
    position: HeaderPosition,
) -> Result<FoundModel, VcFault> {
    match r {
        Err(f) => Err(f),
        Ok(found) => Ok(
            FoundModel { header: HeaderModel { position, ..found.header }, ..found },
        ),
    }
}

proof fn lemma_trial_elsewhere(
    prf: PrfModel,
    secret: SecretModel,
    a: Slot,
    b: Slot,
    i: int,
    finding: Option<VcFault>,
)
    requires
        a.salt == b.salt,
        a.enc == b.enc,
        0 <= i,
    ensures
        trial_from(prf, secret, b, i, finding) == (match trial_from(prf, secret, a, i, finding) {
            Trial::Found { header, scheme } => Trial::Found {
                header: HeaderModel { position: b.position, ..header },
                scheme,
            },
            other => other,
        }),
    decreases scheme_table().len() - i,
{
    if i < scheme_table().len() {
        let scheme = scheme_table()[i];
        let plain = unit_decrypted(header_layers(prf, scheme, secret, a.salt), a.enc, 0);
        match scheme_trial(prf, scheme, secret, a) {
            Ok(_) => {
                lemma_position_is_carried(plain, a.position, b.position);
            },
            Err(VcFault::NotFoundOrWrongPassword) => {
                lemma_trial_elsewhere(prf, secret, a, b, i + 1, finding);
            },
            Err(f) => {
                lemma_trial_elsewhere(prf, secret, a, b, i + 1, Some(f));
            },
        }
    }
}

proof fn lemma_search_elsewhere(
    secret: SecretModel,
    a: Slot,
    b: Slot,
    f: int,
    j: int,
    amiss: Option<VcFault>,
)
    requires
        a.salt == b.salt,
        a.enc == b.enc,
        0 <= f,
        0 <= j <= 1,
    ensures
        search_from(seq![b], secret, f, j, amiss) == found_elsewhere(
            search_from(seq![a], secret, f, j, amiss),
            b.position,
        ),
    decreases prf_table().len() - f, 1 - j,
{
    if f < prf_table().len() {
        if j >= 1 {
            lemma_search_elsewhere(secret, a, b, f + 1, 0, amiss);
        } else {
            let prf = prf_table()[f];
            lemma_trial_elsewhere(prf, secret, a, b, 0, None);
            assert(seq![a][0] == a && seq![b][0] == b);
            match trial_from(prf, secret, a, 0, None) {
                Trial::Found { .. } => {},
                Trial::Finding(x) => {
                    lemma_search_elsewhere(secret, a, b, f, 1, Some(x));
                },
                Trial::Miss => {
                    lemma_search_elsewhere(secret, a, b, f, 1, amiss);
                },
            }
        }
    }
}

/// A primary header restored from the container's own backup opens in its
/// place as the backup did in its own.
pub proof fn a_restored_primary_opens(disk: Disk, secret: SecretModel)
    requires
        disk.bytes.len() >= 131_072,
    ensures
        ({
            let bytes = disk.bytes;
            let region = slice_of(bytes, bytes.len() - 131_072, 65_536);
            search(disk.written(0, region).flushed().bytes, secret, primary_only())
                == found_elsewhere(
                search(bytes, secret, backup_only()),
                HeaderPosition::Primary,
            )
        }),
{
    let bytes = disk.bytes;
    let at = bytes.len() - 131_072;
    let region = slice_of(bytes, at, 65_536);
    let after = disk.written(0, region).flushed().bytes;
    reveal_with_fuel(slots_of, 2);
    assert(primary_only().drop_last() =~= seq![]);
    assert(backup_only().drop_last() =~= seq![]);
    let a = slot_at(bytes, HeaderPosition::BackupPrimary);
    let b = slot_at(after, HeaderPosition::Primary);
    assert(slots_of(bytes, backup_only()) =~= seq![a]);
    assert(slots_of(after, primary_only()) =~= seq![b]);
    assert forall|i: int| 0 <= i < 512 implies after[i] == bytes[at + i] by {
        assert(after[i] == region[i]);
    }
    assert(a.salt =~= b.salt);
    assert(a.enc =~= b.enc);
    lemma_search_elsewhere(secret, a, b, 0, 0, None);
}

} // verus!
