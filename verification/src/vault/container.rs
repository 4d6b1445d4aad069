//! Container-level operations with a passphrase and a PIM, and the names a
//! shell chooses from.

use vstd::prelude::*;

use super::session::ContainerFs;
use crate::bytes::slice_of;
use crate::crypto::xts::SchemeXts;
use crate::device::BlockDevice;
use crate::error::{fails_with, outcome, VcFault, VcResult};
use crate::format::repair::{
    self, backup_only, export_headers, opened_plaintext, primary_only, rekeying_due,
    restore_from_file, restore_primary_from_embedded, wrong_backup_size,
};
use crate::format::search::{all_positions, search, SecretModel, UnlockSecret};
use crate::registry::{
    pim_ok, prf_table, prfs, prfs_of, scheme_table, schemes, schemes_of, EncryptionScheme, Prf,
};
use crate::text::{same_text, texts};

verus! {

/// Export the container's leading header group for safekeeping. It holds no
/// secret that the container does not, but keeps accepting the current
/// password, so it must be guarded like the container itself.
pub fn export_header_backup<D: BlockDevice>(dev: &mut D) -> (r: VcResult<Vec<u8>>)
    ensures
        final(dev).disk() == old(dev).disk(),
        old(dev).reliable() ==> final(dev).reliable(),
        r matches Ok(v) ==> old(dev).disk().bytes.len() >= 131_072 && v@
            == old(dev).disk().bytes.take(131_072),
        old(dev).reliable() && old(dev).disk().bytes.len() >= 131_072 ==> r is Ok,
        old(dev).reliable() && old(dev).disk().bytes.len() < 131_072 ==> fails_with(
            r,
            VcFault::NotFoundOrWrongPassword,
        ),
{
    export_headers(dev)
}

/// Restore the leading header group from an exported backup, which must unlock
/// with the passphrase and PIM before a byte is written.
pub fn restore_header_from_file<D: BlockDevice>(
    dev: &mut D,
    backup: &[u8],
    passphrase: &[u8],
    pim: u32,
) -> (r: VcResult<()>)
    requires
        pim_ok(pim),
    ensures
        old(dev).reliable() ==> final(dev).reliable(),
        backup@.len() != 131_072 ==> fails_with(r, wrong_backup_size(backup@.len()))
            && final(dev).disk() == old(dev).disk(),
        backup@.len() == 131_072 ==> match search(
            backup@,
            SecretModel { passphrase: passphrase@, pim },
            primary_only(),
        ) {
            Err(f) => fails_with(r, f) && final(dev).disk() == old(dev).disk(),
            Ok(_) => {
                &&& r is Ok ==> final(dev).disk() == old(dev).disk().written(0, backup@).flushed()
                &&& old(dev).reliable() && old(dev).disk().accepts(0, 131_072) ==> r is Ok
            },
        },
{
    let secret = UnlockSecret { passphrase, pim };
    match restore_from_file(dev, backup, &secret) {
        Ok(found) => {
            let mut header = found.header;
            header.wipe();
            Ok(())
        },
        Err(e) => Err(e),
    }
}

/// Restore the primary header from the container's own embedded backup, which
/// must unlock first.
pub fn restore_header_from_embedded<D: BlockDevice>(dev: &mut D, passphrase: &[u8], pim: u32) -> (r:
    VcResult<()>)
    requires
        pim_ok(pim),
    ensures
        old(dev).reliable() ==> final(dev).reliable(),
        match search(
            old(dev).disk().bytes,
            SecretModel { passphrase: passphrase@, pim },
            backup_only(),
        ) {
            Err(f) => {
                &&& r is Err
                &&& final(dev).disk() == old(dev).disk()
                &&& old(dev).reliable() ==> fails_with(r, f)
            },
            Ok(_) => {
                &&& r is Ok ==> final(dev).disk() == old(dev).disk().written(
                    0,
                    slice_of(
                        old(dev).disk().bytes,
                        old(dev).disk().bytes.len() - 131_072,
                        65_536,
                    ),
                ).flushed()
                &&& old(dev).reliable() ==> r is Ok
            },
        },
{
    let secret = UnlockSecret { passphrase, pim };
    match restore_primary_from_embedded(dev, &secret) {
        Ok(found) => {
            let mut header = found.header;
            header.wipe();
            Ok(())
        },
        Err(e) => Err(e),
    }
}

/// Change a volume's password or PIM in place. The data is untouched; the
/// current secret selects which volume is re-keyed.
pub fn change_password<D: BlockDevice>(
    dev: &mut D,
    old_passphrase: &[u8],
    old_pim: u32,
    new_passphrase: &[u8],
    new_pim: u32,
) -> (r: VcResult<()>)
    requires
        pim_ok(old_pim),
        pim_ok(new_pim),
    ensures
        old(dev).reliable() ==> final(dev).reliable(),
        ({
            let current = SecretModel { passphrase: old_passphrase@, pim: old_pim };
            let new = SecretModel { passphrase: new_passphrase@, pim: new_pim };
            match search(old(dev).disk().bytes, current, all_positions()) {
                Err(f) => {
                    &&& r is Err
                    &&& final(dev).disk() == old(dev).disk()
                    &&& old(dev).reliable() ==> fails_with(
                        r,
                        f,
                    )
                },
                Ok(found) => rekeying_due(
                    old(dev).reliable(),
                    old(dev).disk(),
                    found,
                    new,
                    opened_plaintext(old(dev).disk().bytes, current, found),
                    outcome(r),
                    final(dev).disk(),
                ),
            }
        }),
{
    let current = UnlockSecret { passphrase: old_passphrase, pim: old_pim };
    let new = UnlockSecret { passphrase: new_passphrase, pim: new_pim };
    repair::change_password(dev, &current, &new)
}

/// The version, for about screens.
pub fn core_version() -> (r: String)
    ensures
        r@ == "vault-core 0.1.0"@,
{
    "vault-core 0.1.0".to_string()
}

/// The names of the schemes a new container can use, in menu order: single
/// ciphers, then cascades.
pub fn encryption_schemes() -> (r: Vec<String>)
    ensures
        texts(r@) == scheme_table().map_values(|s: crate::registry::Scheme| s.name),
{
    let all: Vec<EncryptionScheme> = schemes();
    let n: usize = all.len();
    let mut out: Vec<String> = Vec::new();
    let mut i: usize = 0;
    while i < n
        invariant
            i <= n == all@.len(),
            out@.len() == i,
            forall|j: int| 0 <= j < i ==> (#[trigger] out@[j])@ == all@[j]@.name,
        decreases n - i,
    {
        let s: EncryptionScheme = all[i];
        if SchemeXts::supported(&s) {
            out.push(s.name.to_string());
        }
        i = i + 1;
    }
    assert(texts(out@) =~= scheme_table().map_values(|s: crate::registry::Scheme| s.name)) by {
        assert(schemes_of(all@).len() == all@.len());
        assert forall|j: int| 0 <= j < out@.len() implies texts(out@)[j] == scheme_table()[j].name by {
            assert(schemes_of(all@)[j] == all@[j]@);
        }
    }
    out
}

/// The names of the hashes a new container can use, in menu order.
pub fn hashes() -> (r: Vec<String>)
    ensures
        texts(r@) == prf_table().map_values(|p: crate::registry::PrfModel| p.name),
{
    let all: Vec<Prf> = prfs();
    let n: usize = all.len();
    let mut out: Vec<String> = Vec::new();
    let mut i: usize = 0;
    while i < n
        invariant
            i <= n == all@.len(),
            out@.len() == i,
            forall|j: int| 0 <= j < i ==> (#[trigger] out@[j])@ == all@[j]@.name,
        decreases n - i,
    {
        out.push(all[i].name.to_string());
        i = i + 1;
    }
    assert(texts(out@) =~= prf_table().map_values(|p: crate::registry::PrfModel| p.name)) by {
        assert(prfs_of(all@).len() == all@.len());
        assert forall|j: int| 0 <= j < out@.len() implies texts(out@)[j] == prf_table()[j].name by {
            assert(prfs_of(all@)[j] == all@[j]@);
        }
    }
    out
}

/// The filesystems a new container can be formatted with.
pub fn filesystems() -> (r: Vec<String>)
    ensures
        texts(r@) == seq!["FAT"@, "exFAT"@],
{
    let out: Vec<String> = vec!["FAT".to_string(), "exFAT".to_string()];
    assert(texts(out@) =~= seq!["FAT"@, "exFAT"@]);
    out
}

/// The filesystem of a name, if a new container can have it.
pub fn parse_fs(name: &str) -> (r: Option<ContainerFs>)
    ensures
        r == if name@ == "FAT"@ {
            Some(ContainerFs::Fat)
        } else if name@ == "exFAT"@ {
            Some(ContainerFs::Exfat)
        } else {
            None
        },
{
    if same_text(name, "FAT") {
        Some(ContainerFs::Fat)
    } else if same_text(name, "exFAT") {
        Some(ContainerFs::Exfat)
    } else {
        None
    }
}

/// The filesystem of a name in any usual spelling.
pub fn filesystem_named(name: &str) -> (r: Option<ContainerFs>)
    ensures
        r == if name@ == "FAT"@ || name@ == "fat"@ {
            Some(ContainerFs::Fat)
        } else if name@ == "exFAT"@ || name@ == "exfat"@ || name@ == "EXFAT"@ {
            Some(ContainerFs::Exfat)
        } else {
            None
        },
{
    if same_text(name, "FAT") || same_text(name, "fat") {
        Some(ContainerFs::Fat)
    } else if same_text(name, "exFAT") || same_text(name, "exfat") || same_text(name, "EXFAT") {
        Some(ContainerFs::Exfat)
    } else {
        None
    }
}

/// The scheme of a name.
pub fn find_scheme(name: &str) -> (r: Option<EncryptionScheme>)
    ensures
        match r {
            Some(s) => s@.name == name@ && crate::format::search::registered(s@),
            None => forall|i: int|
                0 <= i < scheme_table().len() ==> (#[trigger] scheme_table()[i]).name != name@,
        },
{
    let all: Vec<EncryptionScheme> = schemes();
    let n: usize = all.len();
    assert(schemes_of(all@).len() == all@.len());
    let mut i: usize = 0;
    while i < n
        invariant
            i <= n == all@.len(),
            schemes_of(all@) == scheme_table(),
            n == scheme_table().len(),
            forall|j: int| 0 <= j < i ==> (#[trigger] scheme_table()[j]).name != name@,
        decreases n - i,
    {
        let s: EncryptionScheme = all[i];
        assert(s@ == schemes_of(all@)[i as int]);
        if same_text(s.name, name) {
            return Some(s);
        }
        i = i + 1;
    }
    None
}

/// The hash of a name.
pub fn find_prf(name: &str) -> (r: Option<Prf>)
    ensures
        match r {
            Some(p) => p@.name == name@ && crate::format::search::prf_registered(p@),
            None => forall|i: int|
                0 <= i < prf_table().len() ==> (#[trigger] prf_table()[i]).name != name@,
        },
{
    let all: Vec<Prf> = prfs();
    let n: usize = all.len();
    assert(prfs_of(all@).len() == all@.len());
    let mut i: usize = 0;
    while i < n
        invariant
            i <= n == all@.len(),
            prfs_of(all@) == prf_table(),
            n == prf_table().len(),
            forall|j: int| 0 <= j < i ==> (#[trigger] prf_table()[j]).name != name@,
        decreases n - i,
    {
        let p: Prf = all[i];
        assert(p@ == prfs_of(all@)[i as int]);
        if same_text(p.name, name) {
            return Some(p);
        }
        i = i + 1;
    }
    None
}

/// Whether two passwords may open the two volumes of one container: they must
/// differ, as the password alone says which volume is meant.
pub fn may_share_a_container(outer: &[u8], hidden: &[u8]) -> (r: bool)
    ensures
        r == (outer@ != hidden@),
{
    if outer.len() != hidden.len() {
        return true;
    }
    let n: usize = outer.len();
    let mut i: usize = 0;
    while i < n
        invariant
            i <= n,
            n == outer@.len(),
            n == hidden@.len(),
            forall|j: int| 0 <= j < i ==> outer@[j] == hidden@[j],
        decreases n - i,
    {
        if outer[i] != hidden[i] {
            return true;
        }
        i = i + 1;
    }
    assert(outer@ =~= hidden@);
    false
}

} // verus!
