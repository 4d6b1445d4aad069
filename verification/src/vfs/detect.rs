//! Recognising the filesystem of a decrypted volume by its first sectors.

use vstd::prelude::*;

use crate::bytes::slice_of;
use crate::exfat::boot::exfat_name;

verus! {

/// Filesystems that can be recognised, supported or not. Unsupported ones are
/// named to the user.
#[derive(Debug, Clone, Copy, PartialEq, Eq, Structural)]
pub enum FsKind {
    Fat,
    Exfat,
    Ntfs,
    Ext4,
    Unknown,
}

pub open spec fn ntfs_name() -> Seq<u8> {
    seq![0x4Eu8, 0x54, 0x46, 0x53, 0x20, 0x20, 0x20, 0x20]
}

/// The kind of filesystem that starts with these bytes: exFAT and NTFS by
/// their names in sector 0, ext by its superblock magic, FAT by the boot
/// signature alone, in that order.
pub open spec fn kind_of(boot: Seq<u8>) -> FsKind {
    if boot.len() >= 11 && slice_of(boot, 3, 8) == exfat_name() {
        FsKind::Exfat
    } else if boot.len() >= 11 && slice_of(boot, 3, 8) == ntfs_name() {
        FsKind::Ntfs
    } else if boot.len() >= 1082 && boot[1080] == 0x53 && boot[1081] == 0xEF {
        FsKind::Ext4
    } else if boot.len() >= 512 && boot[510] == 0x55 && boot[511] == 0xAA {
        FsKind::Fat
    } else {
        FsKind::Unknown
    }
}

fn named(boot: &[u8], name: &[u8; 8]) -> (r: bool)
    requires
        boot@.len() >= 11,
    ensures
        r == (slice_of(boot@, 3, 8) == name@),
{
    let mut i: usize = 0;
    while i < 8
        invariant
            i <= 8,
            boot@.len() >= 11,
            forall|j: int| 0 <= j < i ==> boot@[3 + j] == name@[j],
        decreases 8 - i,
    {
        if boot[3 + i] != name[i] {
            assert(slice_of(boot@, 3, 8)[i as int] != name@[i as int]);
            return false;
        }
        i = i + 1;
    }
    assert(slice_of(boot@, 3, 8) =~= name@);
    true
}

/// Identify the filesystem from its first sectors. `boot` should be at least
/// 1082 bytes, so that an ext superblock can be seen.
pub fn sniff(boot: &[u8]) -> (r: FsKind)
    ensures
        r == kind_of(boot@),
{
    let n: usize = boot.len();
    let exfat: [u8; 8] = [0x45, 0x58, 0x46, 0x41, 0x54, 0x20, 0x20, 0x20];
    let ntfs: [u8; 8] = [0x4E, 0x54, 0x46, 0x53, 0x20, 0x20, 0x20, 0x20];
    assert(exfat@ =~= exfat_name());
    assert(ntfs@ =~= ntfs_name());
    if n >= 11 && named(boot, &exfat) {
        return FsKind::Exfat;
    }
    if n >= 11 && named(boot, &ntfs) {
        return FsKind::Ntfs;
    }
    if n >= 1082 && boot[1080] == 0x53 && boot[1081] == 0xEF {
        return FsKind::Ext4;
    }
    // The boot signature alone: the FAT code does the real validation.
    if n >= 512 && boot[510] == 0x55 && boot[511] == 0xAA {
        return FsKind::Fat;
    }
    FsKind::Unknown
}

/// The name of a kind of filesystem.
pub open spec fn kind_name(kind: FsKind) -> Seq<char> {
    match kind {
        FsKind::Fat => "Fat"@,
        FsKind::Exfat => "Exfat"@,
        FsKind::Ntfs => "Ntfs"@,
        FsKind::Ext4 => "Ext4"@,
        FsKind::Unknown => "Unknown"@,
    }
}

impl FsKind {
    /// The name of the kind.
    pub fn name(self) -> (r: &'static str)
        ensures
            r@ == kind_name(self),
    {
        match self {
            FsKind::Fat => "Fat",
            FsKind::Exfat => "Exfat",
            FsKind::Ntfs => "Ntfs",
            FsKind::Ext4 => "Ext4",
            FsKind::Unknown => "Unknown",
        }
    }
}

/// What tells a filesystem: `EXFAT` or `NTFS` at byte 3, filled up with blanks
/// to eight; else ext4's number at byte 1080; else a boot sector's ending.
pub proof fn what_tells_a_filesystem(boot: Seq<u8>)
    requires
        boot.len() >= 4096,
    ensures
        ({
            let exfat = boot[3] == 0x45 && boot[4] == 0x58 && boot[5] == 0x46 && boot[6] == 0x41
                && boot[7] == 0x54 && boot[8] == 0x20 && boot[9] == 0x20 && boot[10] == 0x20;
            let ntfs = boot[3] == 0x4E && boot[4] == 0x54 && boot[5] == 0x46 && boot[6] == 0x53
                && boot[7] == 0x20 && boot[8] == 0x20 && boot[9] == 0x20 && boot[10] == 0x20;
            let ext = boot[1080] == 0x53 && boot[1081] == 0xEF;
            let fat = boot[510] == 0x55 && boot[511] == 0xAA;
            &&& kind_of(boot) is Exfat <==> exfat
            &&& kind_of(boot) is Ntfs <==> ntfs
            &&& kind_of(boot) is Ext4 <==> !exfat && !ntfs && ext
            &&& kind_of(boot) is Fat <==> !exfat && !ntfs && !ext && fat
        }),
{
    let name = slice_of(boot, 3, 8);
    let (e, n) = (exfat_name(), ntfs_name());
    assert(forall|i: int| 0 <= i < 8 ==> #[trigger] name[i] == boot[3 + i]);
    assert(e[0] == 0x45 && e[1] == 0x58 && e[2] == 0x46 && e[3] == 0x41 && e[4] == 0x54 && e[5]
        == 0x20 && e[6] == 0x20 && e[7] == 0x20);
    assert(n[0] == 0x4E && n[1] == 0x54 && n[2] == 0x46 && n[3] == 0x53 && n[4] == 0x20 && n[5]
        == 0x20 && n[6] == 0x20 && n[7] == 0x20);
    assert(name[0] == boot[3] && name[1] == boot[4] && name[2] == boot[5] && name[3] == boot[6]
        && name[4] == boot[7] && name[5] == boot[8] && name[6] == boot[9] && name[7] == boot[10]);
    if name[0] == 0x45 && name[1] == 0x58 && name[2] == 0x46 && name[3] == 0x41 && name[4] == 0x54
        && name[5] == 0x20 && name[6] == 0x20 && name[7] == 0x20 {
        assert(name =~= e);
    }
    if name[0] == 0x4E && name[1] == 0x54 && name[2] == 0x46 && name[3] == 0x53 && name[4] == 0x20
        && name[5] == 0x20 && name[6] == 0x20 && name[7] == 0x20 {
        assert(name =~= n);
    }
}

/// Each filesystem has a name of its own.
pub proof fn each_filesystem_has_its_name(a: FsKind, b: FsKind)
    ensures
        kind_name(a) == kind_name(b) ==> a == b,
        kind_name(FsKind::Fat) == seq!['F', 'a', 't'],
        kind_name(FsKind::Exfat) == seq!['E', 'x', 'f', 'a', 't'],
        kind_name(FsKind::Ntfs) == seq!['N', 't', 'f', 's'],
        kind_name(FsKind::Ext4) == seq!['E', 'x', 't', '4'],
{
    reveal_strlit("Fat");
    reveal_strlit("Exfat");
    reveal_strlit("Ntfs");
    reveal_strlit("Ext4");
    reveal_strlit("Unknown");
    assert("Fat"@ =~= seq!['F', 'a', 't']);
    assert("Exfat"@ =~= seq!['E', 'x', 'f', 'a', 't']);
    assert("Ntfs"@ =~= seq!['N', 't', 'f', 's']);
    assert("Ext4"@ =~= seq!['E', 'x', 't', '4']);
    assert("Ntfs"@[0] == 'N' && "Ext4"@[0] == 'E');
    assert("Fat"@.len() == 3 && "Exfat"@.len() == 5 && "Ntfs"@.len() == 4 && "Ext4"@.len() == 4
        && "Unknown"@.len() == 7);
}

} // verus!
