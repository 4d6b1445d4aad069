# vaultpony

A verified library for VeraCrypt-compatible containers: finding and decrypting
volume headers, creating containers (with or without a hidden volume), repairing
headers, and reading, writing and formatting exFAT volumes inside them. Every
function of the library states what it does in `requires` and `ensures`, and
Verus proves it.

VeraCrypt is a registered trademark of IDRIX. This project is not affiliated
with or endorsed by IDRIX.

## Layout

| Path | What |
|---|---|
| `src/bytes.rs`, `text.rs`, `time.rs` | Byte codecs, text and paths, calendar dates |
| `src/device.rs` | The model of a disk, with its log of writes, and the device trait |
| `src/registry.rs`, `header.rs`, `consts.rs`, `offsets.rs` | Schemes, hashes and the header layout |
| `src/crypto/` | Key derivation, keyfiles, XTS over cascades, secrets |
| `src/format/` | Header search and parsing, decrypted and protected devices, creation, repair |
| `src/exfat/` | exFAT: boot region, table, up-case table, directories, allocation, writing, formatting |
| `src/vfs/` | The filesystem interface, its exFAT adapter, and the rules of the FAT and NTFS adapters |
| `src/vault/` | Sessions, probing, container maintenance, the facade for platform shells |
| `tests/` | Tests that run the library |
| `app/` | The command-line tool, files and descriptors, the FAT and NTFS adapters |

## What is proved beyond each function

- `format::create`, `format::search`, `format::repair`, `vault::session`: a
  created volume opens with its secret, and its filesystem opens empty; two
  secrets select two volumes; a new password opens the same keys; writes to the
  data leave the headers alone.
- `format::protect`, `vfs::exfat`: no sequence of writes changes a byte of a
  protected region, whether the writes go to the device or to the filesystem in
  it; once one is refused all are, and reads still work.
- `exfat::folding`, `exfat::fresh`, `exfat::tree_laws`: a formatted volume
  opens, is empty, folds names by the published up-case table, and takes files;
  what is created is found, and what is removed is gone.
- `exfat::growing`: a new file or directory takes any free slots, also behind
  its directory's end, and a directory without any grows while a cluster is
  free.
- `exfat::space`: writing, growing and creating succeed while the bitmap has
  free clusters enough.
- `exfat::readback`, `exfat::resizing`: a read gives back what a write wrote,
  with zeros in a gap and everything else as it was; growing adds zeros,
  shrinking keeps the start.
- `exfat::renaming`: a moved entry is found at its new path and not at its old
  one, reads as before, and nothing is moved onto a path that is taken.
- `exfat::neighbours`, `exfat::renaming`: a write, a truncation, a creation, a
  new directory, a removal and a move leave a file at another path found and
  reading as it did, where that file shares no cluster with what changes.
- `exfat::whole`: the same of writing, truncating and moving, each in one
  statement with its result.
- `exfat::cuts`, `exfat::cut_short`, `exfat::interrupted`: a power cut during a
  write, a truncation, a creation, a new directory or a removal leaves the old
  state or the new one, and at worst clusters that nothing leads to; a cut of a
  move may also leave the entry under both names.
- `exfat::bystanders`, `exfat::grown_cuts`: no such cut harms another file,
  also while a directory grows for a new file.

A device tells how far it can be relied on: `reliable` (every operation inside
it succeeds), `steady` (reads do, and a refused write changes nothing), `stuck`
(every write is refused from here on). What is proved of a result is proved as
far as these hold.

## What is trusted

The calls into the cipher, hash, checksum and random-number crates stand behind
small functions in `src/crypto/`, and three of the standard library's text
functions behind ones in `src/text.rs` and `src/vfs/order.rs`. Their contracts
are believed; what each one claims is said above it.
