//! An exFAT implementation: reading, writing and formatting a volume over any
//! device with positioned reads and writes.

pub mod areas;
pub mod barriers;
pub mod boot;
pub mod bystanders;
pub mod chains;
pub mod clusters;
pub mod contents;
pub mod creating;
pub mod cut_short;
pub mod cuts;
pub mod dir;
pub mod entries;
pub mod fat;
pub mod folding;
pub mod format;
pub mod fresh;
pub mod fs;
pub mod growing;
pub mod grown_cuts;
pub mod interrupted;
pub mod io;
pub mod listing;
pub mod neighbours;
pub mod new_bytes;
pub mod on_disk;
pub mod readback;
pub mod refusals;
pub mod removing;
pub mod renaming;
pub mod resizing;
pub mod space;
pub mod tree_laws;
pub mod upcase;
pub mod ways;
pub mod whole;
pub mod write;
