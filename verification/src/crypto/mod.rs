//! The cryptography of a container: keyfiles, header-key derivation, and XTS
//! over single ciphers and cascades.

pub mod crc;
pub mod kdf;
pub mod keyfile;
pub mod secret;
pub mod xts;
