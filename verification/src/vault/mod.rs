//! Vaults: unlocking a container down to its filesystem, creating one, and
//! what a shell is told about it.

pub mod container;
pub mod facade;
pub mod probe;
pub mod session;
