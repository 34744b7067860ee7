//! Collecting photo files out of a dropped directory tree, and keeping the
//! log of the files that were copied to the output directory.

pub mod collect;
pub mod extension;
pub mod transfer;
