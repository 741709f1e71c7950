//! The `pnpm-lock.yaml` format.

pub mod dep_path;
pub mod document;
pub mod format;
pub mod read;
pub mod select;
pub mod write;

pub use crate::pnpm::read::parse;
