//! Lockfile and manifest logic of a Node package manager.

pub mod graph;
pub mod json;
pub mod laws;
pub mod manifest;
pub mod pnpm;
pub mod source;
pub mod strmap;
pub mod text;
pub mod yarn;
pub mod yaml;
