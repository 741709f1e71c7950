//! Properties that hold across several functions of the library.

pub mod approval;
pub mod berry;
pub mod berry_block;
pub mod berry_read;
pub mod berry_text;
pub mod classic;
pub mod classic_read;
pub mod equality;
pub mod fields;
pub mod format;
pub mod manifest;
pub mod parse_error;
pub mod pnpm;
pub mod pnpm_fields;
pub mod pnpm_order;
pub mod pnpm_read;
pub mod pnpm_written;
pub mod select;
pub mod setting;
pub mod source;
pub mod specifier;
pub mod text;
pub mod workspace;
pub mod yaml_edits;
pub mod yarn_read;
