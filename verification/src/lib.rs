//! Planning logic for importing files from a home directory into a dotfiles
//! repository: path modelling, per-file classification, batch planning,
//! collision and filesystem checks, and intermediate-directory discovery.

pub mod dirs;
pub mod order;
pub mod plan;
pub mod path;
