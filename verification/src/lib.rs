//! Keeps the project references in the configuration files of a monorepo in
//! line with its packages.
//!
//! Every directory above a package has a configuration that refers to the
//! directory's children, and every package has one that refers to the
//! packages it depends on. The library computes what each file should refer
//! to, compares that with what the file refers to, and decides what a run
//! does about a difference: a write run overwrites the references, a lint
//! run reports the file. It reads and writes no file itself.

pub mod dependencies;
pub mod errors;
pub mod hierarchy;
pub mod link;
pub mod names;
pub mod opts;
pub mod package_manifest;
pub mod path_order;
pub mod paths;
pub mod sorting;
pub mod typescript_config;
