//! Extraction engine for two-file game archives.
//!
//! An archive is a tree of folders and files. Extracting it means creating a
//! directory for every folder and writing every file's bytes into the
//! directory of its folder. This crate decides *what* has to be done and in
//! which order; the caller performs each action on the real archive and the
//! real filesystem and reports how it went.
//!
//! * [`tree`] and [`path`] hold the data: the archive's tree and the paths
//!   that entries are written to.
//! * [`plan`] lists the steps of an extraction, and [`engine`] hands them
//!   out one action at a time and stops at the first failure.
//! * [`world`] models a disk and an archive, and [`effects`] says what the
//!   steps do to them.
//! * [`mirror`], [`idempotence`], [`nesting`] and [`failure`] prove what an
//!   extraction amounts to: the disk mirrors the archive, a second
//!   extraction changes nothing, everything stays under the root folder's
//!   directory with directories made before their contents, and a failure
//!   leaves what was done before it.

pub mod effects;
pub mod engine;
pub mod failure;
pub mod idempotence;
pub mod mirror;
pub mod nesting;
pub mod path;
pub mod plan;
pub mod tree;
pub mod world;
