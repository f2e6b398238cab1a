//! The publication engine for a multi-package workspace: the dependency
//! solver that orders crates from least to most dependents, the change
//! detector that compares packaged artifacts against the registry, the
//! version-bump policy, the format-preserving manifest editor, and the
//! publishing state machine with its retry and visibility rules. The
//! engine decides; the surrounding process performs the filesystem,
//! process and network work.

pub mod cargo;
pub mod checkpoint;
pub mod crate_details;
pub mod crates;
pub mod crates_io;
pub mod dependencies;
pub mod order;
pub mod publish;
pub mod publisher;
pub mod text;
pub mod version;
