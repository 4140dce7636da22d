//! Feature-matrix generation for multi-package workspaces.
//!
//! For each package of a workspace the library computes the feature sets that
//! are to be built one by one, from the package's declared features and a
//! layered, per-channel configuration; it splits the packages into chunks for
//! parallel runs, and it decides, step by step, which invocations of the build
//! tool a task consists of.

pub mod config;
pub mod error;
pub mod feature;
pub mod order;
pub mod package;
pub mod runtime;
pub mod text;

pub use error::{clap_or_error, success};
