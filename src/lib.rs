//! File discovery and change detection for packages that live in a directory.
//!
//! A path source holds the packages found under one directory. For each of
//! them it lists the files that belong to it, from the index of the
//! repository that holds it or from a walk of its directory, through the
//! package's includes and excludes globs, and reduces their modification
//! times to a fingerprint.

pub mod path;
pub mod error;
pub mod pattern;
pub mod package;
pub mod vcs;
pub mod walk;
pub mod source;
