//! A lazy filesystem search library.
//!
//! Two search families share one design: traverse directories incrementally,
//! apply match predicates, and stop as early as possible.
//!
//! * [`pathsearch`] resolves an executable by exact name or filename prefix
//!   across a prioritized directory list, one probe at a time.
//! * [`findcore`] is a bounded, glob-filtered, ignore-aware walk over a
//!   directory tree, returning up to a fixed number of classified matches.
//!
//! The library itself performs no I/O: each search is a small state machine
//! that tells its driver which path to probe or accepts directory entries one
//! at a time, so a caller that stops pulling stops all filesystem work.

pub mod findcore;
pub mod globmatch;
pub mod pathsearch;
pub mod strutil;
