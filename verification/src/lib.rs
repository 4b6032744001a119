//! A local change-tracking engine for a directory tree.
//!
//! The crate keeps a content-addressed index of tracked files, persists it in
//! a fixed binary format, and turns normalized filesystem events into an
//! ordered log of semantic changes.  All file and watch I/O lives outside the
//! crate; the functions here work on plain values (path components, content
//! bytes, timestamps) and carry contracts for what they compute.

pub mod bytes;
pub mod codec;
pub mod control;
pub mod data;
pub mod error;
pub mod hash;
pub mod message;
pub mod scan;
