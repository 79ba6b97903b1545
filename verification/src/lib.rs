//! Change tracking for a directory tree.
//!
//! A snapshot records, for each file of the tree that no ignore pattern
//! leaves out, the hash of its content. A patch holds, for each file whose
//! working copy no longer has the recorded hash, the edits that lead from
//! the stored copy to the working copy, line by line. A patch can be applied
//! to the texts it was made from, and turned round so that it leads back.
//!
//! Everything here works on values: paths, texts, listings of directories.
//! Reading and writing the tree is left to the caller.

pub mod apply;
pub mod changes;
pub mod diff;
pub mod hash;
pub mod ignore;
pub mod index;
pub mod order;
pub mod patch;
pub mod reverse;
pub mod roundtrip;
pub mod snapshot;
pub mod text;
