//! Conversion between git repositories and Historica stores.
//!
//! Two one-way conversions, each producing a whole result: a git repository
//! read into a store, and a store written out as a git repository. What is here
//! is the part of each that decides and computes — the fast-import stream read
//! and written, the tree each commit leaves, the identifiers a commit converts
//! to, the headers that carry what historica has no word for, the record a
//! repository keeps, and the rules for moving a ref or a bookmark — each with a
//! contract Verus checks.

pub mod bytes;
pub mod carried;
pub mod export;
pub mod flags;
pub mod identity;
pub mod import;
pub mod plumbing;
pub mod remembered;
pub mod stream;
pub mod table;
pub mod tree;
