//! An in-memory version-control core: a content-addressable object store,
//! a staging index, a three-way status classifier, a commit-graph walk and
//! a ref store. The surrounding command-line layer owns all file and
//! terminal I/O and consumes this crate through plain values.

pub mod errors;
pub mod index;
pub mod lex;
pub mod log;
pub mod objects;
pub mod refs;
pub mod repo;
pub mod status;
pub mod store;
