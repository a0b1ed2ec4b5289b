//! The failure conditions the core can report. I/O failures, lock
//! contention and "not a repository" belong to the surrounding layer
//! that owns the disk; they never arise inside the in-memory core.

use vstd::prelude::*;

verus! {

/// A typed failure of a core operation.
#[derive(Clone, Copy, PartialEq, Eq, Structural, Debug)]
pub enum GitError {
    /// A digest was referenced but no object of that digest is stored.
    ObjectNotFound,
    /// A commit digest was referenced but names no stored commit.
    CommitNotFound,
    /// A chain of symbolic refs revisits a name.
    RefCycle,
    /// HEAD names a branch that has no commit yet: the normal state of a
    /// freshly initialized repository, distinguished from corruption.
    UnbornHead,
}

impl GitError {
    /// A human-readable label, for the presentation layer.
    pub fn label(&self) -> (r: &'static str)
        ensures
            r@ == self.label_spec(),
    {
        match self {
            GitError::ObjectNotFound => "object not found",
            GitError::CommitNotFound => "commit not found",
            GitError::RefCycle => "symbolic ref cycle",
            GitError::UnbornHead => "HEAD is unborn",
        }
    }

    pub open spec fn label_spec(self) -> Seq<char> {
        match self {
            GitError::ObjectNotFound => "object not found"@,
            GitError::CommitNotFound => "commit not found"@,
            GitError::RefCycle => "symbolic ref cycle"@,
            GitError::UnbornHead => "HEAD is unborn"@,
        }
    }
}

} // verus!
