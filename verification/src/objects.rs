//! The three immutable object kinds of the model — blobs, trees and
//! commits — together with the identifier type the store keys them by.

use vstd::prelude::*;
use crate::lex::bytes_eq;

verus! {

/// The identifier of one stored object: a fixed-width digest value.
/// The store guarantees that two identifiers are equal exactly when the
/// objects they name have equal content.
#[derive(Clone, Copy, PartialEq, Eq, Structural, Debug, Hash)]
pub struct ObjectId {
    pub raw: u64,
}

/// One entry of a directory snapshot: a file name bound to the object
/// holding that file's content, with its file mode.
pub struct TreeEntry {
    pub name: Vec<u8>,
    pub mode: u32,
    pub child: ObjectId,
}

/// Mathematical model of a `TreeEntry`.
#[verifier::ext_equal]
pub ghost struct TreeEntryV {
    pub name: Seq<u8>,
    pub mode: u32,
    pub child: ObjectId,
}

impl View for TreeEntry {
    type V = TreeEntryV;

    open spec fn view(&self) -> TreeEntryV {
        TreeEntryV { name: self.name@, mode: self.mode, child: self.child }
    }
}

/// A history point: a tree snapshot, the parent commits, and authorship.
/// A root commit has no parents; a merge commit has two or more.
pub struct Commit {
    pub tree: ObjectId,
    pub parents: Vec<ObjectId>,
    pub author: Vec<u8>,
    pub message: Vec<u8>,
    pub time: u64,
}

/// Mathematical model of a `Commit`.
#[verifier::ext_equal]
pub ghost struct CommitV {
    pub tree: ObjectId,
    pub parents: Seq<ObjectId>,
    pub author: Seq<u8>,
    pub message: Seq<u8>,
    pub time: u64,
}

impl View for Commit {
    type V = CommitV;

    open spec fn view(&self) -> CommitV {
        CommitV {
            tree: self.tree,
            parents: self.parents@,
            author: self.author@,
            message: self.message@,
            time: self.time,
        }
    }
}

/// One object of the store.
pub enum Object {
    Blob(Vec<u8>),
    Tree(Vec<TreeEntry>),
    Commit(Commit),
}

/// Mathematical model of an `Object`.
#[verifier::ext_equal]
pub ghost enum ObjectV {
    Blob(Seq<u8>),
    Tree(Seq<TreeEntryV>),
    Commit(CommitV),
}

impl View for Object {
    type V = ObjectV;

    open spec fn view(&self) -> ObjectV {
        match self {
            Object::Blob(content) => ObjectV::Blob(content@),
            Object::Tree(entries) => ObjectV::Tree(
                entries@.map_values(|e: TreeEntry| e@),
            ),
            Object::Commit(c) => ObjectV::Commit(c@),
        }
    }
}

/// Decides equality of two identifier vectors.
fn ids_eq(a: &Vec<ObjectId>, b: &Vec<ObjectId>) -> (r: bool)
    ensures
        r == (a@ == b@),
{
    if a.len() != b.len() {
        assert(a@ != b@);
        return false;
    }
    let n = a.len();
    let mut i: usize = 0;
    while i < n
        invariant
            n == a.len() == b.len(),
            i <= n,
            forall|k: int| 0 <= k < i ==> a@[k] == b@[k],
        decreases n - i,
    {
        if a[i] != b[i] {
            assert(a@ != b@);
            return false;
        }
        i += 1;
    }
    proof {
        assert(a@ =~= b@);
    }
    true
}

/// Decides equality of two tree-entry lists, by model.
fn entries_eq(a: &Vec<TreeEntry>, b: &Vec<TreeEntry>) -> (r: bool)
    ensures
        r == (a@.map_values(|e: TreeEntry| e@) == b@.map_values(|e: TreeEntry| e@)),
{
    let ghost av = a@.map_values(|e: TreeEntry| e@);
    let ghost bv = b@.map_values(|e: TreeEntry| e@);
    assert(av.len() == a@.len());
    assert(bv.len() == b@.len());
    if a.len() != b.len() {
        assert(av != bv);
        return false;
    }
    let n = a.len();
    let mut i: usize = 0;
    while i < n
        invariant
            n == a.len() == b.len(),
            i <= n,
            av == a@.map_values(|e: TreeEntry| e@),
            bv == b@.map_values(|e: TreeEntry| e@),
            forall|k: int| 0 <= k < i ==> av[k] == bv[k],
        decreases n - i,
    {
        let same = bytes_eq(&a[i].name, &b[i].name) && a[i].mode == b[i].mode
            && a[i].child == b[i].child;
        if !same {
            assert(av[i as int] != bv[i as int]);
            assert(av != bv);
            return false;
        }
        assert(av[i as int] =~= bv[i as int]);
        i += 1;
    }
    proof {
        assert(av =~= bv);
    }
    true
}

/// Decides equality of two commits, by model.
fn commit_eq(a: &Commit, b: &Commit) -> (r: bool)
    ensures
        r == (a@ == b@),
{
    let r = a.tree == b.tree && ids_eq(&a.parents, &b.parents)
        && bytes_eq(&a.author, &b.author) && bytes_eq(&a.message, &b.message)
        && a.time == b.time;
    proof {
        if r {
            assert(a@ =~= b@);
        }
    }
    r
}

/// Decides equality of two objects, by model: same kind, same content.
pub fn object_eq(a: &Object, b: &Object) -> (r: bool)
    ensures
        r == (a@ == b@),
{
    match (a, b) {
        (Object::Blob(x), Object::Blob(y)) => bytes_eq(x, y),
        (Object::Tree(x), Object::Tree(y)) => entries_eq(x, y),
        (Object::Commit(x), Object::Commit(y)) => commit_eq(x, y),
        _ => {
            assert(a@ != b@);
            false
        },
    }
}

} // verus!
