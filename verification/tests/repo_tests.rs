use rustgit::errors::GitError;
use rustgit::log::log_walk;
use rustgit::objects::ObjectId;
use rustgit::refs::{RefEntry, RefStore, RefTarget, Resolution};
use rustgit::repo::{summary_bytes, Repository};
use rustgit::store::Store;

#[test]
fn test_git_init() {
    // A fresh repository: HEAD attached to the default branch, unborn,
    // nothing stored and nothing staged.
    let repo = Repository::init();
    assert_eq!(repo.head_name(), &b"main".to_vec());
    assert!(matches!(repo.head_commit(), Err(GitError::UnbornHead)));
    assert!(repo.log(10).unwrap().is_empty());
    assert!(repo.branches().is_empty());
}

fn two_commit_repo() -> (Repository, ObjectId, ObjectId) {
    let mut repo = Repository::init();
    repo.stage(b"a.txt".to_vec(), b"hello".to_vec(), 5, 1);
    let root = repo.commit(b"ada".to_vec(), b"first commit".to_vec(), 1).unwrap();
    repo.stage(b"a.txt".to_vec(), b"world".to_vec(), 5, 2);
    let child = repo.commit(b"ada".to_vec(), b"second commit".to_vec(), 2).unwrap();
    (repo, root, child)
}

#[test]
fn test_log_two_commits_in_order() {
    let (repo, root, child) = two_commit_repo();
    let log = repo.log(10).unwrap();
    assert_eq!(log.len(), 2);
    assert_eq!(log[0].id, child);
    assert_eq!(log[0].summary, b"second commit".to_vec());
    assert_eq!(log[1].id, root);
    assert_eq!(log[1].summary, b"first commit".to_vec());
}

#[test]
fn test_log_respects_limit() {
    let (repo, _root, child) = two_commit_repo();
    let log = repo.log(1).unwrap();
    assert_eq!(log.len(), 1);
    assert_eq!(log[0].id, child);
    assert!(repo.log(0).unwrap().is_empty());
}

#[test]
fn test_branches_listing_sorted() {
    let (mut repo, root, child) = two_commit_repo();
    repo.create_branch(b"feature".to_vec(), root).unwrap();
    let branches = repo.branches();
    let listed: Vec<(Vec<u8>, ObjectId)> =
        branches.iter().map(|b| (b.name.clone(), b.id)).collect();
    assert_eq!(
        listed,
        vec![(b"feature".to_vec(), root), (b"main".to_vec(), child)]
    );
}

#[test]
fn test_create_branch_missing_commit() {
    let mut repo = Repository::init();
    let r = repo.create_branch(b"feature".to_vec(), ObjectId { raw: 42 });
    assert!(matches!(r, Err(GitError::CommitNotFound)));
}

#[test]
fn test_head_advances_on_commit() {
    let (repo, _root, child) = two_commit_repo();
    assert_eq!(repo.head_commit().unwrap(), child);
}

#[test]
fn test_log_walk_missing_start() {
    let store = Store::new();
    let r = log_walk(&store, ObjectId { raw: 0 }, 10);
    assert!(matches!(r, Err(GitError::CommitNotFound)));
}

#[test]
fn test_symbolic_ref_cycle() {
    let refs = RefStore {
        refs: vec![
            RefEntry { name: b"one".to_vec(), target: RefTarget::Symbolic(b"two".to_vec()) },
            RefEntry { name: b"two".to_vec(), target: RefTarget::Symbolic(b"one".to_vec()) },
        ],
        head: b"one".to_vec(),
    };
    assert_eq!(refs.resolve(&b"one".to_vec()), Resolution::Cycle);
    let repo = Repository { store: Store::new(), index: rustgit::index::Index::new(), refs };
    assert!(matches!(repo.log(10), Err(GitError::RefCycle)));
    assert!(matches!(repo.head_commit(), Err(GitError::RefCycle)));
}

#[test]
fn test_symbolic_ref_resolves_through() {
    let (repo, _root, child) = two_commit_repo();
    let mut refs = repo.refs;
    refs.set_head(b"alias".to_vec());
    // No ref named "alias" exists yet: HEAD is unborn.
    assert_eq!(refs.head_resolution(), Resolution::Missing);
    refs.refs.insert(
        0,
        RefEntry { name: b"alias".to_vec(), target: RefTarget::Symbolic(b"main".to_vec()) },
    );
    assert_eq!(refs.head_resolution(), Resolution::Commit(child));
}

#[test]
fn test_summary_first_line() {
    assert_eq!(
        summary_bytes(&b"subject line\nbody one\nbody two".to_vec()),
        b"subject line".to_vec()
    );
    assert_eq!(summary_bytes(&b"only line".to_vec()), b"only line".to_vec());
    assert_eq!(summary_bytes(&b"".to_vec()), b"<No message>".to_vec());
}

#[test]
fn test_commit_deduplicates_content() {
    let mut repo = Repository::init();
    repo.stage(b"a.txt".to_vec(), b"same".to_vec(), 4, 1);
    repo.stage(b"b.txt".to_vec(), b"same".to_vec(), 4, 1);
    // Both paths staged with identical content share one blob.
    let ia = repo.index.find(&b"a.txt".to_vec()).unwrap();
    let ib = repo.index.find(&b"b.txt".to_vec()).unwrap();
    assert_eq!(ia, ib);
}
