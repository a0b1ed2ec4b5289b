use rustgit::objects::ObjectId;
use rustgit::repo::Repository;
use rustgit::status::{classify, Classification, StatusEntry, WorkFile};

fn work(files: &[(&[u8], &[u8])]) -> Vec<WorkFile> {
    files
        .iter()
        .map(|(p, c)| WorkFile { path: p.to_vec(), content: c.to_vec() })
        .collect()
}

fn lines(report: &[StatusEntry]) -> Vec<(Vec<u8>, Classification)> {
    report.iter().map(|e| (e.path.clone(), e.class)).collect()
}

#[test]
fn test_fresh_init_empty_status() {
    let repo = Repository::init();
    let report = repo.status(&work(&[]));
    assert!(report.is_empty());
}

#[test]
fn test_untracked_file() {
    let repo = Repository::init();
    let report = repo.status(&work(&[(b"a.txt", b"hello")]));
    assert_eq!(lines(&report), vec![(b"a.txt".to_vec(), Classification::Untracked)]);
}

#[test]
fn test_staged_then_committed() {
    let mut repo = Repository::init();
    repo.stage(b"a.txt".to_vec(), b"hello".to_vec(), 5, 1);
    let on_disk = work(&[(b"a.txt", b"hello")]);
    let report = repo.status(&on_disk);
    assert_eq!(lines(&report), vec![(b"a.txt".to_vec(), Classification::StagedNew)]);
    repo.commit(b"ada".to_vec(), b"first".to_vec(), 1).unwrap();
    let report = repo.status(&on_disk);
    assert!(report.is_empty());
}

#[test]
fn test_modified_after_commit() {
    let mut repo = Repository::init();
    repo.stage(b"a.txt".to_vec(), b"hello".to_vec(), 5, 1);
    repo.commit(b"ada".to_vec(), b"first".to_vec(), 1).unwrap();
    let report = repo.status(&work(&[(b"a.txt", b"world")]));
    assert_eq!(lines(&report), vec![(b"a.txt".to_vec(), Classification::Modified)]);
}

#[test]
fn test_deleted_after_commit() {
    let mut repo = Repository::init();
    repo.stage(b"a.txt".to_vec(), b"hello".to_vec(), 5, 1);
    repo.commit(b"ada".to_vec(), b"first".to_vec(), 1).unwrap();
    // The file is gone from disk and nothing newer is staged.
    let report = repo.status(&work(&[]));
    assert_eq!(lines(&report), vec![(b"a.txt".to_vec(), Classification::Deleted)]);
}

#[test]
fn test_unstage_returns_to_untracked() {
    let mut repo = Repository::init();
    repo.stage(b"a.txt".to_vec(), b"hello".to_vec(), 5, 1);
    repo.unstage(&b"a.txt".to_vec());
    let report = repo.status(&work(&[(b"a.txt", b"hello")]));
    assert_eq!(lines(&report), vec![(b"a.txt".to_vec(), Classification::Untracked)]);
}

#[test]
fn test_status_idempotent() {
    let mut repo = Repository::init();
    repo.stage(b"b.txt".to_vec(), b"beta".to_vec(), 4, 2);
    repo.stage(b"a.txt".to_vec(), b"alpha".to_vec(), 5, 1);
    repo.commit(b"ada".to_vec(), b"first".to_vec(), 1).unwrap();
    let on_disk = work(&[(b"c.txt", b"new"), (b"a.txt", b"changed")]);
    let first = repo.status(&on_disk);
    let second = repo.status(&on_disk);
    assert_eq!(lines(&first), lines(&second));
}

#[test]
fn test_status_sorted_and_unique() {
    let mut repo = Repository::init();
    repo.stage(b"b.txt".to_vec(), b"beta".to_vec(), 4, 2);
    let on_disk = work(&[(b"c.txt", b"x"), (b"a.txt", b"y"), (b"b.txt", b"beta")]);
    let report = repo.status(&on_disk);
    let ls = lines(&report);
    assert_eq!(
        ls,
        vec![
            (b"a.txt".to_vec(), Classification::Untracked),
            (b"b.txt".to_vec(), Classification::StagedNew),
            (b"c.txt".to_vec(), Classification::Untracked),
        ]
    );
    for w in ls.windows(2) {
        assert!(w[0].0 < w[1].0);
    }
}

#[test]
fn test_classify_table() {
    let a = Some(ObjectId { raw: 1 });
    let b = Some(ObjectId { raw: 2 });
    let c = Some(ObjectId { raw: 3 });
    // No source at all, and fully clean, are omitted.
    assert_eq!(classify(None, None, None), None);
    assert_eq!(classify(a, a, a), None);
    // The table rows, top down.
    assert_eq!(classify(None, None, a), Some(Classification::Untracked));
    assert_eq!(classify(None, a, a), Some(Classification::StagedNew));
    assert_eq!(classify(None, a, None), Some(Classification::StagedNew));
    assert_eq!(classify(a, None, None), Some(Classification::Deleted));
    assert_eq!(classify(a, a, None), Some(Classification::Deleted));
    assert_eq!(classify(a, None, b), Some(Classification::Modified));
    assert_eq!(classify(a, a, b), Some(Classification::Modified));
    assert_eq!(classify(a, b, b), Some(Classification::StagedModified));
    assert_eq!(classify(a, b, None), Some(Classification::StagedModified));
    // No row covers three distinct identifiers: the defensive fallback.
    assert_eq!(classify(a, b, c), Some(Classification::Unknown));
}

#[test]
fn test_classification_labels() {
    assert_eq!(Classification::Untracked.label(), "Untracked");
    assert_eq!(Classification::Modified.label(), "Modified");
    assert_eq!(Classification::Deleted.label(), "Deleted");
    assert_eq!(Classification::StagedNew.label(), "Staged (New)");
    assert_eq!(Classification::StagedModified.label(), "Staged (Modified)");
    assert_eq!(Classification::StagedDeleted.label(), "Staged (Deleted)");
    assert_eq!(Classification::Ignored.label(), "Ignored");
    assert_eq!(Classification::Unknown.label(), "Unknown");
}

#[test]
fn test_git_status_untracked_files() {
    // A file written into the working tree of a fresh repository shows
    // up as untracked.
    let repo = Repository::init();
    let report = repo.status(&work(&[(b"untracked_file.txt", b"Test content")]));
    let found = report
        .iter()
        .any(|e| e.path == b"untracked_file.txt".to_vec() && e.class == Classification::Untracked);
    assert!(found, "Untracked file was not detected in git status");
}

#[test]
fn test_git_status_modified_files() {
    // A committed file whose disk content changed shows up as modified.
    let mut repo = Repository::init();
    repo.stage(b"tracked_file.txt".to_vec(), b"Initial content".to_vec(), 15, 1);
    repo.commit(b"ada".to_vec(), b"Initial commit".to_vec(), 1).unwrap();
    let report = repo.status(&work(&[(b"tracked_file.txt", b"Modified content")]));
    let found = report
        .iter()
        .any(|e| e.path == b"tracked_file.txt".to_vec() && e.class == Classification::Modified);
    assert!(found, "Modified file was not detected in git status");
}

#[test]
fn test_stage_last_write_wins() {
    let mut repo = Repository::init();
    let first = repo.stage(b"a.txt".to_vec(), b"one".to_vec(), 3, 1);
    let second = repo.stage(b"a.txt".to_vec(), b"two".to_vec(), 3, 2);
    assert_ne!(first, second);
    assert_eq!(repo.index.find(&b"a.txt".to_vec()), Some(second));
    // Disk holds the newer content: the path is cleanly staged as new.
    let report = repo.status(&work(&[(b"a.txt", b"two")]));
    assert_eq!(lines(&report), vec![(b"a.txt".to_vec(), Classification::StagedNew)]);
}

#[test]
fn test_unstage_absent_path_is_noop() {
    let mut repo = Repository::init();
    repo.stage(b"a.txt".to_vec(), b"hello".to_vec(), 5, 1);
    repo.unstage(&b"missing.txt".to_vec());
    assert_eq!(repo.index.count(), 1);
}
