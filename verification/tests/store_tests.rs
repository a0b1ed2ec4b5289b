use rustgit::errors::GitError;
use rustgit::objects::{Object, ObjectId};
use rustgit::store::Store;

fn blob(bytes: &[u8]) -> Object {
    Object::Blob(bytes.to_vec())
}

#[test]
fn test_put_get_round_trip() {
    let mut store = Store::new();
    let id = store.put(blob(b"hello"));
    match store.get(id) {
        Ok(Object::Blob(content)) => assert_eq!(content, &b"hello".to_vec()),
        _ => panic!("stored blob did not come back"),
    }
}

#[test]
fn test_put_is_deterministic() {
    let mut store = Store::new();
    let a = store.put(blob(b"same content"));
    let b = store.put(blob(b"same content"));
    assert_eq!(a, b);
    // A repeated put is a no-op beyond returning the identifier.
    assert_eq!(store.count(), 1);
}

#[test]
fn test_put_distinct_content_distinct_ids() {
    let mut store = Store::new();
    let a = store.put(blob(b"one"));
    let b = store.put(blob(b"two"));
    assert_ne!(a, b);
    assert_eq!(store.count(), 2);
}

#[test]
fn test_get_missing_is_object_not_found() {
    let store = Store::new();
    let r = store.get(ObjectId { raw: 5 });
    assert!(matches!(r, Err(GitError::ObjectNotFound)));
}

#[test]
fn test_contains_tracks_membership() {
    let mut store = Store::new();
    assert!(!store.contains(ObjectId { raw: 0 }));
    let id = store.put(blob(b"x"));
    assert!(store.contains(id));
}

#[test]
fn test_find_blob() {
    let mut store = Store::new();
    let id = store.put(blob(b"needle"));
    assert_eq!(store.find_blob(&b"needle".to_vec()), Some(id));
    assert_eq!(store.find_blob(&b"absent".to_vec()), None);
}

#[test]
fn test_empty_content_round_trip() {
    let mut store = Store::new();
    let id = store.put(blob(b""));
    match store.get(id) {
        Ok(Object::Blob(content)) => assert!(content.is_empty()),
        _ => panic!("stored empty blob did not come back"),
    }
    assert_ne!(store.find_blob(&Vec::new()), None);
}
