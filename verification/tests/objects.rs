use gitpure::errors::GitError;
use gitpure::object::{encode_object, kind_code_of, Object};
use gitpure::oid::compute_object_id;
use gitpure::store::{IncomingObject, ObjectStore};

fn oid_for(obj: &Object) -> Vec<u8> {
    let data = encode_object(obj);
    compute_object_id(kind_code_of(obj), &data).expect("hashing failed")
}

fn blob(bytes: &[u8]) -> Object {
    Object::Blob { data: bytes.to_vec() }
}

#[test]
fn content_hash_is_recomputable() {
    let b = blob(b"hello");
    let id = oid_for(&b);
    assert_eq!(id.len(), 20);
    let mut store = ObjectStore::new();
    let r = store.put_batch(vec![IncomingObject { claimed: id.clone(), obj: blob(b"hello") }]);
    assert!(r.is_ok());
    assert!(store.contains(&id));
    // Recomputing the digest of the stored object's bytes yields its
    // identifier.
    match store.get(&id) {
        Some(o) => assert_eq!(oid_for(o), id),
        None => panic!("object missing"),
    }
}

#[test]
fn identical_content_has_identical_id() {
    assert_eq!(oid_for(&blob(b"same")), oid_for(&blob(b"same")));
    assert_ne!(oid_for(&blob(b"one")), oid_for(&blob(b"two")));
}

#[test]
fn corrupt_object_is_rejected() {
    let mut store = ObjectStore::new();
    let wrong = vec![0u8; 20];
    let r = store.put_batch(vec![IncomingObject { claimed: wrong.clone(), obj: blob(b"hello") }]);
    assert_eq!(r, Err(GitError::CorruptObject));
    assert!(!store.contains(&wrong));
    assert_eq!(store.count(), 0);
}

#[test]
fn corrupt_batch_persists_nothing() {
    let good = blob(b"good");
    let good_id = oid_for(&good);
    let mut store = ObjectStore::new();
    let r = store.put_batch(vec![
        IncomingObject { claimed: good_id.clone(), obj: good },
        IncomingObject { claimed: vec![1u8; 20], obj: blob(b"bad") },
    ]);
    assert_eq!(r, Err(GitError::CorruptObject));
    assert!(!store.contains(&good_id));
    assert_eq!(store.count(), 0);
}

#[test]
fn duplicate_objects_are_stored_once() {
    let id = oid_for(&blob(b"dup"));
    let mut store = ObjectStore::new();
    let r = store.put_batch(vec![
        IncomingObject { claimed: id.clone(), obj: blob(b"dup") },
        IncomingObject { claimed: id.clone(), obj: blob(b"dup") },
    ]);
    assert!(r.is_ok());
    assert_eq!(store.count(), 1);
}

#[test]
fn store_closure_is_checked() {
    let b = blob(b"content");
    let b_id = oid_for(&b);
    let tree = Object::Tree {
        entries: vec![gitpure::object::TreeEntry {
            mode: gitpure::object::EntryMode::Regular,
            name: b"f".to_vec(),
            target: b_id.clone(),
        }],
    };
    let t_id = oid_for(&tree);
    // Tree alone: refers to a missing blob, not closed.
    let mut s1 = ObjectStore::new();
    assert!(s1
        .put_batch(vec![IncomingObject { claimed: t_id.clone(), obj: tree }])
        .is_ok());
    assert!(!s1.is_closed());
    // Blob alone: closed.
    let mut s2 = ObjectStore::new();
    assert!(s2.put_batch(vec![IncomingObject { claimed: b_id, obj: b }]).is_ok());
    assert!(s2.is_closed());
}
