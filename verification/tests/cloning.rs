use gitpure::clone::{finish_clone, CloneRequest, TransportOutcome};
use gitpure::errors::GitError;
use gitpure::object::{encode_object, kind_code_of, EntryMode, Object, TreeEntry};
use gitpure::oid::compute_object_id;
use gitpure::repo::RefRecord;
use gitpure::store::IncomingObject;

fn oid_for(obj: &Object) -> Vec<u8> {
    let data = encode_object(obj);
    compute_object_id(kind_code_of(obj), &data).expect("hashing failed")
}

fn incoming(obj: Object) -> IncomingObject {
    let claimed = oid_for(&obj);
    IncomingObject { claimed, obj }
}

fn request(bare: bool) -> CloneRequest {
    CloneRequest {
        url: String::from("https://example.test/repo.git"),
        git_dir: String::from("repo/.git"),
        worktree_dir: if bare { None } else { Some(String::from("repo")) },
        bare,
    }
}

/// A repository of two files: ("a.txt", blob "hi") and ("dir/b.txt", blob
/// "yo"), one commit, one branch `main`.
fn delivery() -> (Vec<RefRecord>, Vec<IncomingObject>, Vec<u8>) {
    let blob_hi = Object::Blob { data: b"hi".to_vec() };
    let blob_yo = Object::Blob { data: b"yo".to_vec() };
    let hi_id = oid_for(&blob_hi);
    let yo_id = oid_for(&blob_yo);
    let subtree = Object::Tree {
        entries: vec![TreeEntry { mode: EntryMode::Regular, name: b"b.txt".to_vec(), target: yo_id }],
    };
    let subtree_id = oid_for(&subtree);
    let root = Object::Tree {
        entries: vec![
            TreeEntry { mode: EntryMode::Regular, name: b"a.txt".to_vec(), target: hi_id },
            TreeEntry { mode: EntryMode::Subtree, name: b"dir".to_vec(), target: subtree_id },
        ],
    };
    let root_id = oid_for(&root);
    let commit = Object::Commit {
        tree: root_id,
        parents: vec![],
        meta: b"author a\ncommitter a\n\ninitial\n".to_vec(),
    };
    let commit_id = oid_for(&commit);
    let refs = vec![RefRecord { name: b"refs/heads/main".to_vec(), target: commit_id.clone() }];
    let objects = vec![incoming(blob_hi), incoming(blob_yo), incoming(subtree), incoming(root), incoming(commit)];
    (refs, objects, commit_id)
}

#[test]
fn checkout_materializes_the_tree() {
    let (refs, objects, _) = delivery();
    let r = finish_clone(request(false), TransportOutcome::Delivered { refs, objects });
    let (repo, actions) = r.expect("clone failed");
    assert!(!repo.bare);
    assert_eq!(actions.len(), 2);
    let a = actions.iter().find(|a| a.path == b"a.txt".to_vec()).expect("a.txt missing");
    assert_eq!(a.data, b"hi".to_vec());
    assert_eq!(a.mode, EntryMode::Regular);
    let b = actions.iter().find(|a| a.path == b"dir/b.txt".to_vec()).expect("dir/b.txt missing");
    assert_eq!(b.data, b"yo".to_vec());
    assert_eq!(b.mode, EntryMode::Regular);
}

#[test]
fn checkout_carries_entry_modes() {
    let script = Object::Blob { data: b"#!/bin/sh\n".to_vec() };
    let link_target = Object::Blob { data: b"run.sh".to_vec() };
    let script_id = oid_for(&script);
    let link_id = oid_for(&link_target);
    let root = Object::Tree {
        entries: vec![
            TreeEntry { mode: EntryMode::Executable, name: b"run.sh".to_vec(), target: script_id },
            TreeEntry { mode: EntryMode::Symlink, name: b"latest".to_vec(), target: link_id },
        ],
    };
    let root_id = oid_for(&root);
    let commit = Object::Commit { tree: root_id, parents: vec![], meta: b"m\n".to_vec() };
    let commit_id = oid_for(&commit);
    let refs = vec![RefRecord { name: b"refs/heads/main".to_vec(), target: commit_id }];
    let objects = vec![incoming(script), incoming(link_target), incoming(root), incoming(commit)];
    let (_, actions) = finish_clone(request(false), TransportOutcome::Delivered { refs, objects })
        .expect("clone failed");
    assert_eq!(actions.len(), 2);
    let s = actions.iter().find(|a| a.path == b"run.sh".to_vec()).expect("run.sh missing");
    assert_eq!(s.mode, EntryMode::Executable);
    let l = actions.iter().find(|a| a.path == b"latest".to_vec()).expect("latest missing");
    assert_eq!(l.mode, EntryMode::Symlink);
    assert_eq!(l.data, b"run.sh".to_vec());
}

#[test]
fn commit_with_missing_tree_is_rejected() {
    // The commit names a root tree that was never delivered: the store is
    // not closed, so nothing is published.
    let commit = Object::Commit { tree: vec![9u8; 20], parents: vec![], meta: b"m\n".to_vec() };
    let commit_id = oid_for(&commit);
    let refs = vec![RefRecord { name: b"refs/heads/main".to_vec(), target: commit_id }];
    let objects = vec![incoming(commit)];
    let r = finish_clone(request(false), TransportOutcome::Delivered { refs, objects });
    assert_eq!(r.err(), Some(GitError::CorruptObject));
}

#[test]
fn bare_clone_skips_checkout_and_still_lists_branches() {
    let (refs, objects, _) = delivery();
    let r = finish_clone(request(true), TransportOutcome::Delivered { refs, objects });
    let (repo, actions) = r.expect("clone failed");
    assert!(repo.bare);
    assert!(repo.worktree_dir.is_none());
    assert!(actions.is_empty());
    assert_eq!(repo.branches(), vec!["main".to_string()]);
}

#[test]
fn cancellation_yields_no_repository() {
    let r = finish_clone(request(false), TransportOutcome::Cancelled);
    assert_eq!(r.err(), Some(GitError::Cancelled));
}

#[test]
fn transport_and_protocol_failures_are_reported() {
    assert_eq!(
        finish_clone(request(false), TransportOutcome::ConnectFailed).err(),
        Some(GitError::Transport)
    );
    assert_eq!(
        finish_clone(request(false), TransportOutcome::ProtocolFailed).err(),
        Some(GitError::Protocol)
    );
}

#[test]
fn corrupt_transfer_fails_the_clone() {
    let (refs, mut objects, _) = delivery();
    objects[0].claimed = vec![0u8; 20];
    let r = finish_clone(request(false), TransportOutcome::Delivered { refs, objects });
    assert_eq!(r.err(), Some(GitError::CorruptObject));
}

#[test]
fn incomplete_transfer_fails_the_clone() {
    // Leave the blobs out: the trees refer to missing objects, so the store
    // is not closed and no reference may be published.
    let (refs, objects, _) = delivery();
    let partial: Vec<IncomingObject> =
        objects.into_iter().filter(|o| !matches!(o.obj, Object::Blob { .. })).collect();
    let r = finish_clone(request(false), TransportOutcome::Delivered { refs, objects: partial });
    assert_eq!(r.err(), Some(GitError::CorruptObject));
}

#[test]
fn dangling_reference_fails_the_clone() {
    let (mut refs, objects, _) = delivery();
    refs.push(RefRecord { name: b"refs/heads/ghost".to_vec(), target: vec![7u8; 20] });
    let r = finish_clone(request(false), TransportOutcome::Delivered { refs, objects });
    assert_eq!(r.err(), Some(GitError::Reference));
}

#[test]
fn completed_repository_is_closed_under_links() {
    let (refs, objects, commit_id) = delivery();
    let (repo, _) = finish_clone(request(true), TransportOutcome::Delivered { refs, objects })
        .expect("clone failed");
    assert!(repo.store.is_closed());
    assert!(repo.store.contains(&commit_id));
}

#[test]
fn git_dir_is_reported() {
    let (refs, objects, _) = delivery();
    let (repo, _) = finish_clone(request(true), TransportOutcome::Delivered { refs, objects })
        .expect("clone failed");
    assert_eq!(repo.git_dir(), "repo/.git");
}
