use vstd::prelude::*;
use crate::store::{ObjectStore, StoreEntry, IncomingObject, incoming_ok, batch_valid, store_has};
use crate::object::obj_links;
use crate::repo::{Repository, RefRecord};
use crate::checkout::{FileAction, checkout_commit, checkout_plan, steps_of};
use crate::errors::GitError;

verus! {

/// What the caller asks of a clone: a remote URL, the destination metadata
/// directory, and the working-tree directory unless the clone is bare.
pub struct CloneRequest {
    pub url: String,
    pub git_dir: String,
    pub worktree_dir: Option<String>,
    pub bare: bool,
}

/// What the transport phases of a clone ended in: cooperative cancellation,
/// a connection failure, a malformed exchange, or the discovered references
/// together with the transferred objects.
pub enum TransportOutcome {
    Cancelled,
    ConnectFailed,
    ProtocolFailed,
    Delivered { refs: Vec<RefRecord>, objects: Vec<IncomingObject> },
}

/// An object with this identifier is among the delivered ones.
pub open spec fn delivered_id(objects: Seq<IncomingObject>, id: Seq<u8>) -> bool {
    exists|k: int| 0 <= k < objects.len() && (#[trigger] objects[k]).claimed@ == id
}

/// The delivery is self-contained: every object carries its own digest and
/// the digest computation is defined on it, every identifier any delivered
/// object refers to is itself delivered, and every reference target is
/// delivered.
pub open spec fn delivery_complete(refs: Seq<RefRecord>, objects: Seq<IncomingObject>) -> bool {
    &&& batch_valid(objects)
    &&& forall|k: int, l: int|
        #![trigger obj_links(objects[k].obj)[l]]
        0 <= k < objects.len() && 0 <= l < obj_links(objects[k].obj).len() ==> delivered_id(
            objects,
            obj_links(objects[k].obj)[l],
        )
    &&& forall|j: int| 0 <= j < refs.len() ==> delivered_id(objects, (#[trigger] refs[j]).target@)
}

/// Completes a clone from the outcome of the transport phases: objects are
/// verified against their identifiers and persisted all-or-nothing, the
/// store is checked to be closed, references are recorded only with their
/// targets present, and the working tree of the first reference's commit is
/// planned unless the clone is bare. A cancelled transfer yields the
/// cancellation error and no repository; a self-contained delivery that
/// needs no checkout is owed success.
#[verifier::rlimit(50)]
pub fn finish_clone(req: CloneRequest, outcome: TransportOutcome) -> (r: Result<
    (Repository, Vec<FileAction>),
    GitError,
>)
    requires
        req.bare <==> req.worktree_dir is None,
    ensures
        outcome is Cancelled <==> r matches Err(GitError::Cancelled),
        outcome is ConnectFailed ==> r matches Err(GitError::Transport),
        outcome is ProtocolFailed ==> r matches Err(GitError::Protocol),
        r matches Ok(out) ==> out.0.wf() && out.0.bare == req.bare && out.0.git_dir@
            == req.git_dir@ && out.0.worktree_dir == req.worktree_dir,
        r matches Ok(out) ==> (req.bare ==> out.1@.len() == 0),
        r matches Ok(out) ==> (outcome matches TransportOutcome::Delivered { refs, .. }
            && out.0.refs@ == refs@),
        r matches Ok(out) ==> (outcome matches TransportOutcome::Delivered { objects, .. }
            ==> forall|k: int|
                0 <= k < objects@.len() ==> out.0.store.has((#[trigger] objects@[k]).claimed@)),
        r matches Ok(out) ==> (outcome matches TransportOutcome::Delivered { refs, .. } ==> ((
        !req.bare && refs@.len() > 0) ==> checkout_plan(
            out.0.store.contents(),
            refs@[0].target@,
        ) == Some(steps_of(out.1@)))),
        r matches Ok(out) ==> (outcome matches TransportOutcome::Delivered { refs, .. } ==> ((
        !req.bare && refs@.len() == 0) ==> out.1@.len() == 0)),
        (outcome matches TransportOutcome::Delivered { objects, .. } && (exists|k: int|
            0 <= k < objects@.len() && !incoming_ok(#[trigger] objects@[k]))) ==> r matches Err(
            GitError::CorruptObject,
        ),
        r matches Err(GitError::Reference) ==> (outcome matches TransportOutcome::Delivered {
            refs,
            objects,
        } && ((exists|j: int|
            0 <= j < refs@.len() && !delivered_id(objects@, (#[trigger] refs@[j]).target@)) || (
        !req.bare && refs@.len() > 0))),
        req.bare ==> (outcome matches TransportOutcome::Delivered { refs, objects }
            && delivery_complete(refs@, objects@) ==> r is Ok),
        !req.bare ==> (outcome matches TransportOutcome::Delivered { refs, objects }
            && delivery_complete(refs@, objects@) && refs@.len() == 0 ==> r is Ok),
{
    match outcome {
        TransportOutcome::Cancelled => Err(GitError::Cancelled),
        TransportOutcome::ConnectFailed => Err(GitError::Transport),
        TransportOutcome::ProtocolFailed => Err(GitError::Protocol),
        TransportOutcome::Delivered { refs, objects } => {
            let ghost gobjs: Seq<IncomingObject> = objects@;
            let ghost grefs: Seq<RefRecord> = refs@;
            let mut store = ObjectStore::new();
            let put = store.put_batch(objects);
            proof {
                if delivery_complete(grefs, gobjs) {
                    assert(batch_valid(gobjs));
                    assert(put is Ok);
                }
            }
            match put {
                Ok(()) => {},
                Err(e) => {
                    return Err(e);
                },
            }
            proof {
                if delivery_complete(grefs, gobjs) {
                    assert forall|i: int, k: int|
                        #![trigger obj_links(store.contents()[i].obj)[k]]
                        0 <= i < store.contents().len() && 0 <= k < obj_links(
                            store.contents()[i].obj,
                        ).len() implies store_has(
                        store.contents(),
                        obj_links(store.contents()[i].obj)[k],
                    ) by {
                        assert(!store_has(Seq::<StoreEntry>::empty(), store.contents()[i].id@));
                        let kk = choose|kk: int|
                            0 <= kk < gobjs.len() && (#[trigger] gobjs[kk]).claimed@
                                == store.contents()[i].id@ && gobjs[kk].obj
                                == store.contents()[i].obj;
                        assert(delivered_id(gobjs, obj_links(gobjs[kk].obj)[k]));
                        let k2 = choose|k2: int|
                            0 <= k2 < gobjs.len() && (#[trigger] gobjs[k2]).claimed@ == obj_links(
                                gobjs[kk].obj,
                            )[k];
                        assert(store.has(gobjs[k2].claimed@));
                    }
                    assert(store.closed());
                }
            }
            if !store.is_closed() {
                return Err(GitError::CorruptObject);
            }
            let mut i: usize = 0;
            while i < refs.len()
                invariant
                    i <= refs@.len(),
                    outcome is Delivered,
                    refs@ == grefs,
                    (outcome matches TransportOutcome::Delivered { refs: r2, objects: o2 } ==> o2@
                        == gobjs && r2@ == grefs),
                    forall|k: int| 0 <= k < gobjs.len() ==> incoming_ok(#[trigger] gobjs[k]),
                    forall|k: int|
                        0 <= k < gobjs.len() ==> store.has((#[trigger] gobjs[k]).claimed@),
                    store.wf(),
                    store.closed(),
                    forall|k: int| 0 <= k < i ==> store.has((#[trigger] refs@[k]).target@),
                decreases refs@.len() - i,
            {
                if !store.contains(&refs.as_slice()[i].target) {
                    proof {
                        assert forall|k: int| 0 <= k < gobjs.len() implies (
                        #[trigger] gobjs[k]).claimed@ != refs@[i as int].target@ by {
                            if gobjs[k].claimed@ == refs@[i as int].target@ {
                                assert(store.has(gobjs[k].claimed@));
                            }
                        }
                        assert(!delivered_id(gobjs, refs@[i as int].target@));
                    }
                    return Err(GitError::Reference);
                }
                i = i + 1;
            }
            let actions: Vec<FileAction> = if req.bare {
                Vec::new()
            } else if refs.len() > 0 {
                match checkout_commit(&store, &refs.as_slice()[0].target) {
                    Ok(a) => a,
                    Err(e) => {
                        return Err(e);
                    },
                }
            } else {
                Vec::new()
            };
            let repo = Repository {
                git_dir: req.git_dir,
                worktree_dir: req.worktree_dir,
                bare: req.bare,
                store,
                refs,
            };
            Ok((repo, actions))
        },
    }
}

} // verus!
