use vstd::prelude::*;
use crate::object::{Object, EntryMode, TreeEntry};
use crate::store::{ObjectStore, StoreEntry, lookup_obj};
use crate::oid::clone_bytes;
use crate::errors::GitError;

verus! {

/// One materialization step of a checkout: write `data` at `path` with the
/// given mode. Subtrees never appear; they become path components.
pub struct FileAction {
    pub path: Vec<u8>,
    pub mode: EntryMode,
    pub data: Vec<u8>,
}

/// A planned write, at the specification level: the path, mode and bytes of
/// one file of the working tree.
pub struct PlanStep {
    pub path: Seq<u8>,
    pub mode: EntryMode,
    pub data: Seq<u8>,
}

/// The plan that a list of file actions carries out.
pub open spec fn steps_of(acts: Seq<FileAction>) -> Seq<PlanStep> {
    Seq::new(
        acts.len(),
        |i: int| PlanStep { path: acts[i].path@, mode: acts[i].mode, data: acts[i].data@ },
    )
}

/// `a` extends `b`: `b` is a prefix of `a`.
pub open spec fn extends(a: Seq<FileAction>, b: Seq<FileAction>) -> bool {
    b.len() <= a.len() && forall|i: int| 0 <= i < b.len() ==> a[i] == b[i]
}

/// The relative path of an entry under a directory prefix.
pub open spec fn joined(prefix: Seq<u8>, name: Seq<u8>) -> Seq<u8> {
    if prefix.len() == 0 {
        name
    } else {
        prefix + seq![47u8] + name
    }
}

/// The checkout plan of the tree stored under `tree_id`, under a directory
/// prefix: one step per blob reachable through the tree, in entry order,
/// each at its joined path with its entry's mode and its blob's bytes.
/// `None` when an object is missing, an entry's target has the wrong kind,
/// or the nesting outruns the fuel (as a cyclic tree graph must).
pub open spec fn walk_plan(s: Seq<StoreEntry>, tree_id: Seq<u8>, prefix: Seq<u8>, fuel: nat) -> Option<
    Seq<PlanStep>,
>
    decreases fuel, 0nat,
{
    if fuel == 0 {
        None
    } else {
        match lookup_obj(s, tree_id) {
            Some(Object::Tree { entries }) => entry_plans(
                s,
                entries@,
                prefix,
                (fuel - 1) as nat,
            ),
            _ => None,
        }
    }
}

/// The checkout plan of one tree entry: the plan of its subtree, or the one
/// write of its blob.
pub open spec fn head_plan(s: Seq<StoreEntry>, e: TreeEntry, prefix: Seq<u8>, fuel: nat) -> Option<
    Seq<PlanStep>,
>
    decreases fuel, 1nat,
{
    if e.mode is Subtree {
        walk_plan(s, e.target@, joined(prefix, e.name@), fuel)
    } else {
        match lookup_obj(s, e.target@) {
            Some(Object::Blob { data }) => Some(
                seq![PlanStep { path: joined(prefix, e.name@), mode: e.mode, data: data@ }],
            ),
            _ => None,
        }
    }
}

/// The concatenated checkout plans of a sequence of tree entries.
pub open spec fn entry_plans(
    s: Seq<StoreEntry>,
    entries: Seq<TreeEntry>,
    prefix: Seq<u8>,
    fuel: nat,
) -> Option<Seq<PlanStep>>
    decreases fuel, entries.len() + 2,
{
    if entries.len() == 0 {
        Some(Seq::<PlanStep>::empty())
    } else {
        match head_plan(s, entries[0], prefix, fuel) {
            Some(h) => match entry_plans(s, entries.drop_first(), prefix, fuel) {
                Some(t) => Some(h + t),
                None => None,
            },
            None => None,
        }
    }
}

/// Definitional unfolding of `entry_plans` on a nonempty entry sequence.
proof fn lemma_entry_plans_unfold(s: Seq<StoreEntry>, entries: Seq<TreeEntry>, prefix: Seq<u8>, fuel: nat)
    requires
        entries.len() > 0,
    ensures
        head_plan(s, entries[0], prefix, fuel) is None ==> entry_plans(s, entries, prefix, fuel)
            is None,
        forall|h: Seq<PlanStep>|
            head_plan(s, entries[0], prefix, fuel) == Some(h) ==> entry_plans(
                s,
                entries,
                prefix,
                fuel,
            ) == (match entry_plans(s, entries.drop_first(), prefix, fuel) {
                Some(t) => Some(h + t),
                None => None::<Seq<PlanStep>>,
            }),
{
}

/// Moving one head plan from the remainder into the finished part keeps the
/// composition.
proof fn lemma_continues_extend(
    full: Option<Seq<PlanStep>>,
    done: Seq<PlanStep>,
    h: Seq<PlanStep>,
    rest: Option<Seq<PlanStep>>,
)
    requires
        continues(
            full,
            done,
            match rest {
                Some(t) => Some(h + t),
                None => None::<Seq<PlanStep>>,
            },
        ),
    ensures
        continues(full, done + h, rest),
{
    match rest {
        Some(t) => {
            assert(done + (h + t) =~= (done + h) + t);
        },
        None => {},
    }
}

/// The checkout plan of the commit stored under `commit_id`: the plan of its
/// root tree, at the top of the working tree, with fuel for any acyclic
/// nesting the store can hold.
#[verifier::opaque]
pub open spec fn checkout_plan(s: Seq<StoreEntry>, commit_id: Seq<u8>) -> Option<Seq<PlanStep>> {
    match lookup_obj(s, commit_id) {
        Some(Object::Commit { tree, .. }) => walk_plan(s, tree@, Seq::<u8>::empty(), s.len() as nat),
        _ => None,
    }
}

/// `full` is `done` followed by whatever `rest` holds, and undefined exactly
/// when `rest` is.
spec fn continues(
    full: Option<Seq<PlanStep>>,
    done: Seq<PlanStep>,
    rest: Option<Seq<PlanStep>>,
) -> bool {
    match rest {
        Some(t) => full == Some(done + t),
        None => full is None,
    }
}

/// Joins a directory prefix and an entry name with a path separator.
fn join_path(prefix: &Vec<u8>, name: &Vec<u8>) -> (r: Vec<u8>)
    ensures
        r@ == joined(prefix@, name@),
{
    if prefix.len() == 0 {
        clone_bytes(name)
    } else {
        let mut out = clone_bytes(prefix);
        out.push(47u8);
        let mut i: usize = 0;
        while i < name.len()
            invariant
                i <= name@.len(),
                out@ =~= prefix@ + seq![47u8] + name@.take(i as int),
            decreases name@.len() - i,
        {
            out.push(name[i]);
            proof {
                assert(out@ =~= prefix@ + seq![47u8] + name@.take(i + 1));
            }
            i = i + 1;
        }
        proof {
            assert(out@ =~= prefix@ + seq![47u8] + name@);
        }
        out
    }
}

/// Walks a tree object and appends exactly the steps of its checkout plan,
/// in order; it fails exactly when the plan is undefined. Fuel bounds the
/// nesting depth, so a cyclic tree graph is rejected instead of looping.
#[verifier::rlimit(80)]
fn walk_tree(
    store: &ObjectStore,
    tree_id: &Vec<u8>,
    prefix: &Vec<u8>,
    fuel: usize,
    out: &mut Vec<FileAction>,
) -> (r: Result<(), GitError>)
    requires
        store.wf(),
    ensures
        extends(final(out)@, old(out)@),
        r is Ok ==> walk_plan(store.contents(), tree_id@, prefix@, fuel as nat) == Some(
            steps_of(final(out)@.skip(old(out)@.len() as int)),
        ),
        r is Err ==> walk_plan(store.contents(), tree_id@, prefix@, fuel as nat) is None,
        r matches Err(e) ==> e == GitError::CorruptObject,
    decreases fuel,
{
    let ghost full: Option<Seq<PlanStep>> = walk_plan(store.contents(), tree_id@, prefix@, fuel as nat);
    if fuel == 0 {
        return Err(GitError::CorruptObject);
    }
    let entries = match store.get(tree_id) {
        Some(Object::Tree { entries }) => entries,
        _ => {
            assert(full is None);
            return Err(GitError::CorruptObject);
        },
    };
    let ghost f1: nat = (fuel - 1) as nat;
    proof {
        assert(lookup_obj(store.contents(), tree_id@) == Some(Object::Tree { entries: *entries }));
        assert(full == entry_plans(store.contents(), entries@, prefix@, f1));
        assert(entries@.skip(0) =~= entries@);
        assert(steps_of(out@.skip(out@.len() as int)) =~= Seq::<PlanStep>::empty());
    }
    let ghost base: Seq<FileAction> = out@;
    let mut e: usize = 0;
    while e < entries.len()
        invariant
            e <= entries@.len(),
            fuel >= 1,
            f1 == (fuel - 1) as nat,
            store.wf(),
            base == old(out)@,
            extends(out@, base),
            full == walk_plan(store.contents(), tree_id@, prefix@, fuel as nat),
            lookup_obj(store.contents(), tree_id@) == Some(Object::Tree { entries: *entries }),
            continues(
                full,
                steps_of(out@.skip(base.len() as int)),
                entry_plans(store.contents(), entries@.skip(e as int), prefix@, f1),
            ),
        decreases entries@.len() - e,
    {
        let ghost rem: Seq<TreeEntry> = entries@.skip(e as int);
        let ghost done: Seq<PlanStep> = steps_of(out@.skip(base.len() as int));
        proof {
            assert(rem[0] == entries@[e as int]);
            assert(rem.drop_first() =~= entries@.skip(e + 1));
            lemma_entry_plans_unfold(store.contents(), rem, prefix@, f1);
        }
        let entry = &entries.as_slice()[e];
        let child_path = join_path(prefix, &entry.name);
        let ghost before: Seq<FileAction> = out@;
        match entry.mode {
            EntryMode::Subtree => {
                match walk_tree(store, &entry.target, &child_path, fuel - 1, out) {
                    Ok(()) => {
                        proof {
                            let h = steps_of(out@.skip(before.len() as int));
                            assert(head_plan(store.contents(), rem[0], prefix@, f1) == Some(h));
                            lemma_continues_extend(
                                full,
                                done,
                                h,
                                entry_plans(store.contents(), entries@.skip(e + 1), prefix@, f1),
                            );
                            lemma_steps_split(out@, base.len() as int, before.len() as int);
                            assert(out@.skip(base.len() as int).take(
                                before.len() - base.len(),
                            ) =~= before.skip(base.len() as int));
                            assert(steps_of(out@.skip(base.len() as int)) =~= done + h);
                        }
                    },
                    Err(err) => {
                        proof {
                            assert(head_plan(store.contents(), rem[0], prefix@, f1) is None);
                            assert(entry_plans(store.contents(), rem, prefix@, f1) is None);
                            assert(full is None);
                        }
                        return Err(err);
                    },
                }
            },
            _ => {
                match store.get(&entry.target) {
                    Some(Object::Blob { data }) => {
                        let act = FileAction {
                            path: child_path,
                            mode: entry.mode,
                            data: clone_bytes(data),
                        };
                        let ghost step = PlanStep {
                            path: joined(prefix@, entry.name@),
                            mode: entry.mode,
                            data: data@,
                        };
                        out.push(act);
                        proof {
                            assert(head_plan(store.contents(), rem[0], prefix@, f1) == Some(seq![step]));
                            lemma_continues_extend(
                                full,
                                done,
                                seq![step],
                                entry_plans(store.contents(), entries@.skip(e + 1), prefix@, f1),
                            );
                            assert(out@ == before.push(act));
                            assert(out@.skip(base.len() as int) =~= before.skip(
                                base.len() as int,
                            ).push(act));
                            assert(steps_of(out@.skip(base.len() as int)) =~= done + seq![step]);
                        }
                    },
                    _ => {
                        proof {
                            assert(head_plan(store.contents(), rem[0], prefix@, f1) is None);
                            assert(entry_plans(store.contents(), rem, prefix@, f1) is None);
                            assert(full is None);
                        }
                        return Err(GitError::CorruptObject);
                    },
                }
            },
        }
        e = e + 1;
    }
    proof {
        assert(entries@.skip(e as int).len() == 0);
        assert(entry_plans(store.contents(), entries@.skip(e as int), prefix@, f1) == Some(
            Seq::<PlanStep>::empty(),
        ));
        let done = steps_of(out@.skip(base.len() as int));
        assert(done + Seq::<PlanStep>::empty() =~= done);
    }
    Ok(())
}

/// The steps of a suffix split at `mid` are the steps between `lo` and `mid`
/// followed by the steps from `mid` on.
proof fn lemma_steps_split(acts: Seq<FileAction>, lo: int, mid: int)
    requires
        0 <= lo <= mid <= acts.len(),
    ensures
        steps_of(acts.skip(lo)) =~= steps_of(acts.skip(lo).take(mid - lo)) + steps_of(
            acts.skip(mid),
        ),
        steps_of(acts.skip(lo).take(mid - lo)) =~= steps_of(acts.skip(lo)).take(mid - lo),
{
}

/// Materializes the working tree of a commit as a list of file actions that
/// carry out exactly the commit's checkout plan: one write per blob
/// reachable through the commit's root tree, at its tree-implied relative
/// path, with its entry's mode and its blob's bytes. It fails exactly when
/// the plan is undefined: with the reference error when the identifier does
/// not name a stored commit, with the corruption error when the tree graph
/// is incomplete, ill-kinded or cyclic.
pub fn checkout_commit(store: &ObjectStore, commit_id: &Vec<u8>) -> (r: Result<
    Vec<FileAction>,
    GitError,
>)
    requires
        store.wf(),
    ensures
        r matches Ok(acts) ==> checkout_plan(store.contents(), commit_id@) == Some(steps_of(acts@)),
        r is Err <==> checkout_plan(store.contents(), commit_id@) is None,
        r matches Err(e) ==> e == GitError::CorruptObject || e == GitError::Reference,
        !(lookup_obj(store.contents(), commit_id@) matches Some(Object::Commit { .. })) <==> r == Err::<
            Vec<FileAction>,
            GitError,
        >(GitError::Reference),
{
    let tree = match store.get(commit_id) {
        Some(Object::Commit { tree, .. }) => clone_bytes(tree),
        _ => {
            proof {
                reveal(checkout_plan);
            }
            return Err(GitError::Reference);
        },
    };
    let fuel: usize = store.count();
    let mut out: Vec<FileAction> = Vec::new();
    let prefix: Vec<u8> = Vec::new();
    let r = walk_tree(store, &tree, &prefix, fuel, &mut out);
    proof {
        reveal(checkout_plan);
        assert(prefix@ =~= Seq::<u8>::empty());
        assert(out@.skip(0) =~= out@);
    }
    match r {
        Ok(()) => Ok(out),
        Err(e) => Err(e),
    }
}

} // verus!
