use vstd::prelude::*;
use crate::store::{ObjectStore, chain, lemma_reachability_closure};
use crate::branches::{branch_names, views_of, listing_sorted, listing_from, listing_covers};
use crate::oid::clone_bytes;

verus! {

/// A reference: a symbolic name bound to the identifier of its target
/// object.
pub struct RefRecord {
    pub name: Vec<u8>,
    pub target: Vec<u8>,
}

/// The names of a sequence of references.
pub open spec fn ref_names(refs: Seq<RefRecord>) -> Seq<Seq<u8>> {
    Seq::new(refs.len(), |i: int| refs[i].name@)
}

/// A repository: its metadata directory, an optional working-tree directory,
/// its object store and its references.
pub struct Repository {
    pub git_dir: String,
    pub worktree_dir: Option<String>,
    pub bare: bool,
    pub store: ObjectStore,
    pub refs: Vec<RefRecord>,
}

impl Repository {
    /// Well-formed: a bare repository has no working tree; the store is
    /// content-addressed and closed under links; and no reference dangles —
    /// every target is present in the store.
    pub open spec fn wf(self) -> bool {
        &&& (self.bare <==> self.worktree_dir is None)
        &&& self.store.wf()
        &&& self.store.closed()
        &&& forall|i: int|
            0 <= i < self.refs@.len() ==> self.store.has((#[trigger] self.refs@[i]).target@)
    }

    /// The path of the repository's metadata directory.
    pub fn git_dir(&self) -> (r: &String)
        ensures
            r@ == self.git_dir@,
    {
        &self.git_dir
    }

    /// The short display names of all local branches, sorted ascending by
    /// byte value with adjacent duplicates collapsed.
    pub fn branches(&self) -> (r: Vec<String>)
        ensures
            listing_sorted(r@),
            listing_from(ref_names(self.refs@), r@),
            listing_covers(ref_names(self.refs@), r@),
    {
        let mut names: Vec<Vec<u8>> = Vec::new();
        let mut i: usize = 0;
        while i < self.refs.len()
            invariant
                i <= self.refs@.len(),
                names@.len() == i,
                forall|k: int| 0 <= k < i ==> (#[trigger] names@[k])@ == self.refs@[k].name@,
            decreases self.refs@.len() - i,
        {
            names.push(clone_bytes(&self.refs.as_slice()[i].name));
            i = i + 1;
        }
        let r = branch_names(&names);
        proof {
            assert(views_of(names@) =~= ref_names(self.refs@));
        }
        r
    }
}

/// Reachability from published references: in a well-formed repository,
/// every object reached by following links from any reference's target is
/// present in the object store.
pub proof fn lemma_ref_reachability(repo: Repository, r: int, path: Seq<Seq<u8>>)
    requires
        repo.wf(),
        0 <= r < repo.refs@.len(),
        path.len() > 0,
        path[0] == repo.refs@[r].target@,
        chain(repo.store, path),
    ensures
        forall|i: int| 0 <= i < path.len() ==> repo.store.has(#[trigger] path[i]),
{
    lemma_reachability_closure(repo.store, path);
}

} // verus!
