use vstd::prelude::*;
use crate::oid::{oid_of, compute_object_id, bytes_eq, clone_bytes};
use crate::object::{Object, TreeEntry, kind_code, kind_code_of, obj_bytes, encode_object,
    obj_links, links_of};
use crate::errors::GitError;

verus! {

/// A stored object together with its identifier.
pub struct StoreEntry {
    pub id: Vec<u8>,
    pub obj: Object,
}

/// An object as received from a transfer, with the identifier the remote
/// declared for it.
pub struct IncomingObject {
    pub claimed: Vec<u8>,
    pub obj: Object,
}

/// The entry's identifier is the content digest of its object's bytes.
pub open spec fn entry_ok(e: StoreEntry) -> bool {
    e.id@ == oid_of(kind_code(e.obj), obj_bytes(e.obj))
}

/// The received object's declared identifier is the content digest of its
/// bytes.
pub open spec fn incoming_ok(x: IncomingObject) -> bool {
    x.claimed@ == oid_of(kind_code(x.obj), obj_bytes(x.obj))
}

/// Every object of the batch carries the right digest, and the digest
/// computation is defined on it.
pub open spec fn batch_valid(b: Seq<IncomingObject>) -> bool {
    forall|k: int|
        0 <= k < b.len() ==> incoming_ok(#[trigger] b[k]) && crate::oid::digest_defined(
            kind_code(b[k].obj),
            obj_bytes(b[k].obj),
        )
}

/// An entry with identifier `id` is present.
pub open spec fn store_has(s: Seq<StoreEntry>, id: Seq<u8>) -> bool {
    exists|i: int| 0 <= i < s.len() && (#[trigger] s[i]).id@ == id
}

/// Presence is kept when an entry is appended.
proof fn lemma_store_has_push(s: Seq<StoreEntry>, e: StoreEntry, id: Seq<u8>)
    requires
        store_has(s, id),
    ensures
        store_has(s.push(e), id),
{
    let i = choose|i: int| 0 <= i < s.len() && (#[trigger] s[i]).id@ == id;
    assert(s.push(e)[i].id@ == id);
}

/// Content-addressed storage of commits, trees and blobs.
pub struct ObjectStore {
    entries: Vec<StoreEntry>,
}

/// The object stored under `id` among `s`, if any. Under unique identifiers
/// this is the one stored object with that identifier.
pub open spec fn lookup_obj(s: Seq<StoreEntry>, id: Seq<u8>) -> Option<Object> {
    if store_has(s, id) {
        let i = choose|i: int| 0 <= i < s.len() && (#[trigger] s[i]).id@ == id;
        Some(s[i].obj)
    } else {
        None
    }
}

/// Unique identifiers among the entries.
pub open spec fn unique_ids(s: Seq<StoreEntry>) -> bool {
    forall|i: int, j: int| 0 <= i < j < s.len() ==> (#[trigger] s[i]).id@ != (#[trigger] s[j]).id@
}

/// Under unique identifiers, the entry at any index with identifier `id` is
/// the one that `lookup_obj` resolves.
pub proof fn lemma_lookup_at(s: Seq<StoreEntry>, id: Seq<u8>, i: int)
    requires
        unique_ids(s),
        0 <= i < s.len(),
        s[i].id@ == id,
    ensures
        lookup_obj(s, id) == Some(s[i].obj),
{
    assert(store_has(s, id));
    let j = choose|j: int| 0 <= j < s.len() && (#[trigger] s[j]).id@ == id;
    if i < j {
        assert(s[i].id@ != s[j].id@);
        assert(false);
    } else if j < i {
        assert(s[j].id@ != s[i].id@);
        assert(false);
    }
}

/// One step of persisting: an already-present identifier is kept as it is,
/// a new one is appended with its object.
pub open spec fn add_one(s: Seq<StoreEntry>, item: IncomingObject) -> Seq<StoreEntry> {
    if store_has(s, item.claimed@) {
        s
    } else {
        s.push(StoreEntry { id: item.claimed, obj: item.obj })
    }
}

/// The contents after persisting a batch: items are taken from the end of
/// the batch, each deduplicated against what is already present.
#[verifier::opaque]
pub open spec fn spec_put(s: Seq<StoreEntry>, batch: Seq<IncomingObject>) -> Seq<StoreEntry>
    decreases batch.len(),
{
    if batch.len() == 0 {
        s
    } else {
        spec_put(add_one(s, batch.last()), batch.drop_last())
    }
}

/// Peeling the front element of a batch: it is the one persisted last.
proof fn lemma_spec_put_cons(s: Seq<StoreEntry>, x: IncomingObject, t: Seq<IncomingObject>)
    ensures
        spec_put(s, seq![x] + t) == add_one(spec_put(s, t), x),
    decreases t.len(),
{
    reveal(spec_put);
    let b = seq![x] + t;
    if t.len() == 0 {
        assert(b.last() == x);
        assert(b.drop_last() =~= Seq::<IncomingObject>::empty());
        assert(spec_put(add_one(s, x), b.drop_last()) == add_one(s, x));
        assert(spec_put(s, t) == s);
    } else {
        assert(b.last() == t.last());
        assert(b.drop_last() =~= seq![x] + t.drop_last());
        lemma_spec_put_cons(add_one(s, t.last()), x, t.drop_last());
    }
}

impl ObjectStore {
    /// The stored entries.
    pub closed spec fn contents(self) -> Seq<StoreEntry> {
        self.entries@
    }

    /// Well-formed: every identifier is the digest of its object's content,
    /// and identifiers are unique.
    pub open spec fn wf(self) -> bool {
        (forall|i: int|
            0 <= i < self.contents().len() ==> entry_ok(#[trigger] self.contents()[i]))
            && (forall|i: int, j: int|
            0 <= i < j < self.contents().len() ==> (#[trigger] self.contents()[i]).id@ != (
            #[trigger] self.contents()[j]).id@)
    }

    /// An object with identifier `id` is present.
    pub open spec fn has(self, id: Seq<u8>) -> bool {
        store_has(self.contents(), id)
    }

    /// Closed under links: every identifier any stored object refers to is
    /// itself present.
    pub open spec fn closed(self) -> bool {
        forall|i: int, k: int|
            #![trigger obj_links(self.contents()[i].obj)[k]]
            0 <= i < self.contents().len() && 0 <= k < obj_links(self.contents()[i].obj).len()
                ==> store_has(self.contents(), obj_links(self.contents()[i].obj)[k])
    }

    /// An empty store.
    pub fn new() -> (r: ObjectStore)
        ensures
            r.wf(),
            r.closed(),
            r.contents().len() == 0,
    {
        ObjectStore { entries: Vec::new() }
    }

    /// Finds the index of the entry with the given identifier.
    fn find(&self, id: &Vec<u8>) -> (r: Option<usize>)
        ensures
            r matches Some(i) ==> i < self.contents().len() && self.contents()[i as int].id@
                == id@,
            r is None ==> !self.has(id@),
    {
        let mut i: usize = 0;
        while i < self.entries.len()
            invariant
                i <= self.entries@.len(),
                forall|j: int| 0 <= j < i ==> (#[trigger] self.entries@[j]).id@ != id@,
            decreases self.entries@.len() - i,
        {
            let e = &self.entries.as_slice()[i];
            if bytes_eq(&e.id, id) {
                return Some(i);
            }
            i = i + 1;
        }
        None
    }

    /// Whether an object with the given identifier is stored.
    pub fn contains(&self, id: &Vec<u8>) -> (r: bool)
        ensures
            r == self.has(id@),
    {
        match self.find(id) {
            Some(i) => {
                assert(store_has(self.contents(), id@));
                true
            },
            None => false,
        }
    }

    /// Resolves an object by its identifier.
    pub fn get(&self, id: &Vec<u8>) -> (r: Option<&Object>)
        ensures
            r is Some <==> self.has(id@),
            r matches Some(o) ==> exists|i: int|
                0 <= i < self.contents().len() && (#[trigger] self.contents()[i]).id@ == id@
                    && self.contents()[i].obj == *o,
            self.wf() ==> (match r {
                Some(o) => lookup_obj(self.contents(), id@) == Some(*o),
                None => lookup_obj(self.contents(), id@) is None,
            }),
    {
        match self.find(id) {
            Some(i) => {
                let o = &self.entries.as_slice()[i].obj;
                assert(store_has(self.contents(), id@));
                assert(self.contents()[i as int].id@ == id@ && self.contents()[i as int].obj
                    == *o);
                proof {
                    if self.wf() {
                        lemma_lookup_at(self.contents(), id@, i as int);
                    }
                }
                Some(o)
            },
            None => None,
        }
    }

    /// Persists a received batch. Every object's content digest is recomputed
    /// and checked against its declared identifier; on any mismatch the whole
    /// batch is rejected and nothing at all is persisted.
    #[verifier::rlimit(50)]
    pub fn put_batch(&mut self, batch: Vec<IncomingObject>) -> (r: Result<(), GitError>)
        requires
            old(self).wf(),
        ensures
            final(self).wf(),
            r is Ok ==> forall|k: int| 0 <= k < batch@.len() ==> incoming_ok(#[trigger] batch@[k]),
            (exists|k: int| 0 <= k < batch@.len() && !incoming_ok(#[trigger] batch@[k])) ==> r
                is Err,
            batch_valid(batch@) ==> r is Ok,
            r is Ok ==> final(self).contents() == spec_put(old(self).contents(), batch@),
            r is Err ==> r == Err::<(), GitError>(GitError::CorruptObject),
            r is Err ==> final(self).contents() == old(self).contents(),
            forall|id: Seq<u8>|
                store_has(old(self).contents(), id) ==> #[trigger] store_has(
                    final(self).contents(),
                    id,
                ),
            r is Ok ==> forall|k: int|
                0 <= k < batch@.len() ==> store_has(
                    final(self).contents(),
                    (#[trigger] batch@[k]).claimed@,
                ),
            forall|i: int|
                0 <= i < final(self).contents().len() ==> store_has(
                    old(self).contents(),
                    (#[trigger] final(self).contents()[i]).id@,
                ) || exists|k: int|
                    0 <= k < batch@.len() && (#[trigger] batch@[k]).claimed@
                        == final(self).contents()[i].id@ && batch@[k].obj
                        == final(self).contents()[i].obj,
    {
        let ghost batch0: Seq<IncomingObject> = batch@;
        let ghost orig: Seq<StoreEntry> = self.entries@;
        // Validation pass: no mutation happens before every digest checks out.
        let mut k: usize = 0;
        while k < batch.len()
            invariant
                k <= batch@.len(),
                batch@ == batch0,
                self.wf(),
                self.entries@ == old(self).contents(),
                forall|kk: int| 0 <= kk < k ==> incoming_ok(#[trigger] batch@[kk]),
            decreases batch@.len() - k,
        {
            let item = &batch.as_slice()[k];
            let data = encode_object(&item.obj);
            let kc: u8 = kind_code_of(&item.obj);
            match compute_object_id(kc, &data) {
                None => {
                    return Err(GitError::CorruptObject);
                },
                Some(id) => {
                    if !bytes_eq(&id, &item.claimed) {
                        assert(!incoming_ok(batch@[k as int]));
                        return Err(GitError::CorruptObject);
                    }
                },
            }
            k = k + 1;
        }
        // Persisting pass: cannot fail. Items are taken from the end.
        let mut rest = batch;
        proof {
            reveal(spec_put);
            assert(batch0.take(batch0.len() as int) =~= batch0);
            assert(batch0.skip(batch0.len() as int) =~= Seq::<IncomingObject>::empty());
            assert(spec_put(orig, batch0.skip(batch0.len() as int)) == orig);
        }
        while rest.len() > 0
            invariant
                self.wf(),
                orig == old(self).contents(),
                rest@.len() <= batch0.len(),
                rest@ == batch0.take(rest@.len() as int),
                self.entries@ == spec_put(orig, batch0.skip(rest@.len() as int)),
                forall|kk: int| 0 <= kk < batch0.len() ==> incoming_ok(#[trigger] batch0[kk]),
                forall|id: Seq<u8>|
                    store_has(orig, id) ==> #[trigger] store_has(self.entries@, id),
                forall|kk: int|
                    rest@.len() <= kk < batch0.len() ==> store_has(
                        self.entries@,
                        (#[trigger] batch0[kk]).claimed@,
                    ),
                forall|i: int|
                    0 <= i < self.entries@.len() ==> store_has(
                        orig,
                        (#[trigger] self.entries@[i]).id@,
                    ) || exists|kk: int|
                        0 <= kk < batch0.len() && (#[trigger] batch0[kk]).claimed@
                            == self.entries@[i].id@ && batch0[kk].obj == self.entries@[i].obj,
            decreases rest@.len(),
        {
            let ghost n: int = rest@.len() as int;
            proof {
                assert(rest@ == batch0.take(n));
                assert(batch0.take(n)[n - 1] == batch0[n - 1]);
                assert(batch0.take(n).subrange(0, n - 1) =~= batch0.take(n - 1));
            }
            let item = match rest.pop() {
                Some(x) => x,
                None => {
                    proof {
                        assert(false);
                    }
                    return Err(GitError::CorruptObject);
                },
            };
            proof {
                assert(item == batch0[n - 1]);
                assert(incoming_ok(item));
            }
            let ghost pre: Seq<StoreEntry> = self.entries@;
            if !self.contains(&item.claimed) {
                let ghost gitem = item;
                let entry = StoreEntry { id: item.claimed, obj: item.obj };
                proof {
                    assert(entry.id == gitem.claimed && entry.obj == gitem.obj);
                    assert(entry_ok(entry));
                }
                self.entries.push(entry);
                proof {
                    assert(self.entries@ == pre.push(entry));
                    assert(forall|i: int| 0 <= i < pre.len() ==> self.entries@[i] == pre[i]);
                    assert(self.entries@[pre.len() as int] == entry);
                    assert forall|id: Seq<u8>| store_has(pre, id) implies #[trigger] store_has(
                        self.entries@,
                        id,
                    ) by {
                        lemma_store_has_push(pre, entry, id);
                    }
                    assert(store_has(self.entries@, gitem.claimed@));
                }
            } else {
                assert(store_has(self.entries@, item.claimed@));
            }
            proof {
                assert(batch0.skip(n - 1) =~= seq![batch0[n - 1]] + batch0.skip(n));
                lemma_spec_put_cons(orig, batch0[n - 1], batch0.skip(n));
                assert(self.entries@ == add_one(pre, item));
                assert(self.entries@ == spec_put(orig, batch0.skip(n - 1)));
            }
        }
        proof {
            assert(batch0.take(0) =~= Seq::<IncomingObject>::empty());
            assert(batch0.skip(0) =~= batch0);
        }
        Ok(())
    }

    /// The number of stored objects.
    pub fn count(&self) -> (r: usize)
        ensures
            r == self.contents().len(),
    {
        self.entries.len()
    }

    /// Decides whether the store is closed under links.
    pub fn is_closed(&self) -> (r: bool)
        ensures
            r == self.closed(),
    {
        let mut i: usize = 0;
        while i < self.entries.len()
            invariant
                i <= self.entries@.len(),
                forall|ii: int, k: int|
                    #![trigger obj_links(self.entries@[ii].obj)[k]]
                    0 <= ii < i && 0 <= k < obj_links(self.entries@[ii].obj).len() ==> store_has(
                        self.entries@,
                        obj_links(self.entries@[ii].obj)[k],
                    ),
            decreases self.entries@.len() - i,
        {
            let links = links_of(&self.entries.as_slice()[i].obj);
            let mut k: usize = 0;
            while k < links.len()
                invariant
                    k <= links@.len(),
                    0 <= i < self.entries@.len(),
                    links@.len() == obj_links(self.entries@[i as int].obj).len(),
                    forall|kk: int|
                        0 <= kk < links@.len() ==> (#[trigger] links@[kk])@ == obj_links(
                            self.entries@[i as int].obj,
                        )[kk],
                    forall|kk: int|
                        0 <= kk < k ==> store_has(
                            self.entries@,
                            #[trigger] obj_links(self.entries@[i as int].obj)[kk],
                        ),
                decreases links@.len() - k,
            {
                if !self.contains(&links.as_slice()[k]) {
                    assert(!store_has(
                        self.entries@,
                        obj_links(self.entries@[i as int].obj)[k as int],
                    ));
                    return false;
                }
                k = k + 1;
            }
            i = i + 1;
        }
        true
    }
}

/// Some stored object has identifier `a` and refers to `b`.
pub open spec fn linked(s: Seq<StoreEntry>, a: Seq<u8>, b: Seq<u8>) -> bool {
    exists|j: int, k: int|
        #![trigger obj_links(s[j].obj)[k]]
        0 <= j < s.len() && 0 <= k < obj_links(s[j].obj).len() && s[j].id@ == a && obj_links(
            s[j].obj,
        )[k] == b
}

/// Consecutive identifiers in the path are linked: each one names a stored
/// object that refers to the next.
pub open spec fn chain(s: ObjectStore, path: Seq<Seq<u8>>) -> bool {
    forall|i: int|
        0 <= i && i + 1 < path.len() ==> linked(s.contents(), #[trigger] path[i], path[i + 1])
}

proof fn lemma_reach_idx(s: ObjectStore, path: Seq<Seq<u8>>, i: int)
    requires
        s.closed(),
        chain(s, path),
        path.len() > 0,
        s.has(path[0]),
        0 <= i < path.len(),
    ensures
        s.has(path[i]),
    decreases i,
{
    if i > 0 {
        lemma_reach_idx(s, path, i - 1);
        assert(linked(s.contents(), path[i - 1], path[i]));
        let (j, k): (int, int) = choose|j: int, k: int|
            #![trigger obj_links(s.contents()[j].obj)[k]]
            0 <= j < s.contents().len() && 0 <= k < obj_links(s.contents()[j].obj).len()
                && s.contents()[j].id@ == path[i - 1] && obj_links(s.contents()[j].obj)[k]
                == path[i];
        assert(store_has(s.contents(), obj_links(s.contents()[j].obj)[k]));
    }
}

/// Content addressing: each stored object's identifier is the content
/// digest of its kind and canonical bytes, so recomputing the digest of a
/// stored object's bytes always yields its stored identifier.
pub proof fn lemma_content_addressing(s: ObjectStore, i: int)
    requires
        s.wf(),
        0 <= i < s.contents().len(),
    ensures
        s.contents()[i].id@ == oid_of(
            kind_code(s.contents()[i].obj),
            obj_bytes(s.contents()[i].obj),
        ),
{
}

/// Reachability closure: in a well-formed, closed store, every object reached
/// from a present object by following links is itself present.
pub proof fn lemma_reachability_closure(s: ObjectStore, path: Seq<Seq<u8>>)
    requires
        s.closed(),
        chain(s, path),
        path.len() > 0,
        s.has(path[0]),
    ensures
        forall|i: int| 0 <= i < path.len() ==> s.has(#[trigger] path[i]),
{
    assert forall|i: int| 0 <= i < path.len() implies s.has(#[trigger] path[i]) by {
        lemma_reach_idx(s, path, i);
    }
}

} // verus!
