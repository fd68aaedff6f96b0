use vstd::prelude::*;
use crate::oid::clone_bytes;

verus! {

/// How a tree entry is materialized in a working tree.
#[derive(Clone, Copy, PartialEq, Eq, Structural, Debug)]
pub enum EntryMode {
    Regular,
    Executable,
    Symlink,
    Subtree,
}

/// One entry of a tree object: a name, a materialization mode and the
/// identifier of the entry's target object.
pub struct TreeEntry {
    pub mode: EntryMode,
    pub name: Vec<u8>,
    pub target: Vec<u8>,
}

/// An object of the store: a commit, a tree or a blob. All three are
/// immutable values identified by the digest of their canonical bytes.
pub enum Object {
    Commit { tree: Vec<u8>, parents: Vec<Vec<u8>>, meta: Vec<u8> },
    Tree { entries: Vec<TreeEntry> },
    Blob { data: Vec<u8> },
}

/// The kind code an object is hashed under.
pub open spec fn kind_code(o: Object) -> int {
    match o {
        Object::Commit { .. } => 1,
        Object::Tree { .. } => 2,
        Object::Blob { .. } => 3,
    }
}

/// Eight little-endian bytes of a length.
pub open spec fn le64(n: nat) -> Seq<u8> {
    seq![
        (n % 256) as u8,
        ((n / 256) % 256) as u8,
        ((n / 65536) % 256) as u8,
        ((n / 16777216) % 256) as u8,
        ((n / 4294967296) % 256) as u8,
        ((n / 1099511627776) % 256) as u8,
        ((n / 281474976710656) % 256) as u8,
        ((n / 72057594037927936) % 256) as u8,
    ]
}

/// The byte code of an entry mode in the canonical tree encoding.
pub open spec fn mode_code(m: EntryMode) -> u8 {
    match m {
        EntryMode::Regular => 1,
        EntryMode::Executable => 2,
        EntryMode::Symlink => 3,
        EntryMode::Subtree => 4,
    }
}

/// The canonical bytes of one tree entry.
pub open spec fn entry_bytes(e: TreeEntry) -> Seq<u8> {
    seq![mode_code(e.mode)] + le64(e.name@.len()) + e.name@ + e.target@
}

/// The canonical bytes of a sequence of tree entries.
pub open spec fn entries_bytes(s: Seq<TreeEntry>) -> Seq<u8>
    decreases s.len(),
{
    if s.len() == 0 {
        Seq::empty()
    } else {
        entries_bytes(s.drop_last()) + entry_bytes(s.last())
    }
}

/// The concatenated bytes of a sequence of identifiers.
pub open spec fn ids_bytes(s: Seq<Vec<u8>>) -> Seq<u8>
    decreases s.len(),
{
    if s.len() == 0 {
        Seq::empty()
    } else {
        ids_bytes(s.drop_last()) + s.last()@
    }
}

/// The canonical bytes of an object: the content that its identifier is the
/// digest of.
pub open spec fn obj_bytes(o: Object) -> Seq<u8> {
    match o {
        Object::Blob { data } => data@,
        Object::Tree { entries } => entries_bytes(entries@),
        Object::Commit { tree, parents, meta } => tree@ + le64(parents@.len()) + ids_bytes(
            parents@,
        ) + meta@,
    }
}

/// The identifiers an object refers to: a commit refers to its tree and its
/// parents, a tree to each entry's target, a blob to nothing.
pub open spec fn obj_links(o: Object) -> Seq<Seq<u8>> {
    match o {
        Object::Commit { tree, parents, .. } => seq![tree@] + Seq::new(
            parents@.len(),
            |i: int| parents@[i]@,
        ),
        Object::Tree { entries } => Seq::new(entries@.len(), |i: int| entries@[i].target@),
        Object::Blob { .. } => Seq::empty(),
    }
}

/// The kind code an object is hashed under.
pub fn kind_code_of(o: &Object) -> (r: u8)
    ensures
        r as int == kind_code(*o),
{
    match o {
        Object::Commit { .. } => 1,
        Object::Tree { .. } => 2,
        Object::Blob { .. } => 3,
    }
}

/// Appends the eight little-endian bytes of `n`.
fn push_le64(out: &mut Vec<u8>, n: u64)
    ensures
        final(out)@ == old(out)@ + le64(n as nat),
{
    out.push((n % 256) as u8);
    out.push(((n / 256) % 256) as u8);
    out.push(((n / 65536) % 256) as u8);
    out.push(((n / 16777216) % 256) as u8);
    out.push(((n / 4294967296) % 256) as u8);
    out.push(((n / 1099511627776) % 256) as u8);
    out.push(((n / 281474976710656) % 256) as u8);
    out.push(((n / 72057594037927936) % 256) as u8);
    proof {
        assert(out@ =~= old(out)@ + le64(n as nat));
    }
}

/// Appends a byte vector.
fn push_bytes(out: &mut Vec<u8>, b: &Vec<u8>)
    ensures
        final(out)@ == old(out)@ + b@,
{
    let mut i: usize = 0;
    while i < b.len()
        invariant
            i <= b@.len(),
            out@ =~= old(out)@ + b@.take(i as int),
        decreases b@.len() - i,
    {
        out.push(b[i]);
        proof {
            assert(out@ =~= old(out)@ + b@.take(i + 1));
        }
        i = i + 1;
    }
    proof {
        assert(out@ =~= old(out)@ + b@);
    }
}

/// Computes the canonical bytes of an object.
pub fn encode_object(o: &Object) -> (r: Vec<u8>)
    ensures
        r@ == obj_bytes(*o),
{
    match o {
        Object::Blob { data } => clone_bytes(data),
        Object::Tree { entries } => {
            let mut out: Vec<u8> = Vec::new();
            let mut i: usize = 0;
            while i < entries.len()
                invariant
                    i <= entries@.len(),
                    out@ == entries_bytes(entries@.take(i as int)),
                decreases entries@.len() - i,
            {
                let e = &entries.as_slice()[i];
                out.push(mode_code_of(e.mode));
                push_le64(&mut out, e.name.len() as u64);
                push_bytes(&mut out, &e.name);
                push_bytes(&mut out, &e.target);
                proof {
                    let pre = entries@.take(i as int);
                    let pre2 = entries@.take(i + 1);
                    assert(pre2.drop_last() =~= pre);
                    assert(pre2.last() == entries@[i as int]);
                    assert(out@ =~= entries_bytes(pre) + entry_bytes(entries@[i as int]));
                }
                i = i + 1;
            }
            proof {
                assert(entries@.take(i as int) =~= entries@);
            }
            out
        },
        Object::Commit { tree, parents, meta } => {
            let mut out: Vec<u8> = Vec::new();
            push_bytes(&mut out, tree);
            push_le64(&mut out, parents.len() as u64);
            let ghost head: Seq<u8> = tree@ + le64(parents@.len());
            assert(out@ =~= head);
            let mut i: usize = 0;
            while i < parents.len()
                invariant
                    i <= parents@.len(),
                    head == tree@ + le64(parents@.len()),
                    out@ == head + ids_bytes(parents@.take(i as int)),
                decreases parents@.len() - i,
            {
                proof {
                    assert(out@ =~= head + ids_bytes(parents@.take(i as int)));
                }
                let p = &parents.as_slice()[i];
                push_bytes(&mut out, p);
                proof {
                    let pre = parents@.take(i as int);
                    let pre2 = parents@.take(i + 1);
                    assert(pre2.drop_last() =~= pre);
                    assert(pre2.last() == parents@[i as int]);
                    assert(out@ =~= head + (ids_bytes(pre) + parents@[i as int]@));
                    assert(out@ =~= head + ids_bytes(pre2));
                }
                i = i + 1;
            }
            push_bytes(&mut out, meta);
            proof {
                assert(parents@.take(i as int) =~= parents@);
                assert(out@ =~= tree@ + le64(parents@.len()) + ids_bytes(parents@) + meta@);
            }
            out
        },
    }
}

/// The byte code of an entry mode in the canonical tree encoding.
fn mode_code_of(m: EntryMode) -> (r: u8)
    ensures
        r == mode_code(m),
{
    match m {
        EntryMode::Regular => 1,
        EntryMode::Executable => 2,
        EntryMode::Symlink => 3,
        EntryMode::Subtree => 4,
    }
}

/// Collects the identifiers an object refers to.
pub fn links_of(o: &Object) -> (r: Vec<Vec<u8>>)
    ensures
        r@.len() == obj_links(*o).len(),
        forall|i: int| 0 <= i < r@.len() ==> #[trigger] r@[i]@ == obj_links(*o)[i],
{
    match o {
        Object::Blob { .. } => Vec::new(),
        Object::Tree { entries } => {
            let mut out: Vec<Vec<u8>> = Vec::new();
            let mut i: usize = 0;
            while i < entries.len()
                invariant
                    i <= entries@.len(),
                    out@.len() == i,
                    forall|k: int| 0 <= k < i ==> #[trigger] out@[k]@ == entries@[k].target@,
                decreases entries@.len() - i,
            {
                let e = &entries.as_slice()[i];
                out.push(clone_bytes(&e.target));
                i = i + 1;
            }
            out
        },
        Object::Commit { tree, parents, .. } => {
            let mut out: Vec<Vec<u8>> = Vec::new();
            out.push(clone_bytes(tree));
            let mut i: usize = 0;
            while i < parents.len()
                invariant
                    i <= parents@.len(),
                    out@.len() == i + 1,
                    out@[0]@ == tree@,
                    forall|k: int| 1 <= k < i + 1 ==> #[trigger] out@[k]@ == parents@[k - 1]@,
                decreases parents@.len() - i,
            {
                let p = &parents.as_slice()[i];
                out.push(clone_bytes(p));
                i = i + 1;
            }
            out
        },
    }
}

} // verus!
