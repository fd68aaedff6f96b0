use vstd::prelude::*;

verus! {

/// The content digest of an object: a function of its kind and payload bytes
/// alone. Identical content always yields the identical identifier.
pub uninterp spec fn oid_of(kind: int, data: Seq<u8>) -> Seq<u8>;

/// Whether the digest computation succeeds on this kind and payload: the
/// collision-detecting hasher examines only the hashed bytes, so its verdict
/// is a function of the arguments alone.
pub uninterp spec fn digest_defined(kind: int, data: Seq<u8>) -> bool;

/// Relies on `gix_object::compute_hash` (re-exported as `gix::objs::compute_hash`):
/// the SHA-1 object digest is computed from the object kind and the payload
/// bytes alone and is 20 bytes long. The collision-detecting hasher refuses
/// deterministically, as a function of the same arguments; its refusal is
/// reported as `None`.
#[verifier::external_body]
pub fn compute_object_id(kind: u8, data: &Vec<u8>) -> (r: Option<Vec<u8>>)
    requires
        1 <= kind <= 3,
    ensures
        r is Some <==> digest_defined(kind as int, data@),
        r matches Some(id) ==> id@ == oid_of(kind as int, data@) && id@.len() == 20,
{
    let k = match kind {
        1 => gix::objs::Kind::Commit,
        2 => gix::objs::Kind::Tree,
        _ => gix::objs::Kind::Blob,
    };
    match gix::objs::compute_hash(gix::hash::Kind::Sha1, k, data.as_slice()) {
        Ok(id) => Some(id.as_slice().to_vec()),
        Err(_) => None,
    }
}

/// Decides equality of two byte vectors.
pub fn bytes_eq(a: &Vec<u8>, b: &Vec<u8>) -> (r: bool)
    ensures
        r == (a@ == b@),
{
    if a.len() != b.len() {
        assert(a@ != b@);
        return false;
    }
    let mut i: usize = 0;
    while i < a.len()
        invariant
            i <= a@.len(),
            a@.len() == b@.len(),
            forall|j: int| 0 <= j < i ==> a@[j] == b@[j],
        decreases a@.len() - i,
    {
        if a[i] != b[i] {
            return false;
        }
        i = i + 1;
    }
    proof {
        assert(a@ =~= b@);
    }
    true
}

/// Copies a byte vector.
pub fn clone_bytes(v: &Vec<u8>) -> (r: Vec<u8>)
    ensures
        r@ == v@,
{
    let mut out: Vec<u8> = Vec::new();
    let mut i: usize = 0;
    while i < v.len()
        invariant
            i <= v@.len(),
            out@ =~= v@.take(i as int),
        decreases v@.len() - i,
    {
        out.push(v[i]);
        i = i + 1;
    }
    proof {
        assert(out@ =~= v@);
    }
    out
}

} // verus!
