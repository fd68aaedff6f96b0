use vstd::prelude::*;
use vstd::utf8::{valid_utf8, decode_utf8, encode_utf8};

verus! {

/// The byte prefix of the local-branch namespace, `refs/heads/`.
pub open spec fn local_branch_prefix() -> Seq<u8> {
    seq![114u8, 101u8, 102u8, 115u8, 47u8, 104u8, 101u8, 97u8, 100u8, 115u8, 47u8]
}

/// A fully qualified reference name lies in the local-branch namespace when it
/// extends the `refs/heads/` prefix.
pub open spec fn is_local(name: Seq<u8>) -> bool {
    name.len() > local_branch_prefix().len() && name.subrange(
        0,
        local_branch_prefix().len() as int,
    ) == local_branch_prefix()
}

/// The short (display) form of a local branch name: the name with the
/// namespace prefix stripped.
pub open spec fn short_of(name: Seq<u8>) -> Seq<u8> {
    name.skip(local_branch_prefix().len() as int)
}

/// What a short name displays as: its UTF-8 decoding when the bytes are valid
/// UTF-8, and a lossy replacement text otherwise.
pub open spec fn display_of_short(s: Seq<u8>) -> Seq<char> {
    if valid_utf8(s) {
        decode_utf8(s)
    } else {
        lossy_chars(s)
    }
}

/// The display name of a fully qualified local branch name.
pub open spec fn display_of(name: Seq<u8>) -> Seq<char> {
    display_of_short(short_of(name))
}

/// The replacement text that a lossy UTF-8 decode yields for a byte sequence
/// that is not valid UTF-8; it depends on the bytes alone.
pub uninterp spec fn lossy_chars(b: Seq<u8>) -> Seq<char>;

/// Decides whether a reference name lies in the local-branch namespace.
pub fn is_local_name(name: &[u8]) -> (r: bool)
    ensures
        r == is_local(name@),
{
    if name.len() <= 11 {
        return false;
    }
    let r = name[0] == 114u8 && name[1] == 101u8 && name[2] == 102u8 && name[3] == 115u8 && name[4]
        == 47u8 && name[5] == 104u8 && name[6] == 101u8 && name[7] == 97u8 && name[8] == 100u8
        && name[9] == 115u8 && name[10] == 47u8;
    proof {
        if r {
            assert(name@.subrange(0, 11) =~= local_branch_prefix());
        } else {
            assert(name@.subrange(0, 11)[0] == name@[0]);
            assert(name@.subrange(0, 11)[1] == name@[1]);
            assert(name@.subrange(0, 11)[2] == name@[2]);
            assert(name@.subrange(0, 11)[3] == name@[3]);
            assert(name@.subrange(0, 11)[4] == name@[4]);
            assert(name@.subrange(0, 11)[5] == name@[5]);
            assert(name@.subrange(0, 11)[6] == name@[6]);
            assert(name@.subrange(0, 11)[7] == name@[7]);
            assert(name@.subrange(0, 11)[8] == name@[8]);
            assert(name@.subrange(0, 11)[9] == name@[9]);
            assert(name@.subrange(0, 11)[10] == name@[10]);
        }
    }
    r
}

/// Strips the local-branch namespace prefix from a qualified name.
pub fn shorten_local(name: &[u8]) -> (r: Vec<u8>)
    requires
        is_local(name@),
    ensures
        r@ == short_of(name@),
{
    let mut out: Vec<u8> = Vec::new();
    let mut i: usize = 11;
    while i < name.len()
        invariant
            11 <= i <= name@.len(),
            name@.len() > 11,
            out@ =~= name@.subrange(11, i as int),
        decreases name@.len() - i,
    {
        out.push(name[i]);
        i = i + 1;
    }
    proof {
        assert(out@ =~= name@.skip(11));
    }
    out
}

/// Relies on `str::from_utf8`: it succeeds exactly on valid UTF-8 input, and
/// then returns the text whose characters are the input's UTF-8 decoding and
/// whose encoding is the input itself.
#[verifier::external_body]
fn utf8_decode(b: &[u8]) -> (r: Option<String>)
    ensures
        r is Some <==> valid_utf8(b@),
        r matches Some(s) ==> s@ == decode_utf8(b@) && encode_utf8(s@) == b@,
{
    match core::str::from_utf8(b) {
        Ok(s) => Some(s.to_owned()),
        Err(_) => None,
    }
}

/// Relies on `String::from_utf8_lossy`: the replacement text is a function of
/// the input bytes alone.
#[verifier::external_body]
fn utf8_decode_lossy(b: &[u8]) -> (r: String)
    ensures
        r@ == lossy_chars(b@),
{
    String::from_utf8_lossy(b).into_owned()
}

/// Decodes a short branch name for display: exact UTF-8 when possible, the
/// lossy replacement text otherwise.
pub fn decode_short_name(s: &[u8]) -> (r: String)
    ensures
        r@ == display_of_short(s@),
        valid_utf8(s@) ==> encode_utf8(r@) == s@,
{
    match utf8_decode(s) {
        Some(t) => t,
        None => utf8_decode_lossy(s),
    }
}

} // verus!
