use vstd::prelude::*;
use vstd::utf8::{encode_utf8, encode_utf8_decode_utf8};
use crate::name::{is_local, display_of, is_local_name, shorten_local, decode_short_name};
use crate::order::{lex_le, lemma_lex_le_total, lemma_lex_le_refl, lemma_lex_le_trans,
    lemma_lex_le_antisym, bytes_le};

verus! {

/// `d` is the display name of some local branch among `names`.
pub open spec fn listed(names: Seq<Seq<u8>>, d: Seq<char>) -> bool {
    exists|j: int|
        0 <= j < names.len() && is_local(#[trigger] names[j]) && d == display_of(names[j])
}

/// The listing `r` holds an entry displaying as `d`.
pub open spec fn contains_display(r: Seq<String>, d: Seq<char>) -> bool {
    exists|i: int| 0 <= i < r.len() && #[trigger] r[i]@ == d
}

/// The listing is sorted ascending by the byte value of each display name,
/// and no two adjacent entries are equal.
pub open spec fn listing_sorted(r: Seq<String>) -> bool {
    forall|i: int|
        0 <= i && i + 1 < r.len() ==> lex_le(
            encode_utf8(#[trigger] r[i]@),
            encode_utf8(r[i + 1]@),
        ) && r[i]@ != r[i + 1]@
}

/// Every entry of the listing is the display name of some local branch
/// among `names`.
pub open spec fn listing_from(names: Seq<Seq<u8>>, r: Seq<String>) -> bool {
    forall|i: int| 0 <= i < r.len() ==> listed(names, #[trigger] r[i]@)
}

/// The display name of every local branch among `names` appears in the
/// listing.
pub open spec fn listing_covers(names: Seq<Seq<u8>>, r: Seq<String>) -> bool {
    forall|j: int|
        0 <= j < names.len() && is_local(#[trigger] names[j]) ==> contains_display(
            r,
            display_of(names[j]),
        )
}

/// A display name drawn from a prefix of `names` is drawn from any longer
/// prefix as well.
#[verifier::rlimit(100)]
proof fn lemma_listed_take_grow(names: Seq<Seq<u8>>, a: int, b: int, d: Seq<char>)
    requires
        0 <= a <= b <= names.len(),
        listed(names.take(a), d),
    ensures
        listed(names.take(b), d),
{
    let j0 = choose|j0: int|
        0 <= j0 < names.take(a).len() && is_local(#[trigger] names.take(a)[j0]) && d == display_of(
            names.take(a)[j0],
        );
    let nm = names[j0];
    assert(names.take(a)[j0] == nm);
    assert(is_local(nm));
    assert(d == display_of(nm));
    assert(names.take(b)[j0] == nm);
    assert(0 <= j0 < names.take(b).len());
    assert(listed(names.take(b), d));
}

/// Inserts a display name into a listing at its sorted position, keeping the
/// listing sorted and free of adjacent duplicates; an entry equal to one
/// already present is collapsed into it.
fn insert_display(out: &mut Vec<String>, s: String)
    requires
        listing_sorted(old(out)@),
    ensures
        listing_sorted(final(out)@),
        forall|i: int|
            0 <= i < final(out)@.len() ==> #[trigger] final(out)@[i]@ == s@ || contains_display(
                old(out)@,
                final(out)@[i]@,
            ),
        forall|d: Seq<char>| contains_display(old(out)@, d) ==> contains_display(final(out)@, d),
        contains_display(final(out)@, s@),
{
    let ghost key: Seq<u8> = encode_utf8(s@);
    let mut pos: usize = 0;
    loop
        invariant
            key == encode_utf8(s@),
            pos <= out@.len(),
            forall|j: int| 0 <= j < pos ==> !lex_le(key, encode_utf8(#[trigger] out@[j]@)),
        ensures
            pos <= out@.len(),
            forall|j: int| 0 <= j < pos ==> !lex_le(key, encode_utf8(#[trigger] out@[j]@)),
            pos == out@.len() || lex_le(key, encode_utf8(out@[pos as int]@)),
        decreases out@.len() - pos,
    {
        if pos == out.len() {
            break ;
        }
        let entry = &out.as_slice()[pos];
        assert(entry@ == out@[pos as int]@);
        let le = bytes_le(s.as_str().as_bytes(), entry.as_str().as_bytes());
        if le {
            break ;
        }
        pos = pos + 1;
    }
    if pos < out.len() {
        let entry = &out.as_slice()[pos];
        assert(entry@ == out@[pos as int]@);
        if s.eq(entry) {
            // Already present: collapse the duplicate.
            assert(out@[pos as int]@ == s@);
            assert(contains_display(out@, s@));
            assert forall|d: Seq<char>| contains_display(old(out)@, d) implies contains_display(
                out@,
                d,
            ) by {}
            return ;
        }
    }
    proof {
        if pos < out@.len() {
            assert(lex_le(key, encode_utf8(out@[pos as int]@)));
            assert(s@ != out@[pos as int]@);
        }
        if pos > 0 {
            lemma_lex_le_total(key, encode_utf8(out@[pos - 1]@));
            assert(lex_le(encode_utf8(out@[pos - 1]@), key));
            if s@ == out@[pos - 1]@ {
                lemma_lex_le_refl(key);
                assert(false);
            }
        }
        old(out)@.insert_ensures(pos as int, s);
    }
    let ghost prior: Seq<String> = out@;
    out.insert(pos, s);
    proof {
        assert(out@ == prior.insert(pos as int, s));
        assert(forall|i: int| 0 <= i < pos ==> #[trigger] out@[i] == prior[i]);
        assert(forall|i: int| pos < i < out@.len() ==> #[trigger] out@[i] == prior[i - 1]);
        assert(out@[pos as int] == s);
        assert forall|i: int| 0 <= i && i + 1 < out@.len() implies lex_le(
            encode_utf8(#[trigger] out@[i]@),
            encode_utf8(out@[i + 1]@),
        ) && out@[i]@ != out@[i + 1]@ by {
            if i + 1 < pos {
                assert(out@[i] == prior[i]);
                assert(out@[i + 1] == prior[i + 1]);
            } else if i + 1 == pos {
                assert(out@[i] == prior[i]);
                assert(out@[i + 1] == s);
            } else if i == pos {
                assert(out@[i] == s);
                assert(out@[i + 1] == prior[i]);
            } else {
                assert(out@[i] == prior[i - 1]);
                assert(out@[i + 1] == prior[i]);
            }
        }
        assert forall|i: int| 0 <= i < out@.len() implies #[trigger] out@[i]@ == s@
            || contains_display(prior, out@[i]@) by {
            if i < pos {
                assert(out@[i] == prior[i]);
                assert(prior[i]@ == out@[i]@);
            } else if i > pos {
                assert(out@[i] == prior[i - 1]);
                assert(prior[i - 1]@ == out@[i]@);
            }
        }
        assert forall|d: Seq<char>| contains_display(prior, d) implies contains_display(
            out@,
            d,
        ) by {
            let k = choose|k: int| 0 <= k < prior.len() && #[trigger] prior[k]@ == d;
            if k < pos {
                assert(out@[k]@ == d);
            } else {
                assert(out@[k + 1]@ == d);
            }
        }
        assert(out@[pos as int]@ == s@);
    }
}

/// One listing step over a name that is a local branch: inserting its display
/// name keeps the listing's entries exactly the displays of the local
/// branches seen so far.
proof fn lemma_step_local(
    names: Seq<Seq<u8>>,
    j: int,
    before: Seq<String>,
    after: Seq<String>,
    disp: Seq<char>,
)
    requires
        0 <= j < names.len(),
        is_local(names[j]),
        disp == display_of(names[j]),
        listing_from(names.take(j), before),
        listing_covers(names.take(j), before),
        forall|i: int|
            0 <= i < after.len() ==> #[trigger] after[i]@ == disp || contains_display(
                before,
                after[i]@,
            ),
        forall|d: Seq<char>| contains_display(before, d) ==> contains_display(after, d),
        contains_display(after, disp),
    ensures
        listing_from(names.take(j + 1), after),
        listing_covers(names.take(j + 1), after),
{
    let pre = names.take(j);
    let pre2 = names.take(j + 1);
    assert forall|i: int| 0 <= i < after.len() implies listed(pre2, #[trigger] after[i]@) by {
        if after[i]@ == disp {
            assert(pre2[j] == names[j]);
            assert(is_local(pre2[j]) && after[i]@ == display_of(pre2[j]));
        } else {
            let k0 = choose|k0: int| 0 <= k0 < before.len() && #[trigger] before[k0]@ == after[i]@;
            assert(listed(pre, before[k0]@));
            lemma_listed_take_grow(names, j, j + 1, after[i]@);
        }
    }
    assert forall|k: int| 0 <= k < pre2.len() && is_local(
        #[trigger] pre2[k],
    ) implies contains_display(after, display_of(pre2[k])) by {
        assert(pre2[k] == names[k]);
        if k == j {
            assert(display_of(pre2[k]) == disp);
        } else {
            assert(pre[k] == names[k]);
            assert(is_local(pre[k]));
            assert(contains_display(before, display_of(pre[k])));
            assert(contains_display(after, display_of(pre[k])));
        }
    }
}

/// One listing step over a name outside the local-branch namespace: the
/// listing is unchanged and still matches the local branches seen so far.
proof fn lemma_step_other(names: Seq<Seq<u8>>, j: int, r: Seq<String>)
    requires
        0 <= j < names.len(),
        !is_local(names[j]),
        listing_from(names.take(j), r),
        listing_covers(names.take(j), r),
    ensures
        listing_from(names.take(j + 1), r),
        listing_covers(names.take(j + 1), r),
{
    let pre = names.take(j);
    let pre2 = names.take(j + 1);
    assert forall|i: int| 0 <= i < r.len() implies listed(pre2, #[trigger] r[i]@) by {
        assert(listed(pre, r[i]@));
        lemma_listed_take_grow(names, j, j + 1, r[i]@);
    }
    assert forall|k: int| 0 <= k < pre2.len() && is_local(
        #[trigger] pre2[k],
    ) implies contains_display(r, display_of(pre2[k])) by {
        assert(pre2[k] == names[k]);
        assert(k != j);
        assert(pre[k] == names[k]);
        assert(is_local(pre[k]));
        assert(contains_display(r, display_of(pre[k])));
    }
}

/// The views of a vector of byte names.
pub open spec fn views_of(s: Seq<Vec<u8>>) -> Seq<Seq<u8>> {
    Seq::new(s.len(), |i: int| s[i]@)
}

/// Computes the branch listing for a set of fully qualified reference names:
/// the display names of the local branches, sorted ascending by byte value,
/// with adjacent duplicates collapsed.
pub fn branch_names(names: &Vec<Vec<u8>>) -> (r: Vec<String>)
    ensures
        listing_sorted(r@),
        listing_from(views_of(names@), r@),
        listing_covers(views_of(names@), r@),
{
    let ghost nv: Seq<Seq<u8>> = views_of(names@);
    let mut out: Vec<String> = Vec::new();
    let mut j: usize = 0;
    while j < names.len()
        invariant
            j <= names@.len(),
            nv == views_of(names@),
            nv.len() == names@.len(),
            listing_sorted(out@),
            listing_from(nv.take(j as int), out@),
            listing_covers(nv.take(j as int), out@),
        decreases names@.len() - j,
    {
        let nm = &names.as_slice()[j];
        assert(nm@ == nv[j as int]);
        if is_local_name(nm.as_slice()) {
            let short = shorten_local(nm.as_slice());
            let disp = decode_short_name(short.as_slice());
            assert(disp@ == display_of(nv[j as int]));
            let ghost before: Seq<String> = out@;
            insert_display(&mut out, disp);
            proof {
                lemma_step_local(nv, j as int, before, out@, disp@);
            }
        } else {
            proof {
                lemma_step_other(nv, j as int, out@);
            }
        }
        j = j + 1;
    }
    proof {
        assert(nv.take(j as int) =~= nv);
    }
    out
}

/// UTF-8 encoding is injective on character sequences.
proof fn lemma_encode_injective(x: Seq<char>, y: Seq<char>)
    requires
        encode_utf8(x) == encode_utf8(y),
    ensures
        x == y,
{
    encode_utf8_decode_utf8(x);
    encode_utf8_decode_utf8(y);
}

/// In a sorted listing every earlier entry sorts at or before every later
/// one.
proof fn lemma_listing_le(r: Seq<String>, i: int, j: int)
    requires
        listing_sorted(r),
        0 <= i <= j < r.len(),
    ensures
        lex_le(encode_utf8(r[i]@), encode_utf8(r[j]@)),
    decreases j - i,
{
    if i == j {
        lemma_lex_le_refl(encode_utf8(r[i]@));
    } else {
        lemma_listing_le(r, i + 1, j);
        lemma_lex_le_trans(encode_utf8(r[i]@), encode_utf8(r[i + 1]@), encode_utf8(r[j]@));
    }
}

/// In a sorted listing all entries are pairwise distinct.
proof fn lemma_listing_distinct(r: Seq<String>, i: int, j: int)
    requires
        listing_sorted(r),
        0 <= i < j < r.len(),
    ensures
        r[i]@ != r[j]@,
{
    if r[i]@ == r[j]@ {
        lemma_listing_le(r, i + 1, j);
        assert(lex_le(encode_utf8(r[i + 1]@), encode_utf8(r[i]@)));
        lemma_lex_le_antisym(encode_utf8(r[i]@), encode_utf8(r[i + 1]@));
        lemma_encode_injective(r[i]@, r[i + 1]@);
        assert(false);
    }
}

/// Branch listing determinism: any two listings that are sorted ascending,
/// free of adjacent duplicates, and hold the same display names are
/// identical, whatever enumeration order produced each of them.
#[verifier::rlimit(80)]
pub proof fn lemma_listing_unique(a: Seq<String>, b: Seq<String>)
    requires
        listing_sorted(a),
        listing_sorted(b),
        forall|d: Seq<char>| contains_display(a, d) <==> contains_display(b, d),
    ensures
        a.len() == b.len(),
        forall|i: int| 0 <= i < a.len() ==> a[i]@ == b[i]@,
    decreases a.len(),
{
    if a.len() == 0 {
        if b.len() > 0 {
            assert(contains_display(b, b[0]@));
            assert(contains_display(a, b[0]@));
            assert(false);
        }
    } else if b.len() == 0 {
        assert(contains_display(a, a[0]@));
        assert(contains_display(b, a[0]@));
        assert(false);
    } else {
        assert(contains_display(a, a[0]@));
        assert(contains_display(b, a[0]@));
        let j = choose|i: int| 0 <= i < b.len() && #[trigger] b[i]@ == a[0]@;
        lemma_listing_le(b, 0, j);
        assert(lex_le(encode_utf8(b[0]@), encode_utf8(a[0]@)));
        assert(contains_display(b, b[0]@));
        assert(contains_display(a, b[0]@));
        let j2 = choose|i: int| 0 <= i < a.len() && #[trigger] a[i]@ == b[0]@;
        lemma_listing_le(a, 0, j2);
        assert(lex_le(encode_utf8(a[0]@), encode_utf8(b[0]@)));
        lemma_lex_le_antisym(encode_utf8(a[0]@), encode_utf8(b[0]@));
        lemma_encode_injective(a[0]@, b[0]@);
        assert(a[0]@ == b[0]@);
        let ta = a.skip(1);
        let tb = b.skip(1);
        assert(forall|k: int| 0 <= k < ta.len() ==> #[trigger] ta[k] == a[k + 1]);
        assert(forall|k: int| 0 <= k < tb.len() ==> #[trigger] tb[k] == b[k + 1]);
        assert(listing_sorted(ta));
        assert(listing_sorted(tb));
        assert forall|d: Seq<char>| contains_display(ta, d) implies contains_display(tb, d) by {
            let i0 = choose|i0: int| 0 <= i0 < ta.len() && #[trigger] ta[i0]@ == d;
            assert(a[i0 + 1]@ == d);
            assert(contains_display(a, d));
            assert(contains_display(b, d));
            let jj = choose|jj: int| 0 <= jj < b.len() && #[trigger] b[jj]@ == d;
            if jj == 0 {
                lemma_listing_distinct(a, 0, i0 + 1);
                assert(false);
            }
            assert(tb[jj - 1]@ == d);
        }
        assert forall|d: Seq<char>| contains_display(tb, d) implies contains_display(ta, d) by {
            let i0 = choose|i0: int| 0 <= i0 < tb.len() && #[trigger] tb[i0]@ == d;
            assert(b[i0 + 1]@ == d);
            assert(contains_display(b, d));
            assert(contains_display(a, d));
            let jj = choose|jj: int| 0 <= jj < a.len() && #[trigger] a[jj]@ == d;
            if jj == 0 {
                lemma_listing_distinct(b, 0, i0 + 1);
                assert(false);
            }
            assert(ta[jj - 1]@ == d);
        }
        lemma_listing_unique(ta, tb);
        assert forall|i: int| 0 <= i < a.len() implies a[i]@ == b[i]@ by {
            if i > 0 {
                assert(ta[i - 1]@ == tb[i - 1]@);
            }
        }
    }
}

} // verus!
