use gitpure::branches::branch_names;
use gitpure::name::{decode_short_name, is_local_name, shorten_local};

fn names(raw: &[&[u8]]) -> Vec<Vec<u8>> {
    raw.iter().map(|r| r.to_vec()).collect()
}

#[test]
fn listing_is_sorted_and_deduplicated() {
    let ns = names(&[
        b"refs/heads/beta",
        b"refs/heads/alpha",
        b"refs/tags/v1",
        b"refs/heads/alpha",
        b"refs/heads/zulu",
    ]);
    let r = branch_names(&ns);
    assert_eq!(r, vec!["alpha".to_string(), "beta".to_string(), "zulu".to_string()]);
}

#[test]
fn listing_ignores_enumeration_order() {
    let a = names(&[b"refs/heads/b", b"refs/heads/a", b"refs/heads/c"]);
    let b = names(&[b"refs/heads/c", b"refs/heads/b", b"refs/heads/a"]);
    assert_eq!(branch_names(&a), branch_names(&b));
}

#[test]
fn listing_empty_without_local_branches() {
    let ns = names(&[b"refs/tags/v1", b"refs/remotes/origin/main"]);
    let r = branch_names(&ns);
    assert!(r.is_empty());
}

#[test]
fn lossy_decoded_duplicates_collapse() {
    // Two distinct raw names whose invalid bytes decode to the same
    // replacement text must appear once.
    let mut n1 = b"refs/heads/x".to_vec();
    n1.push(0xff);
    let mut n2 = b"refs/heads/x".to_vec();
    n2.push(0xfe);
    let r = branch_names(&vec![n1, n2]);
    assert_eq!(r.len(), 1);
    assert_eq!(r[0], "x\u{fffd}");
}

#[test]
fn local_namespace_is_recognized() {
    assert!(is_local_name(b"refs/heads/main"));
    assert!(!is_local_name(b"refs/tags/v1"));
    assert!(!is_local_name(b"refs/heads/"));
    assert!(!is_local_name(b"main"));
}

#[test]
fn shorten_strips_the_namespace_prefix() {
    let s = shorten_local(b"refs/heads/feature/x");
    assert_eq!(s, b"feature/x".to_vec());
}

#[test]
fn decode_keeps_valid_utf8_exactly() {
    let s = decode_short_name("caf\u{e9}".as_bytes());
    assert_eq!(s, "caf\u{e9}");
}
