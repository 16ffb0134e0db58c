use verkey_builder::build_full_verkey;
use verkey_builder::decode;
use verkey_builder::encode;

#[test]
fn cryptonym_returns_did() {
    let r = build_full_verkey("6LEHigQ4GfL7WBUi9vApre", None).unwrap();
    assert_eq!(r, "6LEHigQ4GfL7WBUi9vApre");
}

#[test]
fn plain_verkey_returns_itself() {
    let r = build_full_verkey("6LEHigQ4GfL7WBUi9vApre", Some("GJ1SzoWzavQYfNL9XkaJdrQejfztN4XqdsiV4ct3LXKL")).unwrap();
    assert_eq!(r, "GJ1SzoWzavQYfNL9XkaJdrQejfztN4XqdsiV4ct3LXKL");
}

#[test]
fn empty_verkey_returns_empty() {
    let r = build_full_verkey("6LEHigQ4GfL7WBUi9vApre", Some("")).unwrap();
    assert_eq!(r, "");
}

#[test]
fn typed_verkey_keeps_tag() {
    let r = build_full_verkey("6LEHigQ4GfL7WBUi9vApre", Some("abc:ed25519")).unwrap();
    assert_eq!(r, "abc:ed25519");
}

#[test]
fn second_colon_discards_the_rest() {
    let r = build_full_verkey("6LEHigQ4GfL7WBUi9vApre", Some("abc:ed25519:extra")).unwrap();
    assert_eq!(r, "abc:ed25519");
}

#[test]
fn colon_alone_splits_into_empty_parts() {
    let r = build_full_verkey("6LEHigQ4GfL7WBUi9vApre", Some(":")).unwrap();
    assert_eq!(r, ":");
}

#[test]
fn abbreviated_verkey_expands() {
    let did = "6LEHigQ4GfL7WBUi9vApre";
    let tail = "XXXXXXXXXXXXXXXXXXXXXX";
    let mut cat = decode(did).unwrap();
    cat.extend(decode(tail).unwrap());
    let expected = encode(&cat);
    let r = build_full_verkey(did, Some("~XXXXXXXXXXXXXXXXXXXXXX")).unwrap();
    assert_eq!(r, expected);
}

#[test]
fn abbreviated_verkey_with_tag_expands_and_keeps_tag() {
    let did = "6LEHigQ4GfL7WBUi9vApre";
    let tail = "XXXXXXXXXXXXXXXXXXXXXX";
    let mut cat = decode(did).unwrap();
    cat.extend(decode(tail).unwrap());
    let expected = format!("{}:ed25519", encode(&cat));
    let r = build_full_verkey(did, Some("~XXXXXXXXXXXXXXXXXXXXXX:ed25519")).unwrap();
    assert_eq!(r, expected);
}

#[test]
fn marker_alone_resolves_to_did_bytes() {
    let did = "2g";
    let expected = encode(&decode(did).unwrap());
    let r = build_full_verkey(did, Some("~")).unwrap();
    assert_eq!(r, expected);
    assert_eq!(r, "2g");
}

#[test]
fn marker_in_tag_is_not_expanded() {
    // expansion looks at the key part only, after the tag is split off
    let r = build_full_verkey("6LEHigQ4GfL7WBUi9vApre", Some("abc:~tag")).unwrap();
    assert_eq!(r, "abc:~tag");
}

#[test]
fn invalid_tail_fails() {
    assert!(build_full_verkey("6LEHigQ4GfL7WBUi9vApre", Some("~0IOl")).is_err());
}

#[test]
fn invalid_did_fails() {
    assert!(build_full_verkey("0IOl", Some("~abc")).is_err());
}

#[test]
fn invalid_did_without_marker_is_kept_as_is() {
    // the DID is only decoded when the key part is abbreviated
    let r = build_full_verkey("0IOl", Some("abc")).unwrap();
    assert_eq!(r, "abc");
}
