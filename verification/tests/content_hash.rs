use workdown_core::content_hash::content_hash;

#[test]
fn hash_of_empty_text() {
    assert_eq!(
        content_hash(""),
        "e3b0c44298fc1c149afbf4c8996fb92427ae41e4649b934ca495991b7852b855"
    );
}

#[test]
fn hash_of_known_text() {
    assert_eq!(
        content_hash("abc"),
        "ba7816bf8f01cfea414140de5dae2223b00361a396177a9cb410ff61f20015ad"
    );
}

#[test]
fn hash_is_hex_and_follows_the_bytes() {
    let first = content_hash("fields:\n  title:\n    type: string\n");
    let second = content_hash("fields:\n  title:\n    type: string\n  x:\n    type: date\n");
    assert_eq!(first.len(), 64);
    assert!(first.chars().all(|c| c.is_ascii_hexdigit() && !c.is_ascii_uppercase()));
    assert_ne!(first, second);
    assert_eq!(first, content_hash("fields:\n  title:\n    type: string\n"));
}
