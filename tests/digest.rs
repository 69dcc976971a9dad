use namel3ss_native::sha256::{hash, hash_hex};

#[test]
fn empty_input_digest() {
    assert_eq!(hash_hex(b""), "e3b0c44298fc1c149afbf4c8996fb92427ae41e4649b934ca495991b7852b855");
}

#[test]
fn abc_digest() {
    assert_eq!(hash_hex(b"abc"), "ba7816bf8f01cfea414140de5dae2223b00361a396177a9cb410ff61f20015ad");
    let raw = hash(b"abc");
    assert_eq!(raw[0], 0xba);
    assert_eq!(raw[31], 0xad);
}

#[test]
fn two_block_digest() {
    assert_eq!(
        hash_hex(b"abcdbcdecdefdefgefghfghighijhijkijkljklmklmnlmnomnopnopq"),
        "248d6a61d20638b8e5c026930c3e6039a33ce45964ff2167f6ecedd419db06c1"
    );
}

#[test]
fn embed_check_digest_is_hex() {
    let text = hash_hex(b"embed-check");
    assert_eq!(text.len(), 64);
    assert!(text.chars().all(|c| c.is_ascii_hexdigit() && !c.is_ascii_uppercase()));
}
