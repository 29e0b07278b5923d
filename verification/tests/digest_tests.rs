use consistency::digest::hash_key;
use consistency::digest::is_hashable;
use consistency::digest::MAX_KEY_BYTES;

#[test]
fn hash_key_of_known_inputs() {
    assert_eq!(hash_key("hello world"), "2aae6c35c94fcfb415dbe95f408b9ce91ee846ed");
    assert_eq!(hash_key("abc"), "a9993e364706816aba3e25717850c26c9cd0d89d");
    assert_eq!(hash_key(""), "da39a3ee5e6b4b0d3255bfef95601890afd80709");
}

#[test]
fn hash_key_is_not_the_key() {
    assert_ne!(hash_key("first"), "first");
    assert_eq!(hash_key("first"), "e0996a37c13d44c3b06074939d43fa3759bd32c1");
}

#[test]
fn hash_key_is_stable() {
    let owned = String::from("Foo_0");
    assert_eq!(hash_key("Foo_0"), hash_key(owned.as_str()));
    assert_eq!(hash_key("Foo_0"), "d2b8b6866c645f148033d065842df7f85179e107");
}

#[test]
fn hash_key_is_forty_hex_digits() {
    for key in ["", "a", "Foo_0", "a longer key with spaces", "ключ"] {
        let digest = hash_key(key);
        assert_eq!(digest.len(), 40);
        assert!(digest.chars().all(|c| c.is_ascii_digit() || ('a'..='f').contains(&c)));
    }
}

#[test]
fn ordinary_keys_are_hashable() {
    assert!(is_hashable(""));
    assert!(is_hashable("Foo_0"));
    assert!(is_hashable("ключ"));
    assert!(is_hashable("x".repeat(100_000).as_str()));
}

#[test]
fn digest_limit_is_below_two_to_the_sixty_one() {
    assert_eq!(MAX_KEY_BYTES, (1u64 << 61) - 1);
}
