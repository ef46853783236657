use bswitch::bks::kdf::derive_key;

fn hex(s: &str) -> Vec<u8> {
    (0..s.len() / 2)
        .map(|i| u8::from_str_radix(&s[2 * i..2 * i + 2], 16).unwrap())
        .collect()
}

#[test]
fn mac_key_known_answer() {
    let key = derive_key(3, "test", &[0u8; 16], 1, 20);
    assert_eq!(key, hex("2bfade1ec8352f7f768c6e8b0349881126e66fe1"));
}

#[test]
fn derivation_is_deterministic() {
    let salt = [7u8, 1, 2, 3];
    let a = derive_key(3, "secret", &salt, 5, 20);
    let b = derive_key(3, "secret", &salt, 5, 20);
    assert_eq!(a, b);
    assert_ne!(a, derive_key(3, "secreT", &salt, 5, 20));
    assert_ne!(a, derive_key(1, "secret", &salt, 5, 20));
}

#[test]
fn published_cipher_key_vector() {
    let key = derive_key(1, "smeg", &hex("0A58CF64530D823F"), 1, 24);
    assert_eq!(key, hex("8aaae6297b6cb04642ab5b077851284eb7128f1a2a7fbca3"));
}

#[test]
fn published_iv_vector() {
    let iv = derive_key(2, "smeg", &hex("0A58CF64530D823F"), 1, 8);
    assert_eq!(iv, hex("79993dfe048d3b76"));
}

#[test]
fn published_mac_key_vector() {
    let key = derive_key(3, "smeg", &hex("3D83C0E4546AC140"), 1, 20);
    assert_eq!(key, hex("8d967d88f6caa9d714800ab3d48051d63f73a312"));
}

#[test]
fn several_rounds_carry_into_the_next_block() {
    let key = derive_key(1, "password", &[0, 1, 2, 3, 4, 5, 6, 7], 2, 45);
    assert_eq!(
        key,
        hex("2cf3844c05832e7507a919c3ba388e04a9b3c7f5412852963955b5499086065bbf1f2f3a5b5c7f20fde5b606a2")
    );
}

#[test]
fn empty_password_and_salt_and_no_iterations() {
    let key = derive_key(2, "", &[], 0, 70);
    assert_eq!(
        key,
        hex("6e50ad0ebf03c795364ad4d7d98cf031ada8ae5e8bb28a0e11f5d7d1a5e2033831fec2acbdef8efa073d243a55440e7cbf4dfe1775b832c7eadb633ff5e2c108a52453ce1b1b")
    );
}

#[test]
fn many_iterations() {
    let salt: Vec<u8> = (1..=20).collect();
    let key = derive_key(3, "SwitchBeePrivate", &salt, 2000, 20);
    assert_eq!(key, hex("b0a072df67a49223b9c1cd4ce9cbe00e597c25ac"));
}

#[test]
fn password_outside_the_basic_plane() {
    let key = derive_key(3, "p\u{e9}\u{1F600}", &[0xff; 70], 3, 20);
    assert_eq!(key, hex("6eb4ead6cba8bb3ca875beb92d37a9b6c5c8b0da"));
}

#[test]
fn zero_length_output() {
    assert!(derive_key(3, "x", &[1], 1, 0).is_empty());
}

#[test]
fn shorter_output_is_a_prefix_of_longer() {
    let salt = [3u8, 1, 4, 1, 5];
    let long = derive_key(1, "prefix", &salt, 7, 61);
    for m in [0u32, 1, 19, 20, 21, 40, 60] {
        assert_eq!(derive_key(1, "prefix", &salt, 7, m), long[..m as usize].to_vec());
    }
}
