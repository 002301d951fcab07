use orchestration::lineage_spawning::{hashes_match, parent_signature};

#[test]
fn parent_signature_shows_the_first_four_hash_bytes_in_hex() {
    let mut hash = [0u8; 32];
    hash[0] = 0x0a;
    hash[1] = 0xff;
    hash[2] = 0x10;
    hash[3] = 0x01;
    hash[4] = 0x99;
    assert_eq!(parent_signature("root", &hash), format!("sig_parent_root_{:02x?}", &hash[..4]));
    assert_eq!(parent_signature("root", &hash), "sig_parent_root_[0a, ff, 10, 01]");
}

#[test]
fn hashes_match_only_when_every_byte_agrees() {
    let parent = [7u8; 32];
    assert!(hashes_match(&parent, &parent));
    let mut drifted = parent;
    drifted[31] = 8;
    assert!(!hashes_match(&drifted, &parent));
    let mut drifted_first = parent;
    drifted_first[0] = 0;
    assert!(!hashes_match(&drifted_first, &parent));
}
