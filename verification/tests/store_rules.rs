use coderag::store::{
    file_hashes_path, file_hashes_path_for_read, hash_bytes, hex_lower_exec, legacy_file_hashes_path,
    manifest_root_error, manifest_version_error, snapshot_root_error, snapshot_version_error,
};

#[test]
fn content_hash_is_sha256_hex() {
    assert_eq!(hash_bytes(b"abc"), "ba7816bf8f01cfea414140de5dae2223b00361a396177a9cb410ff61f20015ad");
    assert_eq!(hash_bytes(b""), "e3b0c44298fc1c149afbf4c8996fb92427ae41e4649b934ca495991b7852b855");
    assert_eq!(hash_bytes(b"abc").len(), 64);
}

#[test]
fn hex_is_lower_case_two_digits_per_byte() {
    assert_eq!(hex_lower_exec(&[0x00, 0x0f, 0xa0, 0xff]), "000fa0ff");
    assert_eq!(hex_lower_exec(&[]), "");
}

#[test]
fn hash_manifest_locations() {
    assert_eq!(file_hashes_path("/r"), "/r/.locus/file-hashes.json");
    assert_eq!(legacy_file_hashes_path("/r"), "/r/.coderag/file-hashes.json");
    assert_eq!(file_hashes_path_for_read("/r", true, true), "/r/.locus/file-hashes.json");
    assert_eq!(file_hashes_path_for_read("/r", false, true), "/r/.coderag/file-hashes.json");
    assert_eq!(file_hashes_path_for_read("/r", false, false), "/r/.locus/file-hashes.json");
}

#[test]
fn loaded_snapshots_must_match_version_and_root() {
    assert_eq!(manifest_version_error("0.1.0"), None);
    assert_eq!(
        manifest_version_error("0.2.0").as_deref(),
        Some("HASH_VERSION_MISMATCH: expected 0.1.0, got 0.2.0")
    );
    assert_eq!(manifest_root_error("/a", "/a"), None);
    assert_eq!(
        manifest_root_error("/a", "/b").as_deref(),
        Some("HASH_ROOT_MISMATCH: persisted hash manifest belongs to a different repository root.")
    );
    assert_eq!(snapshot_version_error("0.1.0"), None);
    assert_eq!(
        snapshot_version_error("9").as_deref(),
        Some("INDEX_VERSION_MISMATCH: expected 0.1.0, got 9")
    );
    assert_eq!(snapshot_root_error("/a", "/a"), None);
    assert_eq!(
        snapshot_root_error("/a", "/c").as_deref(),
        Some("INDEX_ROOT_MISMATCH: persisted snapshot belongs to a different repository root.")
    );
}
