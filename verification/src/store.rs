//! Snapshot files: where the index and the file hashes live, which copy is
//! read, content hashes, and the checks a loaded snapshot must pass.

use sha2::Digest;
use vstd::prelude::*;

use crate::index::{join_path, join_path_exec};
use crate::text::{concat, push_char, push_str, str_eq};

verus! {

/// The schema version written into and required of an index snapshot.
pub open spec fn index_schema_version() -> Seq<char> {
    "0.1.0"@
}

/// The schema version written into and required of a hash manifest.
pub open spec fn file_hash_schema_version() -> Seq<char> {
    "0.1.0"@
}

/// The persisted file hashes of a repository root.
#[derive(Debug, Clone, PartialEq, Eq)]
pub struct FileHashManifest {
    pub schema_version: String,
    pub root: String,
    /// Repository-relative path and content hash of each indexed file.
    pub file_hashes: Vec<(String, String)>,
}

// ---------------------------------------------------------------------------
// Paths
// ---------------------------------------------------------------------------

/// The hash manifest under a root: `<root>/.locus/file-hashes.json`.
pub fn file_hashes_path(root: &str) -> (res: String)
    ensures
        res@ == join_path(join_path(root@, ".locus"@), "file-hashes.json"@),
{
    let dir = join_path_exec(root, ".locus");
    join_path_exec(dir.as_str(), "file-hashes.json")
}

/// The older hash manifest location: `<root>/.coderag/file-hashes.json`.
pub fn legacy_file_hashes_path(root: &str) -> (res: String)
    ensures
        res@ == join_path(join_path(root@, ".coderag"@), "file-hashes.json"@),
{
    let dir = join_path_exec(root, ".coderag");
    join_path_exec(dir.as_str(), "file-hashes.json")
}

/// The hash manifest to read: the current location when the index snapshot
/// exists; otherwise the older location when a manifest exists there;
/// otherwise the current location.
pub fn file_hashes_path_for_read(root: &str, index_exists: bool, legacy_exists: bool) -> (res: String)
    ensures
        res@ == if !index_exists && legacy_exists {
            join_path(join_path(root@, ".coderag"@), "file-hashes.json"@)
        } else {
            join_path(join_path(root@, ".locus"@), "file-hashes.json"@)
        },
{
    if index_exists {
        return file_hashes_path(root);
    }
    if legacy_exists {
        return legacy_file_hashes_path(root);
    }
    file_hashes_path(root)
}

// ---------------------------------------------------------------------------
// Content hashes (outside crate)
// ---------------------------------------------------------------------------

/// The SHA-256 digest of `data`, as `sha2::Sha256::digest` computes it.
pub uninterp spec fn sha256(data: Seq<u8>) -> Seq<u8>;

/// Calls `sha2::Sha256::digest`. The digest is named ([`sha256`]), not
/// stated; that it has 32 bytes is what SHA-256 defines.
#[verifier::external_body]
fn sha256_digest(data: &[u8]) -> (res: Vec<u8>)
    ensures
        res@ == sha256(data@),
        res@.len() == 32,
{
    sha2::Sha256::digest(data).to_vec()
}

/// A lower-case hexadecimal digit.
pub open spec fn hex_digit(n: u8) -> char {
    if n < 10 {
        ((n + 48) as u32) as char
    } else {
        ((n + 87) as u32) as char
    }
}

/// Bytes as lower-case hexadecimal, two digits per byte.
pub open spec fn hex_lower(b: Seq<u8>) -> Seq<char>
    decreases b.len(),
{
    if b.len() == 0 {
        seq![]
    } else {
        hex_lower(b.drop_last()) + seq![hex_digit(b.last() / 16), hex_digit(b.last() % 16)]
    }
}

fn hex_digit_exec(n: u8) -> (res: char)
    requires
        n < 16,
    ensures
        res == hex_digit(n),
{
    if n < 10 {
        let c: u8 = n + 48;
        c as char
    } else {
        let c: u8 = n + 87;
        c as char
    }
}

/// Lower-case hexadecimal of `b`.
pub fn hex_lower_exec(b: &[u8]) -> (res: String)
    ensures
        res@ == hex_lower(b@),
{
    let mut out = String::new();
    let mut i: usize = 0;
    assert(b@.take(0) =~= Seq::<u8>::empty());
    while i < b.len()
        invariant
            0 <= i <= b@.len(),
            out@ == hex_lower(b@.take(i as int)),
        decreases b@.len() - i,
    {
        assert(b@.take(i + 1).drop_last() =~= b@.take(i as int));
        assert(b@.take(i + 1).last() == b@[i as int]);
        let x = b[i];
        push_char(&mut out, hex_digit_exec(x / 16));
        push_char(&mut out, hex_digit_exec(x % 16));
        assert(out@ =~= hex_lower(b@.take(i + 1)));
        i += 1;
    }
    assert(b@.take(i as int) =~= b@);
    out
}

/// The content hash of a file's bytes: SHA-256, as 64 lower-case
/// hexadecimal digits.
pub fn hash_bytes(data: &[u8]) -> (res: String)
    ensures
        res@ == hex_lower(sha256(data@)),
{
    let digest = sha256_digest(data);
    hex_lower_exec(digest.as_slice())
}

// ---------------------------------------------------------------------------
// Checks on loaded snapshots
// ---------------------------------------------------------------------------

/// The error for a manifest of another schema version, if it is one.
pub fn manifest_version_error(schema_version: &str) -> (res: Option<String>)
    ensures
        match res {
            None => schema_version@ == file_hash_schema_version(),
            Some(m) => schema_version@ != file_hash_schema_version() && m@
                == "HASH_VERSION_MISMATCH: expected 0.1.0, got "@ + schema_version@,
        },
{
    if str_eq(schema_version, "0.1.0") {
        None
    } else {
        Some(concat("HASH_VERSION_MISMATCH: expected 0.1.0, got ", schema_version))
    }
}

/// The error for a manifest of another root, if it is one.
pub fn manifest_root_error(root: &str, canonical_root: &str) -> (res: Option<String>)
    ensures
        match res {
            None => root@ == canonical_root@,
            Some(m) => root@ != canonical_root@ && m@
                == "HASH_ROOT_MISMATCH: persisted hash manifest belongs to a different repository root."@,
        },
{
    if str_eq(root, canonical_root) {
        None
    } else {
        Some("HASH_ROOT_MISMATCH: persisted hash manifest belongs to a different repository root.".to_owned())
    }
}

/// The error for an index snapshot of another schema version, if it is one.
pub fn snapshot_version_error(schema_version: &str) -> (res: Option<String>)
    ensures
        match res {
            None => schema_version@ == index_schema_version(),
            Some(m) => schema_version@ != index_schema_version() && m@
                == "INDEX_VERSION_MISMATCH: expected 0.1.0, got "@ + schema_version@,
        },
{
    if str_eq(schema_version, "0.1.0") {
        None
    } else {
        Some(concat("INDEX_VERSION_MISMATCH: expected 0.1.0, got ", schema_version))
    }
}

/// The error for an index snapshot of another root, if it is one.
pub fn snapshot_root_error(root: &str, canonical_root: &str) -> (res: Option<String>)
    ensures
        match res {
            None => root@ == canonical_root@,
            Some(m) => root@ != canonical_root@ && m@
                == "INDEX_ROOT_MISMATCH: persisted snapshot belongs to a different repository root."@,
        },
{
    if str_eq(root, canonical_root) {
        None
    } else {
        Some("INDEX_ROOT_MISMATCH: persisted snapshot belongs to a different repository root.".to_owned())
    }
}

} // verus!
