use clippy_sync::attachments::{assemble, Content};
use clippy_sync::files::{
    is_hash, manifest, sha256_hex, validate_manifest, verify_chunk, verify_reconstructed,
    ChunkDescriptor, FileManifest,
};
use clippy_sync::store::StoreError;
use clippy_sync::textmap::TextMap;

fn pieces(bytes: &[u8], size: usize) -> Vec<Vec<u8>> {
    bytes.chunks(size).map(|piece| piece.to_vec()).collect()
}

#[test]
fn manifest_supports_resume_and_integrity_checks() {
    let result = manifest(&pieces(b"abcdefghij", 4), 4).unwrap();
    assert_eq!(result.size, 10);
    assert_eq!(result.chunks.len(), 3);
    assert!(verify_chunk(&result.chunks[0].sha256, b"abcd"));
    assert!(!verify_chunk(&result.chunks[0].sha256, b"abce"));
    assert!(verify_reconstructed(&result, b"abcdefghij"));
}

#[test]
fn a_file_is_known_by_its_digest() {
    assert_eq!(
        sha256_hex(b"abc"),
        "ba7816bf8f01cfea414140de5dae2223b00361a396177a9cb410ff61f20015ad"
    );
    assert!(!verify_chunk("ba7816", b"abc"));
}

#[test]
fn reading_ends_at_the_first_empty_read() {
    let reads = vec![b"ab".to_vec(), Vec::new(), b"cd".to_vec()];
    let result = manifest(&reads, 2).unwrap();
    assert_eq!(result.size, 2);
    assert_eq!(result.chunks.len(), 1);
}

#[test]
fn a_chunk_size_of_zero_has_no_manifest() {
    assert!(manifest(&pieces(b"abc", 3), 0).is_none());
    assert!(manifest(&pieces(b"abc", 3), u32::MAX as usize + 1).is_none());
    let whole = manifest(&pieces(b"abc", 3), u32::MAX as usize).unwrap();
    assert_eq!(whole.chunk_size, u32::MAX);
}

#[test]
fn an_evenly_cut_file_has_a_valid_manifest() {
    let made = manifest(&pieces(&[7; 1000], 64), 64).unwrap();
    assert!(validate_manifest(&made));
    let empty = manifest(&[], 64).unwrap();
    assert!(validate_manifest(&empty));
}

#[test]
fn manifests_that_do_not_add_up_are_refused() {
    let made = manifest(&pieces(b"abcdefghij", 4), 4).unwrap();
    assert!(validate_manifest(&made));
    let broken = |change: &dyn Fn(&mut FileManifest)| {
        let mut copy = made.clone();
        change(&mut copy);
        validate_manifest(&copy)
    };
    assert!(!broken(&|m| m.schema_version = 2));
    assert!(!broken(&|m| m.size = 11));
    assert!(!broken(&|m| m.size = 0));
    assert!(!broken(&|m| m.chunk_size = 0));
    assert!(!broken(&|m| m.chunk_size = 1_048_577));
    assert!(!broken(&|m| m.file_sha256 = "x".repeat(64)));
    assert!(!broken(&|m| m.chunks[0].size = 3));
    assert!(!broken(&|m| m.chunks[2].size = 0));
    assert!(!broken(&|m| m.chunks[1].sha256 = "AB".repeat(32)));
    assert!(!broken(&|m| {
        m.chunks.pop();
    }));
    assert!(!broken(&|m| m.chunks.push(ChunkDescriptor {
        sha256: "a".repeat(64),
        size: 1,
    })));
    assert!(!broken(&|m| m.size = 262_144_001));
}

#[test]
fn hashes_are_sixty_four_small_hexadecimal_digits() {
    assert!(is_hash(&"0123456789abcdef".repeat(4)));
    assert!(!is_hash(&"0123456789ABCDEF".repeat(4)));
    assert!(!is_hash(&"0".repeat(63)));
    assert!(!is_hash(&"é".repeat(32)));
}

#[test]
fn a_cut_file_comes_back_whole() {
    let bytes = b"the quick brown fox";
    let cut = pieces(bytes, 4);
    let made = manifest(&cut, 4).unwrap();
    let mut contents: TextMap<Content> = TextMap::new();
    for piece in &cut {
        contents.insert(sha256_hex(piece), Content(piece.clone()));
    }
    assert_eq!(assemble(&made, &contents), Ok(bytes.to_vec()));
    contents.insert(sha256_hex(&cut[1]), Content(b"hick".to_vec()));
    assert_eq!(assemble(&made, &contents), Err(StoreError::InvalidPayload));
}
