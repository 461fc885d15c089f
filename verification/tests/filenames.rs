use brioche_cache::filename::{ArtifactFilename, ChunkFilename, FilenameError};
use brioche_cache::models::{HashId, HashIdError};

fn fake_hash_id(n: u64) -> HashId {
    let bytes = n.to_be_bytes();
    let mut hash_bytes = [0; HashId::LEN];
    hash_bytes[(HashId::LEN - bytes.len())..].copy_from_slice(&bytes);
    HashId::from_bytes(hash_bytes)
}

#[test]
fn chunk_filename_parses() {
    let id = fake_hash_id(0x1234);
    let name = format!("{}.zst", id.to_hex_string());
    assert_eq!(ChunkFilename::parse(&name), Ok(ChunkFilename::Zst { chunk_id: id }));
}

#[test]
fn chunk_filename_roundtrip() {
    let name = ChunkFilename::Zst { chunk_id: fake_hash_id(42) };
    let text = name.to_filename_string();
    assert_eq!(
        text,
        "000000000000000000000000000000000000000000000000000000000000002a.zst"
    );
    assert_eq!(ChunkFilename::parse(&text), Ok(name));
}

#[test]
fn chunk_filename_needs_suffix() {
    let id = fake_hash_id(1);
    assert_eq!(
        ChunkFilename::parse(&id.to_hex_string()),
        Err(FilenameError::WrongSuffix)
    );
    assert_eq!(
        ChunkFilename::parse(&format!("{}.bar", id.to_hex_string())),
        Err(FilenameError::WrongSuffix)
    );
}

#[test]
fn chunk_filename_needs_a_hash() {
    assert_eq!(
        ChunkFilename::parse("abc.zst"),
        Err(FilenameError::InvalidHashId(HashIdError::WrongLength { expected: 64, actual: 3 }))
    );
}

#[test]
fn artifact_filename_parses_and_roundtrips() {
    let id = fake_hash_id(0x1111);
    let text = format!("{}.bar.zst", id.to_hex_string());
    let name = ArtifactFilename::parse(&text).unwrap();
    assert_eq!(name, ArtifactFilename::BarZst { artifact_id: id });
    assert_eq!(name.to_filename_string(), text);
}

#[test]
fn artifact_filename_needs_full_suffix() {
    let id = fake_hash_id(0x1111);
    // A chunk name ends in ".zst" but not in ".bar.zst".
    assert_eq!(
        ArtifactFilename::parse(&format!("{}.zst", id.to_hex_string())),
        Err(FilenameError::WrongSuffix)
    );
    // With ".bar.zst" stripped from a chunk-like name, what is left is too short.
    assert_eq!(
        ArtifactFilename::parse("0123.bar.zst"),
        Err(FilenameError::InvalidHashId(HashIdError::WrongLength { expected: 64, actual: 4 }))
    );
}
