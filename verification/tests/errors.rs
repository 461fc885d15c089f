use brioche_cache::errors::{AppError, ResourceNotFound};
use brioche_cache::models::HashId;

fn fake_hash_id(n: u64) -> HashId {
    let bytes = n.to_be_bytes();
    let mut hash_bytes = [0; HashId::LEN];
    hash_bytes[(HashId::LEN - bytes.len())..].copy_from_slice(&bytes);
    HashId::from_bytes(hash_bytes)
}

#[test]
fn not_found_messages() {
    let id = fake_hash_id(0x1234);
    let hex = id.to_hex_string();
    assert_eq!(
        ResourceNotFound::Chunk { chunk_id: id }.message(),
        format!("chunk not found in store: {hex}")
    );
    assert_eq!(
        ResourceNotFound::Artifact { artifact_id: id }.message(),
        format!("artifact not found in store: {hex}")
    );
    assert_eq!(
        ResourceNotFound::ProjectSource { project_id: id }.message(),
        format!("project source not found in store: {hex}")
    );
    assert_eq!(
        ResourceNotFound::BakeOutput { recipe_id: id }.message(),
        format!("recipe bake output not found in store: {hex}")
    );
}

#[test]
fn error_status_codes() {
    let store: AppError<&str> = AppError::Store("upstream failed");
    assert_eq!(store.status_code(), 500);
    let missing: AppError<&str> =
        AppError::NotFound(ResourceNotFound::Chunk { chunk_id: fake_hash_id(1) });
    assert_eq!(missing.status_code(), 404);
}
