use brioche_cache::cache::{Lookup, ResourceCache, ValueCache};
use brioche_cache::cache_store::{
    bake_output_key, cache_file_budget, plan_soft_limit, project_source_key,
    CacheResourceId, CacheSetupError, CacheState, SoftLimitPlan,
};
use brioche_cache::config::CacheConfig;
use brioche_cache::lru_cache::{CacheEntry, CacheSlot};
use brioche_cache::models::HashId;

fn fake_hash_id(n: u64) -> HashId {
    let bytes = n.to_be_bytes();
    let mut hash_bytes = [0; HashId::LEN];
    hash_bytes[(HashId::LEN - bytes.len())..].copy_from_slice(&bytes);
    HashId::from_bytes(hash_bytes)
}

fn chunk_key(n: u64) -> (u8, [u8; 32]) {
    CacheResourceId::Chunk { chunk_id: fake_hash_id(n) }.key()
}

fn file_size(entry: &CacheEntry) -> (u64, u64) {
    match entry {
        CacheEntry::File { size, reservation, .. } => (*size, reservation.reserved),
        CacheEntry::Value { .. } => panic!("not a file"),
    }
}

#[test]
fn chunk_is_fetched_once_then_served_from_cache() {
    let mut cache = ResourceCache::new(10, 1000);
    let key = chunk_key(0x1234);
    let (found, evicted) = cache.lookup(key, 1);
    assert_eq!(found, Lookup::Fetch);
    assert!(evicted.is_none());
    let fill = cache.complete_file(key, 1, "chunk data".len() as u64);
    assert!(fill.stored);
    assert!(fill.evicted.is_empty());
    assert_eq!(cache.available(), 990);
    let (found, _) = cache.lookup(key, 2);
    match found {
        Lookup::Hit { entry } => {
            assert_eq!(entry, fill.entry);
            assert_eq!(file_size(&entry), (10, 10));
        }
        other => panic!("expected a hit, got {other:?}"),
    }
}

#[test]
fn artifact_and_chunk_keys_differ() {
    let id = fake_hash_id(7);
    let chunk = CacheResourceId::Chunk { chunk_id: id };
    let artifact = CacheResourceId::Artifact { artifact_id: id };
    assert_ne!(chunk.key(), artifact.key());
    assert_eq!(chunk.variant_label(), "chunk");
    assert_eq!(artifact.variant_label(), "artifact");
    let mut cache = ResourceCache::new(10, 1000);
    assert_eq!(cache.lookup(chunk.key(), 1).0, Lookup::Fetch);
    assert!(cache.complete_file(chunk.key(), 1, 5).stored);
    assert_eq!(cache.lookup(artifact.key(), 2).0, Lookup::Fetch);
}

#[test]
fn second_request_waits_for_the_first() {
    let mut cache = ResourceCache::new(10, 1000);
    let key = chunk_key(5);
    assert_eq!(cache.lookup(key, 1).0, Lookup::Fetch);
    assert_eq!(cache.lookup(key, 2).0, Lookup::Wait);
    // A request that does not hold the slot cannot fill it.
    let fill = cache.complete_file(key, 2, 10);
    assert!(!fill.stored);
    // Its file is still being served, so it keeps its space until released.
    assert_eq!(cache.available(), 990);
    assert!(cache.release(2, 2));
    assert_eq!(cache.available(), 1000);
    assert!(cache.complete_file(key, 1, 10).stored);
    assert!(cache.release(1, 1));
    assert_eq!(cache.available(), 990);
    assert!(matches!(cache.lookup(key, 3).0, Lookup::Hit { .. }));
}

#[test]
fn failed_fetch_is_not_cached() {
    let mut cache = ResourceCache::new(10, 1000);
    let key = chunk_key(6);
    assert_eq!(cache.lookup(key, 1).0, Lookup::Fetch);
    assert!(!cache.abort(key, 2).0);
    assert!(cache.abort(key, 1).0);
    assert_eq!(cache.lookup(key, 3).0, Lookup::Fetch);
    assert_eq!(cache.lookup(key, 4).0, Lookup::Wait);
}

#[test]
fn disk_space_evicts_least_recently_used_files() {
    let mut cache = ResourceCache::new(10, 100);
    let (a, b, c) = (chunk_key(1), chunk_key(2), chunk_key(3));
    cache.lookup(a, 1);
    assert!(cache.complete_file(a, 1, 40).stored);
    assert!(cache.release(1, 1));
    cache.lookup(b, 2);
    assert!(cache.complete_file(b, 2, 40).stored);
    assert!(cache.release(2, 2));
    // Use `a` again, so `b` is now the least recently used.
    assert!(matches!(cache.lookup(a, 3).0, Lookup::Hit { .. }));
    assert!(cache.release(1, 3));
    cache.lookup(c, 4);
    let fill = cache.complete_file(c, 4, 50);
    assert!(fill.stored);
    assert_eq!(fill.evicted.len(), 1);
    assert_eq!(fill.evicted[0].0, b);
    assert_eq!(cache.available(), 10);
    assert_eq!(cache.lookup(b, 5).0, Lookup::Fetch);
    assert!(matches!(cache.lookup(a, 6).0, Lookup::Hit { .. }));
}

#[test]
fn oversized_file_takes_what_is_left() {
    let mut cache = ResourceCache::new(10, 30);
    let (a, b) = (chunk_key(1), chunk_key(2));
    cache.lookup(a, 1);
    assert!(cache.complete_file(a, 1, 20).stored);
    assert!(cache.release(1, 1));
    cache.lookup(b, 2);
    let fill = cache.complete_file(b, 2, 100);
    // Everything else went, and the slot of `b` too (it was the least
    // recently used), so the file is served but not kept. It keeps all that
    // was left reserved until it is released.
    assert_eq!(fill.evicted.len(), 2);
    assert!(!fill.stored);
    assert_eq!(file_size(&fill.entry), (100, 30));
    assert_eq!(cache.available(), 0);
    assert!(cache.release(2, 2));
    assert_eq!(cache.available(), 30);
    assert!(!cache.release(2, 2));
    assert_eq!(cache.available(), 30);
}

#[test]
fn evicted_file_in_use_keeps_its_space() {
    let mut cache = ResourceCache::new(2, 1000);
    let (a, b, c) = (chunk_key(1), chunk_key(2), chunk_key(3));
    cache.lookup(a, 1);
    assert!(cache.complete_file(a, 1, 100).stored);
    assert!(matches!(cache.lookup(a, 5).0, Lookup::Hit { .. }));
    cache.lookup(b, 2);
    assert!(cache.complete_file(b, 2, 100).stored);
    assert!(cache.release(2, 2));
    // `a` is evicted while two requests are still served from its file.
    let (_, evicted) = cache.lookup(c, 3);
    assert_eq!(evicted.unwrap().0, a);
    assert_eq!(cache.available(), 800);
    assert!(!cache.release(1, 9));
    assert!(cache.release(1, 1));
    assert_eq!(cache.available(), 800);
    assert!(cache.release(1, 5));
    assert_eq!(cache.available(), 900);
    // A kept file's space stays with the cache when its holds end.
    assert!(matches!(cache.lookup(b, 4).0, Lookup::Hit { .. }));
    assert!(cache.release(2, 4));
    assert_eq!(cache.available(), 900);
}

#[test]
fn file_slots_are_bounded() {
    let mut cache = ResourceCache::new(2, 1000);
    let (a, b, c) = (chunk_key(1), chunk_key(2), chunk_key(3));
    cache.lookup(a, 1);
    assert!(cache.complete_file(a, 1, 100).stored);
    assert!(cache.release(1, 1));
    cache.lookup(b, 2);
    assert!(cache.complete_file(b, 2, 100).stored);
    assert!(cache.release(2, 2));
    assert_eq!(cache.available(), 800);
    let (found, evicted) = cache.lookup(c, 3);
    assert_eq!(found, Lookup::Fetch);
    let (evicted_key, evicted_slot) = evicted.unwrap();
    assert_eq!(evicted_key, a);
    assert!(matches!(evicted_slot, CacheSlot::Filled { .. }));
    assert_eq!(cache.available(), 900);
}

#[test]
fn project_source_is_fetched_once_then_served_from_cache() {
    let mut cache = ValueCache::new(10);
    let key = project_source_key(fake_hash_id(0x4321));
    let hash = fake_hash_id(0x9999).to_bytes();
    assert_eq!(cache.lookup(key, 1).0, Lookup::Fetch);
    assert!(cache.complete_value(key, 1, hash).0);
    assert_eq!(
        cache.lookup(key, 2).0,
        Lookup::Hit { entry: CacheEntry::Value { hash } }
    );
}

#[test]
fn bake_output_not_found_is_retried() {
    let mut cache = ValueCache::new(10);
    let key = bake_output_key(fake_hash_id(0x9876));
    assert_eq!(cache.lookup(key, 1).0, Lookup::Fetch);
    assert!(cache.abort(key, 1).0);
    assert_eq!(cache.lookup(key, 2).0, Lookup::Fetch);
    assert!(cache.complete_value(key, 2, fake_hash_id(0x8888).to_bytes()).0);
    assert!(matches!(cache.lookup(key, 3).0, Lookup::Hit { .. }));
}

#[test]
fn waiters_are_handed_the_file_even_when_it_is_not_kept() {
    let mut cache = ResourceCache::new(1, 1000);
    let (a, b) = (chunk_key(1), chunk_key(2));
    assert_eq!(cache.lookup(a, 1).0, Lookup::Fetch);
    assert_eq!(cache.lookup(a, 2).0, Lookup::Wait);
    assert_eq!(cache.lookup(a, 3).0, Lookup::Wait);
    // Another key takes the only slot while `a` is being fetched.
    assert_eq!(cache.lookup(b, 4).0, Lookup::Fetch);
    let fill = cache.complete_file(a, 1, 100);
    assert!(!fill.stored);
    assert_eq!(fill.waiters, vec![(1, 2), (1, 3)]);
    // The fetching request and both waiters hold the file.
    assert_eq!(cache.available(), 900);
    assert!(cache.release(1, 1));
    assert!(cache.release(1, 2));
    assert_eq!(cache.available(), 900);
    assert!(cache.release(1, 3));
    assert_eq!(cache.available(), 1000);
}

#[test]
fn waiters_ask_again_after_a_failed_fetch() {
    let mut cache = ResourceCache::new(10, 1000);
    let key = chunk_key(8);
    assert_eq!(cache.lookup(key, 1).0, Lookup::Fetch);
    assert_eq!(cache.lookup(key, 2).0, Lookup::Wait);
    assert_eq!(cache.lookup(key, 3).0, Lookup::Wait);
    let (reset, waiters) = cache.abort(key, 1);
    assert!(reset);
    assert_eq!(waiters, vec![(1, 2), (1, 3)]);
    assert_eq!(cache.lookup(key, 2).0, Lookup::Fetch);
    assert_eq!(cache.lookup(key, 3).0, Lookup::Wait);
    let fill = cache.complete_file(key, 2, 10);
    assert!(fill.stored);
    assert_eq!(fill.waiters, vec![(2, 3)]);
}

#[test]
fn record_waiters_are_handed_the_record() {
    let mut cache = ValueCache::new(1);
    let (a, b) = (project_source_key(fake_hash_id(1)), project_source_key(fake_hash_id(2)));
    let hash = fake_hash_id(0x77).to_bytes();
    assert_eq!(cache.lookup(a, 1).0, Lookup::Fetch);
    assert_eq!(cache.lookup(a, 2).0, Lookup::Wait);
    assert_eq!(cache.lookup(b, 3).0, Lookup::Fetch);
    let (stored, waiters) = cache.complete_value(a, 1, hash);
    assert!(!stored);
    assert_eq!(waiters, vec![(1, 2)]);
    assert_eq!(cache.lookup(a, 4).0, Lookup::Fetch);
}

#[test]
fn record_survives_repeated_requests_for_other_ids() {
    let mut cache = ValueCache::new(2);
    let (a, b, c) = (
        bake_output_key(fake_hash_id(1)),
        bake_output_key(fake_hash_id(2)),
        bake_output_key(fake_hash_id(3)),
    );
    let hash = fake_hash_id(0x55).to_bytes();
    cache.lookup(a, 1);
    assert!(cache.complete_value(a, 1, hash).0);
    // One other id, asked for three times, counts once.
    cache.lookup(b, 2);
    assert!(cache.complete_value(b, 2, hash).0);
    assert!(matches!(cache.lookup(b, 3).0, Lookup::Hit { .. }));
    assert!(matches!(cache.lookup(b, 4).0, Lookup::Hit { .. }));
    assert_eq!(
        cache.lookup(a, 5).0,
        Lookup::Hit { entry: CacheEntry::Value { hash } }
    );
    // Two other distinct ids since its last request evict it.
    cache.lookup(b, 6);
    cache.lookup(c, 7);
    assert_eq!(cache.lookup(a, 8).0, Lookup::Fetch);
}

#[test]
fn record_keys_and_labels() {
    let id = fake_hash_id(3);
    assert_eq!(project_source_key(id), (2, id.to_bytes()));
    assert_eq!(bake_output_key(id), (3, id.to_bytes()));
    assert_eq!(CacheResourceId::from_key(project_source_key(id)), None);
    let chunk = CacheResourceId::Chunk { chunk_id: id };
    let artifact = CacheResourceId::Artifact { artifact_id: id };
    assert_eq!(CacheResourceId::from_key(chunk.key()), Some(chunk));
    assert_eq!(CacheResourceId::from_key(artifact.key()), Some(artifact));
}

#[test]
fn soft_limit_plan() {
    assert_eq!(plan_soft_limit(1024, 4096, 2048), SoftLimitPlan::Raise { to: 2048 });
    assert_eq!(plan_soft_limit(4096, 8192, 2048), SoftLimitPlan::Keep { soft_limit: 4096 });
    assert_eq!(plan_soft_limit(1024, 1024, 2048), SoftLimitPlan::HardLimitTooLow);
    assert_eq!(plan_soft_limit(2048, 2048, 2048), SoftLimitPlan::Keep { soft_limit: 2048 });
}

#[test]
fn file_budget_is_soft_limit_minus_other_files() {
    assert_eq!(cache_file_budget(1024, 100), Some(924));
    assert_eq!(cache_file_budget(100, 100), None);
    assert_eq!(cache_file_budget(50, 100), None);
}

fn config(min_non_cache_files: u64, min_cache_files: u64) -> CacheConfig {
    CacheConfig {
        dir: std::path::PathBuf::from("/tmp"),
        max_disk_capacity: 1_000_000,
        max_project_sources: 10,
        max_bake_outputs: 20,
        min_non_cache_files,
        min_cache_files,
    }
}

#[test]
fn cache_state_from_budget() {
    let mut state = CacheState::with_file_budget(&config(0, 1), 3);
    assert_eq!(state.resources.available(), 1_000_000);
    let key = chunk_key(1);
    assert_eq!(state.resources.lookup(key, 1).0, Lookup::Fetch);
    let key = project_source_key(fake_hash_id(1));
    assert_eq!(state.project_sources.lookup(key, 1).0, Lookup::Fetch);
}

#[test]
fn cache_state_new_respects_hard_limit() {
    match CacheState::new(&config(0, 1)) {
        Ok((state, limits)) => {
            assert_eq!(state.resources.available(), 1_000_000);
            assert!(limits.soft_limit > 0);
            assert_eq!(state.max_cache_files as u64, limits.soft_limit);
            match limits.requested_soft_limit {
                None => assert_eq!(limits.soft_limit, limits.soft_limit_before),
                Some(requested) => assert_eq!(requested, 1),
            }
        }
        Err(err) => panic!("setting up with one cache file failed: {err:?}"),
    }
    match CacheState::new(&config(u64::MAX - 1, 1)) {
        Err(CacheSetupError::HardLimitTooLow { min_soft_limit, .. }) => {
            assert_eq!(min_soft_limit, u64::MAX)
        }
        Err(CacheSetupError::GetRlimit(_)) => {}
        // Only a process without a hard limit gets this far.
        Ok((state, _)) => assert_eq!(state.resources.available(), 1_000_000),
        other => panic!("expected the hard limit to be too low, got {:?}", other.err()),
    }
}
