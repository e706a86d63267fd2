//! The page arena, the frequency sketch and the caches over them.

use std::sync::Arc;
use tilemaxsim::allocator::PageRunAllocator;
use tilemaxsim::cache::{Admission, AdmissionRequest, GpuCache};
use tilemaxsim::host_cache::HostCache;
use tilemaxsim::sketch::TinyLfu;
use tilemaxsim::table::Table;

fn next_test_random(state: &mut u64) -> u64 {
    // Deterministic xorshift64 sequence for allocator churn tests. This is
    // test data, not a pointer, address, secret, or production RNG.
    *state ^= *state << 13;
    *state ^= *state >> 7;
    *state ^= *state << 17;
    *state
}

/// The rank of an entry: how often it is used for its size, above the inflation.
fn weigh(inflation: u64, frequency: u16, bytes: usize) -> u64 {
    (f64::from_bits(inflation) + f64::from(frequency) / bytes.max(1) as f64).to_bits()
}

fn take_in(cache: &mut GpuCache, key: &str, bytes: usize, rows: u32, dimension: u32, force: bool) -> Admission {
    cache.admit_default(key.to_owned(), bytes, rows, dimension, 2, false, force, &weigh)
}

fn take_in_for(cache: &mut GpuCache, tenant: &str, key: &str, pinned: bool) -> Admission {
    cache.admit_for_tenant(
        &AdmissionRequest {
            tenant: tenant.to_owned(),
            key: key.to_owned(),
            payload_bytes: 200,
            rows: 1,
            dimension: 100,
            dtype: 2,
            pinned,
            force: true,
        },
        &weigh,
    )
}

#[test]
fn page_runs_use_exact_blocks_and_coalesce() {
    let mut allocator = PageRunAllocator::new(8 * 256, 256).unwrap();
    let first = allocator.allocate(300).unwrap();
    let second = allocator.allocate(300).unwrap();
    let third = allocator.allocate(700).unwrap();
    assert_eq!(first, (0, 512));
    assert_eq!(second, (512, 512));
    assert_eq!(third, (1024, 768));
    assert_eq!(allocator.free_bytes(), 256);
    allocator.release(second.0).unwrap();
    allocator.release(first.0).unwrap();
    assert_eq!(allocator.largest_free(), 1024);
    allocator.release(third.0).unwrap();
    assert_eq!(allocator.largest_free(), 2048);
    allocator.validate().unwrap();
}

#[test]
fn page_run_indexes_stay_consistent_under_churn() {
    let mut allocator = PageRunAllocator::new(64 * 256, 256).unwrap();
    let mut live = Vec::new();
    let mut state = 0x5eed_u64;
    for _ in 0..20_000 {
        let random = next_test_random(&mut state);
        if !live.is_empty() && random & 3 == 0 {
            let index = random as usize % live.len();
            let (offset, _): (usize, usize) = live.swap_remove(index);
            allocator.release(offset).unwrap();
        } else {
            let payload = ((random >> 16) as usize % (12 * 256)) + 1;
            if let Some(allocation) = allocator.allocate(payload) {
                live.push(allocation);
            }
        }
        allocator.validate().unwrap();
        assert_eq!(
            allocator.free_bytes() + allocator.allocated_bytes(),
            allocator.capacity()
        );
    }
}

#[test]
fn tinylfu_protects_hot_entry() {
    let mut cache = GpuCache::new(256, 256).unwrap();
    cache.record_access_miss("hot");
    assert!(matches!(
        take_in(&mut cache, "hot", 64, 1, 32, false),
        Admission::Admitted { .. }
    ));
    assert!(
        cache.get("hot", &weigh).is_none(),
        "loading pages must not be visible"
    );
    cache.mark_ready("hot").unwrap();
    cache.release("hot").unwrap();
    for _ in 0..3 {
        cache.get("hot", &weigh).unwrap();
        cache.release("hot").unwrap();
    }
    cache.record_access_miss("cold");
    assert_eq!(
        take_in(&mut cache, "cold", 64, 1, 32, false),
        Admission::Rejected
    );
    assert!(cache.entry("hot").is_some());
}

#[test]
fn failed_loading_entry_can_be_rolled_back_without_leaking_pages() {
    let mut cache = GpuCache::new(4 * 256, 256).unwrap();
    assert!(matches!(
        take_in(&mut cache, "loading", 300, 1, 150, true),
        Admission::Admitted { .. }
    ));
    assert!(!cache.contains("loading"));
    assert_eq!(cache.allocated_bytes(), 512);
    cache.remove("loading").unwrap();
    assert_eq!(cache.allocated_bytes(), 0);
    assert_eq!(cache.free_bytes(), cache.capacity());
}

#[test]
fn tenant_limit_prevents_one_tenant_from_owning_the_entire_arena() {
    let mut cache = GpuCache::new_with_limits(4 * 256, 256, 50, 100, Table::new()).unwrap();
    for key in ["a-1", "a-2"] {
        assert!(matches!(
            take_in_for(&mut cache, "tenant-a", key, false),
            Admission::Admitted { .. }
        ));
        cache.mark_ready(key).unwrap();
        cache.release(key).unwrap();
    }
    assert!(matches!(
        take_in_for(&mut cache, "tenant-b", "b-1", false),
        Admission::Admitted { .. }
    ));
    assert_eq!(cache.tenant_count(), 2);
}

#[test]
fn pinned_budget_fails_closed_before_consuming_pages() {
    let mut cache = GpuCache::new_with_limits(4 * 256, 256, 100, 25, Table::new()).unwrap();
    assert!(matches!(
        take_in_for(&mut cache, "__resident__", "resident", true),
        Admission::Admitted { .. }
    ));
    assert_eq!(cache.pinned_bytes(), 256);
    assert_eq!(
        take_in_for(&mut cache, "__resident__", "too-much", true),
        Admission::Deferred
    );
    assert_eq!(cache.allocated_bytes(), 256);
}

#[test]
fn tenant_can_recycle_its_own_reserved_pages() {
    let mut reservations = Table::new();
    reservations.insert("tenant-a".to_owned(), 2 * 256);
    let mut cache = GpuCache::new_with_limits(2 * 256, 256, 50, 100, reservations).unwrap();
    for key in ["a-1", "a-2"] {
        assert!(matches!(
            take_in_for(&mut cache, "tenant-a", key, false),
            Admission::Admitted { .. }
        ));
        cache.mark_ready(key).unwrap();
        cache.release(key).unwrap();
    }
    assert!(matches!(
        take_in_for(&mut cache, "tenant-a", "a-3", false),
        Admission::Admitted { .. }
    ));
    assert_eq!(cache.entry_count(), 2);
}

#[test]
fn arenas_and_releases_are_checked() {
    assert!(PageRunAllocator::new(0, 256).is_err());
    assert!(PageRunAllocator::new(1024, 100).is_err());
    assert!(PageRunAllocator::new(128, 256).is_err());
    let mut allocator = PageRunAllocator::new(1000, 256).unwrap();
    assert_eq!(allocator.capacity(), 768);
    assert_eq!(allocator.block_bytes(), 256);
    assert_eq!(allocator.allocation_bytes(0), None);
    assert_eq!(allocator.allocation_bytes(257), Some(512));
    assert_eq!(allocator.allocate(0), None);
    assert_eq!(allocator.allocate(769), None);
    assert_eq!(allocator.allocate(768), Some((0, 768)));
    assert!(allocator.release(1).is_err());
    assert!(allocator.release(256).is_err());
    allocator.release(0).unwrap();
    assert!(allocator.release(0).is_err());
}

#[test]
fn sketch_counts_and_halves() {
    let mut sketch = TinyLfu::new(64);
    assert_eq!(sketch.estimate("a"), 0);
    for count in 1..=5 {
        assert_eq!(sketch.increment("a"), count);
    }
    assert!(sketch.estimate("a") >= 5);
    let mut small = TinyLfu::new(1);
    for _ in 0..10 {
        small.increment("a");
    }
    assert_eq!(small.estimate("a"), 5);
}

#[test]
fn references_and_missing_entries_are_checked() {
    let mut cache = GpuCache::new(4 * 256, 256).unwrap();
    assert_eq!(cache.release("none"), Err("GPU cache entry disappeared"));
    assert_eq!(cache.mark_ready("none"), Err("GPU cache entry disappeared before upload completed"));
    assert_eq!(cache.remove("none"), Err("GPU cache entry disappeared"));
    assert!(matches!(take_in(&mut cache, "a", 64, 1, 32, true), Admission::Admitted { .. }));
    cache.mark_ready("a").unwrap();
    cache.release("a").unwrap();
    assert_eq!(cache.release("a"), Err("GPU cache entry was released twice"));
    assert!(cache.acquire_existing("a").is_some());
    assert_eq!(cache.entry("a").unwrap().references, 1);
    assert!(cache.acquire_existing("b").is_none());
    assert_eq!(cache.payload_bytes(), 64);
    assert_eq!(cache.pinned_entries(), 0);
    assert_eq!(cache.largest_free_extent(), 3 * 256);
}

#[test]
fn entries_in_use_are_not_evicted() {
    let mut cache = GpuCache::new(256, 256).unwrap();
    assert!(matches!(take_in(&mut cache, "a", 64, 1, 32, true), Admission::Admitted { .. }));
    assert_eq!(take_in(&mut cache, "b", 64, 1, 32, true), Admission::Deferred);
    cache.mark_ready("a").unwrap();
    cache.release("a").unwrap();
    assert!(matches!(take_in(&mut cache, "b", 64, 1, 32, true), Admission::Admitted { .. }));
    assert!(cache.entry("a").is_none());
    assert_eq!(cache.counters().2, 1);
}

#[test]
fn host_cache_keeps_payloads_within_its_limits() {
    let mut cache = HostCache::new(100, 50);
    let payload = Arc::new(vec![7_u8; 40]);
    assert!(cache.get("a", &weigh).is_none());
    cache.put("tenant", "a".to_owned(), Arc::clone(&payload), &weigh);
    assert_eq!(cache.get("a", &weigh).unwrap(), payload);
    cache.put("tenant", "b".to_owned(), Arc::new(vec![1; 60]), &weigh);
    assert!(cache.get("b", &weigh).is_none());
    let status = cache.status();
    assert_eq!(status.used_bytes, 40);
    assert_eq!(status.entries, 1);
}
