use nargun::file_cache::{entry_to_evict, needs_eviction, CacheUse, FILE_CACHE_SIZE};

#[test]
fn eviction_only_when_full_and_absent() {
    assert_eq!(FILE_CACHE_SIZE, 16);
    assert!(needs_eviction(16, false));
    assert!(!needs_eviction(16, true));
    assert!(!needs_eviction(15, false));
}

#[test]
fn least_recently_used_file_leaves() {
    let now = 10_000;
    let uses = vec![
        CacheUse { read: Some(9_000), write: Some(9_500) }, // 1000 + 500
        CacheUse { read: Some(9_400), write: None },        // 3 * 600
        CacheUse { read: None, write: Some(9_900) },        // 3 * 100
    ];
    assert_eq!(entry_to_evict(&uses, now), Some(1));
    let mut with_unused = uses.clone();
    with_unused.push(CacheUse { read: None, write: None });
    assert_eq!(entry_to_evict(&with_unused, now), Some(3));
    assert_eq!(entry_to_evict(&Vec::new(), now), None);
}
