use rowclone_trace::cache::{Cache, CacheSet};

#[test]
fn distinct_blocks_of_one_set_miss_then_repeat_hits() {
    // 512 bytes, 64-byte blocks, 2 ways: 4 sets; blocks 0, 4, 8 share set 0.
    let mut c = Cache::new(512, 64, 2);
    assert!(!c.access(0));
    assert!(!c.access(256));
    assert!(c.access(256));
    assert!(c.access(0));
    assert!(c.access(63));
}

#[test]
fn least_recently_used_block_is_evicted() {
    let mut c = Cache::new(512, 64, 2);
    assert!(!c.access(0));
    assert!(!c.access(256));
    assert!(!c.access(512));
    assert!(!c.access(0));
    assert!(!c.access(256));
}

#[test]
fn a_hit_refreshes_recency() {
    let mut c = Cache::new(512, 64, 2);
    assert!(!c.access(0));
    assert!(!c.access(256));
    assert!(c.access(0));
    assert!(!c.access(512));
    assert!(c.access(0));
    assert!(!c.access(256));
}

#[test]
fn other_sets_are_untouched() {
    let mut c = Cache::new(512, 64, 2);
    assert!(!c.access(64));
    assert!(!c.access(0));
    assert!(!c.access(256));
    assert!(!c.access(512));
    assert!(c.access(64));
}

#[test]
fn invalidation_clears_only_the_page() {
    let mut c = Cache::new(64 * 1024, 64, 2);
    assert!(!c.access(0x1000));
    assert!(!c.access(0x1fc0));
    assert!(!c.access(0x2000));
    assert!(!c.access(0x0fc0));
    c.invalidate_page(0x1000);
    assert!(c.access(0x2000));
    assert!(c.access(0x0fc0));
    assert!(!c.access(0x1000));
    assert!(!c.access(0x1fc0));
}

#[test]
fn invalidation_frees_the_slot() {
    let mut c = Cache::new(512, 64, 2);
    assert!(!c.access(0x1000));
    assert!(!c.access(0x2100));
    c.invalidate_page(0x1000);
    assert!(c.access(0x2100));
    assert!(!c.access(0x3200));
    assert!(c.access(0x2100));
}

#[test]
fn cache_set_lru() {
    let mut s = CacheSet::new(2);
    assert!(!s.access(7));
    assert!(!s.access(8));
    assert!(s.access(7));
    assert!(!s.access(9));
    assert!(!s.access(8));
    assert!(s.access(9));
    s.invalidate(9);
    assert!(!s.access(9));
    s.invalidate(42);
    assert!(s.access(9));
}
