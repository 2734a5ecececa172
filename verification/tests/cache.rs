use std::sync::Arc;

use zipmount::cache::{ContentCache, DEFAULT_BUDGET};

fn blob(n: usize) -> Arc<[u8]> {
    vec![0u8; n].into()
}

#[test]
fn returns_what_was_stored() {
    let mut c = ContentCache::new(1000);
    c.insert(1, blob(100));
    assert_eq!(c.get(1).map(|d| d.len()), Some(100));
    assert!(c.get(2).is_none());
}

#[test]
fn evicts_when_over_budget() {
    let mut c = ContentCache::new(300);
    c.insert(1, blob(100));
    c.insert(2, blob(100));
    c.insert(3, blob(100));
    c.insert(4, blob(100)); // over budget -> the oldest must go
    assert!(c.get(1).is_none(), "the oldest entry must be evicted");
    assert!(c.get(4).is_some());
    assert!(c.stats().used_bytes <= 300);
}

#[test]
fn recent_access_protects_from_eviction() {
    let mut c = ContentCache::new(300);
    c.insert(1, blob(100));
    c.insert(2, blob(100));
    c.insert(3, blob(100));
    // Touch the first — now the second is the oldest.
    let _ = c.get(1);
    c.insert(4, blob(100));
    assert!(c.get(1).is_some(), "a recently used entry must survive");
    assert!(c.get(2).is_none());
}

#[test]
fn oversized_entry_is_not_cached_at_all() {
    let mut c = ContentCache::new(1000);
    c.insert(1, blob(100));
    c.insert(2, blob(900)); // more than half the budget
    assert!(c.get(2).is_none(), "a large entry must not occupy the cache");
    assert!(c.get(1).is_some(), "nor evict anything useful");
}

#[test]
fn reinsert_does_not_double_count_bytes() {
    let mut c = ContentCache::new(1000);
    c.insert(1, blob(100));
    c.insert(1, blob(100));
    assert_eq!(c.stats().used_bytes, 100);
    assert_eq!(c.stats().entries, 1);
}

#[test]
fn budget_holds_under_many_inserts() {
    let mut c = ContentCache::new(10_000);
    for i in 0..500u32 {
        c.insert(i, blob(100));
    }
    assert!(c.stats().used_bytes <= 10_000);
}

#[test]
fn hits_and_misses_are_counted() {
    let mut c = ContentCache::new(1000);
    c.insert(7, Arc::from(vec![1u8, 2, 3]));
    assert_eq!(c.get(7).as_deref(), Some(&[1u8, 2, 3][..]));
    assert!(c.get(8).is_none());
    assert!(c.get(9).is_none());
    let s = c.stats();
    assert_eq!((s.hits, s.misses, s.entries, s.used_bytes, s.budget_bytes), (1, 2, 1, 3, 1000));
}

#[test]
fn a_replacement_brings_its_new_contents() {
    let mut c = ContentCache::new(1000);
    c.insert(1, blob(100));
    c.insert(1, blob(200));
    assert_eq!(c.get(1).map(|d| d.len()), Some(200));
    assert_eq!(c.stats().used_bytes, 200);
}

#[test]
fn exactly_half_the_budget_is_still_cached() {
    let mut c = ContentCache::new(1000);
    c.insert(1, blob(500));
    c.insert(2, blob(500));
    c.insert(3, blob(501));
    assert!(c.get(1).is_some() && c.get(2).is_some() && c.get(3).is_none());
    let d = ContentCache::default();
    assert_eq!(d.stats().budget_bytes, DEFAULT_BUDGET);
}
