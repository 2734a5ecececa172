use std::sync::Arc;

use rustc_hash::FxHashMap;
use zipmount::blockcache::{BlockCache, DecodedBlock, DEFAULT_BLOCK_BUDGET};

fn block(entry_count: u32, each: usize) -> Arc<DecodedBlock> {
    let mut map = FxHashMap::default();
    for i in 0..entry_count {
        map.insert(i, vec![0u8; each].into());
    }
    Arc::new(DecodedBlock::new(map))
}

#[test]
fn returns_entry_from_cached_block() {
    let mut c = BlockCache::new(1000);
    c.insert(0, block(3, 100));
    let b = c.get(0).expect("the block must be found");
    assert_eq!(b.get(1).map(|d| d.len()), Some(100));
    assert!(b.get(99).is_none());
}

#[test]
fn evicts_oldest_when_over_budget() {
    let mut c = BlockCache::new(500);
    c.insert(0, block(2, 100)); // 200
    c.insert(1, block(2, 100)); // 200
    c.insert(2, block(2, 100)); // 200 -> over 500
    assert!(c.get(0).is_none(), "the oldest block must be evicted");
    assert!(c.get(2).is_some());
}

#[test]
fn recent_use_protects_block() {
    let mut c = BlockCache::new(500);
    c.insert(0, block(2, 100));
    c.insert(1, block(2, 100));
    let _ = c.get(0);
    c.insert(2, block(2, 100));
    assert!(c.get(0).is_some(), "a recently used block must survive");
    assert!(c.get(1).is_none());
}

#[test]
fn single_oversized_block_is_kept() {
    let mut c = BlockCache::new(100);
    c.insert(0, block(1, 10_000));
    assert!(c.get(0).is_some(), "the only block must not be evicted");
    assert!(c.stats().used_bytes > c.stats().budget_bytes);
}

#[test]
fn oversized_block_replaces_previous_one() {
    let mut c = BlockCache::new(100);
    c.insert(0, block(1, 10_000));
    c.insert(1, block(1, 10_000));
    assert_eq!(c.stats().blocks, 1, "blocks over budget must not pile up");
    assert!(c.get(1).is_some(), "the most recent one must be the one left");
}

#[test]
fn reinsert_does_not_double_count() {
    let mut c = BlockCache::new(10_000);
    c.insert(0, block(2, 100));
    c.insert(0, block(2, 100));
    assert_eq!(c.stats().used_bytes, 200);
    assert_eq!(c.stats().blocks, 1);
}

#[test]
fn a_block_knows_its_entries_and_bytes() {
    let b = block(4, 25);
    assert_eq!(b.bytes(), 100);
    assert_eq!(b.entry_count(), 4);
    assert!(DecodedBlock::new(FxHashMap::default()).bytes() == 0);
}

#[test]
fn block_hits_and_misses_are_counted() {
    let mut c = BlockCache::new(1000);
    c.insert(5, block(1, 10));
    assert!(c.get(5).is_some());
    assert!(c.get(6).is_none());
    let s = c.stats();
    assert_eq!((s.hits, s.misses, s.blocks, s.used_bytes), (1, 1, 1, 10));
    assert_eq!(DEFAULT_BLOCK_BUDGET, 6 * 1024 * 1024 * 1024);
}
