//! An LRU cache of decompressed contents, bounded in bytes.
//!
//! The budget is not decoration: without it the very first recursive `grep`,
//! or copying out a multi-gigabyte tree, would drag the whole archive into
//! memory.

use std::collections::BTreeMap;
use std::sync::Arc;

use rustc_hash::FxHashMap;
use vstd::prelude::*;

use crate::lru::{
    lemma_empty_tables, lemma_listed_agree, lemma_lookup_listed, lemma_oldest,
    lemma_put_in, lemma_remove_contains, lemma_take_out, lemma_total_push,
    lemma_without_absent, lemma_without_listed, listed, lookup, tables_agree, total, touched, without,
};

verus! {

broadcast use vstd::std_specs::btree::group_btree_axioms;

// ---------------------------------------------------------------------------
// What a cache holds
// ---------------------------------------------------------------------------

/// Entries in the order of their last use, least recent first.
pub type Lru = Seq<(u32, Seq<u8>)>;

/// An entry's size: its length.
pub open spec fn content_size() -> spec_fn(Seq<u8>) -> nat {
    |d: Seq<u8>| d.len()
}

/// The bytes the entries hold.
pub open spec fn bytes_of(v: Lru) -> nat {
    total(v, content_size())
}

/// Drops the least recently used entries until the rest fit in `budget`.
pub open spec fn evict_to(v: Lru, budget: nat) -> Lru
    decreases v.len(),
{
    if v.len() == 0 || bytes_of(v) <= budget {
        v
    } else {
        evict_to(v.drop_first(), budget)
    }
}


/// An insertion: the entry replaces any under the same key, becomes the most
/// recently used, and the least recently used go until the budget holds.
pub open spec fn after_insert(v: Lru, key: u32, data: Seq<u8>, budget: nat) -> Lru {
    evict_to(without(v, key).push((key, data)), budget)
}

/// Evicting before adding an entry that fits leaves what evicting after
/// adding it would.
pub open spec fn evict_below(v: Lru, cap: int) -> Lru
    decreases v.len(),
{
    if v.len() == 0 || bytes_of(v) <= cap {
        v
    } else {
        evict_below(v.drop_first(), cap)
    }
}

proof fn lemma_evict_push(r: Lru, x: (u32, Seq<u8>), budget: nat)
    requires
        x.1.len() <= budget,
    ensures
        evict_to(r.push(x), budget) == evict_below(r, budget - x.1.len()).push(x),
    decreases r.len(),
{
    lemma_total_push(r, x, content_size());
    if r.len() == 0 {
    } else if bytes_of(r) + x.1.len() <= budget {
    } else {
        assert(r.push(x).drop_first() =~= r.drop_first().push(x));
        lemma_evict_push(r.drop_first(), x, budget);
    }
}

proof fn lemma_evict_below_fits(v: Lru, cap: int)
    requires
        cap >= 0,
    ensures
        bytes_of(evict_below(v, cap)) <= cap,
    decreases v.len(),
{
    if v.len() > 0 && bytes_of(v) > cap {
        lemma_evict_below_fits(v.drop_first(), cap);
    }
}

/// What is stored can be read back: after an insertion of contents that fit
/// in the budget, the key holds them.
pub proof fn insert_then_lookup(v: Lru, key: u32, data: Seq<u8>, budget: nat)
    requires
        data.len() <= budget,
    ensures
        lookup(after_insert(v, key, data, budget), key) == Some(data),
{
    lemma_evict_push(without(v, key), (key, data), budget);
}

/// An insertion leaves no more bytes than the budget.
pub proof fn insert_keeps_budget(v: Lru, key: u32, data: Seq<u8>, budget: nat)
    requires
        data.len() <= budget,
    ensures
        bytes_of(after_insert(v, key, data, budget)) <= budget,
{
    lemma_evict_push(without(v, key), (key, data), budget);
    let kept = evict_below(without(v, key), budget - data.len());
    lemma_evict_below_fits(without(v, key), budget - data.len());
    assert(kept.push((key, data)).drop_last() =~= kept);
}

// ---------------------------------------------------------------------------
// The maps behind it
// ---------------------------------------------------------------------------

/// key -> (contents, number of the last access).
pub type ContentMap = FxHashMap<u32, (Arc<[u8]>, u64)>;

/// What a content map holds: each key's contents and access number.
pub uninterp spec fn content_map(m: ContentMap) -> Map<u32, (Seq<u8>, u64)>;

/// The map with nothing in it.
pub open spec fn no_contents() -> Map<u32, (Seq<u8>, u64)> {
    Map::empty()
}

/// `FxHashMap::default()`: an empty map.
#[verifier::external_body]
fn content_map_new() -> (res: ContentMap)
    ensures
        content_map(res) == no_contents(),
{
    FxHashMap::default()
}

/// `HashMap::get`, the value cloned: the same contents (an `Arc` clone) and
/// access number.
#[verifier::external_body]
fn content_map_get(m: &ContentMap, key: u32) -> (res: Option<(Arc<[u8]>, u64)>)
    ensures
        match res {
            Some((d, s)) => content_map(*m).contains_key(key) && content_map(*m)[key] == (d@, s),
            None => !content_map(*m).contains_key(key),
        },
{
    m.get(&key).cloned()
}

/// `HashMap::insert`.
#[verifier::external_body]
fn content_map_insert(m: &mut ContentMap, key: u32, data: Arc<[u8]>, seq: u64)
    ensures
        content_map(*final(m)) == content_map(*old(m)).insert(key, (data@, seq)),
{
    m.insert(key, (data, seq));
}

/// `HashMap::remove`: the value it held, if any.
#[verifier::external_body]
fn content_map_remove(m: &mut ContentMap, key: u32) -> (res: Option<(Arc<[u8]>, u64)>)
    ensures
        content_map(*final(m)) == content_map(*old(m)).remove(key),
        match res {
            Some((d, s)) => content_map(*old(m)).contains_key(key) && content_map(*old(m))[key] == (
            d@,
            s,
            ),
            None => !content_map(*old(m)).contains_key(key),
        },
{
    m.remove(&key)
}

/// `BTreeMap::first_key_value`: the entry with the smallest key.
#[verifier::external_body]
fn first_of(order: &BTreeMap<u64, u32>) -> (res: Option<(u64, u32)>)
    ensures
        match res {
            Some((s, k)) => order@.contains_key(s) && order@[s] == k && forall|t: u64|
                #[trigger] order@.contains_key(t) ==> s <= t,
            None => forall|t: u64| !(#[trigger] order@.contains_key(t)),
        },
{
    order.first_key_value().map(|(s, k)| (*s, *k))
}

/// `HashMap::len`: how many keys the map holds.
#[verifier::external_body]
fn content_map_len(m: &ContentMap) -> (res: usize)
    ensures
        res == content_map(*m).dom().len(),
{
    m.len()
}

// ---------------------------------------------------------------------------
// The cache
// ---------------------------------------------------------------------------

/// How much memory decompressed entries may hold.
pub const DEFAULT_BUDGET: usize = 536_870_912;

/// Decompressed entries by key, least recently used evicted first, never
/// holding more bytes than its budget. An entry larger than half the budget
/// is not cached at all: it would evict everything else for the sake of a
/// single read.
pub struct ContentCache {
    map: ContentMap,
    /// Access order: the smallest number is the next to evict.
    order: BTreeMap<u64, u32>,
    used: usize,
    seq: u64,
    budget: usize,
    hits: u64,
    misses: u64,
    /// The keys, least recently used first.
    keys: Ghost<Seq<u32>>,
}

/// A snapshot of a cache's use.
#[derive(Debug, Clone, Copy)]
pub struct CacheStats {
    pub used_bytes: usize,
    pub budget_bytes: usize,
    pub entries: usize,
    pub hits: u64,
    pub misses: u64,
}

impl ContentCache {
    /// The entries, least recently used first.
    pub closed spec fn entries(&self) -> Lru {
        listed(self.keys@, content_map(self.map))
    }

    pub closed spec fn budget_of(&self) -> nat {
        self.budget as nat
    }

    /// Lookups that found their entry.
    pub closed spec fn hit_count(&self) -> u64 {
        self.hits
    }

    /// Lookups that did not.
    pub closed spec fn miss_count(&self) -> u64 {
        self.misses
    }

    /// Whether the access numbers have run out, after 2^64 - 1 accesses; the
    /// next insertion then starts from an empty cache.
    pub closed spec fn exhausted(&self) -> bool {
        self.seq == u64::MAX
    }

    /// The map, the access order and the byte count agree.
    pub closed spec fn inv(&self) -> bool {
        &&& tables_agree(content_map(self.map), self.keys@, self.order@, self.seq)
        &&& self.used == bytes_of(self.entries())
        &&& self.used <= self.budget
    }

    /// An empty cache that holds at most `budget` bytes.
    pub fn new(budget: usize) -> (res: Self)
        ensures
            res.inv(),
            res.entries() == Seq::<(u32, Seq<u8>)>::empty(),
            res.budget_of() == budget,
            res.hit_count() == 0,
            res.miss_count() == 0,
            !res.exhausted(),
    {
        let res = ContentCache {
            map: content_map_new(),
            order: BTreeMap::new(),
            used: 0,
            seq: 0,
            budget,
            hits: 0,
            misses: 0,
            keys: Ghost(Seq::empty()),
        };
        assert(res.entries() =~= Seq::<(u32, Seq<u8>)>::empty());
        res
    }

    /// The contents stored under `key`; a found entry becomes the most
    /// recently used.
    pub fn get(&mut self, key: u32) -> (res: Option<Arc<[u8]>>)
        requires
            old(self).inv(),
        ensures
            final(self).inv(),
            match res {
                Some(d) => lookup(old(self).entries(), key) == Some(d@),
                None => lookup(old(self).entries(), key) is None,
            },
            final(self).entries() == (if old(self).exhausted() {
                old(self).entries()
            } else {
                touched(old(self).entries(), key)
            }),
            final(self).budget_of() == old(self).budget_of(),
            final(self).hit_count() == (if res is Some {
                old(self).hit_count().wrapping_add(1)
            } else {
                old(self).hit_count()
            }),
            final(self).miss_count() == (if res is Some {
                old(self).miss_count()
            } else {
                old(self).miss_count().wrapping_add(1)
            }),
            res is None ==> final(self).exhausted() == old(self).exhausted(),
    {
        let ghost m = content_map(self.map);
        let ghost keys = self.keys@;
        let ghost o = self.order@;
        proof {
            lemma_lookup_listed(keys, m, key);
        }
        match content_map_get(&self.map, key) {
            None => {
                self.misses = self.misses.wrapping_add(1);
                None
            },
            Some((data, old_seq)) => {
                if self.seq < u64::MAX {
                    let ghost i = lemma_take_out(m, keys, o, self.seq, key, content_size());
                    self.order.remove(&old_seq);
                    let s = self.seq + 1;
                    self.order.insert(s, key);
                    content_map_insert(&mut self.map, key, data.clone(), s);
                    proof {
                        lemma_put_in(m.remove(key), keys.remove(i), o.remove(old_seq), self.seq, key, data@);
                        assert(m.remove(key).insert(key, (data@, s)) =~= content_map(self.map));
                        assert(o.remove(old_seq).insert(s, key) =~= self.order@);
                    }
                    self.seq = s;
                    self.keys = Ghost(keys.remove(i).push(key));
                    proof {
                        let rest = listed(keys.remove(i), m.remove(key));
                        assert(self.entries() == rest.push((key, data@)));
                        assert(rest.push((key, data@)).drop_last() =~= rest);
                        assert(bytes_of(self.entries()) == bytes_of(rest) + data@.len());
                    }
                }
                self.hits = self.hits.wrapping_add(1);
                Some(data)
            },
        }
    }

    /// Drops the least recently used entry.
    fn evict_oldest(&mut self)
        requires
            old(self).inv(),
            old(self).keys@.len() > 0,
        ensures
            final(self).inv(),
            final(self).entries() == old(self).entries().drop_first(),
            final(self).budget == old(self).budget,
            final(self).seq == old(self).seq,
            final(self).hits == old(self).hits,
            final(self).misses == old(self).misses,
            forall|x: u32|
                #[trigger] content_map(final(self).map).contains_key(x) ==> content_map(
                    old(self).map,
                ).contains_key(x),
    {
        let ghost m = content_map(self.map);
        let ghost keys = self.keys@;
        let ghost o = self.order@;
        proof {
            lemma_empty_tables(keys, m, o, self.seq);
        }
        let (t, k) = match first_of(&self.order) {
            Some(p) => p,
            None => {
                proof {
                    assert(o.contains_key(m[keys[0]].1));
                }
                return;
            },
        };
        proof {
            lemma_oldest(m, keys, o, self.seq, t, k);
        }
        let ghost i = lemma_take_out(m, keys, o, self.seq, k, content_size());
        assert(i == 0) by {
            assert(keys[0] == k);
        }
        self.order.remove(&t);
        let gone = content_map_remove(&mut self.map, k);
        let n = match gone {
            Some((d, _)) => d.len(),
            None => 0,
        };
        proof {
            assert(keys.remove(0) =~= keys.drop_first());
            assert(listed(keys, m).drop_first() =~= listed(keys.drop_first(), m));
            lemma_without_listed(keys, m, 0);
            assert(listed(keys.drop_first(), m.remove(k)) == listed(keys.drop_first(), m)) by {
                lemma_remove_contains(keys, 0, k);
                assert forall|a: int| 0 <= a < keys.drop_first().len() implies m.remove(k)[#[trigger] keys.drop_first()[a]].0
                    == m[keys.drop_first()[a]].0 by {
                    assert(keys.drop_first()[a] == keys[a + 1]);
                    assert(keys.remove(0).contains(keys.drop_first()[a]));
                }
                lemma_listed_agree(keys.drop_first(), m.remove(k), m);
            }
        }
        self.used = self.used - n;
        self.keys = Ghost(keys.drop_first());
    }

    /// Stores `data` under `key` as the most recently used entry, replacing
    /// what was there, and evicts the least recently used entries until the
    /// budget holds. An entry larger than half the budget is not stored, and
    /// nothing is evicted for it.
    pub fn insert(&mut self, key: u32, data: Arc<[u8]>)
        requires
            old(self).inv(),
        ensures
            final(self).inv(),
            final(self).entries() == (if data@.len() > old(self).budget_of() / 2 {
                old(self).entries()
            } else {
                after_insert(
                    if old(self).exhausted() {
                        Seq::empty()
                    } else {
                        old(self).entries()
                    },
                    key,
                    data@,
                    old(self).budget_of(),
                )
            }),
            final(self).budget_of() == old(self).budget_of(),
            final(self).hit_count() == old(self).hit_count(),
            final(self).miss_count() == old(self).miss_count(),
    {
        let len = data.len();
        if len > self.budget / 2 {
            return;
        }
        if self.seq == u64::MAX {
            self.map = content_map_new();
            self.order = BTreeMap::new();
            self.used = 0;
            self.seq = 0;
            self.keys = Ghost(Seq::empty());
            assert(self.entries() =~= Seq::<(u32, Seq<u8>)>::empty());
        }
        let ghost base = self.entries();
        let ghost m = content_map(self.map);
        let ghost keys = self.keys@;
        let ghost o = self.order@;
        match content_map_remove(&mut self.map, key) {
            Some((old_data, old_seq)) => {
                let ghost i = lemma_take_out(m, keys, o, self.seq, key, content_size());
                self.order.remove(&old_seq);
                self.used = self.used - old_data.len();
                self.keys = Ghost(keys.remove(i));
            },
            None => {
                proof {
                    assert(!keys.contains(key));
                    lemma_without_absent(keys, m, key);
                }
            },
        }
        let ghost rest = self.entries();
        assert(rest == without(base, key));
        let cap = self.budget - len;
        while self.used > cap
            invariant
                self.inv(),
                cap == self.budget - len,
                self.seq < u64::MAX,
                self.budget == old(self).budget,
                self.hits == old(self).hits,
                self.misses == old(self).misses,
                !content_map(self.map).contains_key(key),
                evict_below(self.entries(), cap as int) == evict_below(rest, cap as int),
            decreases self.keys@.len(),
        {
            proof {
                if self.keys@.len() == 0 {
                    assert(self.entries() =~= Seq::<(u32, Seq<u8>)>::empty());
                }
            }
            self.evict_oldest();
        }
        let s = self.seq + 1;
        let ghost m2 = content_map(self.map);
        let ghost k2 = self.keys@;
        let ghost o2 = self.order@;
        proof {
            lemma_put_in(m2, k2, o2, self.seq, key, data@);
        }
        self.order.insert(s, key);
        content_map_insert(&mut self.map, key, data, s);
        self.seq = s;
        self.keys = Ghost(k2.push(key));
        self.used = self.used + len;
        proof {
            let kept = listed(k2, m2);
            assert(self.entries() == kept.push((key, data@)));
            assert(kept.push((key, data@)).drop_last() =~= kept);
            lemma_evict_push(rest, (key, data@), self.budget as nat);
        }
    }

    /// The cache's use: bytes held and allowed, entries, hits and misses.
    pub fn stats(&self) -> (res: CacheStats)
        requires
            self.inv(),
        ensures
            res.used_bytes == bytes_of(self.entries()),
            res.budget_bytes == self.budget_of(),
            res.entries == self.entries().len(),
            res.hits == self.hit_count(),
            res.misses == self.miss_count(),
            res.used_bytes <= res.budget_bytes,
    {
        let n = content_map_len(&self.map);
        proof {
            let m = content_map(self.map);
            let keys = self.keys@;
            assert(m.dom() =~= keys.to_set()) by {
                assert forall|k: u32| m.dom().contains(k) <==> keys.to_set().contains(k) by {
                    assert(m.contains_key(k) <==> keys.contains(k));
                }
            }
            keys.unique_seq_to_set();
        }
        CacheStats {
            used_bytes: self.used,
            budget_bytes: self.budget,
            entries: n,
            hits: self.hits,
            misses: self.misses,
        }
    }
}

/// A cache never holds more bytes than its budget, nor a key twice.
pub proof fn cache_within_budget(c: &ContentCache)
    requires
        c.inv(),
    ensures
        bytes_of(c.entries()) <= c.budget_of(),
        forall|i: int, j: int|
            0 <= i < j < c.entries().len() ==> (#[trigger] c.entries()[i]).0 != (
            #[trigger] c.entries()[j]).0,
{
    assert forall|i: int, j: int| 0 <= i < j < c.entries().len() implies (
    #[trigger] c.entries()[i]).0 != (#[trigger] c.entries()[j]).0 by {
        assert(c.entries()[i].0 == c.keys@[i]);
        assert(c.entries()[j].0 == c.keys@[j]);
    }
}

impl Default for ContentCache {
    /// A cache with the default budget.
    fn default() -> (res: Self)
        ensures
            res.inv(),
            res.entries() == Seq::<(u32, Seq<u8>)>::empty(),
            res.budget_of() == DEFAULT_BUDGET,
    {
        ContentCache::new(DEFAULT_BUDGET)
    }
}

} // verus!