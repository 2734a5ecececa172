//! Cache of expanded solid blocks: archives whose entries are compressed
//! together in blocks, where getting one file out means expanding its whole
//! block. (This build reads no such format itself; the cache is the part of
//! one that decides what stays in memory.)
//!
//! A layer separate from the per-file cache, because the unit of access
//! differs. A block can run to gigabytes, so the eviction rule is single but
//! important:
//! **the most recent block is never evicted**, even if it alone exceeds the
//! budget. Otherwise every read would expand the block again.

use std::collections::BTreeMap;
use std::sync::Arc;

use rustc_hash::FxHashMap;
use vstd::prelude::*;

use crate::lru::{
    lemma_empty_tables, lemma_listed_agree, lemma_lookup_listed, lemma_oldest, lemma_put_in,
    lemma_remove_contains, lemma_take_out, lemma_total_push,
    lemma_without_absent, lemma_without_listed, listed, lookup, tables_agree, total, touched,
    without,
};

verus! {

broadcast use vstd::std_specs::btree::group_btree_axioms;

// ---------------------------------------------------------------------------
// Expanded blocks
// ---------------------------------------------------------------------------

/// The contents of each entry of an expanded block.
pub type BlockEntries = FxHashMap<u32, Arc<[u8]>>;

/// What a block's entry map holds.
pub uninterp spec fn block_entries(m: BlockEntries) -> Map<u32, Seq<u8>>;

/// `HashMap::get`, the contents cloned (an `Arc` clone: the same contents).
#[verifier::external_body]
fn block_entry(m: &BlockEntries, entry: u32) -> (res: Option<Arc<[u8]>>)
    ensures
        match res {
            Some(d) => block_entries(*m).contains_key(entry) && block_entries(*m)[entry] == d@,
            None => !block_entries(*m).contains_key(entry),
        },
{
    m.get(&entry).cloned()
}

/// `HashMap::keys`, collected: every key of the map once, in some order.
#[verifier::external_body]
fn block_keys(m: &BlockEntries) -> (res: Vec<u32>)
    ensures
        res@.no_duplicates() && forall|k: u32|
            #[trigger] res@.contains(k) <==> block_entries(*m).contains_key(k),
{
    m.keys().copied().collect()
}

/// `HashMap::len`: how many entries the block has.
#[verifier::external_body]
fn block_len(m: &BlockEntries) -> (res: usize)
    ensures
        res == block_entries(*m).dom().len(),
{
    m.len()
}

/// The sum of the sizes of the entries under `keys`.
pub open spec fn sum_sizes(m: Map<u32, Seq<u8>>, keys: Seq<u32>) -> nat
    decreases keys.len(),
{
    if keys.len() == 0 {
        0
    } else {
        sum_sizes(m, keys.drop_last()) + m[keys.last()].len()
    }
}

/// Whether `keys` lists every key of `m` once.
pub open spec fn enumerates(keys: Seq<u32>, m: Map<u32, Seq<u8>>) -> bool {
    keys.no_duplicates() && forall|k: u32| #[trigger] keys.contains(k) <==> m.contains_key(k)
}

/// The bytes a block's entries hold together.
pub open spec fn block_bytes(m: Map<u32, Seq<u8>>) -> nat {
    sum_sizes(m, choose|keys: Seq<u32>| enumerates(keys, m))
}

proof fn lemma_sum_remove(m: Map<u32, Seq<u8>>, keys: Seq<u32>, i: int)
    requires
        0 <= i < keys.len(),
    ensures
        sum_sizes(m, keys) == sum_sizes(m, keys.remove(i)) + m[keys[i]].len(),
    decreases keys.len(),
{
    if i == keys.len() - 1 {
        assert(keys.remove(i) =~= keys.drop_last());
    } else {
        lemma_sum_remove(m, keys.drop_last(), i);
        assert(keys.remove(i).drop_last() =~= keys.drop_last().remove(i));
        assert(keys.remove(i).last() == keys.last());
    }
}

/// The sum does not depend on the order the keys come in.
proof fn lemma_sum_permuted(m: Map<u32, Seq<u8>>, a: Seq<u32>, b: Seq<u32>)
    requires
        a.no_duplicates(),
        b.no_duplicates(),
        forall|k: u32| #[trigger] a.contains(k) <==> b.contains(k),
    ensures
        sum_sizes(m, a) == sum_sizes(m, b),
    decreases a.len(),
{
    if a.len() == 0 {
        if b.len() > 0 {
            assert(b.contains(b[0]));
            assert(a.contains(b[0]));
            assert(false);
        }
    } else {
        let x = a.last();
        assert(a.contains(x));
        assert(b.contains(x));
        let i = choose|i: int| 0 <= i < b.len() && b[i] == x;
        let a2 = a.drop_last();
        let b2 = b.remove(i);
        lemma_remove_contains(b, i, x);
        assert(a.remove(a.len() - 1) =~= a2);
        lemma_remove_contains(a, a.len() - 1, x);
        assert forall|k: u32| #[trigger] a2.contains(k) <==> b2.contains(k) by {
            lemma_remove_contains(a, a.len() - 1, k);
            lemma_remove_contains(b, i, k);
        }
        lemma_sum_permuted(m, a2, b2);
        lemma_sum_remove(m, b, i);
    }
}

/// An expanded block: the contents of each of its entries separately.
///
/// Keeping entries apart rather than as one piece pays twice: no
/// gigabyte-sized contiguous allocation is needed, and an open file holds on
/// to its own entry only, not the whole block.
pub struct DecodedBlock {
    entries: BlockEntries,
    bytes: usize,
}

impl DecodedBlock {
    /// What the block holds: each entry's contents.
    pub closed spec fn contents(&self) -> Map<u32, Seq<u8>> {
        block_entries(self.entries)
    }

    /// The size the block counts for; its bytes, held at `usize::MAX`.
    pub closed spec fn size(&self) -> nat {
        self.bytes as nat
    }

    /// A block of the given entries.
    pub fn new(entries: BlockEntries) -> (res: Self)
        ensures
            res.contents() == block_entries(entries),
            res.size() == (if block_bytes(block_entries(entries)) <= usize::MAX {
                block_bytes(block_entries(entries))
            } else {
                usize::MAX as nat
            }),
    {
        let keys = block_keys(&entries);
        let ghost m = block_entries(entries);
        let mut sum: usize = 0;
        let mut capped = false;
        let mut i: usize = 0;
        while i < keys.len()
            invariant
                i <= keys@.len(),
                m == block_entries(entries),
                forall|k: u32| #[trigger] keys@.contains(k) <==> m.contains_key(k),
                capped ==> sum_sizes(m, keys@.take(i as int)) > usize::MAX,
                !capped ==> sum == sum_sizes(m, keys@.take(i as int)),
            decreases keys.len() - i,
        {
            proof {
                assert(keys@.take(i + 1).drop_last() =~= keys@.take(i as int));
                assert(keys@.contains(keys@[i as int]));
            }
            let d = block_entry(&entries, keys[i]);
            let n = match d {
                Some(d) => d.len(),
                None => 0,
            };
            if !capped {
                match sum.checked_add(n) {
                    Some(t) => sum = t,
                    None => capped = true,
                }
            }
            i = i + 1;
        }
        proof {
            assert(keys@.take(i as int) =~= keys@);
            assert(enumerates(keys@, m));
            let chosen = choose|ks: Seq<u32>| enumerates(ks, m);
            lemma_sum_permuted(m, keys@, chosen);
        }
        DecodedBlock {
            entries,
            bytes: if capped {
                usize::MAX
            } else {
                sum
            },
        }
    }

    /// An entry's contents, if the block has the entry.
    pub fn get(&self, entry: u32) -> (res: Option<Arc<[u8]>>)
        ensures
            match res {
                Some(d) => self.contents().contains_key(entry) && self.contents()[entry] == d@,
                None => !self.contents().contains_key(entry),
            },
    {
        block_entry(&self.entries, entry)
    }

    /// The bytes the block holds.
    pub fn bytes(&self) -> (res: usize)
        ensures
            res == self.size(),
    {
        self.bytes
    }

    /// How many entries the block has.
    pub fn entry_count(&self) -> (res: usize)
        ensures
            res == self.contents().dom().len(),
    {
        block_len(&self.entries)
    }
}

// ---------------------------------------------------------------------------
// What the cache holds
// ---------------------------------------------------------------------------

/// By default up to 6 GB of expanded blocks are kept: enough for a typical
/// log archive to settle in memory entirely after the first pass. A `u64`,
/// since it exceeds what a 32-bit `usize` holds; 64-bit builds take it as
/// the budget as it is.
pub const DEFAULT_BLOCK_BUDGET: u64 = 6_442_450_944;

/// Blocks in the order of their last use, least recent first.
pub type Blocks = Seq<(usize, DecodedBlock)>;

/// A block's size.
pub open spec fn block_size() -> spec_fn(DecodedBlock) -> nat {
    |b: DecodedBlock| b.size()
}

/// The bytes the blocks hold.
pub open spec fn blocks_bytes(v: Blocks) -> nat {
    total(v, block_size())
}

/// Drops the least recently used blocks until the rest fit in `budget`, but
/// never the last one left.
pub open spec fn keep_newest(v: Blocks, budget: nat) -> Blocks
    decreases v.len(),
{
    if v.len() <= 1 || blocks_bytes(v) <= budget {
        v
    } else {
        keep_newest(v.drop_first(), budget)
    }
}

/// An insertion: the block replaces any under the same number and becomes
/// the most recently used; the least recently used go until the budget holds
/// or only the new one is left.
pub open spec fn after_insert_block(v: Blocks, key: usize, b: DecodedBlock, budget: nat) -> Blocks {
    keep_newest(without(v, key).push((key, b)), budget)
}

/// Evicting before adding a block: the older ones go until they fit beside
/// it, or none is left.
pub open spec fn make_room(v: Blocks, room: nat, budget: nat) -> Blocks
    decreases v.len(),
{
    if v.len() == 0 || blocks_bytes(v) + room <= budget {
        v
    } else {
        make_room(v.drop_first(), room, budget)
    }
}

proof fn lemma_make_room(r: Blocks, x: (usize, DecodedBlock), budget: nat)
    ensures
        keep_newest(r.push(x), budget) == make_room(r, x.1.size(), budget).push(x),
    decreases r.len(),
{
    lemma_total_push(r, x, block_size());
    assert(r.push(x).drop_last() =~= r);
    if r.len() == 0 {
    } else if blocks_bytes(r) + x.1.size() <= budget {
    } else {
        assert(r.push(x).drop_first() =~= r.drop_first().push(x));
        lemma_make_room(r.drop_first(), x, budget);
    }
}

proof fn lemma_make_room_fits(r: Blocks, room: nat, budget: nat)
    ensures
        make_room(r, room, budget).len() == 0 || blocks_bytes(make_room(r, room, budget)) + room
            <= budget,
    decreases r.len(),
{
    if r.len() > 0 && blocks_bytes(r) + room > budget {
        lemma_make_room_fits(r.drop_first(), room, budget);
    }
}

/// The newest block stays, whatever its size.
pub proof fn newest_block_stays(v: Blocks, key: usize, b: DecodedBlock, budget: nat)
    ensures
        lookup(after_insert_block(v, key, b, budget), key) == Some(b),
        after_insert_block(v, key, b, budget).last() == (key, b),
{
    lemma_make_room(without(v, key), (key, b), budget);
}

/// After an insertion the blocks fit in the budget, unless the new block is
/// the only one left.
pub proof fn blocks_fit_or_one_left(v: Blocks, key: usize, b: DecodedBlock, budget: nat)
    ensures
        blocks_bytes(after_insert_block(v, key, b, budget)) <= budget || after_insert_block(
            v,
            key,
            b,
            budget,
        ).len() == 1,
{
    let r = without(v, key);
    lemma_make_room(r, (key, b), budget);
    lemma_make_room_fits(r, b.size(), budget);
    let kept = make_room(r, b.size(), budget);
    lemma_total_push(kept, (key, b), block_size());
}

// ---------------------------------------------------------------------------
// The maps behind it
// ---------------------------------------------------------------------------

/// block number -> (block, number of the last access).
pub type BlockMap = FxHashMap<usize, (Arc<DecodedBlock>, u64)>;

/// What a block map holds: each block and its access number.
pub uninterp spec fn block_map(m: BlockMap) -> Map<usize, (DecodedBlock, u64)>;

/// The map with nothing in it.
pub open spec fn no_blocks() -> Map<usize, (DecodedBlock, u64)> {
    Map::empty()
}

/// The block an `Arc` shares.
pub open spec fn shared(b: Arc<DecodedBlock>) -> DecodedBlock {
    *b
}

/// `FxHashMap::default()`: an empty map.
#[verifier::external_body]
fn block_map_new() -> (res: BlockMap)
    ensures
        block_map(res) == no_blocks(),
{
    FxHashMap::default()
}

/// `HashMap::get`, the value cloned: the same block (an `Arc` clone) and
/// access number.
#[verifier::external_body]
fn block_map_get(m: &BlockMap, key: usize) -> (res: Option<(Arc<DecodedBlock>, u64)>)
    ensures
        match res {
            Some((b, s)) => block_map(*m).contains_key(key) && block_map(*m)[key] == (*b, s),
            None => !block_map(*m).contains_key(key),
        },
{
    m.get(&key).cloned()
}

/// `HashMap::insert`.
#[verifier::external_body]
fn block_map_insert(m: &mut BlockMap, key: usize, b: Arc<DecodedBlock>, seq: u64)
    ensures
        block_map(*final(m)) == block_map(*old(m)).insert(key, (*b, seq)),
{
    m.insert(key, (b, seq));
}

/// `HashMap::remove`: the value it held, if any.
#[verifier::external_body]
fn block_map_remove(m: &mut BlockMap, key: usize) -> (res: Option<(Arc<DecodedBlock>, u64)>)
    ensures
        block_map(*final(m)) == block_map(*old(m)).remove(key),
        match res {
            Some((b, s)) => block_map(*old(m)).contains_key(key) && block_map(*old(m))[key] == (
            *b,
            s,
            ),
            None => !block_map(*old(m)).contains_key(key),
        },
{
    m.remove(&key)
}

/// `HashMap::len`: how many blocks the map holds.
#[verifier::external_body]
fn block_map_len(m: &BlockMap) -> (res: usize)
    ensures
        res == block_map(*m).dom().len(),
{
    m.len()
}

/// `BTreeMap::first_key_value`: the entry with the smallest key.
#[verifier::external_body]
fn first_of(order: &BTreeMap<u64, usize>) -> (res: Option<(u64, usize)>)
    ensures
        match res {
            Some((s, k)) => order@.contains_key(s) && order@[s] == k && forall|t: u64|
                #[trigger] order@.contains_key(t) ==> s <= t,
            None => forall|t: u64| !(#[trigger] order@.contains_key(t)),
        },
{
    order.first_key_value().map(|(s, k)| (*s, *k))
}

// ---------------------------------------------------------------------------
// The cache
// ---------------------------------------------------------------------------

/// Expanded blocks by number, least recently used evicted first until the
/// budget holds — but never the most recent block.
pub struct BlockCache {
    blocks: BlockMap,
    /// Access order: the smallest number is the next to evict.
    order: BTreeMap<u64, usize>,
    used: usize,
    seq: u64,
    budget: usize,
    hits: u64,
    misses: u64,
    /// The block numbers, least recently used first.
    keys: Ghost<Seq<usize>>,
}

/// A snapshot of a block cache's use.
#[derive(Debug, Clone, Copy)]
pub struct BlockCacheStats {
    pub used_bytes: usize,
    pub budget_bytes: usize,
    pub blocks: usize,
    pub hits: u64,
    pub misses: u64,
}

impl BlockCache {
    /// The blocks, least recently used first.
    pub closed spec fn entries(&self) -> Blocks {
        listed(self.keys@, block_map(self.blocks))
    }

    pub closed spec fn budget_of(&self) -> nat {
        self.budget as nat
    }

    /// Lookups that found their block.
    pub closed spec fn hit_count(&self) -> u64 {
        self.hits
    }

    /// Lookups that did not.
    pub closed spec fn miss_count(&self) -> u64 {
        self.misses
    }

    /// Whether the access numbers have run out, after 2^64 - 1 accesses; the
    /// next insertion then starts from an empty cache.
    pub closed spec fn exhausted(&self) -> bool {
        self.seq == u64::MAX
    }

    /// The map, the access order and the byte count agree.
    pub closed spec fn inv(&self) -> bool {
        &&& tables_agree(block_map(self.blocks), self.keys@, self.order@, self.seq)
        &&& self.used == blocks_bytes(self.entries())
        &&& (self.used <= self.budget || self.entries().len() <= 1)
    }

    /// An empty cache for at most `budget` bytes of blocks, but the last.
    pub fn new(budget: usize) -> (res: Self)
        ensures
            res.inv(),
            res.entries() == Seq::<(usize, DecodedBlock)>::empty(),
            res.budget_of() == budget,
            res.hit_count() == 0,
            res.miss_count() == 0,
            !res.exhausted(),
    {
        let res = BlockCache {
            blocks: block_map_new(),
            order: BTreeMap::new(),
            used: 0,
            seq: 0,
            budget,
            hits: 0,
            misses: 0,
            keys: Ghost(Seq::empty()),
        };
        assert(res.entries() =~= Seq::<(usize, DecodedBlock)>::empty());
        res
    }

    /// The block stored under `block`; a found block becomes the most
    /// recently used.
    pub fn get(&mut self, block: usize) -> (res: Option<Arc<DecodedBlock>>)
        requires
            old(self).inv(),
        ensures
            final(self).inv(),
            match res {
                Some(b) => lookup(old(self).entries(), block) == Some(*b),
                None => lookup(old(self).entries(), block) is None,
            },
            final(self).entries() == (if old(self).exhausted() {
                old(self).entries()
            } else {
                touched(old(self).entries(), block)
            }),
            final(self).budget_of() == old(self).budget_of(),
            final(self).hit_count() == (if res is Some {
                old(self).hit_count().wrapping_add(1)
            } else {
                old(self).hit_count()
            }),
            final(self).miss_count() == (if res is Some {
                old(self).miss_count()
            } else {
                old(self).miss_count().wrapping_add(1)
            }),
    {
        let ghost m = block_map(self.blocks);
        let ghost keys = self.keys@;
        let ghost o = self.order@;
        proof {
            lemma_lookup_listed(keys, m, block);
        }
        match block_map_get(&self.blocks, block) {
            None => {
                self.misses = self.misses.wrapping_add(1);
                None
            },
            Some((data, old_seq)) => {
                let ghost db: DecodedBlock = shared(data);
                if self.seq < u64::MAX {
                    let ghost i = lemma_take_out(m, keys, o, self.seq, block, block_size());
                    self.order.remove(&old_seq);
                    let s = self.seq + 1;
                    self.order.insert(s, block);
                    block_map_insert(&mut self.blocks, block, data.clone(), s);
                    proof {
                        lemma_put_in(m.remove(block), keys.remove(i), o.remove(old_seq), self.seq, block, db);
                        assert(m.remove(block).insert(block, (db, s)) =~= block_map(self.blocks));
                        assert(o.remove(old_seq).insert(s, block) =~= self.order@);
                    }
                    self.seq = s;
                    self.keys = Ghost(keys.remove(i).push(block));
                    proof {
                        let rest = listed(keys.remove(i), m.remove(block));
                        assert(self.entries() == rest.push((block, db)));
                        lemma_total_push(rest, (block, db), block_size());
                    }
                }
                self.hits = self.hits.wrapping_add(1);
                Some(data)
            },
        }
    }

    /// Drops the least recently used block.
    fn evict_oldest(&mut self)
        requires
            old(self).inv(),
            old(self).keys@.len() > 0,
        ensures
            final(self).inv(),
            final(self).entries() == old(self).entries().drop_first(),
            final(self).keys@.len() == old(self).keys@.len() - 1,
            final(self).budget == old(self).budget,
            final(self).seq == old(self).seq,
            final(self).hits == old(self).hits,
            final(self).misses == old(self).misses,
            forall|x: usize|
                #[trigger] block_map(final(self).blocks).contains_key(x) ==> block_map(
                    old(self).blocks,
                ).contains_key(x),
    {
        let ghost m = block_map(self.blocks);
        let ghost keys = self.keys@;
        let ghost o = self.order@;
        proof {
            lemma_empty_tables(keys, m, o, self.seq);
        }
        let (t, k) = match first_of(&self.order) {
            Some(p) => p,
            None => {
                proof {
                    assert(o.contains_key(m[keys[0]].1));
                }
                return;
            },
        };
        proof {
            lemma_oldest(m, keys, o, self.seq, t, k);
        }
        let ghost i = lemma_take_out(m, keys, o, self.seq, k, block_size());
        assert(i == 0) by {
            assert(keys[0] == k);
        }
        self.order.remove(&t);
        let gone = block_map_remove(&mut self.blocks, k);
        let n = match gone {
            Some((b, _)) => b.bytes(),
            None => 0,
        };
        proof {
            assert(keys.remove(0) =~= keys.drop_first());
            assert(listed(keys, m).drop_first() =~= listed(keys.drop_first(), m));
            lemma_without_listed(keys, m, 0);
            assert(listed(keys.drop_first(), m.remove(k)) == listed(keys.drop_first(), m)) by {
                lemma_remove_contains(keys, 0, k);
                assert forall|a: int| 0 <= a < keys.drop_first().len() implies m.remove(k)[#[trigger] keys.drop_first()[a]].0
                    == m[keys.drop_first()[a]].0 by {
                    assert(keys.drop_first()[a] == keys[a + 1]);
                    assert(keys.remove(0).contains(keys.drop_first()[a]));
                }
                lemma_listed_agree(keys.drop_first(), m.remove(k), m);
            }
        }
        self.used = self.used - n;
        self.keys = Ghost(keys.drop_first());
    }

    /// Stores `data` under `block` as the most recently used block,
    /// replacing what was there, and evicts the least recently used blocks
    /// until the budget holds or only this one is left.
    pub fn insert(&mut self, block: usize, data: Arc<DecodedBlock>)
        requires
            old(self).inv(),
        ensures
            final(self).inv(),
            final(self).entries() == after_insert_block(
                if old(self).exhausted() {
                    Seq::empty()
                } else {
                    old(self).entries()
                },
                block,
                *data,
                old(self).budget_of(),
            ),
            final(self).budget_of() == old(self).budget_of(),
            final(self).hit_count() == old(self).hit_count(),
            final(self).miss_count() == old(self).miss_count(),
    {
        let size = data.bytes();
        let ghost db: DecodedBlock = shared(data);
        if self.seq == u64::MAX {
            self.blocks = block_map_new();
            self.order = BTreeMap::new();
            self.used = 0;
            self.seq = 0;
            self.keys = Ghost(Seq::empty());
            assert(self.entries() =~= Seq::<(usize, DecodedBlock)>::empty());
        }
        let ghost base = self.entries();
        let ghost m = block_map(self.blocks);
        let ghost keys = self.keys@;
        let ghost o = self.order@;
        match block_map_remove(&mut self.blocks, block) {
            Some((old_data, old_seq)) => {
                let ghost i = lemma_take_out(m, keys, o, self.seq, block, block_size());
                self.order.remove(&old_seq);
                self.used = self.used - old_data.bytes();
                self.keys = Ghost(keys.remove(i));
            },
            None => {
                proof {
                    assert(!keys.contains(block));
                    lemma_without_absent(keys, m, block);
                }
            },
        }
        let ghost rest = self.entries();
        assert(rest == without(base, block));
        while self.block_count() > 0 && (size > self.budget || self.used > self.budget - size)
            invariant
                self.inv(),
                self.seq < u64::MAX,
                self.budget == old(self).budget,
                self.hits == old(self).hits,
                self.misses == old(self).misses,
                !block_map(self.blocks).contains_key(block),
                make_room(self.entries(), size as nat, self.budget as nat) == make_room(
                    rest,
                    size as nat,
                    self.budget as nat,
                ),
            decreases self.keys@.len(),
        {
            proof {
                assert(self.entries().len() == self.keys@.len());
            }
            self.evict_oldest();
        }
        proof {
            assert(self.entries().len() == self.keys@.len());
            if self.keys@.len() == 0 {
                assert(self.entries() =~= Seq::<(usize, DecodedBlock)>::empty());
            }
        }
        let s = self.seq + 1;
        let ghost m2 = block_map(self.blocks);
        let ghost k2 = self.keys@;
        let ghost o2 = self.order@;
        proof {
            lemma_put_in(m2, k2, o2, self.seq, block, db);
        }
        self.order.insert(s, block);
        block_map_insert(&mut self.blocks, block, data, s);
        self.seq = s;
        self.keys = Ghost(k2.push(block));
        self.used = self.used + size;
        proof {
            let kept = listed(k2, m2);
            assert(self.entries() == kept.push((block, db)));
            lemma_total_push(kept, (block, db), block_size());
            lemma_make_room(rest, (block, db), self.budget as nat);
        }
    }

    /// How many blocks the cache holds.
    fn block_count(&self) -> (res: usize)
        requires
            self.inv(),
        ensures
            res == self.keys@.len(),
    {
        let n = block_map_len(&self.blocks);
        proof {
            let m = block_map(self.blocks);
            let keys = self.keys@;
            assert(m.dom() =~= keys.to_set()) by {
                assert forall|k: usize| m.dom().contains(k) <==> keys.to_set().contains(k) by {
                    assert(m.contains_key(k) <==> keys.contains(k));
                }
            }
            keys.unique_seq_to_set();
        }
        n
    }

    /// The cache's use: bytes held and allowed, blocks, hits and misses.
    pub fn stats(&self) -> (res: BlockCacheStats)
        requires
            self.inv(),
        ensures
            res.used_bytes == blocks_bytes(self.entries()),
            res.budget_bytes == self.budget_of(),
            res.blocks == self.entries().len(),
            res.used_bytes <= res.budget_bytes || res.blocks <= 1,
            res.hits == self.hit_count(),
            res.misses == self.miss_count(),
    {
        let n = self.block_count();
        BlockCacheStats {
            used_bytes: self.used,
            budget_bytes: self.budget,
            blocks: n,
            hits: self.hits,
            misses: self.misses,
        }
    }
}

} // verus!
