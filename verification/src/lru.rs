//! Least-recently-used bookkeeping shared by the caches: a map from key to
//! value and access number, an access order from number to key, and the keys
//! in order of use, kept in step.

use vstd::prelude::*;

verus! {

/// What the entries hold in all, each entry's value measured by `size`.
pub open spec fn total<K, V>(v: Seq<(K, V)>, size: spec_fn(V) -> nat) -> nat
    decreases v.len(),
{
    if v.len() == 0 {
        0
    } else {
        total(v.drop_last(), size) + size(v.last().1)
    }
}

/// The value stored under `key`, if any.
pub open spec fn lookup<K, V>(v: Seq<(K, V)>, key: K) -> Option<V>
    decreases v.len(),
{
    if v.len() == 0 {
        None
    } else if v.last().0 == key {
        Some(v.last().1)
    } else {
        lookup(v.drop_last(), key)
    }
}

/// The entries without the one stored under `key`.
pub open spec fn without<K, V>(v: Seq<(K, V)>, key: K) -> Seq<(K, V)>
    decreases v.len(),
{
    if v.len() == 0 {
        v
    } else if v.last().0 == key {
        without(v.drop_last(), key)
    } else {
        without(v.drop_last(), key).push(v.last())
    }
}

/// A read of `key`: a found entry becomes the most recently used.
pub open spec fn touched<K, V>(v: Seq<(K, V)>, key: K) -> Seq<(K, V)> {
    match lookup(v, key) {
        Some(d) => without(v, key).push((key, d)),
        None => v,
    }
}

/// The list of `keys` with what `m` stores under each.
pub open spec fn listed<K, V>(keys: Seq<K>, m: Map<K, (V, u64)>) -> Seq<(K, V)> {
    keys.map_values(|k: K| (k, m[k].0))
}

pub proof fn lemma_listed_drop_last<K, V>(keys: Seq<K>, m: Map<K, (V, u64)>)
    requires
        keys.len() > 0,
    ensures
        listed(keys, m).drop_last() == listed(keys.drop_last(), m),
        listed(keys, m).last() == (keys.last(), m[keys.last()].0),
{
    assert(listed(keys, m).drop_last() =~= listed(keys.drop_last(), m));
}

pub proof fn lemma_lookup_listed<K, V>(keys: Seq<K>, m: Map<K, (V, u64)>, key: K)
    ensures
        lookup(listed(keys, m), key) == (if keys.contains(key) {
            Some(m[key].0)
        } else {
            None::<V>
        }),
    decreases keys.len(),
{
    if keys.len() > 0 {
        lemma_listed_drop_last(keys, m);
        lemma_lookup_listed(keys.drop_last(), m, key);
        if keys.last() != key {
            assert(keys.contains(key) == keys.drop_last().contains(key)) by {
                if keys.contains(key) {
                    let i = choose|i: int| 0 <= i < keys.len() && keys[i] == key;
                    assert(keys.drop_last()[i] == key);
                }
                if keys.drop_last().contains(key) {
                    let i = choose|i: int| 0 <= i < keys.drop_last().len() && keys.drop_last()[i] == key;
                    assert(keys[i] == key);
                }
            }
        } else {
            assert(keys[keys.len() - 1] == key);
        }
    }
}

pub proof fn lemma_without_listed<K, V>(keys: Seq<K>, m: Map<K, (V, u64)>, i: int)
    requires
        keys.no_duplicates(),
        0 <= i < keys.len(),
    ensures
        without(listed(keys, m), keys[i]) == listed(keys.remove(i), m),
    decreases keys.len(),
{
    let k = keys[i];
    lemma_listed_drop_last(keys, m);
    if i == keys.len() - 1 {
        assert(keys.remove(i) =~= keys.drop_last());
        lemma_without_absent(keys.drop_last(), m, k);
    } else {
        assert(keys.drop_last().no_duplicates());
        lemma_without_listed(keys.drop_last(), m, i);
        assert(keys.drop_last()[i] == k);
        assert(keys.last() != k);
        assert(keys.remove(i) =~= keys.drop_last().remove(i).push(keys.last()));
        lemma_listed_push(keys.drop_last().remove(i), m, keys.last());
    }
}

pub proof fn lemma_listed_push<K, V>(keys: Seq<K>, m: Map<K, (V, u64)>, k: K)
    ensures
        listed(keys.push(k), m) == listed(keys, m).push((k, m[k].0)),
{
    assert(listed(keys.push(k), m) =~= listed(keys, m).push((k, m[k].0)));
}

pub proof fn lemma_without_absent<K, V>(keys: Seq<K>, m: Map<K, (V, u64)>, k: K)
    requires
        !keys.contains(k),
    ensures
        without(listed(keys, m), k) == listed(keys, m),
    decreases keys.len(),
{
    if keys.len() > 0 {
        lemma_listed_drop_last(keys, m);
        assert(!keys.drop_last().contains(k)) by {
            if keys.drop_last().contains(k) {
                let j = choose|j: int| 0 <= j < keys.drop_last().len() && keys.drop_last()[j] == k;
                assert(keys[j] == k);
            }
        }
        assert(keys.last() != k) by {
            assert(keys[keys.len() - 1] == keys.last());
        }
        lemma_without_absent(keys.drop_last(), m, k);
        assert(listed(keys, m) =~= listed(keys, m).drop_last().push(listed(keys, m).last()));
    }
}

/// Only the listed keys' contents matter.
pub proof fn lemma_listed_agree<K, V>(keys: Seq<K>, m1: Map<K, (V, u64)>, m2: Map<K, (V, u64)>)
    requires
        forall|i: int| 0 <= i < keys.len() ==> m1[#[trigger] keys[i]].0 == m2[keys[i]].0,
    ensures
        listed(keys, m1) == listed(keys, m2),
{
    assert(listed(keys, m1) =~= listed(keys, m2));
}

pub proof fn lemma_total_remove<K, V>(v: Seq<(K, V)>, i: int, size: spec_fn(V) -> nat)
    requires
        0 <= i < v.len(),
    ensures
        total(v, size) == total(v.remove(i), size) + size(v[i].1),
    decreases v.len(),
{
    if i == v.len() - 1 {
        assert(v.remove(i) =~= v.drop_last());
    } else {
        lemma_total_remove(v.drop_last(), i, size);
        assert(v.remove(i).drop_last() =~= v.drop_last().remove(i));
        assert(v.remove(i).last() == v.last());
    }
}

pub proof fn lemma_total_push<K, V>(v: Seq<(K, V)>, x: (K, V), size: spec_fn(V) -> nat)
    ensures
        total(v.push(x), size) == total(v, size) + size(x.1),
{
    assert(v.push(x).drop_last() =~= v);
}

/// The contents map `m`, the keys in order of use `keys` and the access
/// order `o` agree: each key once, in both maps, its access number in `o`
/// pointing back at it, access numbers rising along the order of use and
/// none above `seq`.
pub open spec fn tables_agree<K, V>(m: Map<K, (V, u64)>, keys: Seq<K>, o: Map<u64, K>, seq: u64) -> bool {
    &&& keys.no_duplicates()
    &&& forall|k: K| #[trigger] m.contains_key(k) <==> keys.contains(k)
    &&& forall|i: int, j: int|
        0 <= i < j < keys.len() ==> m[#[trigger] keys[i]].1 < m[#[trigger] keys[j]].1
    &&& forall|i: int| 0 <= i < keys.len() ==> m[#[trigger] keys[i]].1 <= seq
    &&& forall|k: K| #[trigger] m.contains_key(k) ==> o.contains_key(m[k].1) && o[m[k].1] == k
    &&& forall|t: u64| #[trigger] o.contains_key(t) ==> m.contains_key(o[t]) && m[o[t]].1 == t
}

pub proof fn lemma_index_of<K>(keys: Seq<K>, key: K) -> (i: int)
    requires
        keys.contains(key),
    ensures
        0 <= i < keys.len(),
        keys[i] == key,
{
    choose|i: int| 0 <= i < keys.len() && keys[i] == key
}

pub proof fn lemma_remove_contains<K>(keys: Seq<K>, i: int, k: K)
    requires
        keys.no_duplicates(),
        0 <= i < keys.len(),
    ensures
        keys.remove(i).contains(k) <==> keys.contains(k) && k != keys[i],
        keys.remove(i).no_duplicates(),
{
    let r = keys.remove(i);
    if r.contains(k) {
        let j = choose|j: int| 0 <= j < r.len() && r[j] == k;
        let jj = if j < i { j } else { j + 1 };
        assert(keys[jj] == k && jj != i);
    }
    if keys.contains(k) && k != keys[i] {
        let j = choose|j: int| 0 <= j < keys.len() && keys[j] == k;
        assert(j != i);
        if j < i {
            assert(r[j] == k);
        } else {
            assert(r[j - 1] == k);
        }
    }
    assert forall|p: int, q: int| 0 <= p < q < r.len() implies r[p] != r[q] by {
        let pp = if p < i { p } else { p + 1 };
        let qq = if q < i { q } else { q + 1 };
        assert(r[p] == keys[pp] && r[q] == keys[qq] && pp != qq);
    }
}

/// Taking `key` out of the tables.
pub proof fn lemma_take_out<K, V>(m: Map<K, (V, u64)>, keys: Seq<K>, o: Map<u64, K>, seq: u64, key: K, size: spec_fn(V) -> nat) -> (i: int)
    requires
        tables_agree(m, keys, o, seq),
        m.contains_key(key),
    ensures
        0 <= i < keys.len(),
        keys[i] == key,
        tables_agree(m.remove(key), keys.remove(i), o.remove(m[key].1), seq),
        listed(keys.remove(i), m.remove(key)) == without(listed(keys, m), key),
        total(listed(keys, m), size) == total(listed(keys.remove(i), m.remove(key)), size) + size(m[key].0),
{
    let i = lemma_index_of(keys, key);
    let m2 = m.remove(key);
    let k2 = keys.remove(i);
    let o2 = o.remove(m[key].1);
    assert forall|k: K| #[trigger] m2.contains_key(k) <==> k2.contains(k) by {
        lemma_remove_contains(keys, i, k);
    }
    lemma_remove_contains(keys, i, key);
    assert forall|a: int, b: int| 0 <= a < b < k2.len() implies m2[#[trigger] k2[a]].1 < m2[#[trigger] k2[b]].1 by {
        let aa = if a < i { a } else { a + 1 };
        let bb = if b < i { b } else { b + 1 };
        assert(k2[a] == keys[aa] && k2[b] == keys[bb]);
        assert(k2.contains(k2[a]) && k2.contains(k2[b]));
    }
    assert forall|a: int| 0 <= a < k2.len() implies m2[#[trigger] k2[a]].1 <= seq by {
        let aa = if a < i { a } else { a + 1 };
        assert(k2[a] == keys[aa]);
        assert(k2.contains(k2[a]));
    }
    assert forall|k: K| #[trigger] m2.contains_key(k) implies o2.contains_key(m2[k].1) && o2[m2[k].1] == k by {
        assert(o[m[k].1] == k);
    }
    assert forall|t: u64| #[trigger] o2.contains_key(t) implies m2.contains_key(o2[t]) && m2[o2[t]].1 == t by {
        assert(o.contains_key(t));
        assert(o[t] != key);
    }
    lemma_without_listed(keys, m, i);
    assert forall|a: int| 0 <= a < k2.len() implies m2[#[trigger] k2[a]].0 == m[k2[a]].0 by {
        assert(k2.contains(k2[a]));
    }
    lemma_listed_agree(k2, m2, m);
    assert(listed(k2, m) =~= listed(keys, m).remove(i));
    lemma_total_remove(listed(keys, m), i, size);
    i
}

/// Putting `key` into the tables as the most recently used, with access
/// number `seq + 1`.
pub proof fn lemma_put_in<K, V>(m: Map<K, (V, u64)>, keys: Seq<K>, o: Map<u64, K>, seq: u64, key: K, d: V)
    requires
        tables_agree(m, keys, o, seq),
        !m.contains_key(key),
        seq < u64::MAX,
    ensures
        tables_agree(
            m.insert(key, (d, (seq + 1) as u64)),
            keys.push(key),
            o.insert((seq + 1) as u64, key),
            (seq + 1) as u64,
        ),
        listed(keys.push(key), m.insert(key, (d, (seq + 1) as u64))) == listed(keys, m).push((key, d)),
{
    let s = (seq + 1) as u64;
    let m2 = m.insert(key, (d, s));
    let k2 = keys.push(key);
    let o2 = o.insert(s, key);
    assert(!keys.contains(key));
    assert forall|k: K| #[trigger] m2.contains_key(k) <==> k2.contains(k) by {
        if k2.contains(k) && k != key {
            let j = choose|j: int| 0 <= j < k2.len() && k2[j] == k;
            assert(keys[j] == k);
        }
        if keys.contains(k) {
            let j = choose|j: int| 0 <= j < keys.len() && keys[j] == k;
            assert(k2[j] == k);
        }
        if k == key {
            assert(k2[keys.len() as int] == key);
        }
    }
    assert forall|p: int, q: int| 0 <= p < q < k2.len() implies k2[p] != k2[q] by {
        if q == keys.len() {
            assert(keys.contains(k2[p]));
        }
    }
    assert forall|a: int, b: int| 0 <= a < b < k2.len() implies m2[#[trigger] k2[a]].1 < m2[#[trigger] k2[b]].1 by {
        assert(keys.contains(k2[a]));
        assert(m[keys[a]].1 <= seq);
    }
    assert forall|a: int| 0 <= a < k2.len() implies m2[#[trigger] k2[a]].1 <= s by {
        if a < keys.len() {
            assert(m[keys[a]].1 <= seq);
            assert(keys.contains(k2[a]));
        }
    }
    assert forall|k: K| #[trigger] m2.contains_key(k) implies o2.contains_key(m2[k].1) && o2[m2[k].1] == k by {
        if k != key {
            let j = lemma_index_of(keys, k);
            assert(m[keys[j]].1 <= seq);
        }
    }
    assert forall|t: u64| #[trigger] o2.contains_key(t) implies m2.contains_key(o2[t]) && m2[o2[t]].1 == t by {
        if t != s {
            assert(o.contains_key(t));
        }
    }
    assert forall|a: int| 0 <= a < keys.len() implies m2[#[trigger] keys[a]].0 == m[keys[a]].0 by {
        assert(keys.contains(keys[a]));
    }
    lemma_listed_agree(keys, m2, m);
    lemma_listed_push(keys, m2, key);
}

/// The smallest access number belongs to the least recently used key.
pub proof fn lemma_oldest<K, V>(m: Map<K, (V, u64)>, keys: Seq<K>, o: Map<u64, K>, seq: u64, t: u64, k: K)
    requires
        tables_agree(m, keys, o, seq),
        o.contains_key(t),
        o[t] == k,
        forall|u: u64| #[trigger] o.contains_key(u) ==> t <= u,
    ensures
        keys.len() > 0,
        keys[0] == k,
        m[k].1 == t,
{
    assert(m.contains_key(k));
    let i = lemma_index_of(keys, k);
    if i > 0 {
        assert(m[keys[0]].1 < m[keys[i]].1);
        assert(keys.contains(keys[0]));
        assert(m.contains_key(keys[0]));
        assert(o.contains_key(m[keys[0]].1));
    }
}

pub proof fn lemma_empty_tables<K, V>(keys: Seq<K>, m: Map<K, (V, u64)>, o: Map<u64, K>, seq: u64)
    requires
        tables_agree(m, keys, o, seq),
        keys.len() > 0,
    ensures
        o.contains_key(m[keys[0]].1),
{
    assert(keys.contains(keys[0]));
    assert(m.contains_key(keys[0]));
}

} // verus!
