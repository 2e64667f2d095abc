//! A chaining hash map with string keys.
//!
//! Keys are hashed with [`std::collections::hash_map::DefaultHasher`] over
//! their UTF-8 bytes, and each key lives in the bucket its hash selects.
//! Collisions are handled by chaining: a bucket is a vector of entries that
//! is scanned linearly. The map is abstracted as a mathematical map
//! (`self@`) from key characters to values.

use vstd::prelude::*;
use vstd::std_specs::hash::DefaultHasherAdditionalSpecFns;
use std::collections::hash_map::DefaultHasher;
use std::hash::Hasher;

verus! {

/// One key/value pair of a bucket.
struct Entry<V> {
    key: String,
    value: V,
}

/// The hash of a key: what `DefaultHasher` digests from the key's UTF-8
/// bytes written in one block.
pub open spec fn spec_hash(key: Seq<char>) -> u64 {
    DefaultHasher::spec_finish(seq![vstd::utf8::encode_utf8(key)])
}

/// The bucket that a key selects in a table of `capacity` buckets.
pub open spec fn bucket_index_of(key: Seq<char>, capacity: int) -> int {
    (spec_hash(key) as usize) as int % capacity
}

/// Whether some entry of the bucket `b` holds the key `k`.
spec fn bucket_has_key<V>(b: Seq<Entry<V>>, k: Seq<char>) -> bool {
    exists|j: int| 0 <= j < b.len() && #[trigger] b[j].key@ == k
}

/// The value that the bucket `b` holds for the key `k`.
spec fn bucket_value<V>(b: Seq<Entry<V>>, k: Seq<char>) -> V {
    b[choose|j: int| 0 <= j < b.len() && #[trigger] b[j].key@ == k].value
}

/// Whether the table `bs` of `cap` buckets holds the key `k` in the
/// bucket that `k` selects.
spec fn table_has<V>(bs: Seq<Vec<Entry<V>>>, cap: int, k: Seq<char>) -> bool {
    bucket_has_key(bs[bucket_index_of(k, cap)]@, k)
}

/// The value that the table `bs` of `cap` buckets holds for the key `k`.
spec fn table_value<V>(bs: Seq<Vec<Entry<V>>>, cap: int, k: Seq<char>) -> V {
    bucket_value(bs[bucket_index_of(k, cap)]@, k)
}

/// The number of entries stored across all buckets.
spec fn total_entries<V>(bs: Seq<Vec<Entry<V>>>) -> nat
    decreases bs.len(),
{
    if bs.len() == 0 {
        0
    } else {
        total_entries(bs.drop_last()) + bs.last()@.len()
    }
}

/// A hash map from string keys to values of type `V`, with chaining.
pub struct SimpleHashMap<V> {
    buckets: Vec<Vec<Entry<V>>>,
    len: usize,
    capacity: usize,
}

impl<V> View for SimpleHashMap<V> {
    type V = Map<Seq<char>, V>;

    closed spec fn view(&self) -> Map<Seq<char>, V> {
        Map::new(|k: Seq<char>| self.spec_contains(k), |k: Seq<char>| self.spec_value(k))
    }
}

impl<V> SimpleHashMap<V> {
    /// Whether the map holds the key `k`.
    spec fn spec_contains(&self, k: Seq<char>) -> bool {
        self.capacity > 0 && table_has(self.buckets@, self.capacity as int, k)
    }

    /// The value the map holds for the key `k`.
    spec fn spec_value(&self, k: Seq<char>) -> V {
        table_value(self.buckets@, self.capacity as int, k)
    }

    /// The number of entries in the map.
    pub closed spec fn spec_len(&self) -> nat {
        self.len as nat
    }

    /// The structural invariant: at least one bucket; every entry lives in
    /// the bucket its key selects; no bucket holds a key twice; and the
    /// entry counter matches the stored entries.
    pub closed spec fn well_formed(&self) -> bool {
        &&& self.capacity >= 1
        &&& self.buckets@.len() == self.capacity
        &&& forall|i: int, j: int|
            0 <= i < self.buckets@.len() && 0 <= j < self.buckets@[i]@.len()
                ==> bucket_index_of(#[trigger] self.buckets@[i]@[j].key@, self.capacity as int)
                == i
        &&& forall|i: int, j1: int, j2: int|
            0 <= i < self.buckets@.len() && 0 <= j1 < j2 < self.buckets@[i]@.len() ==> (
            #[trigger] self.buckets@[i]@[j1].key@) != (#[trigger] self.buckets@[i]@[j2].key@)
        &&& self.len == total_entries(self.buckets@)
    }

    /// Creates a map with the default number of buckets.
    pub fn new() -> (m: Self)
        ensures
            m.well_formed(),
            m@ == Map::<Seq<char>, V>::empty(),
            m.spec_len() == 0,
    {
        Self::with_capacity(16)
    }

    /// Creates a map with `capacity` buckets.
    pub fn with_capacity(capacity: usize) -> (m: Self)
        requires
            capacity >= 1,
        ensures
            m.well_formed(),
            m@ == Map::<Seq<char>, V>::empty(),
            m.spec_len() == 0,
    {
        let mut buckets: Vec<Vec<Entry<V>>> = Vec::new();
        let mut t: usize = 0;
        while t < capacity
            invariant
                0 <= t <= capacity,
                buckets@.len() == t,
                forall|i: int| 0 <= i < t ==> #[trigger] buckets@[i]@.len() == 0,
                total_entries(buckets@) == 0,
            decreases capacity - t,
        {
            let ghost before = buckets@;
            buckets.push(Vec::new());
            proof {
                assert(buckets@.drop_last() =~= before);
            }
            t = t + 1;
        }
        let m = SimpleHashMap { buckets, len: 0, capacity };
        proof {
            assert(m@ =~= Map::<Seq<char>, V>::empty());
        }
        m
    }

    /// Computes the bucket index for `key`, as the remainder of the key's
    /// hash by the number of buckets.
    fn hash(&self, key: &str) -> (idx: usize)
        requires
            self.capacity >= 1,
        ensures
            idx == bucket_index_of(key@, self.capacity as int),
            idx < self.capacity,
    {
        bucket_for(key, self.capacity)
    }

    /// Returns a reference to the value stored for `key`, or `None` when
    /// the map does not hold the key.
    pub fn get(&self, key: &str) -> (r: Option<&V>)
        requires
            self.well_formed(),
        ensures
            match r {
                Some(v) => self@.contains_key(key@) && *v == self@[key@],
                None => !self@.contains_key(key@),
            },
    {
        let idx = self.hash(key);
        let bucket = &self.buckets[idx];
        let n = bucket.len();
        let mut j: usize = 0;
        while j < n
            invariant
                self.well_formed(),
                idx == bucket_index_of(key@, self.capacity as int),
                idx < self.capacity,
                bucket@ == self.buckets@[idx as int]@,
                n == bucket@.len(),
                0 <= j <= n,
                forall|t: int| 0 <= t < j ==> (#[trigger] bucket@[t].key@) != key@,
            decreases n - j,
        {
            if str_eq(bucket[j].key.as_str(), key) {
                proof {
                    let jj = choose|t: int| 0 <= t < bucket@.len() && #[trigger] bucket@[t].key@
                        == key@;
                    assert(self.buckets@[idx as int]@[jj].key@ == key@);
                    assert(self.buckets@[idx as int]@[j as int].key@ == key@);
                    assert(jj == j as int);
                }
                return Some(&bucket[j].value);
            }
            j = j + 1;
        }
        None
    }

    /// Whether the map holds the key `key`.
    pub fn contains_key(&self, key: &str) -> (b: bool)
        requires
            self.well_formed(),
        ensures
            b == self@.contains_key(key@),
    {
        self.get(key).is_some()
    }

    /// Stores `value` for `key`: replaces the stored value when the key is
    /// already present, and adds a new entry otherwise.
    pub fn insert(&mut self, key: &str, value: V)
        requires
            old(self).well_formed(),
            old(self).spec_len() < usize::MAX,
        ensures
            final(self).well_formed(),
            final(self)@ == old(self)@.insert(key@, value),
            final(self).spec_len() == old(self).spec_len() + (if old(self)@.contains_key(key@) {
                0int
            } else {
                1int
            }),
    {
        let idx = self.hash(key);
        let ghost obs = self.buckets@;
        let mut bucket = self.buckets.remove(idx);
        let ghost ob = bucket@;
        let n = bucket.len();
        let mut j: usize = 0;
        let mut found: Option<usize> = None;
        while j < n
            invariant
                bucket@ == ob,
                n == ob.len(),
                0 <= j <= n,
                match found {
                    None => forall|t: int| 0 <= t < j ==> (#[trigger] ob[t].key@) != key@,
                    Some(p) => p < n && ob[p as int].key@ == key@,
                },
            decreases n - j,
        {
            if found.is_none() && str_eq(bucket[j].key.as_str(), key) {
                found = Some(j);
            }
            j = j + 1;
        }
        let owned = key.to_owned();
        match found {
            Some(p) => {
                proof {
                    lemma_bucket_value_unique(ob, key@, p as int);
                }
                bucket[p] = Entry { key: owned, value };
                proof {
                    assert(bucket@ == ob.update(p as int, bucket@[p as int]));
                }
                self.buckets.insert(idx, bucket);
                proof {
                    obs.remove(idx as int).insert_ensures(idx as int, bucket);
                    obs.remove_ensures(idx as int);
                    assert(self.buckets@ =~= obs.update(idx as int, bucket));
                    lemma_total_entries_update(obs, idx as int, bucket);
                    self.lemma_after_insert(*old(self), key@, value, p as int);
                }
            },
            None => {
                bucket.push(Entry { key: owned, value });
                proof {
                    assert(bucket@ == ob.push(bucket@[n as int]));
                    assert(!bucket_has_key(ob, key@));
                }
                self.buckets.insert(idx, bucket);
                self.len = self.len + 1;
                proof {
                    obs.remove(idx as int).insert_ensures(idx as int, bucket);
                    obs.remove_ensures(idx as int);
                    assert(self.buckets@ =~= obs.update(idx as int, bucket));
                    lemma_total_entries_update(obs, idx as int, bucket);
                    self.lemma_after_insert(*old(self), key@, value, n as int);
                }
                // Double the table when the load factor passes three
                // quarters, as long as the doubled bucket count still fits.
                if (self.len as u128) * 4 > (self.capacity as u128) * 3 && self.capacity
                    <= usize::MAX / 2 {
                    self.resize();
                }
            },
        }
    }

    /// After writing the entry for `key` at position `p` of its bucket, the
    /// map is the old map with `key` bound to `value`, and the bucket
    /// structure is still sound.
    ///
    /// `self` is the state after the write; `prev` the state before. The
    /// bucket of `key` either kept its length (the entry at `p` replaced one
    /// with the same key) or grew by the one entry at its end.
    proof fn lemma_after_insert(&self, prev: Self, key: Seq<char>, value: V, p: int)
        requires
            prev.well_formed(),
            self.capacity == prev.capacity,
            self.buckets@.len() == prev.buckets@.len(),
            ({
                let idx = bucket_index_of(key, prev.capacity as int);
                let nb = self.buckets@[idx]@;
                let ob = prev.buckets@[idx]@;
                &&& forall|i: int|
                    0 <= i < prev.buckets@.len() && i != idx ==> (#[trigger] self.buckets@[i])
                        == prev.buckets@[i]
                &&& 0 <= p < nb.len()
                &&& (nb.len() == ob.len() || (nb.len() == ob.len() + 1 && p == ob.len()))
                &&& (nb.len() == ob.len() ==> ob[p].key@ == key)
                &&& (nb.len() == ob.len() + 1 ==> !bucket_has_key(ob, key))
                &&& forall|j: int| 0 <= j < nb.len() && j != p ==> (#[trigger] nb[j]) == ob[j]
                &&& nb[p].key@ == key
                &&& nb[p].value == value
            }),
        ensures
            forall|i: int, j1: int, j2: int|
                0 <= i < self.buckets@.len() && 0 <= j1 < j2 < self.buckets@[i]@.len() ==> (
                #[trigger] self.buckets@[i]@[j1].key@) != (#[trigger] self.buckets@[i]@[j2].key@),
            forall|i: int, j: int|
                0 <= i < self.buckets@.len() && 0 <= j < self.buckets@[i]@.len()
                    ==> bucket_index_of(
                    #[trigger] self.buckets@[i]@[j].key@,
                    self.capacity as int,
                ) == i,
            self@ == prev@.insert(key, value),
    {
        let idx = bucket_index_of(key, prev.capacity as int);
        let nb = self.buckets@[idx]@;
        let ob = prev.buckets@[idx]@;
        assert(forall|j: int| 0 <= j < nb.len() ==> (#[trigger] nb[j].key@) == (if j == p {
            key
        } else {
            ob[j].key@
        }));
        assert(self@ =~= prev@.insert(key, value)) by {
            assert forall|k2: Seq<char>| true implies self.spec_contains(k2) == (k2 == key
                || prev.spec_contains(k2)) by {
                let bi = bucket_index_of(k2, prev.capacity as int);
                if bi == idx {
                    if self.spec_contains(k2) {
                        let t = choose|t: int| 0 <= t < nb.len() && #[trigger] nb[t].key@ == k2;
                        if t != p {
                            assert(ob[t].key@ == k2);
                        }
                    }
                    if k2 == key {
                        assert(nb[p].key@ == k2);
                    }
                    if k2 != key && prev.spec_contains(k2) {
                        let t = choose|t: int| 0 <= t < ob.len() && #[trigger] ob[t].key@ == k2;
                        assert(t != p || nb.len() == ob.len() + 1);
                        if t == p && nb.len() == ob.len() + 1 {
                            assert(false);
                        }
                        assert(nb[t].key@ == k2);
                    }
                } else {
                    assert(self.buckets@[bi] == prev.buckets@[bi]);
                }
            }
            assert forall|k2: Seq<char>| self.spec_contains(k2) implies self.spec_value(k2) == (
            if k2 == key {
                value
            } else {
                prev.spec_value(k2)
            }) by {
                let bi = bucket_index_of(k2, prev.capacity as int);
                if bi == idx {
                    if k2 == key {
                        lemma_bucket_value_unique(nb, k2, p);
                    } else {
                        let t = choose|t: int| 0 <= t < nb.len() && #[trigger] nb[t].key@ == k2;
                        assert(t != p);
                        assert(ob[t].key@ == k2);
                        lemma_bucket_value_unique(nb, k2, t);
                        lemma_bucket_value_unique(ob, k2, t);
                    }
                } else {
                    assert(self.buckets@[bi] == prev.buckets@[bi]);
                }
            }
        }
    }

    /// Removes the entry for `key` and returns its value, or returns
    /// `None` when the map does not hold the key.
    pub fn remove(&mut self, key: &str) -> (r: Option<V>)
        requires
            old(self).well_formed(),
        ensures
            final(self).well_formed(),
            final(self)@ == old(self)@.remove(key@),
            match r {
                Some(v) => old(self)@.contains_key(key@) && v == old(self)@[key@]
                    && final(self).spec_len() == old(self).spec_len() - 1,
                None => !old(self)@.contains_key(key@)
                    && final(self).spec_len() == old(self).spec_len(),
            },
    {
        let idx = self.hash(key);
        let ghost obs = self.buckets@;
        let mut bucket = self.buckets.remove(idx);
        let ghost ob = bucket@;
        let n = bucket.len();
        let mut j: usize = 0;
        let mut found: Option<usize> = None;
        while j < n
            invariant
                bucket@ == ob,
                n == ob.len(),
                0 <= j <= n,
                match found {
                    None => forall|t: int| 0 <= t < j ==> (#[trigger] ob[t].key@) != key@,
                    Some(p) => p < n && ob[p as int].key@ == key@,
                },
            decreases n - j,
        {
            if found.is_none() && str_eq(bucket[j].key.as_str(), key) {
                found = Some(j);
            }
            j = j + 1;
        }
        match found {
            Some(p) => {
                proof {
                    lemma_bucket_value_unique(ob, key@, p as int);
                    lemma_total_entries_bound(obs, idx as int);
                    ob.remove_ensures(p as int);
                }
                let entry = bucket.remove(p);
                self.buckets.insert(idx, bucket);
                self.len = self.len - 1;
                proof {
                    obs.remove(idx as int).insert_ensures(idx as int, bucket);
                    obs.remove_ensures(idx as int);
                    assert(self.buckets@ =~= obs.update(idx as int, bucket));
                    lemma_total_entries_update(obs, idx as int, bucket);
                    self.lemma_after_remove(*old(self), key@, p as int);
                }
                Some(entry.value)
            },
            None => {
                self.buckets.insert(idx, bucket);
                proof {
                    obs.remove(idx as int).insert_ensures(idx as int, bucket);
                    obs.remove_ensures(idx as int);
                    assert(self.buckets@ =~= obs);
                    assert(!old(self)@.contains_key(key@));
                    assert(self@ =~= old(self)@.remove(key@));
                }
                None
            },
        }
    }

    /// After deleting the entry at position `p` of the bucket of `key`, the
    /// map is the old map without `key`, and the bucket structure is still
    /// sound.
    ///
    /// `self` is the state after the deletion; `prev` the state before.
    proof fn lemma_after_remove(&self, prev: Self, key: Seq<char>, p: int)
        requires
            prev.well_formed(),
            self.capacity == prev.capacity,
            self.buckets@.len() == prev.buckets@.len(),
            ({
                let idx = bucket_index_of(key, prev.capacity as int);
                let nb = self.buckets@[idx]@;
                let ob = prev.buckets@[idx]@;
                &&& forall|i: int|
                    0 <= i < prev.buckets@.len() && i != idx ==> (#[trigger] self.buckets@[i])
                        == prev.buckets@[i]
                &&& 0 <= p < ob.len()
                &&& ob[p].key@ == key
                &&& nb.len() == ob.len() - 1
                &&& forall|j: int| 0 <= j < p ==> (#[trigger] nb[j]) == ob[j]
                &&& forall|j: int| p <= j < nb.len() ==> (#[trigger] nb[j]) == ob[j + 1]
            }),
        ensures
            forall|i: int, j1: int, j2: int|
                0 <= i < self.buckets@.len() && 0 <= j1 < j2 < self.buckets@[i]@.len() ==> (
                #[trigger] self.buckets@[i]@[j1].key@) != (#[trigger] self.buckets@[i]@[j2].key@),
            forall|i: int, j: int|
                0 <= i < self.buckets@.len() && 0 <= j < self.buckets@[i]@.len()
                    ==> bucket_index_of(
                    #[trigger] self.buckets@[i]@[j].key@,
                    self.capacity as int,
                ) == i,
            self@ == prev@.remove(key),
    {
        let idx = bucket_index_of(key, prev.capacity as int);
        let nb = self.buckets@[idx]@;
        let ob = prev.buckets@[idx]@;
        assert(self@ =~= prev@.remove(key)) by {
            assert forall|k2: Seq<char>| true implies self.spec_contains(k2) == (k2 != key
                && prev.spec_contains(k2)) by {
                let bi = bucket_index_of(k2, prev.capacity as int);
                if bi == idx {
                    if self.spec_contains(k2) {
                        let t = choose|t: int| 0 <= t < nb.len() && #[trigger] nb[t].key@ == k2;
                        if t < p {
                            assert(ob[t].key@ == k2);
                        } else {
                            assert(ob[t + 1].key@ == k2);
                        }
                        if k2 == key {
                            assert(false);
                        }
                    }
                    if k2 != key && prev.spec_contains(k2) {
                        let t = choose|t: int| 0 <= t < ob.len() && #[trigger] ob[t].key@ == k2;
                        assert(t != p);
                        if t < p {
                            assert(nb[t].key@ == k2);
                        } else {
                            assert(nb[t - 1].key@ == k2);
                        }
                    }
                } else {
                    assert(self.buckets@[bi] == prev.buckets@[bi]);
                }
            }
            assert forall|k2: Seq<char>| self.spec_contains(k2) implies self.spec_value(k2)
                == prev.spec_value(k2) by {
                let bi = bucket_index_of(k2, prev.capacity as int);
                if bi == idx {
                    let t = choose|t: int| 0 <= t < nb.len() && #[trigger] nb[t].key@ == k2;
                    lemma_bucket_value_unique(nb, k2, t);
                    if t < p {
                        assert(ob[t].key@ == k2);
                        lemma_bucket_value_unique(ob, k2, t);
                    } else {
                        assert(ob[t + 1].key@ == k2);
                        lemma_bucket_value_unique(ob, k2, t + 1);
                    }
                } else {
                    assert(self.buckets@[bi] == prev.buckets@[bi]);
                }
            }
        }
    }

    /// Doubles the number of buckets and moves every entry into the bucket
    /// its key selects in the larger table; the stored entries, and hence
    /// the map, do not change.
    fn resize(&mut self)
        requires
            old(self).well_formed(),
            old(self).capacity <= usize::MAX / 2,
        ensures
            final(self).well_formed(),
            final(self)@ == old(self)@,
            final(self).spec_len() == old(self).spec_len(),
            final(self).capacity == 2 * old(self).capacity,
    {
        let new_capacity = self.capacity * 2;
        let ghost ocap = self.capacity as int;
        let ghost ncap = new_capacity as int;
        let ghost obs = self.buckets@;
        let ghost len0 = self.len;
        let mut new_buckets: Vec<Vec<Entry<V>>> = Vec::new();
        let mut t: usize = 0;
        while t < new_capacity
            invariant
                0 <= t <= new_capacity,
                new_buckets@.len() == t,
                forall|b: int| 0 <= b < t ==> #[trigger] new_buckets@[b]@.len() == 0,
                total_entries(new_buckets@) == 0,
            decreases new_capacity - t,
        {
            let ghost before = new_buckets@;
            new_buckets.push(Vec::new());
            proof {
                assert(new_buckets@.drop_last() =~= before);
            }
            t = t + 1;
        }
        let cap = self.capacity;
        let mut i: usize = 0;
        while i < cap
            invariant
                self.capacity == cap,
                cap as int == ocap,
                ncap == 2 * ocap,
                1 <= cap <= usize::MAX / 2,
                new_capacity as int == ncap,
                self.len == len0,
                self.buckets@.len() == ocap,
                0 <= i <= cap,
                obs.len() == ocap,
                forall|b: int, j1: int, j2: int|
                    0 <= b < ocap && 0 <= j1 < j2 < obs[b]@.len() ==> (
                    #[trigger] obs[b]@[j1].key@) != (#[trigger] obs[b]@[j2].key@),
                forall|b: int, j: int|
                    0 <= b < ocap && 0 <= j < obs[b]@.len() ==> bucket_index_of(
                        #[trigger] obs[b]@[j].key@,
                        ocap,
                    ) == b,
                forall|b: int| 0 <= b < i ==> (#[trigger] self.buckets@[b]@.len()) == 0,
                forall|b: int| i <= b < ocap ==> (#[trigger] self.buckets@[b]) == obs[b],
                new_buckets@.len() == ncap,
                forall|b: int, j: int|
                    0 <= b < ncap && 0 <= j < new_buckets@[b]@.len() ==> bucket_index_of(
                        #[trigger] new_buckets@[b]@[j].key@,
                        ncap,
                    ) == b,
                forall|b: int, j1: int, j2: int|
                    0 <= b < ncap && 0 <= j1 < j2 < new_buckets@[b]@.len() ==> (
                    #[trigger] new_buckets@[b]@[j1].key@) != (#[trigger] new_buckets@[b]@[j2].key@),
                total_entries(new_buckets@) + total_entries(self.buckets@) == len0,
                forall|k: Seq<char>|
                    bucket_index_of(k, ocap) < i ==> #[trigger] table_has(new_buckets@, ncap, k)
                        == table_has(obs, ocap, k),
                forall|k: Seq<char>|
                    bucket_index_of(k, ocap) >= i ==> !(#[trigger] table_has(
                        new_buckets@,
                        ncap,
                        k,
                    )),
                forall|k: Seq<char>|
                    bucket_index_of(k, ocap) < i && table_has(obs, ocap, k)
                        ==> #[trigger] table_value(new_buckets@, ncap, k) == table_value(
                        obs,
                        ocap,
                        k,
                    ),
            decreases cap - i,
        {
            let ghost bs_before = self.buckets@;
            let mut bucket = self.buckets.remove(i);
            self.buckets.insert(i, Vec::new());
            let ghost full = obs[i as int]@;
            proof {
                bs_before.remove(i as int).insert_ensures(i as int, self.buckets@[i as int]);
                bs_before.remove_ensures(i as int);
                assert(self.buckets@ =~= bs_before.update(i as int, self.buckets@[i as int]));
                lemma_total_entries_update(bs_before, i as int, self.buckets@[i as int]);
                assert(bucket@ == full);
                assert(full.take(full.len() as int) =~= full);
                assert(full.skip(full.len() as int) =~= Seq::<Entry<V>>::empty());
            }
            while bucket.len() > 0
                invariant
                    self.capacity == cap,
                    cap as int == ocap,
                    ncap == 2 * ocap,
                    1 <= cap,
                    new_capacity as int == ncap,
                    0 <= i < ocap,
                    full == obs[i as int]@,
                    obs.len() == ocap,
                    bucket@.len() <= full.len(),
                    bucket@ == full.take(bucket@.len() as int),
                    forall|b: int, j1: int, j2: int|
                        0 <= b < ocap && 0 <= j1 < j2 < obs[b]@.len() ==> (
                        #[trigger] obs[b]@[j1].key@) != (#[trigger] obs[b]@[j2].key@),
                    forall|b: int, j: int|
                        0 <= b < ocap && 0 <= j < obs[b]@.len() ==> bucket_index_of(
                            #[trigger] obs[b]@[j].key@,
                            ocap,
                        ) == b,
                    new_buckets@.len() == ncap,
                    forall|b: int, j: int|
                        0 <= b < ncap && 0 <= j < new_buckets@[b]@.len() ==> bucket_index_of(
                            #[trigger] new_buckets@[b]@[j].key@,
                            ncap,
                        ) == b,
                    forall|b: int, j1: int, j2: int|
                        0 <= b < ncap && 0 <= j1 < j2 < new_buckets@[b]@.len() ==> (
                        #[trigger] new_buckets@[b]@[j1].key@) != (
                        #[trigger] new_buckets@[b]@[j2].key@),
                    total_entries(new_buckets@) + total_entries(self.buckets@) + bucket@.len()
                        == len0,
                    forall|k: Seq<char>|
                        bucket_index_of(k, ocap) < i ==> #[trigger] table_has(
                            new_buckets@,
                            ncap,
                            k,
                        ) == table_has(obs, ocap, k),
                    forall|k: Seq<char>|
                        bucket_index_of(k, ocap) > i ==> !(#[trigger] table_has(
                            new_buckets@,
                            ncap,
                            k,
                        )),
                    forall|k: Seq<char>|
                        bucket_index_of(k, ocap) == i ==> #[trigger] table_has(
                            new_buckets@,
                            ncap,
                            k,
                        ) == bucket_has_key(full.skip(bucket@.len() as int), k),
                    forall|k: Seq<char>|
                        bucket_index_of(k, ocap) < i && table_has(obs, ocap, k)
                            ==> #[trigger] table_value(new_buckets@, ncap, k) == table_value(
                            obs,
                            ocap,
                            k,
                        ),
                    forall|k: Seq<char>|
                        bucket_index_of(k, ocap) == i && bucket_has_key(
                            full.skip(bucket@.len() as int),
                            k,
                        ) ==> #[trigger] table_value(new_buckets@, ncap, k) == bucket_value(
                            full.skip(bucket@.len() as int),
                            k,
                        ),
                decreases bucket@.len(),
            {
                let ghost m = bucket@.len() as int;
                let ghost nbs_before = new_buckets@;
                let last = bucket.len() - 1;
                let entry = bucket.remove(last);
                proof {
                    assert(bucket@ =~= full.take(m - 1));
                    assert(entry == full[m - 1]);
                }
                let idx2 = bucket_for(entry.key.as_str(), new_capacity);
                let mut nb2 = new_buckets.remove(idx2);
                let ghost nb2_before = nb2@;
                nb2.push(entry);
                new_buckets.insert(idx2, nb2);
                proof {
                    nbs_before.remove(idx2 as int).insert_ensures(idx2 as int, nb2);
                    nbs_before.remove_ensures(idx2 as int);
                    assert(new_buckets@ =~= nbs_before.update(idx2 as int, nb2));
                    lemma_total_entries_update(nbs_before, idx2 as int, nb2);
                    lemma_move_entry_step(
                        nbs_before,
                        new_buckets@,
                        obs,
                        full,
                        ocap,
                        ncap,
                        i as int,
                        m,
                        idx2 as int,
                    );
                }
            }
            proof {
                assert(full.skip(0) =~= full);
                assert(bucket@.len() == 0);
            }
            i = i + 1;
        }
        proof {
            lemma_total_entries_zero(self.buckets@);
        }
        self.buckets = new_buckets;
        self.capacity = new_capacity;
        proof {
            assert(self@ =~= old(self)@) by {
                assert forall|k2: Seq<char>| true implies self.spec_contains(k2) == old(
                    self,
                ).spec_contains(k2) by {
                    assert(0 <= bucket_index_of(k2, ocap) < ocap);
                }
                assert forall|k2: Seq<char>| self.spec_contains(k2) implies self.spec_value(k2)
                    == old(self).spec_value(k2) by {
                    assert(0 <= bucket_index_of(k2, ocap) < ocap);
                }
            }
        }
    }

    /// The number of entries in the map.
    pub fn len(&self) -> (n: usize)
        ensures
            n == self.spec_len(),
    {
        self.len
    }
}

/// The value a bucket with distinct keys holds for the key of its entry
/// `j` is that entry's value.
proof fn lemma_bucket_value_unique<V>(b: Seq<Entry<V>>, k: Seq<char>, j: int)
    requires
        0 <= j < b.len(),
        b[j].key@ == k,
        forall|j1: int, j2: int|
            0 <= j1 < j2 < b.len() ==> (#[trigger] b[j1].key@) != (#[trigger] b[j2].key@),
    ensures
        bucket_has_key(b, k),
        bucket_value(b, k) == b[j].value,
{
    assert(bucket_has_key(b, k));
    let jj = choose|t: int| 0 <= t < b.len() && #[trigger] b[t].key@ == k;
    assert(b[jj].key@ == k);
    if jj < j {
        assert(b[jj].key@ != b[j].key@);
    } else if j < jj {
        assert(b[j].key@ != b[jj].key@);
    }
}

/// Replacing the bucket at `i` changes the entry total by the difference of
/// the bucket lengths.
proof fn lemma_total_entries_update<V>(bs: Seq<Vec<Entry<V>>>, i: int, b: Vec<Entry<V>>)
    requires
        0 <= i < bs.len(),
    ensures
        total_entries(bs.update(i, b)) == total_entries(bs) - bs[i]@.len() + b@.len(),
    decreases bs.len(),
{
    if i == bs.len() - 1 {
        assert(bs.update(i, b).drop_last() =~= bs.drop_last());
    } else {
        assert(bs.update(i, b).drop_last() =~= bs.drop_last().update(i, b));
        lemma_total_entries_update(bs.drop_last(), i, b);
    }
}

/// The entry total is at least the length of any one bucket.
proof fn lemma_total_entries_bound<V>(bs: Seq<Vec<Entry<V>>>, i: int)
    requires
        0 <= i < bs.len(),
    ensures
        total_entries(bs) >= bs[i]@.len(),
    decreases bs.len(),
{
    if i != bs.len() - 1 {
        lemma_total_entries_bound(bs.drop_last(), i);
    }
}

/// A table of empty buckets stores no entries.
proof fn lemma_total_entries_zero<V>(bs: Seq<Vec<Entry<V>>>)
    requires
        forall|t: int| 0 <= t < bs.len() ==> (#[trigger] bs[t]@.len()) == 0,
    ensures
        total_entries(bs) == 0,
    decreases bs.len(),
{
    if bs.len() > 0 {
        lemma_total_entries_zero(bs.drop_last());
    }
}

/// Computes the bucket that `key` selects in a table of `capacity`
/// buckets: the remainder of the key's hash by the bucket count.
fn bucket_for(key: &str, capacity: usize) -> (idx: usize)
    requires
        capacity >= 1,
    ensures
        idx == bucket_index_of(key@, capacity as int),
        idx < capacity,
{
    let mut hasher = DefaultHasher::new();
    hasher.write(key.as_bytes());
    let h = hasher.finish();
    proof {
        assert(hasher@ =~= seq![vstd::utf8::encode_utf8(key@)]);
    }
    (h as usize) % capacity
}

/// One step of rehashing: moving the entry `full[m - 1]` of old bucket `i`
/// to the end of new bucket `idx2` keeps the new table sound and extends
/// what it holds by exactly that entry's key.
///
/// `prev` is the new table before the move and `now` after; `obs` is the
/// old table, whose bucket `i` is `full`.
proof fn lemma_move_entry_step<V>(
    prev: Seq<Vec<Entry<V>>>,
    now: Seq<Vec<Entry<V>>>,
    obs: Seq<Vec<Entry<V>>>,
    full: Seq<Entry<V>>,
    ocap: int,
    ncap: int,
    i: int,
    m: int,
    idx2: int,
)
    requires
        ocap >= 1,
        ncap == 2 * ocap,
        0 <= i < ocap,
        obs.len() == ocap,
        full == obs[i]@,
        0 < m <= full.len(),
        prev.len() == ncap,
        now.len() == ncap,
        idx2 == bucket_index_of(full[m - 1].key@, ncap),
        0 <= idx2 < ncap,
        now == prev.update(idx2, now[idx2]),
        now[idx2]@ == prev[idx2]@.push(full[m - 1]),
        // the old table is sound
        forall|b: int, j1: int, j2: int|
            0 <= b < ocap && 0 <= j1 < j2 < obs[b]@.len() ==> (#[trigger] obs[b]@[j1].key@) != (
            #[trigger] obs[b]@[j2].key@),
        forall|b: int, j: int|
            0 <= b < ocap && 0 <= j < obs[b]@.len() ==> bucket_index_of(
                #[trigger] obs[b]@[j].key@,
                ocap,
            ) == b,
        // the new table was sound before the move
        forall|b: int, j: int|
            0 <= b < ncap && 0 <= j < prev[b]@.len() ==> bucket_index_of(
                #[trigger] prev[b]@[j].key@,
                ncap,
            ) == b,
        forall|b: int, j1: int, j2: int|
            0 <= b < ncap && 0 <= j1 < j2 < prev[b]@.len() ==> (#[trigger] prev[b]@[j1].key@) != (
            #[trigger] prev[b]@[j2].key@),
        // what the new table held before the move
        forall|k: Seq<char>|
            bucket_index_of(k, ocap) < i ==> #[trigger] table_has(prev, ncap, k) == table_has(
                obs,
                ocap,
                k,
            ),
        forall|k: Seq<char>|
            bucket_index_of(k, ocap) > i ==> !(#[trigger] table_has(prev, ncap, k)),
        forall|k: Seq<char>|
            bucket_index_of(k, ocap) == i ==> #[trigger] table_has(prev, ncap, k)
                == bucket_has_key(full.skip(m), k),
        forall|k: Seq<char>|
            bucket_index_of(k, ocap) < i && table_has(obs, ocap, k) ==> #[trigger] table_value(
                prev,
                ncap,
                k,
            ) == table_value(obs, ocap, k),
        forall|k: Seq<char>|
            bucket_index_of(k, ocap) == i && bucket_has_key(full.skip(m), k)
                ==> #[trigger] table_value(prev, ncap, k) == bucket_value(full.skip(m), k),
    ensures
        forall|b: int, j: int|
            0 <= b < ncap && 0 <= j < now[b]@.len() ==> bucket_index_of(
                #[trigger] now[b]@[j].key@,
                ncap,
            ) == b,
        forall|b: int, j1: int, j2: int|
            0 <= b < ncap && 0 <= j1 < j2 < now[b]@.len() ==> (#[trigger] now[b]@[j1].key@) != (
            #[trigger] now[b]@[j2].key@),
        forall|k: Seq<char>|
            bucket_index_of(k, ocap) < i ==> #[trigger] table_has(now, ncap, k) == table_has(
                obs,
                ocap,
                k,
            ),
        forall|k: Seq<char>|
            bucket_index_of(k, ocap) > i ==> !(#[trigger] table_has(now, ncap, k)),
        forall|k: Seq<char>|
            bucket_index_of(k, ocap) == i ==> #[trigger] table_has(now, ncap, k)
                == bucket_has_key(full.skip(m - 1), k),
        forall|k: Seq<char>|
            bucket_index_of(k, ocap) < i && table_has(obs, ocap, k) ==> #[trigger] table_value(
                now,
                ncap,
                k,
            ) == table_value(obs, ocap, k),
        forall|k: Seq<char>|
            bucket_index_of(k, ocap) == i && bucket_has_key(full.skip(m - 1), k)
                ==> #[trigger] table_value(now, ncap, k) == bucket_value(full.skip(m - 1), k),
{
    let moved = full[m - 1];
    let mkey = moved.key@;
    assert(bucket_index_of(mkey, ocap) == i);
    let pb = prev[idx2]@;
    let nb = now[idx2]@;
    assert(nb.len() == pb.len() + 1);
    assert(nb[pb.len() as int] == moved);
    assert(forall|j: int| 0 <= j < pb.len() ==> (#[trigger] nb[j]) == pb[j]);
    // the moved key was not yet in its new bucket
    assert(!bucket_has_key(pb, mkey)) by {
        if bucket_has_key(pb, mkey) {
            assert(table_has(prev, ncap, mkey) == bucket_has_key(full.skip(m), mkey));
            let j = choose|j: int| 0 <= j < full.skip(m).len() && #[trigger] full.skip(m)[j].key@
                == mkey;
            assert(obs[i]@[m + j].key@ == mkey);
            assert(obs[i]@[m - 1].key@ == mkey);
        }
    }
    // soundness of the new table after the move
    assert forall|b: int, j1: int, j2: int|
        0 <= b < ncap && 0 <= j1 < j2 < now[b]@.len() implies (#[trigger] now[b]@[j1].key@) != (
    #[trigger] now[b]@[j2].key@) by {
        if b == idx2 && j2 == pb.len() {
            if nb[j1].key@ == mkey {
                assert(bucket_has_key(pb, mkey));
            }
        } else {
            assert(now[b]@[j1] == prev[b]@[j1]);
            assert(now[b]@[j2] == prev[b]@[j2]);
        }
    }
    // the key facts after the move
    assert(full.skip(m - 1) =~= seq![moved] + full.skip(m));
    assert(full.skip(m - 1)[0] == moved);
    assert(forall|j: int| 1 <= j < full.skip(m - 1).len() ==> (#[trigger] full.skip(m - 1)[j])
        == full.skip(m)[j - 1]);
    // keys that do not select old bucket i are untouched
    assert forall|k: Seq<char>| bucket_index_of(k, ocap) != i implies #[trigger] table_has(
        now,
        ncap,
        k,
    ) == table_has(prev, ncap, k) by {
        let bk = bucket_index_of(k, ncap);
        assert(k != mkey);
        if bk == idx2 {
            if bucket_has_key(nb, k) {
                let j = choose|j: int| 0 <= j < nb.len() && #[trigger] nb[j].key@ == k;
                assert(j != pb.len());
                assert(pb[j].key@ == k);
            }
            if bucket_has_key(pb, k) {
                let j = choose|j: int| 0 <= j < pb.len() && #[trigger] pb[j].key@ == k;
                assert(nb[j].key@ == k);
            }
        } else {
            assert(now[bk] == prev[bk]);
        }
    }
    assert forall|k: Seq<char>|
        bucket_index_of(k, ocap) != i && table_has(prev, ncap, k) implies #[trigger] table_value(
        now,
        ncap,
        k,
    ) == table_value(prev, ncap, k) by {
        let bk = bucket_index_of(k, ncap);
        let ob2 = prev[bk]@;
        let j = choose|j: int| 0 <= j < ob2.len() && #[trigger] ob2[j].key@ == k;
        if bk == idx2 {
            assert(nb[j].key@ == k);
            lemma_bucket_value_unique(nb, k, j);
            lemma_bucket_value_unique(ob2, k, j);
        } else {
            assert(now[bk] == prev[bk]);
        }
    }
    // keys of old bucket i: the moved key joins what was already moved
    assert forall|k: Seq<char>| bucket_index_of(k, ocap) == i implies #[trigger] table_has(
        now,
        ncap,
        k,
    ) == bucket_has_key(full.skip(m - 1), k) by {
        let bk = bucket_index_of(k, ncap);
        assert(table_has(prev, ncap, k) == bucket_has_key(full.skip(m), k));
        if k == mkey {
            assert(nb[pb.len() as int].key@ == mkey);
            assert(bucket_has_key(nb, mkey));
            assert(table_has(now, ncap, mkey));
            assert(full.skip(m - 1)[0].key@ == mkey);
            assert(bucket_has_key(full.skip(m - 1), mkey));
        } else {
            if bk == idx2 {
                assert(bucket_has_key(nb, k) == bucket_has_key(pb, k)) by {
                    if bucket_has_key(nb, k) {
                        let j = choose|j: int| 0 <= j < nb.len() && #[trigger] nb[j].key@ == k;
                        assert(j != pb.len());
                        assert(pb[j].key@ == k);
                    }
                    if bucket_has_key(pb, k) {
                        let j = choose|j: int| 0 <= j < pb.len() && #[trigger] pb[j].key@ == k;
                        assert(nb[j].key@ == k);
                    }
                }
            } else {
                assert(now[bk] == prev[bk]);
            }
            assert(bucket_has_key(full.skip(m - 1), k) == bucket_has_key(full.skip(m), k)) by {
                if bucket_has_key(full.skip(m - 1), k) {
                    let j = choose|j: int| 0 <= j < full.skip(m - 1).len()
                        && #[trigger] full.skip(m - 1)[j].key@ == k;
                    assert(j != 0);
                    assert(full.skip(m)[j - 1].key@ == k);
                }
                if bucket_has_key(full.skip(m), k) {
                    let j = choose|j: int| 0 <= j < full.skip(m).len()
                        && #[trigger] full.skip(m)[j].key@ == k;
                    assert(full.skip(m - 1)[j + 1].key@ == k);
                }
            }
        }
    }
    assert forall|k: Seq<char>| bucket_index_of(k, ocap) == i && bucket_has_key(
        full.skip(m - 1),
        k,
    ) implies #[trigger] table_value(now, ncap, k) == bucket_value(full.skip(m - 1), k) by {
        let bk = bucket_index_of(k, ncap);
        assert(table_has(prev, ncap, k) == bucket_has_key(full.skip(m), k));
        if k == mkey {
            assert(nb[pb.len() as int].key@ == mkey);
            lemma_bucket_value_unique(nb, k, pb.len() as int);
            assert(full.skip(m - 1)[0].key@ == k);
            assert forall|j: int| 0 < j < full.skip(m - 1).len() implies (#[trigger] full.skip(
                m - 1,
            )[j].key@) != k by {
                assert(full.skip(m - 1)[j] == full.skip(m)[j - 1]);
                assert(full.skip(m)[j - 1] == obs[i]@[m + j - 1]);
                assert(obs[i]@[m - 1].key@ == k);
            }
            lemma_bucket_value_unique(full.skip(m - 1), k, 0);
        } else {
            let j0 = choose|j: int| 0 <= j < full.skip(m - 1).len() && #[trigger] full.skip(
                m - 1,
            )[j].key@ == k;
            assert(j0 != 0);
            assert(full.skip(m)[j0 - 1].key@ == k);
            assert(bucket_has_key(full.skip(m), k));
            assert(table_value(prev, ncap, k) == bucket_value(full.skip(m), k));
            lemma_bucket_value_unique(full.skip(m), k, j0 - 1);
            lemma_bucket_value_unique(full.skip(m - 1), k, j0);
            assert(full.skip(m - 1)[j0] == full.skip(m)[j0 - 1]);
            // the stored value itself is unchanged by the move
            assert(table_has(prev, ncap, k));
            let ob2 = prev[bk]@;
            let j = choose|j: int| 0 <= j < ob2.len() && #[trigger] ob2[j].key@ == k;
            if bk == idx2 {
                assert(nb[j].key@ == k);
                lemma_bucket_value_unique(nb, k, j);
                lemma_bucket_value_unique(ob2, k, j);
            } else {
                assert(now[bk] == prev[bk]);
            }
        }
    }
}

/// Compares two string slices character by character.
fn str_eq(a: &str, b: &str) -> (r: bool)
    ensures
        r == (a@ == b@),
{
    let na = a.unicode_len();
    let nb = b.unicode_len();
    if na != nb {
        return false;
    }
    let mut i: usize = 0;
    while i < na
        invariant
            na == a@.len(),
            na == b@.len(),
            0 <= i <= na,
            forall|t: int| 0 <= t < i ==> a@[t] == b@[t],
        decreases na - i,
    {
        if a.get_char(i) != b.get_char(i) {
            return false;
        }
        i = i + 1;
    }
    proof {
        assert(a@ =~= b@);
    }
    true
}

/// The polynomial string hash: the sum over every position `i` of the
/// character's code point times `31` to the power `i`.
pub open spec fn polynomial_hash(s: Seq<char>) -> int
    decreases s.len(),
{
    if s.len() == 0 {
        0
    } else {
        polynomial_hash(s.drop_last()) + ((s.last() as u32) as int)
            * vstd::arithmetic::power::pow(31, (s.len() - 1) as nat)
    }
}

/// Extending a prefix by one character adds that character's term to the
/// polynomial hash.
proof fn lemma_polynomial_hash_step(s: Seq<char>, i: int)
    requires
        0 < i <= s.len(),
    ensures
        polynomial_hash(s.take(i)) == polynomial_hash(s.take(i - 1)) + ((s[i - 1] as u32) as int)
            * vstd::arithmetic::power::pow(31, (i - 1) as nat),
{
    assert(s.take(i).drop_last() =~= s.take(i - 1));
    assert(s.take(i).last() == s[i - 1]);
}

/// The polynomial hash is a sum of nonnegative terms.
proof fn lemma_polynomial_hash_nonneg(s: Seq<char>)
    ensures
        polynomial_hash(s) >= 0,
    decreases s.len(),
{
    if s.len() > 0 {
        lemma_polynomial_hash_nonneg(s.drop_last());
        vstd::arithmetic::power::lemma_pow_positive(31, (s.len() - 1) as nat);
        assert(((s.last() as u32) as int) >= 0);
    }
}

/// Every prefix of a string hashes to at most the hash of the whole
/// string, since every term of the sum is nonnegative.
proof fn lemma_polynomial_hash_prefix(s: Seq<char>, i: int)
    requires
        0 <= i <= s.len(),
    ensures
        polynomial_hash(s.take(i)) <= polynomial_hash(s),
    decreases s.len() - i,
{
    if i == s.len() {
        assert(s.take(i) =~= s);
    } else {
        lemma_polynomial_hash_prefix(s, i + 1);
        lemma_polynomial_hash_step(s, i + 1);
        vstd::arithmetic::power::lemma_pow_positive(31, i as nat);
        assert(((s[i] as u32) as int) >= 0);
    }
}

/// Computes the polynomial hash of `s`: the sum of each character's code
/// point times `31` to the power of its position.
pub fn simple_hash(s: &str) -> (r: usize)
    requires
        s@.len() <= 13,
        s@.len() > 0 ==> vstd::arithmetic::power::pow(31, (s@.len() - 1) as nat) <= usize::MAX
            as int,
        polynomial_hash(s@) <= usize::MAX as int,
    ensures
        r == polynomial_hash(s@),
{
    let n = s.unicode_len();
    let mut hash: usize = 0;
    let mut p: usize = 1;
    let mut i: usize = 0;
    proof {
        vstd::arithmetic::power::lemma_pow0(31);
    }
    while i < n
        invariant
            n == s@.len(),
            0 <= i <= n,
            polynomial_hash(s@) <= usize::MAX as int,
            n > 0 ==> vstd::arithmetic::power::pow(31, (n - 1) as nat) <= usize::MAX as int,
            i < n ==> p == vstd::arithmetic::power::pow(31, i as nat),
            hash == polynomial_hash(s@.take(i as int)),
        decreases n - i,
    {
        let c = s.get_char(i);
        proof {
            lemma_polynomial_hash_step(s@, i + 1);
            lemma_polynomial_hash_prefix(s@, i + 1);
            lemma_polynomial_hash_nonneg(s@.take(i as int));
            vstd::arithmetic::power::lemma_pow_positive(31, i as nat);
        }
        hash = hash + ((c as u32) as usize) * p;
        if i + 1 < n {
            proof {
                vstd::arithmetic::power::lemma_pow_increases(31, (i + 1) as nat, (n - 1) as nat);
                vstd::arithmetic::power::lemma_pow1(31);
                vstd::arithmetic::power::lemma_pow_adds(31, i as nat, 1);
                assert(vstd::arithmetic::power::pow(31, (i + 1) as nat) == 31
                    * vstd::arithmetic::power::pow(31, i as nat));
            }
            p = p * 31;
        }
        i = i + 1;
    }
    proof {
        assert(s@.take(n as int) =~= s@);
    }
    hash
}

} // verus!

