//! A map from `u64` keys split over a fixed number of shards, the shard of a
//! key being the sum of its bytes modulo the number of shards, so that a
//! batch of updates can be written to all shards in parallel.

use vstd::prelude::*;

use rayon::iter::{
    IndexedParallelIterator,
    IntoParallelIterator,
    IntoParallelRefMutIterator,
    ParallelIterator,
};
use std::collections::HashMap;

verus! {

broadcast use vstd::std_specs::hash::group_hash_axioms;

/// The sum of the eight bytes of `key`.
#[verifier::opaque]
pub open spec fn byte_sum(key: u64) -> int {
    key % 0x100 + (key / 0x100) % 0x100 + (key / 0x1_0000) % 0x100 + (key / 0x100_0000) % 0x100 + (
    key / 0x1_0000_0000) % 0x100 + (key / 0x100_0000_0000) % 0x100 + (key / 0x1_0000_0000_0000)
        % 0x100 + (key / 0x100_0000_0000_0000) % 0x100
}

/// The shard that holds `key` when there are `n` shards.
pub open spec fn shard_of(key: u64, n: int) -> int {
    byte_sum(key) % n
}

/// Whether `n` is a power of two no greater than 256.
pub open spec fn valid_shard_count(n: int) -> bool {
    n == 1 || n == 2 || n == 4 || n == 8 || n == 16 || n == 32 || n == 64 || n == 128 || n == 256
}

/// `m` with each pair of `updates` inserted in turn, so that the last value
/// given for a key wins.
pub open spec fn insert_all<V>(m: Map<u64, V>, updates: Seq<(u64, V)>) -> Map<u64, V>
    decreases updates.len(),
{
    if updates.len() == 0 {
        m
    } else {
        insert_all(m, updates.drop_last()).insert(updates.last().0, updates.last().1)
    }
}

/// The pairs of `updates` whose key falls in shard `s` of `n`, in order.
pub open spec fn bucket<V>(updates: Seq<(u64, V)>, s: int, n: int) -> Seq<(u64, V)>
    decreases updates.len(),
{
    if updates.len() == 0 {
        Seq::empty()
    } else {
        let front = bucket(updates.drop_last(), s, n);
        if shard_of(updates.last().0, n) == s {
            front.push(updates.last())
        } else {
            front
        }
    }
}

/// Inserting pairs changes a key only if one of the pairs has that key.
pub proof fn lemma_insert_all_other<V>(m: Map<u64, V>, updates: Seq<(u64, V)>, k: u64)
    requires
        forall|i: int| 0 <= i < updates.len() ==> #[trigger] updates[i].0 != k,
    ensures
        insert_all(m, updates).contains_key(k) == m.contains_key(k),
        m.contains_key(k) ==> insert_all(m, updates)[k] == m[k],
    decreases updates.len(),
{
    if updates.len() > 0 {
        let rest = updates.drop_last();
        assert forall|i: int| 0 <= i < rest.len() implies #[trigger] rest[i].0 != k by {
            assert(rest[i] == updates[i]);
        }
        lemma_insert_all_other(m, rest, k);
        assert(updates[updates.len() - 1].0 != k);
    }
}

/// Inserting the pairs of one shard gives a key of that shard the value that
/// inserting all pairs would.
pub proof fn lemma_bucket_agrees<V>(m: Map<u64, V>, updates: Seq<(u64, V)>, k: u64, n: int)
    requires
        n > 0,
    ensures
        insert_all(m, bucket(updates, shard_of(k, n), n)).contains_key(k) == insert_all(
            m,
            updates,
        ).contains_key(k),
        insert_all(m, updates).contains_key(k) ==> insert_all(
            m,
            bucket(updates, shard_of(k, n), n),
        )[k] == insert_all(m, updates)[k],
    decreases updates.len(),
{
    if updates.len() > 0 {
        let rest = updates.drop_last();
        let last = updates.last();
        let s = shard_of(k, n);
        lemma_bucket_agrees(m, rest, k, n);
        if shard_of(last.0, n) == s {
            assert(bucket(updates, s, n) == bucket(rest, s, n).push(last));
            assert(bucket(updates, s, n).drop_last() =~= bucket(rest, s, n));
        } else {
            assert(last.0 != k);
            assert(bucket(updates, s, n) == bucket(rest, s, n));
        }
    }
}

/// The pairs of a shard's bucket all belong to that shard.
pub proof fn lemma_bucket_keys<V>(updates: Seq<(u64, V)>, s: int, n: int)
    ensures
        forall|i: int|
            0 <= i < bucket(updates, s, n).len() ==> shard_of(#[trigger] bucket(updates, s, n)[i].0, n)
                == s,
        bucket(updates, s, n).len() <= updates.len(),
    decreases updates.len(),
{
    if updates.len() > 0 {
        lemma_bucket_keys(updates.drop_last(), s, n);
    }
}

/// Inserts each pair of `updates` in turn.
fn insert_pairs<V>(map: &mut HashMap<u64, V>, updates: Vec<(u64, V)>)
    ensures
        final(map)@ == insert_all(old(map)@, updates@),
{
    let ghost start = map@;
    let ghost all = updates@;
    for pair in it: updates.into_iter()
        invariant
            it.seq() == all,
            map@ == insert_all(start, all.take(it.index() as int)),
    {
        let ghost i = it.index() as int;
        assert(all.take(i + 1).drop_last() =~= all.take(i));
        let (key, value) = pair;
        map.insert(key, value);
    }
    assert(all.take(all.len() as int) =~= all);
}

/// Inserts each bucket into its map, all maps in parallel (`rayon`'s
/// `par_iter_mut`, `zip` and `for_each`): map `i` ends up with the pairs of
/// bucket `i` inserted in turn, and the number of maps stays the same.
#[verifier::external_body]
fn insert_buckets<V: Send>(maps: &mut Vec<HashMap<u64, V>>, buckets: Vec<Vec<(u64, V)>>)
    requires
        old(maps)@.len() == buckets@.len(),
    ensures
        final(maps)@.len() == old(maps)@.len(),
        forall|i: int|
            0 <= i < old(maps)@.len() ==> #[trigger] final(maps)@[i]@ == insert_all(
                old(maps)@[i]@,
                buckets@[i]@,
            ),
{
    maps.par_iter_mut().zip(buckets.into_par_iter()).for_each(
        |(map, bucket)| insert_pairs(map, bucket),
    );
}

/// A map from `u64` keys, split over a power-of-two number of shards.
pub struct ShardMap<V> {
    maps: Vec<HashMap<u64, V>>,
}

impl<V> View for ShardMap<V> {
    type V = Map<u64, V>;

    /// Each key with the value that its shard holds for it.
    closed spec fn view(&self) -> Map<u64, V> {
        Map::new(
            |k: u64| self.maps@[shard_of(k, self.maps@.len() as int)]@.contains_key(k),
            |k: u64| self.maps@[shard_of(k, self.maps@.len() as int)]@[k],
        )
    }
}

impl<V> ShardMap<V> {
    /// The shard count is valid and each shard holds only its own keys.
    pub closed spec fn wf(&self) -> bool {
        &&& valid_shard_count(self.maps@.len() as int)
        &&& forall|i: int, k: u64|
            0 <= i < self.maps@.len() && #[trigger] self.maps@[i]@.contains_key(k) ==> shard_of(
                k,
                self.maps@.len() as int,
            ) == i
    }

    /// The number of shards.
    pub closed spec fn shard_count(&self) -> int {
        self.maps@.len() as int
    }

    /// An empty map with `num_shards` shards, a power of two up to 256.
    pub fn new(num_shards: usize) -> (r: ShardMap<V>)
        requires
            valid_shard_count(num_shards as int),
        ensures
            r.wf(),
            r@ == Map::<u64, V>::empty(),
            r.shard_count() == num_shards,
    {
        let mut maps: Vec<HashMap<u64, V>> = Vec::with_capacity(num_shards);
        let mut i: usize = 0;
        while i < num_shards
            invariant
                i <= num_shards,
                maps@.len() == i,
                forall|j: int| 0 <= j < i ==> #[trigger] maps@[j]@ == Map::<u64, V>::empty(),
            decreases num_shards - i,
        {
            maps.push(HashMap::new());
            i = i + 1;
        }
        let r = ShardMap { maps };
        assert(r@ =~= Map::<u64, V>::empty());
        r
    }

    /// The shard of `key`.
    fn shard_index(&self, key: &u64) -> (r: usize)
        requires
            self.wf(),
        ensures
            r == shard_of(*key, self.maps@.len() as int),
            r < self.maps@.len(),
    {
        let k = *key;
        proof {
            reveal(byte_sum);
        }
        let sum = k % 0x100 + (k / 0x100) % 0x100 + (k / 0x1_0000) % 0x100 + (k / 0x100_0000)
            % 0x100 + (k / 0x1_0000_0000) % 0x100 + (k / 0x100_0000_0000) % 0x100 + (k
            / 0x1_0000_0000_0000) % 0x100 + (k / 0x100_0000_0000_0000) % 0x100;
        (sum % (self.maps.len() as u64)) as usize
    }

    pub fn contains_key(&self, key: &u64) -> (r: bool)
        requires
            self.wf(),
        ensures
            r == self@.contains_key(*key),
    {
        let s = self.shard_index(key);
        self.maps[s].contains_key(key)
    }

    pub fn get(&self, key: &u64) -> (r: Option<&V>)
        requires
            self.wf(),
        ensures
            match r {
                Some(v) => self@.contains_key(*key) && *v == self@[*key],
                None => !self@.contains_key(*key),
            },
    {
        let s = self.shard_index(key);
        self.maps[s].get(key)
    }

    /// The value stored under `key`, to be changed in place.
    pub fn get_mut(&mut self, key: &u64) -> (r: Option<&mut V>)
        requires
            old(self).wf(),
        ensures
            final(self).wf(),
            final(self).shard_count() == old(self).shard_count(),
            match r {
                Some(v) => {
                    &&& old(self)@.contains_key(*key)
                    &&& *v == old(self)@[*key]
                    &&& final(self)@ == old(self)@.insert(*key, *final(v))
                },
                None => !old(self)@.contains_key(*key) && final(self)@ == old(self)@,
            },
    {
        let ghost n = self.maps@.len() as int;
        let s = self.shard_index(key);
        let map = &mut self.maps[s];
        match map.entry(*key) {
            std::collections::hash_map::Entry::Occupied(o) => Some(o.into_mut()),
            std::collections::hash_map::Entry::Vacant(_) => None,
        }
    }

    /// Stores `value` under `key`, returning the value it replaced.
    pub fn insert(&mut self, key: u64, value: V) -> (r: Option<V>)
        requires
            old(self).wf(),
        ensures
            final(self).wf(),
            final(self)@ == old(self)@.insert(key, value),
            final(self).shard_count() == old(self).shard_count(),
            match r {
                Some(v) => old(self)@.contains_key(key) && v == old(self)@[key],
                None => !old(self)@.contains_key(key),
            },
    {
        let ghost n = self.maps@.len() as int;
        let s = self.shard_index(&key);
        let r = self.maps[s].insert(key, value);
        proof {
            assert forall|i: int, k: u64|
                0 <= i < self.maps@.len() && #[trigger] self.maps@[i]@.contains_key(k) implies shard_of(
                k,
                n,
            ) == i by {
                if i == s && k != key {
                    assert(old(self).maps@[i]@.contains_key(k));
                }
            }
            assert(self@ =~= old(self)@.insert(key, value));
        }
        r
    }

    /// Removes `key`, returning its value.
    pub fn remove(&mut self, key: &u64) -> (r: Option<V>)
        requires
            old(self).wf(),
        ensures
            final(self).wf(),
            final(self)@ == old(self)@.remove(*key),
            final(self).shard_count() == old(self).shard_count(),
            match r {
                Some(v) => old(self)@.contains_key(*key) && v == old(self)@[*key],
                None => !old(self)@.contains_key(*key),
            },
    {
        let ghost n = self.maps@.len() as int;
        let s = self.shard_index(key);
        let r = self.maps[s].remove(key);
        proof {
            assert forall|i: int, k: u64|
                0 <= i < self.maps@.len() && #[trigger] self.maps@[i]@.contains_key(k) implies shard_of(
                k,
                n,
            ) == i by {
                if i == s {
                    assert(old(self).maps@[i]@.contains_key(k));
                }
            }
            assert(self@ =~= old(self)@.remove(*key));
        }
        r
    }

    /// Stores every pair of `updates`, the last value given for a key
    /// winning; the shards are written in parallel.
    pub fn apply_batch(&mut self, updates: Vec<(u64, V)>)
        where
            V: Send,
        requires
            old(self).wf(),
        ensures
            final(self).wf(),
            final(self)@ == insert_all(old(self)@, updates@),
            final(self).shard_count() == old(self).shard_count(),
    {
        let num_shards = self.maps.len();
        let ghost n = num_shards as int;
        let ghost all = updates@;
        let mut counts: Vec<usize> = vec![0usize; num_shards];
        let mut i: usize = 0;
        while i < updates.len()
            invariant
                self.wf(),
                n == self.maps@.len(),
                i <= updates@.len(),
                counts@.len() == n,
                forall|s: int| 0 <= s < n ==> #[trigger] counts@[s] == bucket(updates@.take(i as int), s, n).len(),
            decreases updates.len() - i,
        {
            let s = self.shard_index(&updates[i].0);
            proof {
                assert(updates@.take(i + 1).drop_last() =~= updates@.take(i as int));
                lemma_bucket_keys(updates@.take(i as int), s as int, n);
            }
            let c = counts[s];
            counts.set(s, c + 1);
            i = i + 1;
        }
        let mut buckets: Vec<Vec<(u64, V)>> = Vec::with_capacity(num_shards);
        let mut j: usize = 0;
        while j < num_shards
            invariant
                j <= n,
                n == num_shards,
                n == counts@.len(),
                buckets@.len() == j,
                forall|s: int| 0 <= s < j ==> #[trigger] buckets@[s]@ == Seq::<(u64, V)>::empty(),
            decreases num_shards - j,
        {
            buckets.push(Vec::with_capacity(counts[j]));
            j = j + 1;
        }
        let mut rest = updates;
        let mut reversed: Vec<(u64, V)> = Vec::new();
        while rest.len() > 0
            invariant
                reversed@ + rest@.reverse() == all.reverse(),
            decreases rest.len(),
        {
            let ghost before = rest@;
            let pair = rest.pop().unwrap();
            reversed.push(pair);
            proof {
                assert(before =~= rest@.push(pair));
                assert(before.reverse() =~= seq![pair] + rest@.reverse());
            }
        }
        assert(reversed@ =~= all.reverse());
        let ghost mut done: Seq<(u64, V)> = Seq::empty();
        while reversed.len() > 0
            invariant
                self.wf(),
                n == self.maps@.len(),
                buckets@.len() == n,
                done + reversed@.reverse() == all,
                forall|s: int| 0 <= s < n ==> #[trigger] buckets@[s]@ == bucket(done, s, n),
            decreases reversed.len(),
        {
            let ghost before = reversed@;
            let (key, value) = reversed.pop().unwrap();
            proof {
                assert(before =~= reversed@.push((key, value)));
                assert(before.reverse() =~= seq![(key, value)] + reversed@.reverse());
            }
            let s = self.shard_index(&key);
            buckets[s].push((key, value));
            proof {
                let next = done.push((key, value));
                assert(next.drop_last() =~= done);
                done = next;
            }
        }
        assert(done =~= all);
        let ghost old_maps = self.maps@;
        let ghost old_view = self@;
        let ghost bs = buckets@;
        insert_buckets(&mut self.maps, buckets);
        proof {
            assert forall|i: int, k: u64|
                0 <= i < self.maps@.len() && #[trigger] self.maps@[i]@.contains_key(k) implies shard_of(
                k,
                n,
            ) == i by {
                lemma_bucket_keys(all, i, n);
                if !old_maps[i]@.contains_key(k) {
                    if forall|j: int| 0 <= j < bs[i]@.len() ==> #[trigger] bs[i]@[j].0 != k {
                        lemma_insert_all_other(old_maps[i]@, bs[i]@, k);
                    } else {
                        let j = choose|j: int| 0 <= j < bs[i]@.len() && #[trigger] bs[i]@[j].0 == k;
                        assert(shard_of(bs[i]@[j].0, n) == i);
                    }
                }
            }
            assert forall|k: u64| #[trigger] self@.contains_key(k) == insert_all(old_view, all).contains_key(k)
                && (self@.contains_key(k) ==> self@[k] == insert_all(old_view, all)[k]) by {
                let s = shard_of(k, n);
                lemma_bucket_agrees(old_view, all, k, n);
                lemma_bucket_agrees(old_maps[s]@, all, k, n);
                lemma_bucket_keys(all, s, n);
                let b = bucket(all, s, n);
                assert(old_view.contains_key(k) == old_maps[s]@.contains_key(k));
                lemma_insert_all_same_key(old_view, old_maps[s]@, b, k);
            }
            assert(self@ =~= insert_all(old_view, all));
        }
    }
}

/// Two maps that agree on `k` still agree on `k` after the same insertions.
pub proof fn lemma_insert_all_same_key<V>(a: Map<u64, V>, b: Map<u64, V>, updates: Seq<(u64, V)>, k: u64)
    requires
        a.contains_key(k) == b.contains_key(k),
        a.contains_key(k) ==> a[k] == b[k],
    ensures
        insert_all(a, updates).contains_key(k) == insert_all(b, updates).contains_key(k),
        insert_all(a, updates).contains_key(k) ==> insert_all(a, updates)[k] == insert_all(
            b,
            updates,
        )[k],
    decreases updates.len(),
{
    if updates.len() > 0 {
        lemma_insert_all_same_key(a, b, updates.drop_last(), k);
    }
}

/// The last update for a key wins: after applying `updates`, the key holds
/// the value of its last update.
pub proof fn lemma_last_update_wins<V>(m: Map<u64, V>, updates: Seq<(u64, V)>, i: int)
    requires
        0 <= i < updates.len(),
        forall|j: int| i < j < updates.len() ==> #[trigger] updates[j].0 != updates[i].0,
    ensures
        insert_all(m, updates).contains_key(updates[i].0),
        insert_all(m, updates)[updates[i].0] == updates[i].1,
    decreases updates.len(),
{
    if i < updates.len() - 1 {
        let rest = updates.drop_last();
        assert forall|j: int| i < j < rest.len() implies #[trigger] rest[j].0 != rest[i].0 by {
            assert(rest[j] == updates[j]);
        }
        lemma_last_update_wins(m, rest, i);
        assert(updates[updates.len() - 1].0 != updates[i].0);
    }
}

} // verus!
