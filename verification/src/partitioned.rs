//! `PartitionedMap`: a fixed number of disjoint `SpecializedHashMap`
//! shards behind a pure partition function of the key. Shards own
//! disjoint key space, so they can be built and queried independently;
//! a lookup is indistinguishable from one against a single map built
//! from the same entries.

use vstd::prelude::*;

use crate::specialized_map::{bucket_index, bucket_of, entries_map, SpecializedHashMap};

verus! {

/// The shard a key belongs to among `n`: the same bit-mixing hash that
/// spreads buckets, reduced modulo the shard count. Pure and
/// deterministic, so build and lookup always agree.
pub open spec fn partition_of(key: u64, n: int) -> int {
    bucket_of(key, n)
}

/// Computes the shard for a key; agrees with `partition_of`.
pub fn partition_index(key: u64, n: usize) -> (s: usize)
    requires
        1 <= n,
    ensures
        s as int == partition_of(key, n as int),
        s < n,
{
    bucket_index(key, n)
}

/// Map from spatial index to value, split over independent shards.
pub struct PartitionedMap<V> {
    shards: Vec<SpecializedHashMap<V>>,
}

impl<V: Copy> View for PartitionedMap<V> {
    type V = Map<u64, V>;

    closed spec fn view(&self) -> Map<u64, V> {
        Map::new(
            |k: u64| self.shards@.len() >= 1
                && self.shards@[partition_of(k, self.shards@.len() as int)]@.contains_key(k),
            |k: u64| self.shards@[partition_of(k, self.shards@.len() as int)]@[k],
        )
    }
}

impl<V: Copy> PartitionedMap<V> {
    /// Well-formed: at least one shard, every shard well-formed, and
    /// every key stored exactly in the shard its partition selects.
    pub closed spec fn wf(&self) -> bool {
        &&& self.shards@.len() >= 1
        &&& forall|s: int| 0 <= s < self.shards@.len() ==> (#[trigger] self.shards@[s]).wf()
        &&& forall|s: int, k: u64|
            0 <= s < self.shards@.len() && #[trigger] self.shards@[s]@.contains_key(k)
                ==> partition_of(k, self.shards@.len() as int) == s
    }

    /// The number of shards fixed at construction.
    pub closed spec fn shard_count(&self) -> int {
        self.shards@.len() as int
    }

    /// The mathematical content of one shard.
    pub closed spec fn shard_map(&self, s: int) -> Map<u64, V> {
        self.shards@[s]@
    }

    /// Shards cover the logical key set and own disjoint key space: a
    /// key lives exactly in the shard its partition selects, so no key
    /// appears in two shards.
    pub proof fn lemma_shards_disjoint(&self)
        requires
            self.wf(),
        ensures
            forall|s: int, k: u64|
                0 <= s < self.shard_count() && #[trigger] self.shard_map(s).contains_key(k)
                    ==> partition_of(k, self.shard_count()) == s && self@.contains_key(k),
            forall|k: u64| #[trigger] self@.contains_key(k)
                ==> self.shard_map(partition_of(k, self.shard_count())).contains_key(k),
    {
    }

    /// An empty map over `n` shards.
    pub fn new(n: usize) -> (m: Self)
        requires
            1 <= n,
        ensures
            m.wf(),
            m@ == Map::<u64, V>::empty(),
            m.shard_count() == n,
    {
        let mut shards: Vec<SpecializedHashMap<V>> = Vec::new();
        let mut i: usize = 0;
        while i < n
            invariant
                i <= n,
                shards@.len() == i,
                forall|s: int| 0 <= s < i ==> (#[trigger] shards@[s]).wf(),
                forall|s: int| 0 <= s < i ==> (#[trigger] shards@[s])@ == Map::<u64, V>::empty(),
            decreases n - i,
        {
            shards.push(SpecializedHashMap::new());
            i += 1;
        }
        let m = PartitionedMap { shards };
        proof {
            assert(m@ =~= Map::<u64, V>::empty());
        }
        m
    }

    /// Inserts or overwrites, in the shard the key's partition selects.
    pub fn insert(&mut self, key: u64, value: V)
        requires
            old(self).wf(),
        ensures
            final(self).wf(),
            final(self)@ == old(self)@.insert(key, value),
            final(self).shard_count() == old(self).shard_count(),
    {
        let n = self.shards.len();
        let s = partition_index(key, n);
        let ghost oldshards = self.shards@;
        let mut shard = self.shards.remove(s);
        shard.insert(key, value);
        self.shards.insert(s, shard);
        proof {
            assert(self.shards@ =~= oldshards.update(s as int, self.shards@[s as int]));
            let ni = n as int;
            assert forall|t: int, k: u64|
                0 <= t < self.shards@.len() && #[trigger] self.shards@[t]@.contains_key(k)
                    implies partition_of(k, ni) == t by {
                if t != s {
                    assert(self.shards@[t] == oldshards[t]);
                } else {
                    assert(self.shards@[s as int]@ == oldshards[s as int]@.insert(key, value));
                }
            }
            assert(self.wf());
            assert forall|k: u64|
                ((#[trigger] self@.dom().contains(k)) <==> old(self)@.insert(
                    key,
                    value,
                ).dom().contains(k)) && (self@.dom().contains(k) ==> self@[k] == old(self)@.insert(
                    key,
                    value,
                )[k]) by {
                if partition_of(k, ni) != s as int {
                    assert(self.shards@[partition_of(k, ni)] == oldshards[partition_of(k, ni)]);
                } else {
                    assert(self.shards@[s as int]@ == oldshards[s as int]@.insert(key, value));
                }
            }
            assert(self@ =~= old(self)@.insert(key, value));
        }
    }

    /// Looks the key up in its shard; the result is indistinguishable
    /// from a single unpartitioned map holding the same entries.
    pub fn get(&self, key: u64) -> (r: Option<V>)
        requires
            self.wf(),
        ensures
            r == (if self@.contains_key(key) {
                Some(self@[key])
            } else {
                None::<V>
            }),
    {
        let n = self.shards.len();
        let s = partition_index(key, n);
        let shard = &self.shards[s];
        shard.get(key)
    }

    /// Whether the key is present.
    pub fn contains(&self, key: u64) -> (r: bool)
        requires
            self.wf(),
        ensures
            r == self@.contains_key(key),
    {
        match self.get(key) {
            Some(_) => true,
            None => false,
        }
    }

    /// Builds the map over `n` shards from a batch of entries; on
    /// duplicate keys the last entry wins.
    pub fn build(entries: &Vec<(u64, V)>, n: usize) -> (m: Self)
        requires
            1 <= n,
        ensures
            m.wf(),
            m@ == entries_map(entries@),
            m.shard_count() == n,
    {
        let mut m = Self::new(n);
        proof {
            assert(entries@.take(0) =~= Seq::<(u64, V)>::empty());
        }
        let mut i: usize = 0;
        while i < entries.len()
            invariant
                m.wf(),
                i <= entries@.len(),
                m@ == entries_map(entries@.take(i as int)),
                m.shard_count() == n,
            decreases entries@.len() - i,
        {
            let pair: (u64, V) = entries[i];
            m.insert(pair.0, pair.1);
            proof {
                assert(entries@.take(i + 1).drop_last() =~= entries@.take(i as int));
                assert(entries@.take(i + 1).last() == entries@[i as int]);
            }
            i += 1;
        }
        proof {
            assert(entries@.take(entries@.len() as int) =~= entries@);
        }
        m
    }
}

/// A partitioned map built from a batch holds exactly the mathematical
/// map an unpartitioned `SpecializedHashMap` built from the same batch
/// holds, so `get` answers identically on every key.
pub proof fn lemma_matches_unpartitioned<V: Copy>(
    pm: &PartitionedMap<V>,
    m: &SpecializedHashMap<V>,
    entries: Seq<(u64, V)>,
)
    requires
        pm@ == entries_map(entries),
        m@ == entries_map(entries),
    ensures
        pm@ == m@,
{
}

} // verus!
