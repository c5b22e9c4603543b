//! `SpecializedHashMap`: a direct-addressed map from raw spatial index
//! to value. A bit-mixing hash of the whole key picks a bucket, so real
//! index sets, which differ mostly in a small suffix at one resolution,
//! spread over the table instead of clustering.

use vstd::prelude::*;

verus! {

/// The mathematical content of a batch of entries: the last write to a
/// key wins.
pub open spec fn entries_map<V>(entries: Seq<(u64, V)>) -> Map<u64, V>
    decreases entries.len(),
{
    if entries.len() == 0 {
        Map::empty()
    } else {
        entries_map(entries.drop_last()).insert(entries.last().0, entries.last().1)
    }
}

/// No key occurs twice in the sequence of entries.
pub open spec fn distinct_keys<V>(s: Seq<(u64, V)>) -> bool {
    forall|j: int, k: int|
        0 <= j < k < s.len() ==> (#[trigger] s[j]).0 != (#[trigger] s[k]).0
}

/// Whether an association list holds the key.
pub open spec fn assoc_has<V>(s: Seq<(u64, V)>, key: u64) -> bool
    decreases s.len(),
{
    s.len() > 0 && (s.last().0 == key || assoc_has(s.drop_last(), key))
}

/// The value an association list holds for the key (meaningful only
/// when `assoc_has` holds).
pub open spec fn assoc_val<V>(s: Seq<(u64, V)>, key: u64) -> V
    decreases s.len(),
{
    if s.len() == 0 {
        arbitrary()
    } else if s.last().0 == key {
        s.last().1
    } else {
        assoc_val(s.drop_last(), key)
    }
}

proof fn lemma_assoc_present<V>(s: Seq<(u64, V)>, j: int)
    requires
        distinct_keys(s),
        0 <= j < s.len(),
    ensures
        assoc_has(s, s[j].0),
        assoc_val(s, s[j].0) == s[j].1,
    decreases s.len(),
{
    if j < s.len() - 1 {
        lemma_assoc_present(s.drop_last(), j);
    }
}

proof fn lemma_assoc_absent<V>(s: Seq<(u64, V)>, key: u64)
    requires
        forall|j: int| 0 <= j < s.len() ==> (#[trigger] s[j]).0 != key,
    ensures
        !assoc_has(s, key),
    decreases s.len(),
{
    if s.len() > 0 {
        lemma_assoc_absent(s.drop_last(), key);
    }
}

/// Lookup in a duplicate-free association list is exactly positional
/// membership.
proof fn lemma_assoc_char<V>(s: Seq<(u64, V)>, key: u64)
    requires
        distinct_keys(s),
    ensures
        assoc_has(s, key) <==> (exists|j: int| 0 <= j < s.len() && (#[trigger] s[j]).0 == key),
        forall|j: int|
            0 <= j < s.len() && (#[trigger] s[j]).0 == key ==> assoc_val(s, key) == s[j].1,
{
    if exists|j: int| 0 <= j < s.len() && (#[trigger] s[j]).0 == key {
        let j = choose|j: int| 0 <= j < s.len() && (#[trigger] s[j]).0 == key;
        lemma_assoc_present(s, j);
    } else {
        lemma_assoc_absent(s, key);
    }
    assert forall|j: int|
        0 <= j < s.len() && (#[trigger] s[j]).0 == key implies assoc_val(s, key) == s[j].1 by {
        lemma_assoc_present(s, j);
    }
}

/// Bit-mixing hash: folds the high half of the key onto the low half in
/// both directions, so every input bit reaches the bucket selector and
/// a naive low-bit hash's clustering is avoided. Deliberately
/// deterministic, so results are reproducible run to run; a per-process
/// key would additionally resist adversarial key sets.
pub open spec fn mix(x: u64) -> u64 {
    x ^ (x >> 31) ^ (x << 33)
}

/// The bucket a key belongs to in a table of `n` buckets.
pub open spec fn bucket_of(key: u64, n: int) -> int {
    mix(key) as int % n
}

/// Computes the bucket for a key; agrees with `bucket_of`.
pub fn bucket_index(key: u64, n: usize) -> (b: usize)
    requires
        1 <= n,
    ensures
        b as int == bucket_of(key, n as int),
        b < n,
{
    let h: u64 = key ^ (key >> 31) ^ (key << 33);
    (h % (n as u64)) as usize
}

fn empty_buckets<V: Copy>(n: usize) -> (b: Vec<Vec<(u64, V)>>)
    requires
        1 <= n,
    ensures
        b@.len() == n,
        forall|i: int| 0 <= i < n ==> (#[trigger] b@[i])@.len() == 0,
{
    let mut b: Vec<Vec<(u64, V)>> = Vec::new();
    let mut i: usize = 0;
    while i < n
        invariant
            i <= n,
            b@.len() == i,
            forall|k: int| 0 <= k < i ==> (#[trigger] b@[k])@.len() == 0,
        decreases n - i,
    {
        b.push(Vec::new());
        i += 1;
    }
    b
}

fn store_bucket<V: Copy>(buckets: &mut Vec<Vec<(u64, V)>>, i: usize, b: Vec<(u64, V)>)
    requires
        i < old(buckets)@.len(),
    ensures
        final(buckets)@ == old(buckets)@.update(i as int, b),
{
    let r = &mut buckets[i];
    *r = b;
}

/// A batch of duplicate-free entries holds exactly the pairs of a map.
proof fn lemma_entries_map_represents<V>(entries: Seq<(u64, V)>, m: Map<u64, V>)
    requires
        distinct_keys(entries),
        forall|j: int|
            0 <= j < entries.len() ==> m.contains_key((#[trigger] entries[j]).0)
                && m[entries[j].0] == entries[j].1,
        forall|k: u64|
            #[trigger] m.contains_key(k) ==> exists|j: int|
                0 <= j < entries.len() && (#[trigger] entries[j]).0 == k,
    ensures
        entries_map(entries) == m,
    decreases entries.len(),
{
    if entries.len() == 0 {
        assert forall|k: u64| !(#[trigger] m.contains_key(k)) by {
            if m.contains_key(k) {
                let j = choose|j: int| 0 <= j < entries.len() && (#[trigger] entries[j]).0 == k;
            }
        }
        assert(entries_map(entries) =~= m);
    } else {
        let last = entries.last();
        let m2 = m.remove(last.0);
        assert forall|k: u64|
            #[trigger] m2.contains_key(k) implies exists|j: int|
                0 <= j < entries.drop_last().len() && (#[trigger] entries.drop_last()[j]).0
                    == k by {
            let j = choose|j: int| 0 <= j < entries.len() && (#[trigger] entries[j]).0 == k;
            assert(j < entries.len() - 1);
            assert((entries.drop_last()[j]).0 == k);
        }
        assert forall|j: int|
            0 <= j < entries.drop_last().len() implies m2.contains_key(
                (#[trigger] entries.drop_last()[j]).0,
            ) && m2[entries.drop_last()[j].0] == entries.drop_last()[j].1 by {
            assert(entries[j] == entries.drop_last()[j]);
            assert((entries[j]).0 != last.0);
        }
        lemma_entries_map_represents(entries.drop_last(), m2);
        assert(m2.insert(last.0, last.1) =~= m);
    }
}

/// Map from spatial index to value with unique keys; mutated
/// incrementally or built once from a batch. `items` counts stored
/// keys, driving geometric growth of the bucket table.
pub struct SpecializedHashMap<V> {
    buckets: Vec<Vec<(u64, V)>>,
    items: usize,
}

impl<V: Copy> View for SpecializedHashMap<V> {
    type V = Map<u64, V>;

    closed spec fn view(&self) -> Map<u64, V> {
        Map::new(
            |k: u64| assoc_has(self.buckets@[bucket_of(k, self.buckets@.len() as int)]@, k),
            |k: u64| assoc_val(self.buckets@[bucket_of(k, self.buckets@.len() as int)]@, k),
        )
    }
}

impl<V: Copy> SpecializedHashMap<V> {
    /// Well-formed: at least one bucket; every entry sits in the bucket
    /// its hash selects; no key occurs twice in a bucket.
    pub closed spec fn wf(&self) -> bool {
        &&& self.buckets@.len() >= 1
        &&& forall|i: int|
            0 <= i < self.buckets@.len() ==> distinct_keys((#[trigger] self.buckets@[i])@)
        &&& forall|i: int, j: int|
            0 <= i < self.buckets@.len() && 0 <= j < self.buckets@[i]@.len()
                ==> bucket_of((#[trigger] self.buckets@[i]@[j]).0, self.buckets@.len() as int)
                    == i
    }

    /// An empty map.
    pub fn new() -> (m: Self)
        ensures
            m.wf(),
            m@ == Map::<u64, V>::empty(),
    {
        let m = SpecializedHashMap { buckets: empty_buckets(16), items: 0 };
        proof {
            assert(m@ =~= Map::<u64, V>::empty());
        }
        m
    }

    fn with_buckets(n: usize) -> (m: Self)
        requires
            1 <= n,
        ensures
            m.wf(),
            m@ == Map::<u64, V>::empty(),
    {
        let m = SpecializedHashMap { buckets: empty_buckets(n), items: 0 };
        proof {
            assert(m@ =~= Map::<u64, V>::empty());
        }
        m
    }

    /// Builds the map from a batch of entries; on duplicate keys the
    /// last entry wins.
    pub fn build(entries: &Vec<(u64, V)>) -> (m: Self)
        ensures
            m.wf(),
            m@ == entries_map(entries@),
    {
        let n: usize = if entries.len() < usize::MAX / 2 { entries.len() / 2 + 8 } else { 8 };
        let mut m = Self::with_buckets(n);
        proof {
            assert(entries@.take(0) =~= Seq::<(u64, V)>::empty());
        }
        let mut i: usize = 0;
        while i < entries.len()
            invariant
                m.wf(),
                i <= entries@.len(),
                m@ == entries_map(entries@.take(i as int)),
            decreases entries@.len() - i,
        {
            let pair: (u64, V) = entries[i];
            m.insert(pair.0, pair.1);
            proof {
                assert(entries@.take(i + 1).drop_last() =~= entries@.take(i as int));
                assert(entries@.take(i + 1).last() == entries@[i as int]);
            }
            i += 1;
        }
        proof {
            assert(entries@.take(entries@.len() as int) =~= entries@);
        }
        m
    }

    /// Inserts or overwrites the value for the key; when the table
    /// fills past twice its bucket count, it grows geometrically so
    /// that chains stay short and inserts stay amortized constant.
    pub fn insert(&mut self, key: u64, value: V)
        requires
            old(self).wf(),
        ensures
            final(self).wf(),
            final(self)@ == old(self)@.insert(key, value),
    {
        self.insert_in_bucket(key, value);
        let n = self.buckets.len();
        if self.items / 2 > n && n < usize::MAX / 4 {
            self.grow(n * 2 + 1);
        }
    }

    /// Rebuilds the table over `n` buckets, keeping the contents.
    fn grow(&mut self, n: usize)
        requires
            old(self).wf(),
            1 <= n,
        ensures
            final(self).wf(),
            final(self)@ == old(self)@,
    {
        let entries = self.to_entries();
        let mut fresh = Self::with_buckets(n);
        fresh.items = self.items;
        proof {
            assert(entries@.take(0) =~= Seq::<(u64, V)>::empty());
        }
        let mut i: usize = 0;
        while i < entries.len()
            invariant
                fresh.wf(),
                i <= entries@.len(),
                fresh@ == entries_map(entries@.take(i as int)),
            decreases entries@.len() - i,
        {
            let pair: (u64, V) = entries[i];
            fresh.insert_in_bucket(pair.0, pair.1);
            proof {
                assert(entries@.take(i + 1).drop_last() =~= entries@.take(i as int));
                assert(entries@.take(i + 1).last() == entries@[i as int]);
            }
            i += 1;
        }
        proof {
            assert(entries@.take(entries@.len() as int) =~= entries@);
            lemma_entries_map_represents(entries@, self@);
        }
        *self = fresh;
    }

    fn insert_in_bucket(&mut self, key: u64, value: V)
        requires
            old(self).wf(),
        ensures
            final(self).wf(),
            final(self)@ == old(self)@.insert(key, value),
    {
        let n = self.buckets.len();
        let b = bucket_index(key, n);
        let blen = self.buckets[b].len();
        let mut nb: Vec<(u64, V)> = Vec::new();
        let mut replaced = false;
        let mut j: usize = 0;
        while j < blen
            invariant
                *self == *old(self),
                old(self).wf(),
                n == self.buckets@.len(),
                b < n,
                b as int == bucket_of(key, n as int),
                blen == self.buckets@[b as int]@.len(),
                j <= blen,
                nb@.len() == j,
                forall|m: int|
                    0 <= m < j ==> #[trigger] nb@[m] == (if self.buckets@[b as int]@[m].0 == key {
                        (key, value)
                    } else {
                        self.buckets@[b as int]@[m]
                    }),
                replaced <==> (exists|m: int|
                    0 <= m < j && (#[trigger] self.buckets@[b as int]@[m]).0 == key),
            decreases blen - j,
        {
            let pair: (u64, V) = self.buckets[b][j];
            if pair.0 == key {
                nb.push((key, value));
                replaced = true;
            } else {
                nb.push(pair);
            }
            j += 1;
        }
        if !replaced {
            nb.push((key, value));
            if self.items < usize::MAX {
                self.items = self.items + 1;
            }
        }
        let ghost oldb = self.buckets@[b as int]@;
        let ghost nbs = nb@;
        store_bucket(&mut self.buckets, b, nb);
        proof {
            let ni = n as int;
            let bi = b as int;
            // the new bucket is duplicate-free and hashes home
            assert forall|m1: int, m2: int|
                0 <= m1 < m2 < nbs.len() implies (nbs[m1]).0 != (nbs[m2]).0 by {
                assert(forall|m: int| 0 <= m < nbs.len() ==> (#[trigger] nbs[m]).0
                    == if m < oldb.len() { oldb[m].0 } else { key });
            }
            assert(distinct_keys(nbs));
            assert forall|m: int| 0 <= m < nbs.len()
                implies bucket_of((#[trigger] nbs[m]).0, ni) == bi by {
                assert(forall|m2: int| 0 <= m2 < nbs.len() ==> (#[trigger] nbs[m2]).0
                    == if m2 < oldb.len() { oldb[m2].0 } else { key });
            }
            assert(self.wf());
            // pointwise agreement with the inserted mathematical map
            let target = old(self)@.insert(key, value);
            assert forall|k: u64|
                ((#[trigger] self@.dom().contains(k)) <==> target.dom().contains(k))
                    && (target.dom().contains(k) ==> self@[k] == target[k]) by {
                lemma_assoc_char(nbs, k);
                lemma_assoc_char(oldb, k);
                if k == key {
                    if oldb.len() < nbs.len() {
                        assert(nbs[oldb.len() as int].0 == key);
                    } else {
                        let m = choose|m: int|
                            0 <= m < oldb.len() && (#[trigger] oldb[m]).0 == key;
                        assert(nbs[m].0 == key && nbs[m].1 == value);
                    }
                } else if bucket_of(k, ni) == bi {
                    assert(forall|m: int| 0 <= m < nbs.len() ==> #[trigger] nbs[m]
                        == (if m < oldb.len() && oldb[m].0 != key { oldb[m] } else { (key, value) }));
                    if exists|m: int| 0 <= m < oldb.len() && (#[trigger] oldb[m]).0 == k {
                        let m = choose|m: int| 0 <= m < oldb.len() && (#[trigger] oldb[m]).0 == k;
                        assert(nbs[m] == oldb[m]);
                    }
                    if exists|m: int| 0 <= m < nbs.len() && (#[trigger] nbs[m]).0 == k {
                        let m = choose|m: int| 0 <= m < nbs.len() && (#[trigger] nbs[m]).0 == k;
                        assert(oldb[m] == nbs[m]);
                    }
                }
            }
            assert(self@ =~= target);
        }
    }

    /// Looks the key up; `None` reports that the key is absent, never a
    /// fabricated default.
    pub fn get(&self, key: u64) -> (r: Option<V>)
        requires
            self.wf(),
        ensures
            r == (if self@.contains_key(key) {
                Some(self@[key])
            } else {
                None::<V>
            }),
    {
        let n = self.buckets.len();
        let b = bucket_index(key, n);
        let blen = self.buckets[b].len();
        let mut j: usize = 0;
        while j < blen
            invariant
                self.wf(),
                n == self.buckets@.len(),
                b < n,
                b as int == bucket_of(key, n as int),
                blen == self.buckets@[b as int]@.len(),
                j <= blen,
                forall|m: int|
                    0 <= m < j ==> (#[trigger] self.buckets@[b as int]@[m]).0 != key,
            decreases blen - j,
        {
            let pair: (u64, V) = self.buckets[b][j];
            if pair.0 == key {
                proof {
                    lemma_assoc_present(self.buckets@[b as int]@, j as int);
                }
                return Some(pair.1);
            }
            j += 1;
        }
        proof {
            lemma_assoc_absent(self.buckets@[b as int]@, key);
        }
        None
    }

    /// Whether the key is present.
    pub fn contains(&self, key: u64) -> (r: bool)
        requires
            self.wf(),
        ensures
            r == self@.contains_key(key),
    {
        match self.get(key) {
            Some(_) => true,
            None => false,
        }
    }

    /// Hands the contents out as a batch of entries: one entry per
    /// stored key, in unspecified order.
    pub fn to_entries(&self) -> (out: Vec<(u64, V)>)
        requires
            self.wf(),
        ensures
            distinct_keys(out@),
            forall|j: int|
                0 <= j < out@.len() ==> self@.contains_key((#[trigger] out@[j]).0)
                    && out@[j].1 == self@[out@[j].0],
            forall|k: u64|
                #[trigger] self@.contains_key(k) ==> exists|j: int|
                    0 <= j < out@.len() && (#[trigger] out@[j]).0 == k,
    {
        let n = self.buckets.len();
        let ghost ni = n as int;
        let mut out: Vec<(u64, V)> = Vec::new();
        let mut i: usize = 0;
        while i < n
            invariant
                self.wf(),
                n == self.buckets@.len(),
                i <= n,
                distinct_keys(out@),
                forall|j: int|
                    0 <= j < out@.len() ==> self@.contains_key((#[trigger] out@[j]).0)
                        && out@[j].1 == self@[out@[j].0],
                forall|j: int|
                    0 <= j < out@.len() ==> bucket_of((#[trigger] out@[j]).0, n as int) < i,
                forall|k: u64|
                    #[trigger] self@.contains_key(k) && bucket_of(k, n as int) < i
                        ==> exists|j: int| 0 <= j < out@.len() && (#[trigger] out@[j]).0 == k,
            decreases n - i,
        {
            let blen = self.buckets[i].len();
            let mut j: usize = 0;
            while j < blen
                invariant
                    self.wf(),
                    n == self.buckets@.len(),
                    i < n,
                    blen == self.buckets@[i as int]@.len(),
                    j <= blen,
                    distinct_keys(out@),
                    forall|m: int|
                        0 <= m < out@.len() ==> self@.contains_key((#[trigger] out@[m]).0)
                            && out@[m].1 == self@[out@[m].0],
                    forall|m: int|
                        0 <= m < out@.len() ==> bucket_of((#[trigger] out@[m]).0, n as int) < i
                            || (bucket_of((#[trigger] out@[m]).0, n as int) == i
                                && (exists|jj: int|
                                    0 <= jj < j
                                        && (#[trigger] self.buckets@[i as int]@[jj]).0
                                            == out@[m].0)),
                    forall|k: u64|
                        #[trigger] self@.contains_key(k) && bucket_of(k, n as int) < i
                            ==> exists|m: int| 0 <= m < out@.len() && (#[trigger] out@[m]).0 == k,
                    forall|jj: int|
                        0 <= jj < j ==> exists|m: int|
                            0 <= m < out@.len()
                                && (#[trigger] out@[m]).0
                                    == (#[trigger] self.buckets@[i as int]@[jj]).0,
                decreases blen - j,
            {
                let pair: (u64, V) = self.buckets[i][j];
                let ghost prev = out@;
                proof {
                    lemma_assoc_char(self.buckets@[i as int]@, pair.0);
                    assert(self.buckets@[i as int]@[j as int].0 == pair.0);
                }
                out.push(pair);
                proof {
                    assert forall|jj: int| 0 <= jj < j + 1 implies exists|m: int|
                        0 <= m < out@.len()
                            && (#[trigger] out@[m]).0
                                == (#[trigger] self.buckets@[i as int]@[jj]).0 by {
                        if jj < j {
                            let m = choose|m: int|
                                0 <= m < prev.len()
                                    && (#[trigger] prev[m]).0 == self.buckets@[i as int]@[jj].0;
                            assert((out@[m]).0 == self.buckets@[i as int]@[jj].0);
                        } else {
                            assert((out@[prev.len() as int]).0 == self.buckets@[i as int]@[jj].0);
                        }
                    }
                    assert forall|k: u64|
                        #[trigger] self@.contains_key(k) && bucket_of(k, n as int) < i
                            implies exists|m: int|
                                0 <= m < out@.len() && (#[trigger] out@[m]).0 == k by {
                        let m = choose|m: int| 0 <= m < prev.len() && (#[trigger] prev[m]).0 == k;
                        assert((out@[m]).0 == k);
                    }
                }
                j += 1;
            }
            proof {
                assert forall|k: u64|
                    #[trigger] self@.contains_key(k) && bucket_of(k, n as int) < i + 1
                        implies exists|m: int|
                            0 <= m < out@.len() && (#[trigger] out@[m]).0 == k by {
                    if bucket_of(k, n as int) == i {
                        lemma_assoc_char(self.buckets@[i as int]@, k);
                        let jj = choose|jj: int|
                            0 <= jj < self.buckets@[i as int]@.len()
                                && (#[trigger] self.buckets@[i as int]@[jj]).0 == k;
                    }
                }
            }
            i += 1;
        }
        proof {
            assert forall|k: u64| #[trigger] self@.contains_key(k)
                implies exists|j: int| 0 <= j < out@.len() && (#[trigger] out@[j]).0 == k by {
                assert(0 <= bucket_of(k, n as int) < n);
            }
        }
        out
    }
}

} // verus!
