//! `SortedIndexSet`: a set of spatial indices kept in sorted,
//! deduplicated order, with logarithmic membership tests. It can be
//! built in bulk (sort everything, then collapse duplicates) or
//! incrementally (one sorted insertion per key); both paths reach the
//! same set, and — the sorted order being canonical — the same sequence.

use vstd::prelude::*;

verus! {

/// Strictly ascending: sorted with no duplicates.
pub open spec fn strictly_sorted(s: Seq<u64>) -> bool {
    forall|i: int, j: int| 0 <= i < j < s.len() ==> s[i] < s[j]
}

/// Ascending, duplicates allowed.
pub open spec fn sorted_nonstrict(s: Seq<u64>) -> bool {
    forall|i: int, j: int| 0 <= i < j < s.len() ==> s[i] <= s[j]
}

/// The set of keys a sequence holds.
pub open spec fn seq_key_set(s: Seq<u64>) -> Set<u64> {
    Set::new(|k: u64| s.contains(k))
}

proof fn lemma_take_contains(s: Seq<u64>, i: int, x: u64)
    requires
        0 <= i < s.len(),
    ensures
        s.take(i + 1).contains(x) <==> (s.take(i).contains(x) || s[i] == x),
{
    if s.take(i + 1).contains(x) {
        let t = choose|t: int| 0 <= t < i + 1 && (#[trigger] s.take(i + 1)[t]) == x;
        if t < i {
            assert(s.take(i)[t] == x);
        }
    }
    if s.take(i).contains(x) {
        let t = choose|t: int| 0 <= t < i && (#[trigger] s.take(i)[t]) == x;
        assert(s.take(i + 1)[t] == x);
    }
    if s[i] == x {
        assert(s.take(i + 1)[i] == x);
    }
}

proof fn lemma_insert_contains(s: Seq<u64>, pos: int, key: u64, x: u64)
    requires
        0 <= pos <= s.len(),
    ensures
        s.insert(pos, key).contains(x) <==> (s.contains(x) || x == key),
{
    let ns = s.insert(pos, key);
    if ns.contains(x) {
        let t = choose|t: int| 0 <= t < ns.len() && (#[trigger] ns[t]) == x;
        if t < pos {
            assert(s[t] == x);
        } else if t > pos {
            assert(s[t - 1] == x);
        }
    }
    if s.contains(x) {
        let t = choose|t: int| 0 <= t < s.len() && (#[trigger] s[t]) == x;
        if t < pos {
            assert(ns[t] == x);
        } else {
            assert(ns[t + 1] == x);
        }
    }
    if x == key {
        assert(ns[pos] == x);
    }
}

/// A strictly sorted sequence is determined by the set of its keys:
/// sorted, deduplicated order is canonical.
pub proof fn lemma_sorted_canonical(s1: Seq<u64>, s2: Seq<u64>)
    requires
        strictly_sorted(s1),
        strictly_sorted(s2),
        forall|x: u64| s1.contains(x) <==> s2.contains(x),
    ensures
        s1 == s2,
    decreases s1.len(),
{
    if s1.len() == 0 {
        if s2.len() > 0 {
            assert(s2.contains(s2[0]));
        }
        assert(s1 =~= s2);
    } else {
        assert(s1.contains(s1.last()));
        assert(s2.contains(s2.last()));
        let t1 = choose|t: int| 0 <= t < s2.len() && (#[trigger] s2[t]) == s1.last();
        let t2 = choose|t: int| 0 <= t < s1.len() && (#[trigger] s1[t]) == s2.last();
        assert(s2[t1] <= s2.last());
        assert(s1[t2] <= s1.last());
        assert(s1.last() == s2.last());
        assert forall|x: u64| s1.drop_last().contains(x) <==> s2.drop_last().contains(x) by {
            if s1.drop_last().contains(x) {
                let t = choose|t: int| 0 <= t < s1.len() - 1 && (#[trigger] s1.drop_last()[t]) == x;
                assert(s1.contains(x));
                assert(x < s1.last());
                let u = choose|u: int| 0 <= u < s2.len() && (#[trigger] s2[u]) == x;
                assert(u < s2.len() - 1);
                assert(s2.drop_last()[u] == x);
            }
            if s2.drop_last().contains(x) {
                let t = choose|t: int| 0 <= t < s2.len() - 1 && (#[trigger] s2.drop_last()[t]) == x;
                assert(s2.contains(x));
                assert(x < s2.last());
                let u = choose|u: int| 0 <= u < s1.len() && (#[trigger] s1[u]) == x;
                assert(u < s1.len() - 1);
                assert(s1.drop_last()[u] == x);
            }
        }
        lemma_sorted_canonical(s1.drop_last(), s2.drop_last());
        assert(s1.len() == s2.len());
        assert forall|idx: int| 0 <= idx < s1.len() implies s1[idx] == s2[idx] by {
            if idx < s1.len() - 1 {
                assert(s1.drop_last()[idx] == s2.drop_last()[idx]);
            }
        }
        assert(s1 =~= s2);
    }
}

proof fn lemma_push_contains(s: Seq<u64>, key: u64, x: u64)
    ensures
        s.push(key).contains(x) <==> (s.contains(x) || x == key),
{
    let ns = s.push(key);
    if ns.contains(x) {
        let t = choose|t: int| 0 <= t < ns.len() && (#[trigger] ns[t]) == x;
        if t < s.len() {
            assert(s[t] == x);
        }
    }
    if s.contains(x) {
        let t = choose|t: int| 0 <= t < s.len() && (#[trigger] s[t]) == x;
        assert(ns[t] == x);
    }
    if x == key {
        assert(ns[s.len() as int] == x);
    }
}

/// Set of spatial indices in sorted, deduplicated order.
pub struct SortedIndexSet {
    keys: Vec<u64>,
}

impl View for SortedIndexSet {
    type V = Set<u64>;

    closed spec fn view(&self) -> Set<u64> {
        seq_key_set(self.keys@)
    }
}

impl SortedIndexSet {
    /// The underlying sorted sequence of keys.
    pub closed spec fn seq(&self) -> Seq<u64> {
        self.keys@
    }

    /// Well-formed: the keys ascend strictly.
    pub closed spec fn wf(&self) -> bool {
        strictly_sorted(self.keys@)
    }

    /// An empty set.
    pub fn new() -> (s: Self)
        ensures
            s.wf(),
            s@ == Set::<u64>::empty(),
    {
        let s = SortedIndexSet { keys: Vec::new() };
        proof {
            assert(s@ =~= Set::<u64>::empty());
        }
        s
    }

    /// First position whose key is at least `key` (the length when all
    /// are smaller): binary search.
    fn lower_bound(&self, key: u64) -> (pos: usize)
        requires
            self.wf(),
        ensures
            pos <= self.keys@.len(),
            forall|i: int| 0 <= i < pos ==> self.keys@[i] < key,
            forall|i: int| pos <= i < self.keys@.len() ==> self.keys@[i] >= key,
    {
        let mut lo: usize = 0;
        let mut hi: usize = self.keys.len();
        while lo < hi
            invariant
                self.wf(),
                lo <= hi <= self.keys@.len(),
                forall|i: int| 0 <= i < lo ==> self.keys@[i] < key,
                forall|i: int| hi <= i < self.keys@.len() ==> self.keys@[i] >= key,
            decreases hi - lo,
        {
            let mid = lo + (hi - lo) / 2;
            if self.keys[mid] < key {
                lo = mid + 1;
            } else {
                hi = mid;
            }
        }
        lo
    }

    /// Logarithmic membership test.
    pub fn contains(&self, key: u64) -> (r: bool)
        requires
            self.wf(),
        ensures
            r == self@.contains(key),
    {
        let pos = self.lower_bound(key);
        if pos < self.keys.len() {
            let found = self.keys[pos];
            proof {
                if found == key {
                    assert(self.keys@.contains(key));
                } else {
                    assert forall|i: int|
                        0 <= i < self.keys@.len() implies self.keys@[i] != key by {
                        if i > pos {
                            assert(self.keys@[pos as int] < self.keys@[i]);
                        }
                    }
                }
            }
            found == key
        } else {
            proof {
                assert(forall|i: int| 0 <= i < self.keys@.len() ==> self.keys@[i] < key);
            }
            false
        }
    }

    /// Inserts one key, keeping the order; present keys stay single.
    pub fn insert(&mut self, key: u64)
        requires
            old(self).wf(),
        ensures
            final(self).wf(),
            final(self)@ == old(self)@.insert(key),
    {
        let pos = self.lower_bound(key);
        if pos < self.keys.len() && self.keys[pos] == key {
            proof {
                assert(self.keys@.contains(key));
                assert(self@ =~= old(self)@.insert(key));
            }
        } else {
            let ghost oldk = self.keys@;
            self.keys.insert(pos, key);
            proof {
                assert forall|i: int, j: int|
                    0 <= i < j < self.keys@.len() implies self.keys@[i] < self.keys@[j] by {
                    if i < pos && j > pos {
                        assert(oldk[i] < key || oldk[i] < oldk[j - 1] || oldk[i] < key);
                        assert(self.keys@[i] == oldk[i]);
                        assert(self.keys@[j] == oldk[j - 1]);
                    }
                }
                assert forall|x: u64|
                    #[trigger] self@.contains(x) == old(self)@.insert(key).contains(x) by {
                    lemma_insert_contains(oldk, pos as int, key, x);
                    assert(self@.contains(x) == self.keys@.contains(x));
                    assert(old(self)@.contains(x) == oldk.contains(x));
                }
                assert(self@ =~= old(self)@.insert(key));
            }
        }
    }

    /// Streaming construction: one sorted insertion per key.
    pub fn build_incremental(keys: &Vec<u64>) -> (s: Self)
        ensures
            s.wf(),
            s@ == seq_key_set(keys@),
    {
        let mut s = Self::new();
        proof {
            assert(s@ =~= seq_key_set(keys@.take(0)));
        }
        let mut i: usize = 0;
        while i < keys.len()
            invariant
                s.wf(),
                i <= keys@.len(),
                s@ == seq_key_set(keys@.take(i as int)),
            decreases keys@.len() - i,
        {
            s.insert(keys[i]);
            proof {
                assert forall|x: u64|
                    #[trigger] s@.contains(x) == seq_key_set(keys@.take(i + 1)).contains(x) by {
                    lemma_take_contains(keys@, i as int, x);
                    assert(s@.contains(x) == (seq_key_set(keys@.take(i as int)).contains(x)
                        || x == keys@[i as int]));
                }
                assert(s@ =~= seq_key_set(keys@.take(i + 1)));
            }
            i += 1;
        }
        proof {
            assert(keys@.take(keys@.len() as int) =~= keys@);
            assert(s@ =~= seq_key_set(keys@));
        }
        s
    }

    /// Bulk construction: sort the whole batch (duplicates included),
    /// then collapse runs of equal keys in one pass.
    pub fn build_sorted(keys: &Vec<u64>) -> (s: Self)
        ensures
            s.wf(),
            s@ == seq_key_set(keys@),
    {
        // sort, duplicates and all
        let mut sorted: Vec<u64> = Vec::new();
        let mut i: usize = 0;
        while i < keys.len()
            invariant
                i <= keys@.len(),
                sorted_nonstrict(sorted@),
                forall|x: u64| sorted@.contains(x) <==> keys@.take(i as int).contains(x),
            decreases keys@.len() - i,
        {
            let key = keys[i];
            // binary search for the insertion position
            let mut lo: usize = 0;
            let mut hi: usize = sorted.len();
            while lo < hi
                invariant
                    sorted_nonstrict(sorted@),
                    lo <= hi <= sorted@.len(),
                    forall|t: int| 0 <= t < lo ==> sorted@[t] < key,
                    forall|t: int| hi <= t < sorted@.len() ==> sorted@[t] >= key,
                decreases hi - lo,
            {
                let mid = lo + (hi - lo) / 2;
                if sorted[mid] < key {
                    lo = mid + 1;
                } else {
                    hi = mid;
                }
            }
            let ghost olds = sorted@;
            sorted.insert(lo, key);
            proof {
                assert forall|a: int, b: int|
                    0 <= a < b < sorted@.len() implies sorted@[a] <= sorted@[b] by {
                    if a < lo && b > lo {
                        assert(sorted@[a] == olds[a]);
                        assert(sorted@[b] == olds[b - 1]);
                    }
                }
                assert forall|x: u64|
                    #[trigger] sorted@.contains(x) == keys@.take(i + 1).contains(x) by {
                    lemma_insert_contains(olds, lo as int, key, x);
                    lemma_take_contains(keys@, i as int, x);
                    assert(olds.contains(x) == keys@.take(i as int).contains(x));
                }
            }
            i += 1;
        }
        proof {
            assert(keys@.take(keys@.len() as int) =~= keys@);
        }
        // collapse duplicates: equal keys are adjacent once sorted
        let mut dedup: Vec<u64> = Vec::new();
        let mut j: usize = 0;
        while j < sorted.len()
            invariant
                j <= sorted@.len(),
                sorted_nonstrict(sorted@),
                strictly_sorted(dedup@),
                forall|x: u64| dedup@.contains(x) <==> sorted@.take(j as int).contains(x),
                dedup@.len() > 0 ==> j > 0 && dedup@.last() == sorted@[j - 1],
                forall|x: u64| sorted@.contains(x) <==> keys@.contains(x),
            decreases sorted@.len() - j,
        {
            let key = sorted[j];
            let push = if dedup.len() == 0 {
                true
            } else {
                let lastv = dedup[dedup.len() - 1];
                lastv != key
            };
            let ghost oldd = dedup@;
            if push {
                dedup.push(key);
            }
            proof {
                if push && dedup@.len() > 1 {
                    assert(oldd.last() == sorted@[j - 1]);
                    assert(sorted@[j - 1] <= sorted@[j as int]);
                    assert forall|a: int, b: int|
                        0 <= a < b < dedup@.len() implies dedup@[a] < dedup@[b] by {
                        if b == dedup@.len() - 1 {
                            assert(dedup@[a] == oldd[a]);
                            assert(oldd[a] <= oldd.last());
                        }
                    }
                }
                assert forall|x: u64|
                    #[trigger] dedup@.contains(x) == sorted@.take(j + 1).contains(x) by {
                    lemma_take_contains(sorted@, j as int, x);
                    if push {
                        lemma_push_contains(oldd, key, x);
                    } else {
                        assert(oldd.last() == sorted@[j as int]);
                        assert(oldd.contains(sorted@[j as int]));
                    }
                    assert(oldd.contains(x) == sorted@.take(j as int).contains(x));
                }
            }
            j += 1;
        }
        proof {
            assert(sorted@.take(sorted@.len() as int) =~= sorted@);
        }
        let s = SortedIndexSet { keys: dedup };
        proof {
            assert(s@ =~= seq_key_set(keys@));
        }
        s
    }
}

/// Both construction paths land on the same membership, and — sorted
/// deduplicated order being canonical — on the same key sequence.
pub proof fn lemma_construction_paths_agree(a: &SortedIndexSet, b: &SortedIndexSet, keys: Seq<u64>)
    requires
        a.wf(),
        b.wf(),
        a@ == seq_key_set(keys),
        b@ == seq_key_set(keys),
    ensures
        a@ == b@,
        a.seq() == b.seq(),
{
    assert forall|x: u64| a.seq().contains(x) <==> b.seq().contains(x) by {
        assert(a@.contains(x) == a.seq().contains(x));
        assert(b@.contains(x) == b.seq().contains(x));
    }
    lemma_sorted_canonical(a.seq(), b.seq());
}

} // verus!
