//! `HierarchyMap`: a map from spatial index to value that exploits the
//! resolution nesting of the index domain. Keys fall into a small
//! number of resolution bands (the top byte of the address), so entries
//! are grouped into one inner map per band. Lookup is exact-key only:
//! a missing key is never resolved to an ancestor's value.

use vstd::prelude::*;

use crate::spatial::idx_res;
use crate::specialized_map::{entries_map, SpecializedHashMap};

verus! {

/// The resolution band a key belongs to: its resolution, folded into
/// the sixteen supported bands (well-formed indices land on their own
/// resolution).
pub open spec fn band_of(key: u64) -> int {
    (idx_res(key) % 16) as int
}

/// Computes the band for a key; agrees with `band_of`.
pub fn band_index(key: u64) -> (b: usize)
    ensures
        b as int == band_of(key),
        b < 16,
{
    ((key >> 56) % 16) as usize
}

/// Map from spatial index to value, grouped by resolution band.
pub struct HierarchyMap<V> {
    bands: Vec<SpecializedHashMap<V>>,
}

impl<V: Copy> View for HierarchyMap<V> {
    type V = Map<u64, V>;

    closed spec fn view(&self) -> Map<u64, V> {
        Map::new(
            |k: u64| self.bands@.len() == 16 && self.bands@[band_of(k)]@.contains_key(k),
            |k: u64| self.bands@[band_of(k)]@[k],
        )
    }
}

impl<V: Copy> HierarchyMap<V> {
    /// Well-formed: one inner map per band, each well-formed, each key
    /// stored in its own resolution band.
    pub closed spec fn wf(&self) -> bool {
        &&& self.bands@.len() == 16
        &&& forall|b: int| 0 <= b < 16 ==> (#[trigger] self.bands@[b]).wf()
        &&& forall|b: int, k: u64|
            0 <= b < 16 && #[trigger] self.bands@[b]@.contains_key(k) ==> band_of(k) == b
    }

    /// An empty map.
    pub fn new() -> (m: Self)
        ensures
            m.wf(),
            m@ == Map::<u64, V>::empty(),
    {
        let mut bands: Vec<SpecializedHashMap<V>> = Vec::new();
        let mut i: usize = 0;
        while i < 16
            invariant
                i <= 16,
                bands@.len() == i,
                forall|b: int| 0 <= b < i ==> (#[trigger] bands@[b]).wf(),
                forall|b: int| 0 <= b < i ==> (#[trigger] bands@[b])@ == Map::<u64, V>::empty(),
            decreases 16 - i,
        {
            bands.push(SpecializedHashMap::new());
            i += 1;
        }
        let m = HierarchyMap { bands };
        proof {
            assert(m@ =~= Map::<u64, V>::empty());
        }
        m
    }

    /// Inserts or overwrites, in the key's resolution band.
    pub fn insert(&mut self, key: u64, value: V)
        requires
            old(self).wf(),
        ensures
            final(self).wf(),
            final(self)@ == old(self)@.insert(key, value),
    {
        let b = band_index(key);
        let ghost oldbands = self.bands@;
        let mut band = self.bands.remove(b);
        band.insert(key, value);
        self.bands.insert(b, band);
        proof {
            assert(self.bands@ =~= oldbands.update(b as int, self.bands@[b as int]));
            assert forall|t: int, k: u64|
                0 <= t < 16 && #[trigger] self.bands@[t]@.contains_key(k)
                    implies band_of(k) == t by {
                if t != b {
                    assert(self.bands@[t] == oldbands[t]);
                } else {
                    assert(self.bands@[b as int]@ == oldbands[b as int]@.insert(key, value));
                }
            }
            assert(self.wf());
            assert forall|k: u64|
                ((#[trigger] self@.dom().contains(k)) <==> old(self)@.insert(
                    key,
                    value,
                ).dom().contains(k)) && (self@.dom().contains(k) ==> self@[k] == old(self)@.insert(
                    key,
                    value,
                )[k]) by {
                if band_of(k) != b as int {
                    assert(self.bands@[band_of(k)] == oldbands[band_of(k)]);
                } else {
                    assert(self.bands@[b as int]@ == oldbands[b as int]@.insert(key, value));
                }
            }
            assert(self@ =~= old(self)@.insert(key, value));
        }
    }

    /// Exact-key lookup in the key's band; a missing exact key reports
    /// not-found even when an ancestor cell is stored.
    pub fn get(&self, key: u64) -> (r: Option<V>)
        requires
            self.wf(),
        ensures
            r == (if self@.contains_key(key) {
                Some(self@[key])
            } else {
                None::<V>
            }),
    {
        let b = band_index(key);
        let band = &self.bands[b];
        band.get(key)
    }

    /// Whether the exact key is present.
    pub fn contains(&self, key: u64) -> (r: bool)
        requires
            self.wf(),
        ensures
            r == self@.contains_key(key),
    {
        match self.get(key) {
            Some(_) => true,
            None => false,
        }
    }

    /// Builds the map from a batch of entries; on duplicate keys the
    /// last entry wins. The external contract is exactly that of
    /// `SpecializedHashMap::build`.
    pub fn build(entries: &Vec<(u64, V)>) -> (m: Self)
        ensures
            m.wf(),
            m@ == entries_map(entries@),
    {
        let mut m = Self::new();
        proof {
            assert(entries@.take(0) =~= Seq::<(u64, V)>::empty());
        }
        let mut i: usize = 0;
        while i < entries.len()
            invariant
                m.wf(),
                i <= entries@.len(),
                m@ == entries_map(entries@.take(i as int)),
            decreases entries@.len() - i,
        {
            let pair: (u64, V) = entries[i];
            m.insert(pair.0, pair.1);
            proof {
                assert(entries@.take(i + 1).drop_last() =~= entries@.take(i as int));
                assert(entries@.take(i + 1).last() == entries@[i as int]);
            }
            i += 1;
        }
        proof {
            assert(entries@.take(entries@.len() as int) =~= entries@);
        }
        m
    }
}

} // verus!
