use h3ron::hierarchy::HierarchyMap;
use h3ron::partitioned::PartitionedMap;
use h3ron::sorted_set::SortedIndexSet;
use h3ron::spatial::pack_index;
use h3ron::specialized_map::SpecializedHashMap;

#[test]
fn specialized_last_write_wins() {
    let entries: Vec<(u64, u64)> = vec![(10, 1), (20, 2), (10, 3)];
    let m = SpecializedHashMap::build(&entries);
    assert_eq!(m.get(10), Some(3));
    assert_eq!(m.get(20), Some(2));
    assert_eq!(m.get(30), None);
    assert!(m.contains(10));
    assert!(!m.contains(30));
}

#[test]
fn specialized_insert_overwrites() {
    let mut m: SpecializedHashMap<u64> = SpecializedHashMap::new();
    assert_eq!(m.get(5), None);
    m.insert(5, 100);
    assert_eq!(m.get(5), Some(100));
    m.insert(5, 200);
    assert_eq!(m.get(5), Some(200));
    m.insert(6, 300);
    assert_eq!(m.get(6), Some(300));
    let mut entries = m.to_entries();
    entries.sort();
    assert_eq!(entries, vec![(5u64, 200u64), (6, 300)]);
}

#[test]
fn specialized_handles_clustered_keys() {
    // real index sets differ mostly in a small suffix; the map must
    // still answer every key exactly
    let mut entries: Vec<(u64, u64)> = Vec::new();
    for k in 0..512u64 {
        entries.push((pack_index(9, 4000 + k, 4000), k));
    }
    let m = SpecializedHashMap::build(&entries);
    for k in 0..512u64 {
        assert_eq!(m.get(pack_index(9, 4000 + k, 4000)), Some(k));
    }
    assert_eq!(m.get(pack_index(9, 4512, 4000)), None);
}

#[test]
fn partitioned_matches_unpartitioned() {
    let mut entries: Vec<(u64, u64)> = Vec::new();
    for k in 0..200u64 {
        entries.push((k * k + 7, k));
        if k % 3 == 0 {
            entries.push((k * k + 7, k + 1000));
        }
    }
    let flat = SpecializedHashMap::build(&entries);
    for n in [1usize, 2, 3, 8, 16] {
        let pm = PartitionedMap::build(&entries, n);
        for k in 0..250u64 {
            let key = k * k + 7;
            assert_eq!(pm.get(key), flat.get(key));
        }
        assert_eq!(pm.get(999_999_999), None);
    }
}

#[test]
fn partitioned_insert_and_get() {
    let mut pm: PartitionedMap<u64> = PartitionedMap::new(4);
    pm.insert(11, 1);
    pm.insert(12, 2);
    pm.insert(11, 3);
    assert_eq!(pm.get(11), Some(3));
    assert_eq!(pm.get(12), Some(2));
    assert_eq!(pm.get(13), None);
    assert!(pm.contains(12));
    assert!(!pm.contains(13));
}

#[test]
fn hierarchy_exact_key_semantics() {
    let a = pack_index(5, 100, 200);
    let b = pack_index(6, 100, 200);
    let mut m: HierarchyMap<u64> = HierarchyMap::new();
    m.insert(a, 1);
    assert_eq!(m.get(a), Some(1));
    // the same coordinates at a finer resolution are a different key:
    // no silent resolution to an ancestor's value
    assert_eq!(m.get(b), None);
    m.insert(b, 2);
    assert_eq!(m.get(a), Some(1));
    assert_eq!(m.get(b), Some(2));
}

#[test]
fn hierarchy_build_last_write_wins() {
    let k1 = pack_index(3, 10, 10);
    let k2 = pack_index(9, 500, 600);
    let entries: Vec<(u64, u64)> = vec![(k1, 1), (k2, 2), (k1, 3)];
    let m = HierarchyMap::build(&entries);
    assert_eq!(m.get(k1), Some(3));
    assert_eq!(m.get(k2), Some(2));
    assert_eq!(m.get(pack_index(3, 11, 10)), None);
    assert!(m.contains(k2));
}

#[test]
fn sorted_set_paths_agree() {
    let keys: Vec<u64> = vec![42, 7, 42, 9999, 0, 7, 123456789, 0, 42];
    let bulk = SortedIndexSet::build_sorted(&keys);
    let inc = SortedIndexSet::build_incremental(&keys);
    for probe in [0u64, 7, 9, 42, 9999, 123456789, 5, u64::MAX] {
        assert_eq!(bulk.contains(probe), inc.contains(probe));
    }
    for &k in &keys {
        assert!(bulk.contains(k));
        assert!(inc.contains(k));
    }
    assert!(!bulk.contains(1));
    assert!(!inc.contains(1));
}

#[test]
fn sorted_set_incremental_insert() {
    let mut s = SortedIndexSet::new();
    assert!(!s.contains(4));
    s.insert(4);
    s.insert(2);
    s.insert(4);
    assert!(s.contains(2));
    assert!(s.contains(4));
    assert!(!s.contains(3));
}
