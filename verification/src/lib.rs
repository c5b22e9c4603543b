//! Associative containers specialized for hierarchical hexagonal grid
//! indices, together with a distance-decayed "bloom" aggregation that
//! consumes them.
//!
//! A spatial index is a 64-bit address: a resolution byte in the top eight
//! bits and an axial coordinate pair in the remaining 56. The containers
//! (`SpecializedHashMap`, `SortedIndexSet`, `PartitionedMap`,
//! `HierarchyMap`) exploit that numeric structure; the bloom aggregator
//! drives ring enumeration around seed cells and aggregates the decayed
//! values into one output pair of parallel sequences.

pub mod bloom;
pub mod hierarchy;
pub mod partitioned;
pub mod sorted_set;
pub mod spatial;
pub mod specialized_map;
