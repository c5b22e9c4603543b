//! The bloom aggregator: a distance-decayed scalar field radiating from
//! seed cells, aggregated where seed neighborhoods overlap.
//!
//! The linear gradient gives a cell at ring distance `d` the value
//! `d / radius`. Values are kept exact: an output carries the numerator
//! for every cell and the shared denominator (`radius`, or 1 when the
//! radius is zero, so that nothing divides by zero); consumers divide.

use vstd::prelude::*;

use crate::spatial::{covered, hex_dist, in_disk, ring_domain_ok, ring_entry_ok, ring_enumerate};
use crate::specialized_map::{distinct_keys, SpecializedHashMap};

verus! {

/// Shape of the decay curve from a seed outward.
#[derive(Clone, Copy, PartialEq, Eq, Structural, Debug)]
pub enum BloomGradientType {
    Linear,
    Exponential2,
}

/// How to aggregate values on cells covered from multiple seeds.
#[derive(Clone, Copy, PartialEq, Eq, Structural, Debug)]
pub enum BloomAggregationMethod {
    Min,
    Max,
    Sum,
}

/// The conditions the aggregation reports instead of guessing.
#[derive(Clone, Copy, PartialEq, Eq, Structural, Debug)]
pub enum BloomError {
    /// The requested gradient's curve is not defined.
    UnimplementedPolicy,
}

/// Parallel sequences of cells and value numerators over one shared
/// denominator: `values[j] / denominator` is the field at
/// `h3indexes[j]`.
pub struct BloomOutput {
    pub h3indexes: Vec<u64>,
    pub values: Vec<u64>,
    pub denominator: u64,
}

/// Combining an existing aggregate with a newly computed value.
pub open spec fn combine(agg: BloomAggregationMethod, a: int, b: int) -> int {
    match agg {
        BloomAggregationMethod::Min => if a <= b { a } else { b },
        BloomAggregationMethod::Max => if a >= b { a } else { b },
        BloomAggregationMethod::Sum => a + b,
    }
}

/// One seed's contribution: every cell of its disk, valued by ring
/// distance (the linear gradient's numerator).
pub open spec fn seed_disk_map(seed: u64, radius: u32) -> Map<u64, int> {
    Map::new(|c: u64| in_disk(seed, c, radius), |c: u64| hex_dist(seed, c))
}

/// Aggregating a second field into a first: values on shared cells are
/// combined, others pass through.
pub open spec fn merge(agg: BloomAggregationMethod, m: Map<u64, int>, d: Map<u64, int>) -> Map<
    u64,
    int,
> {
    Map::new(
        |c: u64| m.dom().contains(c) || d.dom().contains(c),
        |c: u64|
            if m.dom().contains(c) && d.dom().contains(c) {
                combine(agg, m[c], d[c])
            } else if m.dom().contains(c) {
                m[c]
            } else {
                d[c]
            },
    )
}

/// The aggregated field of a sequence of seeds: seed disks merged in
/// order.
pub open spec fn bloom_map(seeds: Seq<u64>, radius: u32, agg: BloomAggregationMethod) -> Map<
    u64,
    int,
>
    decreases seeds.len(),
{
    if seeds.len() == 0 {
        Map::empty()
    } else {
        merge(agg, bloom_map(seeds.drop_last(), radius, agg), seed_disk_map(seeds.last(), radius))
    }
}

/// The accumulated entries read as a mathematical map of numerators.
pub open spec fn as_int_map(m: Map<u64, u64>) -> Map<u64, int> {
    Map::new(|k: u64| m.dom().contains(k), |k: u64| m[k] as int)
}

/// The field a batch of enumerated (distance, cell) pairs denotes.
pub open spec fn pairs_map(pairs: Seq<(u32, u64)>) -> Map<u64, int>
    decreases pairs.len(),
{
    if pairs.len() == 0 {
        Map::empty()
    } else {
        pairs_map(pairs.drop_last()).insert(pairs.last().1, pairs.last().0 as int)
    }
}

proof fn lemma_pairs_map_dom(pairs: Seq<(u32, u64)>, c: u64)
    requires
        pairs_map(pairs).dom().contains(c),
    ensures
        exists|t: int| 0 <= t < pairs.len() && (#[trigger] pairs[t]).1 == c,
    decreases pairs.len(),
{
    if pairs.len() > 0 && pairs.last().1 != c {
        lemma_pairs_map_dom(pairs.drop_last(), c);
        let t = choose|t: int|
            0 <= t < pairs.drop_last().len() && (#[trigger] pairs.drop_last()[t]).1 == c;
        assert((pairs[t]).1 == c);
    }
}

proof fn lemma_pairs_map_present(pairs: Seq<(u32, u64)>, t: int)
    requires
        forall|t1: int, t2: int|
            0 <= t1 < t2 < pairs.len() ==> (#[trigger] pairs[t1]).1 != (#[trigger] pairs[t2]).1,
        0 <= t < pairs.len(),
    ensures
        pairs_map(pairs).dom().contains(pairs[t].1),
        pairs_map(pairs)[pairs[t].1] == pairs[t].0 as int,
    decreases pairs.len(),
{
    if t < pairs.len() - 1 {
        lemma_pairs_map_present(pairs.drop_last(), t);
    }
}

/// The enumerated pairs of one seed denote exactly its disk map.
proof fn lemma_pairs_map_full(pairs: Seq<(u32, u64)>, center: u64, radius: u32)
    requires
        forall|t: int| 0 <= t < pairs.len() ==> ring_entry_ok(center, radius, #[trigger] pairs[t]),
        forall|t1: int, t2: int|
            0 <= t1 < t2 < pairs.len() ==> (#[trigger] pairs[t1]).1 != (#[trigger] pairs[t2]).1,
        forall|c: u64| #[trigger] in_disk(center, c, radius) ==> covered(pairs, c),
    ensures
        pairs_map(pairs) == seed_disk_map(center, radius),
{
    assert forall|c: u64|
        ((#[trigger] pairs_map(pairs).dom().contains(c)) <==> seed_disk_map(
            center,
            radius,
        ).dom().contains(c)) && (pairs_map(pairs).dom().contains(c) ==> pairs_map(pairs)[c]
            == seed_disk_map(center, radius)[c]) by {
        if pairs_map(pairs).dom().contains(c) {
            lemma_pairs_map_dom(pairs, c);
            let t = choose|t: int| 0 <= t < pairs.len() && (#[trigger] pairs[t]).1 == c;
            lemma_pairs_map_present(pairs, t);
        }
        if in_disk(center, c, radius) {
            let t = choose|t: int| 0 <= t < pairs.len() && (#[trigger] pairs[t]).1 == c;
            lemma_pairs_map_present(pairs, t);
        }
    }
    assert(pairs_map(pairs) =~= seed_disk_map(center, radius));
}

proof fn lemma_merge_insert(
    agg: BloomAggregationMethod,
    m: Map<u64, int>,
    d: Map<u64, int>,
    c: u64,
    v: int,
)
    requires
        !d.dom().contains(c),
    ensures
        merge(agg, m, d.insert(c, v)) == merge(agg, m, d).insert(
            c,
            if m.dom().contains(c) {
                combine(agg, m[c], v)
            } else {
                v
            },
        ),
{
    assert(merge(agg, m, d.insert(c, v)) =~= merge(agg, m, d).insert(
        c,
        if m.dom().contains(c) {
            combine(agg, m[c], v)
        } else {
            v
        },
    ));
}

/// Every aggregated numerator lies between zero and the number of seeds
/// times the radius.
pub proof fn lemma_bloom_map_bound(seeds: Seq<u64>, radius: u32, agg: BloomAggregationMethod)
    ensures
        forall|k: u64| #[trigger] bloom_map(seeds, radius, agg).dom().contains(k)
            ==> 0 <= bloom_map(seeds, radius, agg)[k] <= seeds.len() * radius,
    decreases seeds.len(),
{
    if seeds.len() > 0 {
        lemma_bloom_map_bound(seeds.drop_last(), radius, agg);
        let bm = bloom_map(seeds, radius, agg);
        let prev = bloom_map(seeds.drop_last(), radius, agg);
        let dm = seed_disk_map(seeds.last(), radius);
        assert forall|k: u64| #[trigger] bm.dom().contains(k)
            implies 0 <= bm[k] <= seeds.len() * radius by {
            assert((seeds.len() - 1) * radius + radius == seeds.len() * radius)
                by (nonlinear_arith)
                requires seeds.len() >= 1;
            assert((seeds.len() - 1) * radius >= 0) by (nonlinear_arith)
                requires seeds.len() >= 1, radius >= 0;
            assert(seeds.drop_last().len() == seeds.len() - 1);
            if dm.dom().contains(k) {
                assert(in_disk(seeds.last(), k, radius));
                assert(0 <= hex_dist(seeds.last(), k) <= radius);
            }
            if prev.dom().contains(k) {
                assert(0 <= prev[k] <= seeds.drop_last().len() * radius);
            }
        }
    }
}

/// A single seed's field at a covered cell is that seed's ring
/// distance (the linear gradient's numerator).
pub proof fn lemma_bloom_map_singleton(s: u64, radius: u32, agg: BloomAggregationMethod, x: u64)
    requires
        in_disk(s, x, radius),
    ensures
        bloom_map(seq![s], radius, agg).dom().contains(x),
        bloom_map(seq![s], radius, agg)[x] == hex_dist(s, x),
{
    assert(seq![s].drop_last() =~= Seq::<u64>::empty());
    assert(seq![s].last() == s);
    assert(bloom_map(seq![s], radius, agg) == merge(
        agg,
        bloom_map(Seq::<u64>::empty(), radius, agg),
        seed_disk_map(s, radius),
    ));
}

/// At a cell both seed neighborhoods cover, the aggregate combines
/// exactly the two individually computed values: their maximum under
/// Max, their minimum under Min, their sum under Sum.
pub proof fn lemma_two_seed_overlap(
    a: u64,
    b: u64,
    x: u64,
    radius: u32,
    agg: BloomAggregationMethod,
)
    requires
        in_disk(a, x, radius),
        in_disk(b, x, radius),
    ensures
        bloom_map(seq![a], radius, agg)[x] == hex_dist(a, x),
        bloom_map(seq![b], radius, agg)[x] == hex_dist(b, x),
        bloom_map(seq![a, b], radius, agg).dom().contains(x),
        bloom_map(seq![a, b], radius, agg)[x] == combine(agg, hex_dist(a, x), hex_dist(b, x)),
{
    lemma_bloom_map_singleton(a, radius, agg, x);
    lemma_bloom_map_singleton(b, radius, agg, x);
    assert(seq![a, b].drop_last() =~= seq![a]);
    assert(seq![a, b].last() == b);
}

/// One cell's total over a sequence of seeds under summation.
pub open spec fn sum_contribution(seeds: Seq<u64>, radius: u32, c: u64) -> int
    decreases seeds.len(),
{
    if seeds.len() == 0 {
        0
    } else {
        sum_contribution(seeds.drop_last(), radius, c) + (if in_disk(seeds.last(), c, radius) {
            hex_dist(seeds.last(), c)
        } else {
            0
        })
    }
}

proof fn lemma_bloom_sum_char(seeds: Seq<u64>, radius: u32, c: u64)
    ensures
        bloom_map(seeds, radius, BloomAggregationMethod::Sum).dom().contains(c) <==> (exists|i: int|
            0 <= i < seeds.len() && in_disk(#[trigger] seeds[i], c, radius)),
        bloom_map(seeds, radius, BloomAggregationMethod::Sum).dom().contains(c) ==> bloom_map(
            seeds,
            radius,
            BloomAggregationMethod::Sum,
        )[c] == sum_contribution(seeds, radius, c),
        !bloom_map(seeds, radius, BloomAggregationMethod::Sum).dom().contains(c)
            ==> sum_contribution(seeds, radius, c) == 0,
    decreases seeds.len(),
{
    let agg = BloomAggregationMethod::Sum;
    if seeds.len() > 0 {
        lemma_bloom_sum_char(seeds.drop_last(), radius, c);
        let prev = bloom_map(seeds.drop_last(), radius, agg);
        if bloom_map(seeds, radius, agg).dom().contains(c) {
            if prev.dom().contains(c) {
                let i = choose|i: int|
                    0 <= i < seeds.drop_last().len() && in_disk(
                        #[trigger] seeds.drop_last()[i],
                        c,
                        radius,
                    );
                assert(in_disk(seeds[i], c, radius));
            } else {
                assert(in_disk(seeds[seeds.len() - 1], c, radius));
            }
        }
        if exists|i: int| 0 <= i < seeds.len() && in_disk(#[trigger] seeds[i], c, radius) {
            let i = choose|i: int| 0 <= i < seeds.len() && in_disk(#[trigger] seeds[i], c, radius);
            if i < seeds.len() - 1 {
                assert(in_disk(seeds.drop_last()[i], c, radius));
            }
            assert(bloom_map(seeds, radius, agg).dom().contains(c));
        }
    }
}

proof fn lemma_sum_contribution_remove(seeds: Seq<u64>, radius: u32, c: u64, k: int)
    requires
        0 <= k < seeds.len(),
    ensures
        sum_contribution(seeds, radius, c) == sum_contribution(seeds.remove(k), radius, c) + (
        if in_disk(seeds[k], c, radius) {
            hex_dist(seeds[k], c)
        } else {
            0
        }),
    decreases seeds.len(),
{
    if k == seeds.len() - 1 {
        assert(seeds.remove(k) =~= seeds.drop_last());
    } else {
        lemma_sum_contribution_remove(seeds.drop_last(), radius, c, k);
        assert(seeds.remove(k).drop_last() =~= seeds.drop_last().remove(k));
        assert(seeds.remove(k).last() == seeds.last());
        assert(seeds.drop_last()[k] == seeds[k]);
    }
}

proof fn lemma_sum_contribution_permutation(s1: Seq<u64>, s2: Seq<u64>, radius: u32, c: u64)
    requires
        s1.to_multiset() == s2.to_multiset(),
    ensures
        sum_contribution(s1, radius, c) == sum_contribution(s2, radius, c),
    decreases s1.len(),
{
    broadcast use vstd::seq_lib::group_to_multiset_ensures;

    if s1.len() == 0 {
        assert(s2.to_multiset().len() == 0);
        assert(s2.len() == 0);
    } else {
        let x = s1.last();
        assert(s1.contains(x));
        assert(s1.to_multiset().count(x) > 0);
        assert(s2.contains(x));
        let k = choose|k: int| 0 <= k < s2.len() && s2[k] == x;
        lemma_sum_contribution_remove(s2, radius, c, k);
        assert(s1.drop_last() =~= s1.remove(s1.len() - 1));
        assert(s1.remove(s1.len() - 1).to_multiset() =~= s1.to_multiset().remove(x));
        assert(s2.remove(k).to_multiset() =~= s2.to_multiset().remove(x));
        lemma_sum_contribution_permutation(s1.drop_last(), s2.remove(k), radius, c);
    }
}

/// Summation is insensitive to the order in which seeds are processed:
/// two seed sequences with the same multiset of seeds give every cell
/// the same aggregated total. Numerators are exact integers, so the
/// equality is exact, not within tolerance.
pub proof fn lemma_sum_order_insensitive(s1: Seq<u64>, s2: Seq<u64>, radius: u32, c: u64)
    requires
        s1.to_multiset() == s2.to_multiset(),
    ensures
        bloom_map(s1, radius, BloomAggregationMethod::Sum).dom().contains(c) <==> bloom_map(
            s2,
            radius,
            BloomAggregationMethod::Sum,
        ).dom().contains(c),
        bloom_map(s1, radius, BloomAggregationMethod::Sum).dom().contains(c) ==> bloom_map(
            s1,
            radius,
            BloomAggregationMethod::Sum,
        )[c] == bloom_map(s2, radius, BloomAggregationMethod::Sum)[c],
{
    broadcast use vstd::seq_lib::group_to_multiset_ensures;

    lemma_sum_contribution_permutation(s1, s2, radius, c);
    lemma_bloom_sum_char(s1, radius, c);
    lemma_bloom_sum_char(s2, radius, c);
    if exists|i: int| 0 <= i < s1.len() && in_disk(#[trigger] s1[i], c, radius) {
        let i = choose|i: int| 0 <= i < s1.len() && in_disk(#[trigger] s1[i], c, radius);
        assert(s1.contains(s1[i]));
        assert(s1.to_multiset().count(s1[i]) > 0);
        assert(s2.contains(s1[i]));
        let j = choose|j: int| 0 <= j < s2.len() && s2[j] == s1[i];
        assert(in_disk(s2[j], c, radius));
    }
    if exists|i: int| 0 <= i < s2.len() && in_disk(#[trigger] s2[i], c, radius) {
        let i = choose|i: int| 0 <= i < s2.len() && in_disk(#[trigger] s2[i], c, radius);
        assert(s2.contains(s2[i]));
        assert(s2.to_multiset().count(s2[i]) > 0);
        assert(s1.contains(s2[i]));
        let j = choose|j: int| 0 <= j < s1.len() && s1[j] == s2[i];
        assert(in_disk(s1[j], c, radius));
    }
}

/// What the aggregation promises of a successful output: one entry per
/// cell of the aggregated field, numerators exact, no duplicates.
pub open spec fn bloom_output_ok(
    out: BloomOutput,
    seeds: Seq<u64>,
    radius: u32,
    agg: BloomAggregationMethod,
) -> bool {
    let bm = bloom_map(seeds, radius, agg);
    &&& out.denominator == (if radius == 0 { 1u64 } else { radius as u64 })
    &&& out.h3indexes@.len() == out.values@.len()
    &&& forall|j: int, k: int|
        0 <= j < k < out.h3indexes@.len() ==> out.h3indexes@[j] != out.h3indexes@[k]
    &&& forall|j: int|
        0 <= j < out.h3indexes@.len() ==> bm.dom().contains(#[trigger] out.h3indexes@[j])
            && out.values@[j] as int == bm[out.h3indexes@[j]]
    &&& forall|c: u64| #[trigger] bm.dom().contains(c) ==> exists|j: int|
        0 <= j < out.h3indexes@.len() && out.h3indexes@[j] == c
}

/// A batch of seed cells that can bloom around itself.
pub trait Bloom: Sized {
    /// The seed cells the batch holds.
    spec fn seed_seq(&self) -> Seq<u64>;

    /// Blooms around the held seeds; the contract of the free `bloom`
    /// function, over `seed_seq`.
    fn bloom(
        self,
        radius: u32,
        gradient: BloomGradientType,
        aggregation_method: BloomAggregationMethod,
    ) -> (r: Result<BloomOutput, BloomError>)
        requires
            self.seed_seq().len() <= 0x100_0000,
            forall|s: int|
                0 <= s < self.seed_seq().len() ==> ring_domain_ok(
                    #[trigger] self.seed_seq()[s],
                    radius,
                ),
        ensures
            (match r {
                Ok(out) => gradient == BloomGradientType::Linear && bloom_output_ok(
                    out,
                    self.seed_seq(),
                    radius,
                    aggregation_method,
                ),
                Err(e) => gradient == BloomGradientType::Exponential2 && e
                    == BloomError::UnimplementedPolicy,
            }),
    ;
}

impl Bloom for Vec<u64> {
    open spec fn seed_seq(&self) -> Seq<u64> {
        self@
    }

    fn bloom(
        self,
        radius: u32,
        gradient: BloomGradientType,
        aggregation_method: BloomAggregationMethod,
    ) -> (r: Result<BloomOutput, BloomError>) {
        bloom(&self, radius, gradient, aggregation_method)
    }
}

/// Creates the bloom effect around the seed cells: enumerates each
/// seed's rings up to `radius`, values each cell by the gradient, and
/// aggregates overlaps by the chosen method. The exponential curve is
/// declared but undefined, so selecting it reports an error rather than
/// silently substituting the linear one.
pub fn bloom(
    seeds: &Vec<u64>,
    radius: u32,
    gradient: BloomGradientType,
    aggregation_method: BloomAggregationMethod,
) -> (r: Result<BloomOutput, BloomError>)
    requires
        seeds@.len() <= 0x100_0000,
        forall|s: int| 0 <= s < seeds@.len() ==> ring_domain_ok(#[trigger] seeds@[s], radius),
    ensures
        (match r {
            Ok(out) => gradient == BloomGradientType::Linear && bloom_output_ok(
                out,
                seeds@,
                radius,
                aggregation_method,
            ),
            Err(e) => gradient == BloomGradientType::Exponential2 && e
                == BloomError::UnimplementedPolicy,
        }),
{
    match gradient {
        BloomGradientType::Exponential2 => {
            return Err(BloomError::UnimplementedPolicy);
        },
        BloomGradientType::Linear => {},
    }
    let mut acc: SpecializedHashMap<u64> = SpecializedHashMap::new();
    proof {
        assert(as_int_map(acc@) =~= bloom_map(seeds@.take(0), radius, aggregation_method));
    }
    let mut i: usize = 0;
    while i < seeds.len()
        invariant
            acc.wf(),
            i <= seeds@.len(),
            seeds@.len() <= 0x100_0000,
            forall|s: int| 0 <= s < seeds@.len() ==> ring_domain_ok(#[trigger] seeds@[s], radius),
            as_int_map(acc@) == bloom_map(seeds@.take(i as int), radius, aggregation_method),
        decreases seeds@.len() - i,
    {
        let seed = seeds[i];
        let pairs = ring_enumerate(seed, radius);
        let ghost prevm = as_int_map(acc@);
        proof {
            assert(pairs_map(pairs@.take(0)) =~= Map::<u64, int>::empty());
            assert(merge(aggregation_method, prevm, pairs_map(pairs@.take(0))) =~= prevm);
        }
        let mut j: usize = 0;
        while j < pairs.len()
            invariant
                acc.wf(),
                j <= pairs@.len(),
                i < seeds@.len(),
                seeds@.len() <= 0x100_0000,
                seed == seeds@[i as int],
                ring_domain_ok(seed, radius),
                forall|t: int|
                    0 <= t < pairs@.len() ==> ring_entry_ok(seed, radius, #[trigger] pairs@[t]),
                forall|t1: int, t2: int|
                    0 <= t1 < t2 < pairs@.len() ==> (#[trigger] pairs@[t1]).1
                        != (#[trigger] pairs@[t2]).1,
                prevm == bloom_map(seeds@.take(i as int), radius, aggregation_method),
                as_int_map(acc@) == merge(
                    aggregation_method,
                    prevm,
                    pairs_map(pairs@.take(j as int)),
                ),
            decreases pairs@.len() - j,
        {
            let pair: (u32, u64) = pairs[j];
            let dist = pair.0;
            let cell = pair.1;
            let dval: u64 = dist as u64;
            proof {
                assert(ring_entry_ok(seed, radius, pairs@[j as int]));
                if pairs_map(pairs@.take(j as int)).dom().contains(cell) {
                    lemma_pairs_map_dom(pairs@.take(j as int), cell);
                }
                assert(!pairs_map(pairs@.take(j as int)).dom().contains(cell));
                lemma_merge_insert(
                    aggregation_method,
                    prevm,
                    pairs_map(pairs@.take(j as int)),
                    cell,
                    dist as int,
                );
                lemma_bloom_map_bound(seeds@.take(i as int), radius, aggregation_method);
                assert(seeds@.take(i as int).len() * radius <= 0x100_0000 * 0x10_0000)
                    by (nonlinear_arith)
                    requires
                        0 <= seeds@.take(i as int).len() <= 0x100_0000,
                        0 <= radius <= 0x10_0000,
                ;
                assert(pairs@.take(j + 1).drop_last() =~= pairs@.take(j as int));
                assert(pairs@.take(j + 1).last() == pairs@[j as int]);
            }
            let looked = acc.get(cell);
            match looked {
                Some(cur) => {
                    proof {
                        assert(acc@.contains_key(cell));
                        assert(as_int_map(acc@).dom().contains(cell));
                        assert(!pairs_map(pairs@.take(j as int)).dom().contains(cell));
                        assert(prevm.dom().contains(cell));
                        assert(cur == acc@[cell]);
                        assert(as_int_map(acc@)[cell] == acc@[cell] as int);
                        assert(merge(
                            aggregation_method,
                            prevm,
                            pairs_map(pairs@.take(j as int)),
                        )[cell] == prevm[cell]);
                        assert(bloom_map(
                            seeds@.take(i as int),
                            radius,
                            aggregation_method,
                        ).dom().contains(cell));
                        assert(cur as int == prevm[cell]);
                        assert(cur as int <= seeds@.take(i as int).len() * radius);
                        assert(cur <= 0x1000_0000_0000);
                        assert(dval <= 0x10_0000);
                    }
                    let nv: u64 = match aggregation_method {
                        BloomAggregationMethod::Min => if cur <= dval {
                            cur
                        } else {
                            dval
                        },
                        BloomAggregationMethod::Max => if cur >= dval {
                            cur
                        } else {
                            dval
                        },
                        BloomAggregationMethod::Sum => cur + dval,
                    };
                    acc.insert(cell, nv);
                },
                None => {
                    proof {
                        assert(!acc@.contains_key(cell));
                        assert(!as_int_map(acc@).dom().contains(cell));
                        assert(!prevm.dom().contains(cell));
                    }
                    acc.insert(cell, dval);
                },
            }
            proof {
                assert(as_int_map(acc@) =~= merge(
                    aggregation_method,
                    prevm,
                    pairs_map(pairs@.take(j + 1)),
                ));
            }
            j += 1;
        }
        proof {
            assert(pairs@.take(pairs@.len() as int) =~= pairs@);
            lemma_pairs_map_full(pairs@, seed, radius);
            assert(seeds@.take(i + 1).drop_last() =~= seeds@.take(i as int));
            assert(seeds@.take(i + 1).last() == seeds@[i as int]);
        }
        i += 1;
    }
    proof {
        assert(seeds@.take(seeds@.len() as int) =~= seeds@);
    }
    let entries = acc.to_entries();
    let ghost bm = bloom_map(seeds@, radius, aggregation_method);
    let mut out_indexes: Vec<u64> = Vec::new();
    let mut out_values: Vec<u64> = Vec::new();
    let mut t: usize = 0;
    while t < entries.len()
        invariant
            t <= entries@.len(),
            out_indexes@.len() == t,
            out_values@.len() == t,
            bm == as_int_map(acc@),
            acc.wf(),
            distinct_keys(entries@),
            forall|m: int|
                0 <= m < entries@.len() ==> acc@.contains_key((#[trigger] entries@[m]).0)
                    && entries@[m].1 == acc@[entries@[m].0],
            forall|k: u64|
                #[trigger] acc@.contains_key(k) ==> exists|m: int|
                    0 <= m < entries@.len() && (#[trigger] entries@[m]).0 == k,
            forall|m: int| 0 <= m < t ==> #[trigger] out_indexes@[m] == entries@[m].0,
            forall|m: int| 0 <= m < t ==> #[trigger] out_values@[m] == entries@[m].1,
        decreases entries@.len() - t,
    {
        let pair: (u64, u64) = entries[t];
        out_indexes.push(pair.0);
        out_values.push(pair.1);
        t += 1;
    }
    let denominator: u64 = if radius == 0 {
        1
    } else {
        radius as u64
    };
    let out = BloomOutput { h3indexes: out_indexes, values: out_values, denominator };
    proof {
        assert forall|c: u64| #[trigger] bm.dom().contains(c) implies exists|j: int|
            0 <= j < out.h3indexes@.len() && out.h3indexes@[j] == c by {
            assert(acc@.contains_key(c));
            let m = choose|m: int| 0 <= m < entries@.len() && (#[trigger] entries@[m]).0 == c;
            assert(out.h3indexes@[m] == c);
        }
    }
    Ok(out)
}

} // verus!
