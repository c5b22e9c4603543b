use h3ron::bloom::{bloom, Bloom, BloomAggregationMethod, BloomError, BloomGradientType};
use h3ron::spatial::{pack_index, ring_enumerate};

fn hex_distance(a: u64, b: u64) -> i64 {
    let dq = (((b >> 28) & 0xFFF_FFFF) as i64) - (((a >> 28) & 0xFFF_FFFF) as i64);
    let dr = ((b & 0xFFF_FFFF) as i64) - ((a & 0xFFF_FFFF) as i64);
    let ds = dq + dr;
    dq.abs().max(dr.abs()).max(ds.abs())
}

#[test]
fn vec_iter_boom() {
    let indexes: Vec<u64> = vec![0x89283080ddbffff_u64];
    let out = indexes
        .bloom(10, BloomGradientType::Linear, BloomAggregationMethod::Max)
        .unwrap();
    assert_eq!(out.h3indexes.len(), out.values.len());
}

#[test]
fn pack_index_matches_raw_address() {
    let x = pack_index(8, 0x9283080, 0xDDBFFFF);
    assert_eq!(x, 0x89283080ddbffff_u64);
}

#[test]
fn ring_enumerate_small_radii() {
    let center = pack_index(8, 1000, 1000);
    let r0 = ring_enumerate(center, 0);
    assert_eq!(r0.len(), 1);
    assert_eq!(r0[0], (0u32, center));

    let r1 = ring_enumerate(center, 1);
    assert_eq!(r1.len(), 7);
    let r2 = ring_enumerate(center, 2);
    assert_eq!(r2.len(), 19);
    // exactly one entry at distance zero, and it is the center
    let zero: Vec<&(u32, u64)> = r2.iter().filter(|e| e.0 == 0).collect();
    assert_eq!(zero.len(), 1);
    assert_eq!(zero[0].1, center);
    // distances correct, members unique
    for i in 0..r2.len() {
        assert_eq!(r2[i].0 as i64, hex_distance(center, r2[i].1));
        for j in 0..i {
            assert_ne!(r2[j].1, r2[i].1);
        }
    }
    // a hexagonal ring at distance d holds 6*d cells
    for d in 1..=2u32 {
        assert_eq!(r2.iter().filter(|e| e.0 == d).count(), 6 * d as usize);
    }
}

#[test]
fn bloom_single_seed_linear_max() {
    let a = pack_index(8, 1000, 1000);
    let out = bloom(
        &vec![a],
        2,
        BloomGradientType::Linear,
        BloomAggregationMethod::Max,
    )
    .unwrap();
    // exactly the 0/1/2-ring neighborhood of the seed
    assert_eq!(out.h3indexes.len(), 19);
    assert_eq!(out.denominator, 2);
    for j in 0..out.h3indexes.len() {
        let d = hex_distance(a, out.h3indexes[j]);
        assert!(d <= 2);
        assert_eq!(out.values[j] as i64, d);
        let value = out.values[j] as f32 / out.denominator as f32;
        if d == 0 {
            assert_eq!(value, 0.0);
            assert_eq!(out.h3indexes[j], a);
        } else if d == 1 {
            assert_eq!(value, 0.5);
        } else {
            assert_eq!(value, 1.0);
        }
    }
}

#[test]
fn bloom_two_seed_overlap_aggregates() {
    let a = pack_index(8, 1000, 1000);
    let b = pack_index(8, 1003, 1000);
    let x = pack_index(8, 1001, 1000);
    assert_eq!(hex_distance(a, x), 1);
    assert_eq!(hex_distance(b, x), 2);
    let seeds = vec![a, b];
    let value_at = |agg: BloomAggregationMethod| -> f32 {
        let out = bloom(&seeds, 2, BloomGradientType::Linear, agg).unwrap();
        for j in 0..out.h3indexes.len() {
            if out.h3indexes[j] == x {
                return out.values[j] as f32 / out.denominator as f32;
            }
        }
        panic!("shared neighbor missing from the output");
    };
    assert_eq!(value_at(BloomAggregationMethod::Max), 1.0);
    assert_eq!(value_at(BloomAggregationMethod::Min), 0.5);
    assert_eq!(value_at(BloomAggregationMethod::Sum), 1.5);
}

#[test]
fn bloom_sum_order_insensitive() {
    let a = pack_index(8, 1000, 1000);
    let b = pack_index(8, 1001, 1001);
    let one = bloom(
        &vec![a, b],
        2,
        BloomGradientType::Linear,
        BloomAggregationMethod::Sum,
    )
    .unwrap();
    let two = bloom(
        &vec![b, a],
        2,
        BloomGradientType::Linear,
        BloomAggregationMethod::Sum,
    )
    .unwrap();
    assert_eq!(one.h3indexes.len(), two.h3indexes.len());
    for j in 0..one.h3indexes.len() {
        let c = one.h3indexes[j];
        let k = two
            .h3indexes
            .iter()
            .position(|&y| y == c)
            .expect("cell missing from the second output");
        assert_eq!(one.values[j], two.values[k]);
    }
}

#[test]
fn bloom_exponential_reports_unimplemented() {
    let a = pack_index(8, 1000, 1000);
    let r = bloom(
        &vec![a],
        2,
        BloomGradientType::Exponential2,
        BloomAggregationMethod::Max,
    );
    assert!(matches!(r, Err(BloomError::UnimplementedPolicy)));
}

#[test]
fn bloom_radius_zero_is_defined() {
    let a = pack_index(8, 1000, 1000);
    let out = bloom(
        &vec![a],
        0,
        BloomGradientType::Linear,
        BloomAggregationMethod::Sum,
    )
    .unwrap();
    assert_eq!(out.h3indexes, vec![a]);
    assert_eq!(out.values, vec![0]);
    assert_eq!(out.denominator, 1);
    assert_eq!(out.values[0] as f32 / out.denominator as f32, 0.0);
}

#[test]
fn bloom_empty_seed_batch() {
    let out = bloom(
        &Vec::new(),
        5,
        BloomGradientType::Linear,
        BloomAggregationMethod::Min,
    )
    .unwrap();
    assert!(out.h3indexes.is_empty());
    assert!(out.values.is_empty());
}
