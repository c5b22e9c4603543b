//! The spatial index domain: a 64-bit cell address made of a resolution
//! byte (top 8 bits) and an axial hexagonal coordinate pair (two 28-bit
//! fields), together with hexagonal ring distance and ring enumeration.

use vstd::prelude::*;

verus! {

/// Resolution level: the top byte of an index.
pub open spec fn idx_res(x: u64) -> u64 {
    x >> 56
}

/// Axial `q` coordinate: bits 28..56 of an index.
pub open spec fn idx_q(x: u64) -> u64 {
    (x >> 28) & 0xFFF_FFFF
}

/// Axial `r` coordinate: bits 0..28 of an index.
pub open spec fn idx_r(x: u64) -> u64 {
    x & 0xFFF_FFFF
}

/// A well-formed index keeps its resolution in the supported band.
pub open spec fn valid_index(x: u64) -> bool {
    idx_res(x) <= 15
}

/// The packed address for a resolution and an axial coordinate pair.
pub open spec fn pack_spec(res: u64, q: u64, r: u64) -> u64 {
    (res << 56) | (q << 28) | r
}

/// Packing then decoding gives the three fields back.
pub proof fn lemma_pack_decode(res: u64, q: u64, r: u64)
    requires
        res <= 255,
        q < 0x1000_0000,
        r < 0x1000_0000,
    ensures
        idx_res(pack_spec(res, q, r)) == res,
        idx_q(pack_spec(res, q, r)) == q,
        idx_r(pack_spec(res, q, r)) == r,
{
    assert(((res << 56) | (q << 28) | r) >> 56 == res) by (bit_vector)
        requires res <= 255, q < 0x1000_0000, r < 0x1000_0000;
    assert((((res << 56) | (q << 28) | r) >> 28) & 0xFFF_FFFF == q) by (bit_vector)
        requires res <= 255, q < 0x1000_0000, r < 0x1000_0000;
    assert(((res << 56) | (q << 28) | r) & 0xFFF_FFFF == r) by (bit_vector)
        requires res <= 255, q < 0x1000_0000, r < 0x1000_0000;
}

/// Decoding then packing gives the index back: the three fields
/// partition the 64 bits, so an index is determined by them.
pub proof fn lemma_decode_pack(x: u64)
    ensures
        pack_spec(idx_res(x), idx_q(x), idx_r(x)) == x,
{
    assert(((x >> 56) << 56) | (((x >> 28) & 0xFFF_FFFF) << 28) | (x & 0xFFF_FFFF) == x)
        by (bit_vector);
}

/// Two indices with equal fields are the same address.
pub proof fn lemma_index_injective(x: u64, y: u64)
    requires
        idx_res(x) == idx_res(y),
        idx_q(x) == idx_q(y),
        idx_r(x) == idx_r(y),
    ensures
        x == y,
{
    lemma_decode_pack(x);
    lemma_decode_pack(y);
}

/// Builds the index for a resolution and an axial coordinate pair.
pub fn pack_index(res: u64, q: u64, r: u64) -> (x: u64)
    requires
        res <= 15,
        q < 0x1000_0000,
        r < 0x1000_0000,
    ensures
        x == pack_spec(res, q, r),
        idx_res(x) == res,
        idx_q(x) == q,
        idx_r(x) == r,
        valid_index(x),
{
    proof {
        lemma_pack_decode(res, q, r);
    }
    (res << 56) | (q << 28) | r
}

pub open spec fn abs_i(a: int) -> int {
    if a < 0 { -a } else { a }
}

pub open spec fn max3(a: int, b: int, c: int) -> int {
    if a >= b && a >= c { a } else if b >= c { b } else { c }
}

/// Hexagonal grid distance of an axial coordinate delta: on an axial
/// hexagonal grid the topological distance between two cells is the
/// largest absolute cube component of their coordinate difference.
pub open spec fn hex_delta_dist(dq: int, dr: int) -> int {
    max3(abs_i(dq), abs_i(dr), abs_i(dq + dr))
}

/// Ring distance between two cell addresses (their resolutions are
/// compared separately: distance is only meaningful within one band).
pub open spec fn hex_dist(a: u64, b: u64) -> int {
    hex_delta_dist(idx_q(b) - idx_q(a), idx_r(b) - idx_r(a))
}

/// The cell `c` lies in the radius-`radius` neighborhood of `center`:
/// same resolution and ring distance at most `radius`.
pub open spec fn in_disk(center: u64, c: u64, radius: u32) -> bool {
    idx_res(c) == idx_res(center) && hex_dist(center, c) <= radius as int
}

/// Domain bound for ring enumeration: the neighborhood must stay inside
/// the representable coordinate planes, and the radius inside the range
/// whose arithmetic the implementation proves free of overflow.
pub open spec fn ring_domain_ok(center: u64, radius: u32) -> bool {
    &&& valid_index(center)
    &&& radius <= 0x10_0000
    &&& (radius as int) <= (idx_q(center) as int)
    &&& (idx_q(center) as int) + (radius as int) < 0x1000_0000
    &&& (radius as int) <= (idx_r(center) as int)
    &&& (idx_r(center) as int) + (radius as int) < 0x1000_0000
}

/// One enumerated neighbor: correct ring distance, inside the disk, and
/// at distance zero exactly for the center itself.
pub open spec fn ring_entry_ok(center: u64, radius: u32, e: (u32, u64)) -> bool {
    &&& in_disk(center, e.1, radius)
    &&& e.0 as int == hex_dist(center, e.1)
    &&& (e.0 == 0 <==> e.1 == center)
}

/// The cell `c` appears among the enumerated entries.
pub open spec fn covered(out: Seq<(u32, u64)>, c: u64) -> bool {
    exists|j: int| 0 <= j < out.len() && (#[trigger] out[j]).1 == c
}

proof fn lemma_compose_cell(center: u64, qq: u64, rr: u64)
    requires
        qq < 0x1000_0000,
        rr < 0x1000_0000,
    ensures
        idx_res((center & 0xFF00_0000_0000_0000) | (qq << 28) | rr) == idx_res(center),
        idx_q((center & 0xFF00_0000_0000_0000) | (qq << 28) | rr) == qq,
        idx_r((center & 0xFF00_0000_0000_0000) | (qq << 28) | rr) == rr,
{
    assert((((center & 0xFF00_0000_0000_0000) | (qq << 28) | rr) >> 56) == center >> 56)
        by (bit_vector)
        requires qq < 0x1000_0000, rr < 0x1000_0000;
    assert(((((center & 0xFF00_0000_0000_0000) | (qq << 28) | rr) >> 28) & 0xFFF_FFFF) == qq)
        by (bit_vector)
        requires qq < 0x1000_0000, rr < 0x1000_0000;
    assert((((center & 0xFF00_0000_0000_0000) | (qq << 28) | rr) & 0xFFF_FFFF) == rr)
        by (bit_vector)
        requires qq < 0x1000_0000, rr < 0x1000_0000;
}

/// Enumerates every cell whose ring distance from `center` is at most
/// `max_distance`, each exactly once, paired with that distance. The
/// center itself is the single entry at distance zero.
pub fn ring_enumerate(center: u64, max_distance: u32) -> (out: Vec<(u32, u64)>)
    requires
        ring_domain_ok(center, max_distance),
    ensures
        forall|j: int| 0 <= j < out@.len() ==> ring_entry_ok(center, max_distance, #[trigger] out@[j]),
        forall|j: int, k: int| 0 <= j < k < out@.len() ==> out@[j].1 != out@[k].1,
        forall|c: u64| #[trigger] in_disk(center, c, max_distance) ==> covered(out@, c),
{
    let q0: u64 = (center >> 28) & 0xFFF_FFFF;
    let r0: u64 = center & 0xFFF_FFFF;
    let res_bits: u64 = center & 0xFF00_0000_0000_0000;
    let q0i: i64 = q0 as i64;
    let r0i: i64 = r0 as i64;
    let rad: i64 = max_distance as i64;
    let mut out: Vec<(u32, u64)> = Vec::new();
    let mut dq: i64 = -rad;
    while dq <= rad
        invariant
            ring_domain_ok(center, max_distance),
            q0i == idx_q(center) as i64,
            r0i == idx_r(center) as i64,
            res_bits == center & 0xFF00_0000_0000_0000,
            rad == max_distance as i64,
            -rad <= dq <= rad + 1,
            forall|j: int| 0 <= j < out@.len()
                ==> ring_entry_ok(center, max_distance, #[trigger] out@[j]),
            forall|j: int, k: int| 0 <= j < k < out@.len() ==> out@[j].1 != out@[k].1,
            forall|j: int| 0 <= j < out@.len()
                ==> (idx_q((#[trigger] out@[j]).1) as int) < q0i + dq,
            forall|c: u64| #[trigger] in_disk(center, c, max_distance)
                && (idx_q(c) as int) < q0i + dq ==> covered(out@, c),
        decreases rad + 1 - dq,
    {
        let mut dr: i64 = -rad;
        while dr <= rad
            invariant
                ring_domain_ok(center, max_distance),
                q0i == idx_q(center) as i64,
                r0i == idx_r(center) as i64,
                res_bits == center & 0xFF00_0000_0000_0000,
                rad == max_distance as i64,
                -rad <= dq <= rad,
                -rad <= dr <= rad + 1,
                forall|j: int| 0 <= j < out@.len()
                    ==> ring_entry_ok(center, max_distance, #[trigger] out@[j]),
                forall|j: int, k: int| 0 <= j < k < out@.len() ==> out@[j].1 != out@[k].1,
                forall|j: int| 0 <= j < out@.len()
                    ==> (idx_q((#[trigger] out@[j]).1) as int) < q0i + dq
                        || ((idx_q((#[trigger] out@[j]).1) as int) == q0i + dq
                            && (idx_r(out@[j].1) as int) < r0i + dr),
                forall|c: u64| #[trigger] in_disk(center, c, max_distance)
                    && ((idx_q(c) as int) < q0i + dq
                        || ((idx_q(c) as int) == q0i + dq && (idx_r(c) as int) < r0i + dr))
                    ==> covered(out@, c),
            decreases rad + 1 - dr,
        {
            let d = delta_dist(dq, dr);
            if d <= rad {
                let qq: u64 = (q0i + dq) as u64;
                let rr: u64 = (r0i + dr) as u64;
                let cell: u64 = res_bits | (qq << 28) | rr;
                proof {
                    lemma_compose_cell(center, qq, rr);
                    assert(hex_dist(center, cell) == hex_delta_dist(dq as int, dr as int));
                    if d == 0 {
                        lemma_index_injective(cell, center);
                    }
                    if cell == center {
                        assert(dq == 0 && dr == 0);
                    }
                }
                let ghost prev = out@;
                out.push((d as u32, cell));
                proof {
                    assert forall|c: u64| #[trigger] in_disk(center, c, max_distance)
                        && ((idx_q(c) as int) < q0i + dq
                            || ((idx_q(c) as int) == q0i + dq
                                && (idx_r(c) as int) < r0i + dr + 1))
                        implies covered(out@, c) by {
                        if (idx_q(c) as int) == q0i + dq && (idx_r(c) as int) == r0i + dr {
                            lemma_index_injective(c, cell);
                            assert((out@[prev.len() as int]).1 == c);
                        } else {
                            assert(covered(prev, c));
                            let j = choose|j: int|
                                0 <= j < prev.len() && (#[trigger] prev[j]).1 == c;
                            assert((out@[j]).1 == c);
                        }
                    }
                }
            } else {
                proof {
                    assert forall|c: u64| #[trigger] in_disk(center, c, max_distance)
                        && ((idx_q(c) as int) < q0i + dq
                            || ((idx_q(c) as int) == q0i + dq
                                && (idx_r(c) as int) < r0i + dr + 1))
                        implies covered(out@, c) by {
                        if (idx_q(c) as int) == q0i + dq && (idx_r(c) as int) == r0i + dr {
                            assert(hex_dist(center, c) == hex_delta_dist(dq as int, dr as int));
                            assert(false);
                        }
                    }
                }
            }
            dr = dr + 1;
        }
        proof {
            assert forall|c: u64| #[trigger] in_disk(center, c, max_distance)
                && (idx_q(c) as int) < q0i + dq + 1 implies covered(out@, c) by {
                assert(abs_i(idx_r(c) - idx_r(center)) <= hex_dist(center, c));
            }
        }
        dq = dq + 1;
    }
    proof {
        assert forall|c: u64| #[trigger] in_disk(center, c, max_distance)
            implies covered(out@, c) by {
            assert(abs_i(idx_q(c) - idx_q(center)) <= hex_dist(center, c));
        }
    }
    out
}

fn delta_dist(dq: i64, dr: i64) -> (d: i64)
    requires
        -0x1000_0000 <= dq <= 0x1000_0000,
        -0x1000_0000 <= dr <= 0x1000_0000,
    ensures
        d as int == hex_delta_dist(dq as int, dr as int),
        0 <= d <= 0x2000_0000,
{
    let adq: i64 = if dq < 0 { -dq } else { dq };
    let adr: i64 = if dr < 0 { -dr } else { dr };
    let ds: i64 = dq + dr;
    let ads: i64 = if ds < 0 { -ds } else { ds };
    if adq >= adr && adq >= ads {
        adq
    } else if adr >= ads {
        adr
    } else {
        ads
    }
}

} // verus!
