//! Plane geometry for link weights: positions, squared distances, and the
//! integer (truncated) Euclidean distance between two points.

use vstd::prelude::*;

verus! {

/// A position on the plane, used only for link geometry and hit testing.
#[derive(Clone, Copy, PartialEq, Eq, Structural, Debug)]
pub struct Pos {
    pub x: i32,
    pub y: i32,
}

/// The squared Euclidean distance between two positions, as a mathematical
/// integer.
pub open spec fn dist2(a: Pos, b: Pos) -> int {
    (a.x - b.x) * (a.x - b.x) + (a.y - b.y) * (a.y - b.y)
}

/// `r` is the integer square root of `v`: the largest integer whose square
/// does not exceed `v`.
pub open spec fn is_isqrt(r: int, v: int) -> bool {
    0 <= r && r * r <= v && v < (r + 1) * (r + 1)
}

/// The integer square root of `v` as a value.
pub open spec fn isqrt_spec(v: int) -> int {
    choose|r: int| is_isqrt(r, v)
}

/// The truncated Euclidean distance between two positions.
pub open spec fn euclid(a: Pos, b: Pos) -> int {
    isqrt_spec(dist2(a, b))
}

/// The integer square root of a value is unique.
pub proof fn lemma_isqrt_unique(r1: int, r2: int, v: int)
    requires
        is_isqrt(r1, v),
        is_isqrt(r2, v),
    ensures
        r1 == r2,
{
    if r1 < r2 {
        assert((r1 + 1) * (r1 + 1) <= r2 * r2) by (nonlinear_arith)
            requires 0 <= r1, r1 < r2;
    }
    if r2 < r1 {
        assert((r2 + 1) * (r2 + 1) <= r1 * r1) by (nonlinear_arith)
            requires 0 <= r2, r2 < r1;
    }
}

/// Any witness of `is_isqrt` equals `isqrt_spec`.
pub proof fn lemma_isqrt_value(r: int, v: int)
    requires
        is_isqrt(r, v),
    ensures
        isqrt_spec(v) == r,
{
    let w = choose|w: int| is_isqrt(w, v);
    assert(is_isqrt(w, v));
    lemma_isqrt_unique(w, r, v);
}

/// Integer square root by binary search, for values below `2^66` (enough for
/// any sum of two squared `i32` differences).
pub fn isqrt(v: u128) -> (r: u64)
    requires
        v < 73786976294838206464u128,
    ensures
        is_isqrt(r as int, v as int),
{
    let mut lo: u64 = 0;
    let mut hi: u64 = 8589934592u64;
    while hi - lo > 1
        invariant
            lo < hi,
            hi <= 8589934592u64,
            (lo as int) * (lo as int) <= v as int,
            (v as int) < (hi as int) * (hi as int),
        decreases hi - lo,
    {
        let mid: u64 = lo + (hi - lo) / 2;
        proof {
            assert((mid as int) * (mid as int) <= 8589934592int * 8589934592int) by (nonlinear_arith)
                requires 0 <= mid <= 8589934592u64;
        }
        let sq: u128 = (mid as u128) * (mid as u128);
        if sq <= v {
            lo = mid;
        } else {
            hi = mid;
        }
    }
    proof {
        assert(hi == lo + 1);
    }
    lo
}

/// The truncated Euclidean distance between two positions: the floor of the
/// square root of the squared distance.
pub fn distance_between(points: (Pos, Pos)) -> (r: u64)
    ensures
        is_isqrt(r as int, dist2(points.0, points.1)),
        r as int == euclid(points.0, points.1),
{
    let (a, b) = points;
    let dx: i64 = (a.x as i64) - (b.x as i64);
    let dy: i64 = (a.y as i64) - (b.y as i64);
    let ax: u64 = if dx >= 0 { dx as u64 } else { (-dx) as u64 };
    let ay: u64 = if dy >= 0 { dy as u64 } else { (-dy) as u64 };
    proof {
        assert(ax as int * (ax as int) == (dx as int) * (dx as int)) by (nonlinear_arith)
            requires ax as int == if dx >= 0 { dx as int } else { -(dx as int) };
        assert(ay as int * (ay as int) == (dy as int) * (dy as int)) by (nonlinear_arith)
            requires ay as int == if dy >= 0 { dy as int } else { -(dy as int) };
        assert((ax as int) * (ax as int) < 18446744073709551616int) by (nonlinear_arith)
            requires ax < 4294967296u64;
        assert((ay as int) * (ay as int) < 18446744073709551616int) by (nonlinear_arith)
            requires ay < 4294967296u64;
    }
    let sx: u128 = (ax as u128) * (ax as u128);
    let sy: u128 = (ay as u128) * (ay as u128);
    let v: u128 = sx + sy;
    let r = isqrt(v);
    proof {
        assert(v as int == dist2(a, b));
        lemma_isqrt_value(r as int, v as int);
    }
    r
}

/// The visual radius of a node: a point within this distance of the node's
/// position selects it.
pub open spec fn within_radius(node_pos: Pos, point: Pos) -> bool {
    dist2(node_pos, point) < 35 * 35
}

/// Whether `point` falls within the visual radius of a node at `node_pos`.
pub fn hits_node(node_pos: Pos, point: Pos) -> (r: bool)
    ensures
        r == within_radius(node_pos, point),
{
    let dx: i64 = (node_pos.x as i64) - (point.x as i64);
    let dy: i64 = (node_pos.y as i64) - (point.y as i64);
    let ax: u64 = if dx >= 0 { dx as u64 } else { (-dx) as u64 };
    let ay: u64 = if dy >= 0 { dy as u64 } else { (-dy) as u64 };
    proof {
        assert(ax as int * (ax as int) == (dx as int) * (dx as int)) by (nonlinear_arith)
            requires ax as int == if dx >= 0 { dx as int } else { -(dx as int) };
        assert(ay as int * (ay as int) == (dy as int) * (dy as int)) by (nonlinear_arith)
            requires ay as int == if dy >= 0 { dy as int } else { -(dy as int) };
        assert((ax as int) * (ax as int) < 18446744073709551616int) by (nonlinear_arith)
            requires ax < 4294967296u64;
        assert((ay as int) * (ay as int) < 18446744073709551616int) by (nonlinear_arith)
            requires ay < 4294967296u64;
    }
    let sx: u128 = (ax as u128) * (ax as u128);
    let sy: u128 = (ay as u128) * (ay as u128);
    sx + sy < 1225
}

} // verus!
