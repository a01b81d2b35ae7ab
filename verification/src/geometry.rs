//! Points and the point-to-line distance primitive.
//!
//! Distances are never computed as floating-point values. The perpendicular
//! distance from a point P to the infinite line through A and B is
//! |cross(A, B, P)| / sqrt(len2(A, B)), so its square is the exact rational
//! cross(A, B, P)^2 / len2(A, B); every comparison the simplifier needs can
//! be decided exactly on that rational.

use vstd::prelude::*;
use crate::tolerance::Tolerance;

verus! {

/// Coordinates are kept within this magnitude so that every intermediate
/// product of the distance computation fits comfortably in 128-bit integers.
pub const MAX_COORD: i32 = 0x4000_0000;

/// A 2D point with integer coordinates.
#[derive(Clone, Copy, PartialEq, Eq, Structural, Debug)]
pub struct Point {
    pub x: i32,
    pub y: i32,
}

/// Absolute value over the mathematical integers.
pub open spec fn iabs(x: int) -> int {
    if x < 0 { -x } else { x }
}

/// A point whose coordinates are small enough for exact arithmetic.
pub open spec fn coord_ok(p: Point) -> bool {
    -MAX_COORD <= p.x <= MAX_COORD && -MAX_COORD <= p.y <= MAX_COORD
}

/// Twice the signed area of the triangle (a, b, p): the 2D cross product
/// (b.y - a.y) * p.x - (b.x - a.x) * p.y + b.x * a.y - b.y * a.x.
pub open spec fn cross2(a: Point, b: Point, p: Point) -> int {
    (b.y - a.y) * p.x - (b.x - a.x) * p.y + b.x * a.y - b.y * a.x
}

/// Squared length of the segment from a to b.
pub open spec fn len2(a: Point, b: Point) -> int {
    (b.x - a.x) * (b.x - a.x) + (b.y - a.y) * (b.y - a.y)
}

proof fn lemma_mul_bound(x: int, y: int, bx: int, by: int)
    requires
        -bx <= x <= bx,
        -by <= y <= by,
        0 <= bx,
        0 <= by,
    ensures
        -(bx * by) <= x * y <= bx * by,
{
    assert(-(bx * by) <= x * y <= bx * by) by (nonlinear_arith)
        requires
            -bx <= x <= bx,
            -by <= y <= by,
            0 <= bx,
            0 <= by,
    ;
}

/// Bounds on the cross product and squared length for in-range points.
pub proof fn lemma_geometry_bounds(a: Point, b: Point, p: Point)
    requires
        coord_ok(a),
        coord_ok(b),
        coord_ok(p),
    ensures
        iabs(cross2(a, b, p)) <= 0x8000_0000_0000_0000i128 as int,
        0 <= len2(a, b) <= 0x8000_0000_0000_0000i128 as int,
{
    lemma_mul_bound(b.y - a.y, p.x as int, 0x8000_0000, 0x4000_0000);
    lemma_mul_bound(b.x - a.x, p.y as int, 0x8000_0000, 0x4000_0000);
    lemma_mul_bound(b.x as int, a.y as int, 0x4000_0000, 0x4000_0000);
    lemma_mul_bound(b.y as int, a.x as int, 0x4000_0000, 0x4000_0000);
    lemma_mul_bound(b.x - a.x, b.x - a.x, 0x8000_0000, 0x8000_0000);
    lemma_mul_bound(b.y - a.y, b.y - a.y, 0x8000_0000, 0x8000_0000);
    assert((b.x - a.x) * (b.x - a.x) >= 0) by (nonlinear_arith);
    assert((b.y - a.y) * (b.y - a.y) >= 0) by (nonlinear_arith);
}

/// The absolute cross product |cross2(a, b, p)|, computed exactly.
pub fn cross_abs(a: Point, b: Point, p: Point) -> (r: u128)
    requires
        coord_ok(a),
        coord_ok(b),
        coord_ok(p),
    ensures
        r as int == iabs(cross2(a, b, p)),
{
    proof {
        lemma_geometry_bounds(a, b, p);
    }
    let ax = a.x as i128;
    let ay = a.y as i128;
    let bx = b.x as i128;
    let by = b.y as i128;
    let px = p.x as i128;
    let py = p.y as i128;
    proof {
        lemma_mul_bound(by - ay, px as int, 0x8000_0000, 0x4000_0000);
        lemma_mul_bound(bx - ax, py as int, 0x8000_0000, 0x4000_0000);
        lemma_mul_bound(bx as int, ay as int, 0x4000_0000, 0x4000_0000);
        lemma_mul_bound(by as int, ax as int, 0x4000_0000, 0x4000_0000);
    }
    let c: i128 = (by - ay) * px - (bx - ax) * py + bx * ay - by * ax;
    if c < 0 {
        (-c) as u128
    } else {
        c as u128
    }
}

/// The squared length of the segment from a to b, computed exactly.
pub fn seg_len2(a: Point, b: Point) -> (r: u128)
    requires
        coord_ok(a),
        coord_ok(b),
    ensures
        r as int == len2(a, b),
{
    let ax = a.x as i128;
    let ay = a.y as i128;
    let bx = b.x as i128;
    let by = b.y as i128;
    proof {
        lemma_mul_bound(bx - ax, bx - ax, 0x8000_0000, 0x8000_0000);
        lemma_mul_bound(by - ay, by - ay, 0x8000_0000, 0x8000_0000);
        assert((bx - ax) * (bx - ax) >= 0) by (nonlinear_arith);
        assert((by - ay) * (by - ay) >= 0) by (nonlinear_arith);
    }
    let d: i128 = (bx - ax) * (bx - ax) + (by - ay) * (by - ay);
    d as u128
}

/// Whether a perpendicular distance strictly exceeds a tolerance, stated on
/// the absolute cross product `area` and the squared segment length `l`:
/// area / sqrt(l) > num / den exactly when area^2 * den^2 > num^2 * l.
/// A degenerate segment (l == 0) has distance 0, which never exceeds a
/// non-negative tolerance.
pub open spec fn exceeds_spec(area: int, l: int, t: Tolerance) -> bool {
    l > 0 && (area * area) * (t.den * t.den) > (t.num * t.num) * l
}

/// The perpendicular distance from p to the line through a and b strictly
/// exceeds the tolerance t.
pub open spec fn dist_exceeds_tol(a: Point, b: Point, p: Point, t: Tolerance) -> bool {
    exceeds_spec(iabs(cross2(a, b, p)), len2(a, b), t)
}

/// Decide `exceeds_spec(area, l, t)` exactly with 128-bit arithmetic.
pub fn area_exceeds_tol(area: u128, l: u128, t: Tolerance) -> (r: bool)
    requires
        area <= 0x8000_0000_0000_0000u128,
        l <= 0x8000_0000_0000_0000u128,
        t.wf(),
    ensures
        r == exceeds_spec(area as int, l as int, t),
{
    if l == 0 {
        return false;
    }
    proof {
        lemma_mul_bound(area as int, t.den as int, 0x8000_0000_0000_0000, 0xffff_ffff);
        lemma_mul_bound(t.num as int, t.num as int, 0xffff_ffff, 0xffff_ffff);
    }
    let p: u128 = area * (t.den as u128);
    let nsq: u128 = (t.num as u128) * (t.num as u128);
    proof {
        lemma_mul_bound(nsq as int, l as int, 0xffff_ffff_ffff_ffff, 0x8000_0000_0000_0000);
    }
    let rhs: u128 = nsq * l;
    proof {
        assert((p as int) * (p as int) == ((area as int) * (area as int)) * ((t.den as int)
            * (t.den as int))) by (nonlinear_arith)
            requires
                p as int == (area as int) * (t.den as int),
        ;
    }
    if p >= 0x1_0000_0000_0000_0000u128 {
        proof {
            assert((p as int) * (p as int) >= 0x1_0000_0000_0000_0000_0000_0000_0000_0000int)
                by (nonlinear_arith)
                requires
                    p as int >= 0x1_0000_0000_0000_0000int,
            ;
        }
        true
    } else {
        proof {
            lemma_mul_bound(p as int, p as int, 0xffff_ffff_ffff_ffff, 0xffff_ffff_ffff_ffff);
        }
        let psq: u128 = p * p;
        psq > rhs
    }
}

/// The exact square of a perpendicular distance, as the rational num / den.
#[derive(Clone, Copy, PartialEq, Eq, Structural, Debug)]
pub struct DistSq {
    pub num: u128,
    pub den: u128,
}

/// The square of the perpendicular distance from p to the infinite line
/// through a and b, as an exact rational. When a and b coincide the segment
/// is degenerate and the distance is defined to be exactly 0.
pub fn perp_distance_sq(p: Point, a: Point, b: Point) -> (r: DistSq)
    requires
        coord_ok(p),
        coord_ok(a),
        coord_ok(b),
    ensures
        r.den >= 1,
        len2(a, b) == 0 ==> r.num == 0 && r.den == 1,
        len2(a, b) > 0 ==> r.num == iabs(cross2(a, b, p)) * iabs(cross2(a, b, p)) && r.den == len2(
            a,
            b,
        ),
        a == b ==> r.num == 0,
{
    proof {
        if a == b {
            lemma_mul_bound((b.x - a.x) as int, (b.x - a.x) as int, 0, 0);
            lemma_mul_bound((b.y - a.y) as int, (b.y - a.y) as int, 0, 0);
        }
    }
    let l = seg_len2(a, b);
    if l == 0 {
        DistSq { num: 0, den: 1 }
    } else {
        let c = cross_abs(a, b, p);
        proof {
            lemma_geometry_bounds(a, b, p);
            lemma_mul_bound(c as int, c as int, 0x8000_0000_0000_0000, 0x8000_0000_0000_0000);
        }
        DistSq { num: c * c, den: l }
    }
}

} // verus!
