//! The recursive Douglas-Peucker simplifier for one polyline.
//!
//! `simplified_line` is the mathematical specification of the whole
//! operation; the executable entry points are proved to return exactly that
//! sequence. Over a span `[b, e]` of indices the simplifier finds the
//! interior point farthest from the chord through the span's endpoints
//! (first index on ties), keeps it when its distance strictly exceeds the
//! tolerance, and recurses into the two halves; otherwise the whole span
//! collapses to its endpoints.

use vstd::prelude::*;
use crate::geometry::{
    Point, coord_ok, cross2, len2, iabs, cross_abs, seg_len2, dist_exceeds_tol, exceeds_spec,
    area_exceeds_tol, lemma_geometry_bounds,
};
use crate::tolerance::Tolerance;

verus! {

/// A polyline: an ordered sequence of points.
pub type Polyline = Vec<Point>;

/// Why a simplification request was rejected.
#[derive(Clone, Copy, PartialEq, Eq, Structural, Debug)]
pub enum SimplifyError {
    /// The polyline holds no point at all.
    InvalidInput,
}

/// Every point of the polyline is within the coordinate range that exact
/// arithmetic supports.
pub open spec fn polyline_ok(s: Seq<Point>) -> bool {
    forall|i: int| 0 <= i < s.len() ==> coord_ok(#[trigger] s[i])
}

/// The index of the maximum-distance interior point of the span `[b, e]`,
/// scanning from index `i` with `best` the first maximum so far. Distances
/// to a fixed chord compare as their absolute cross products do.
pub open spec fn first_max_from(s: Seq<Point>, b: int, e: int, i: int, best: int) -> int
    decreases e - i,
{
    if i >= e {
        best
    } else if iabs(cross2(s[b], s[e], s[i])) > iabs(cross2(s[b], s[e], s[best])) {
        first_max_from(s, b, e, i + 1, i)
    } else {
        first_max_from(s, b, e, i + 1, best)
    }
}

/// The first interior index of the span `[b, e]` whose distance to the
/// chord through `s[b]` and `s[e]` is maximal.
pub open spec fn first_max(s: Seq<Point>, b: int, e: int) -> int {
    first_max_from(s, b, e, b + 2, b + 1)
}

pub proof fn lemma_first_max_from_range(s: Seq<Point>, b: int, e: int, i: int, best: int)
    requires
        b + 1 <= best < e,
        i >= b + 2,
    ensures
        b + 1 <= first_max_from(s, b, e, i, best) < e,
    decreases e - i,
{
    if i >= e {
    } else if iabs(cross2(s[b], s[e], s[i])) > iabs(cross2(s[b], s[e], s[best])) {
        lemma_first_max_from_range(s, b, e, i + 1, i);
    } else {
        lemma_first_max_from_range(s, b, e, i + 1, best);
    }
}

/// The chosen index always lies strictly inside the span.
pub proof fn lemma_first_max_range(s: Seq<Point>, b: int, e: int)
    requires
        b + 2 <= e,
    ensures
        b + 1 <= first_max(s, b, e) < e,
{
    lemma_first_max_from_range(s, b, e, b + 2, b + 1);
}

/// The distance of an interior point to the chord of its span, measured as
/// the absolute cross product.
pub open spec fn chord_area(s: Seq<Point>, b: int, e: int, i: int) -> int {
    iabs(cross2(s[b], s[e], s[i]))
}

proof fn lemma_first_max_from_max(s: Seq<Point>, b: int, e: int, i: int, best: int)
    requires
        b + 1 <= best < i <= e,
        forall|j: int| b + 1 <= j < best ==> chord_area(s, b, e, j) < chord_area(s, b, e, best),
        forall|j: int| best <= j < i ==> chord_area(s, b, e, j) <= chord_area(s, b, e, best),
    ensures
        ({
            let m = first_max_from(s, b, e, i, best);
            &&& forall|j: int| b + 1 <= j < m ==> chord_area(s, b, e, j) < chord_area(s, b, e, m)
            &&& forall|j: int| m <= j < e ==> chord_area(s, b, e, j) <= chord_area(s, b, e, m)
        }),
    decreases e - i,
{
    if i >= e {
    } else if iabs(cross2(s[b], s[e], s[i])) > iabs(cross2(s[b], s[e], s[best])) {
        lemma_first_max_from_max(s, b, e, i + 1, i);
    } else {
        lemma_first_max_from_max(s, b, e, i + 1, best);
    }
}

/// The chosen index achieves the maximum chord distance over the whole
/// interior, and every earlier interior index lies strictly below it.
pub proof fn lemma_first_max_max(s: Seq<Point>, b: int, e: int)
    requires
        b + 2 <= e,
    ensures
        ({
            let m = first_max(s, b, e);
            &&& forall|j: int| b + 1 <= j < m ==> chord_area(s, b, e, j) < chord_area(s, b, e, m)
            &&& forall|j: int| m <= j < e ==> chord_area(s, b, e, j) <= chord_area(s, b, e, m)
        }),
{
    lemma_first_max_from_max(s, b, e, b + 2, b + 1);
}

proof fn lemma_first_max_from_unique(s: Seq<Point>, b: int, e: int, i: int, best: int, k: int)
    requires
        b + 1 <= k < e,
        b + 1 <= best < i <= e,
        forall|j: int| b + 1 <= j < k ==> chord_area(s, b, e, j) < chord_area(s, b, e, k),
        forall|j: int| k < j < e ==> chord_area(s, b, e, j) <= chord_area(s, b, e, k),
        i <= k ==> best < k,
        i > k ==> best == k,
    ensures
        first_max_from(s, b, e, i, best) == k,
    decreases e - i,
{
    if i >= e {
    } else {
        assert(chord_area(s, b, e, i) == iabs(cross2(s[b], s[e], s[i])));
        assert(chord_area(s, b, e, best) == iabs(cross2(s[b], s[e], s[best])));
        assert(chord_area(s, b, e, k) == iabs(cross2(s[b], s[e], s[k])));
        if iabs(cross2(s[b], s[e], s[i])) > iabs(cross2(s[b], s[e], s[best])) {
            lemma_first_max_from_unique(s, b, e, i + 1, i, k);
        } else {
            lemma_first_max_from_unique(s, b, e, i + 1, best, k);
        }
    }
}

/// An interior index that strictly dominates everything before it and weakly
/// dominates everything after it is the index the scan picks.
pub proof fn lemma_first_max_unique(s: Seq<Point>, b: int, e: int, k: int)
    requires
        b + 2 <= e,
        b + 1 <= k < e,
        forall|j: int| b + 1 <= j < k ==> chord_area(s, b, e, j) < chord_area(s, b, e, k),
        forall|j: int| k < j < e ==> chord_area(s, b, e, j) <= chord_area(s, b, e, k),
    ensures
        first_max(s, b, e) == k,
{
    lemma_first_max_from_unique(s, b, e, b + 2, b + 1, k);
}

/// The interior points of the span `[b, e]` that simplification retains, in
/// ascending index order. The span's endpoints themselves are not included.
pub open spec fn simplified_interior(s: Seq<Point>, t: Tolerance, b: int, e: int) -> Seq<Point>
    decreases e - b,
{
    if e - b <= 1 {
        Seq::<Point>::empty()
    } else {
        let m = first_max(s, b, e);
        if dist_exceeds_tol(s[b], s[e], s[m], t) {
            proof {
                lemma_first_max_range(s, b, e);
            }
            simplified_interior(s, t, b, m) + seq![s[m]] + simplified_interior(s, t, m, e)
        } else {
            Seq::<Point>::empty()
        }
    }
}

/// The simplification of a whole polyline: its first point, the retained
/// interior points of the full span, and its last point. A one-point
/// polyline is returned unchanged, as that single point once.
pub open spec fn simplified_line(s: Seq<Point>, t: Tolerance) -> Seq<Point> {
    if s.len() <= 1 {
        s
    } else {
        seq![s[0]] + simplified_interior(s, t, 0, s.len() - 1) + seq![s[s.len() - 1]]
    }
}

/// Append to `dest` the retained interior points of the span `[begin, end]`
/// of `source`, in ascending index order.
pub fn simplify_points(
    source: &Vec<Point>,
    dest: &mut Vec<Point>,
    tolerance: Tolerance,
    begin: usize,
    end: usize,
)
    requires
        tolerance.wf(),
        polyline_ok(source@),
        begin < end,
        end < source@.len(),
    ensures
        final(dest)@ == old(dest)@ + simplified_interior(source@, tolerance, begin as int, end as int),
    decreases end - begin,
{
    if begin + 1 == end {
        assert(dest@ =~= old(dest)@ + simplified_interior(
            source@,
            tolerance,
            begin as int,
            end as int,
        ));
        return ;
    }
    let a = source[begin];
    let b = source[end];
    let mut max_index: usize = begin + 1;
    let mut max_area: u128 = cross_abs(a, b, source[begin + 1]);
    let mut i: usize = begin + 2;
    while i < end
        invariant
            tolerance.wf(),
            polyline_ok(source@),
            begin < end,
            end < source@.len(),
            a == source@[begin as int],
            b == source@[end as int],
            begin + 2 <= i <= end,
            begin + 1 <= max_index < i,
            max_area as int == iabs(cross2(a, b, source@[max_index as int])),
            first_max(source@, begin as int, end as int) == first_max_from(
                source@,
                begin as int,
                end as int,
                i as int,
                max_index as int,
            ),
        decreases end - i,
    {
        let c = cross_abs(a, b, source[i]);
        if c > max_area {
            max_index = i;
            max_area = c;
        }
        i += 1;
    }
    proof {
        assert(first_max(source@, begin as int, end as int) == max_index as int);
        lemma_geometry_bounds(a, b, source@[max_index as int]);
    }
    let l = seg_len2(a, b);
    let retain = area_exceeds_tol(max_area, l, tolerance);
    let ghost interior = simplified_interior(source@, tolerance, begin as int, end as int);
    if retain {
        assert(interior == simplified_interior(source@, tolerance, begin as int, max_index as int)
            + seq![source@[max_index as int]] + simplified_interior(
            source@,
            tolerance,
            max_index as int,
            end as int,
        ));
        let ghost dest0 = dest@;
        simplify_points(source, dest, tolerance, begin, max_index);
        dest.push(source[max_index]);
        simplify_points(source, dest, tolerance, max_index, end);
        assert(dest@ =~= dest0 + interior);
    } else {
        assert(interior =~= Seq::<Point>::empty());
        assert(dest@ =~= old(dest)@ + interior);
    }
}

/// Simplify one non-empty polyline: its first point, the retained interior
/// points, and its last point, in order.
pub fn simplify_nonempty(points: &Vec<Point>, tolerance: Tolerance) -> (r: Vec<Point>)
    requires
        tolerance.wf(),
        polyline_ok(points@),
        points@.len() >= 1,
    ensures
        r@ == simplified_line(points@, tolerance),
{
    let n = points.len();
    let mut out: Vec<Point> = Vec::new();
    out.push(points[0]);
    if n == 1 {
        assert(out@ =~= simplified_line(points@, tolerance));
        return out;
    }
    simplify_points(points, &mut out, tolerance, 0, n - 1);
    out.push(points[n - 1]);
    assert(out@ =~= simplified_line(points@, tolerance));
    out
}

/// Simplify one polyline, rejecting an empty input explicitly.
pub fn simplify_polyline(points: &Vec<Point>, tolerance: Tolerance) -> (r: Result<
    Vec<Point>,
    SimplifyError,
>)
    requires
        tolerance.wf(),
        polyline_ok(points@),
    ensures
        r is Ok <==> points@.len() >= 1,
        r matches Ok(v) ==> v@ == simplified_line(points@, tolerance),
        r matches Err(e) ==> e == SimplifyError::InvalidInput,
{
    if points.len() == 0 {
        Err(SimplifyError::InvalidInput)
    } else {
        Ok(simplify_nonempty(points, tolerance))
    }
}

/// The retained interior of a span never holds more points than the span's
/// own interior.
pub proof fn lemma_interior_len(s: Seq<Point>, t: Tolerance, b: int, e: int)
    requires
        b < e,
    ensures
        simplified_interior(s, t, b, e).len() <= e - b - 1,
    decreases e - b,
{
    if e - b <= 1 {
    } else {
        lemma_first_max_range(s, b, e);
        let m = first_max(s, b, e);
        if dist_exceeds_tol(s[b], s[e], s[m], t) {
            lemma_interior_len(s, t, b, m);
            lemma_interior_len(s, t, m, e);
        }
    }
}

/// The first and last point of a non-empty polyline are present, unchanged,
/// at the first and last position of its simplification; the output is never
/// longer than the input; and an input of two or more points keeps at least
/// its two endpoints.
pub proof fn lemma_endpoints_and_len(s: Seq<Point>, t: Tolerance)
    requires
        s.len() >= 1,
    ensures
        1 <= simplified_line(s, t).len() <= s.len(),
        s.len() >= 2 ==> simplified_line(s, t).len() >= 2,
        simplified_line(s, t)[0] == s[0],
        simplified_line(s, t).last() == s[s.len() - 1],
{
    if s.len() >= 2 {
        lemma_interior_len(s, t, 0, s.len() - 1);
    }
}

/// The point p is one of the interior points of the span `[b, e]` of s.
pub open spec fn point_of_span(s: Seq<Point>, b: int, e: int, p: Point) -> bool {
    exists|i: int| b < i < e && p == s[i]
}

/// Every retained interior point of a span comes from that span's interior.
pub proof fn lemma_interior_membership(s: Seq<Point>, t: Tolerance, b: int, e: int)
    requires
        b < e,
    ensures
        forall|j: int|
            0 <= j < simplified_interior(s, t, b, e).len() ==> point_of_span(
                s,
                b,
                e,
                #[trigger] simplified_interior(s, t, b, e)[j],
            ),
    decreases e - b,
{
    if e - b <= 1 {
    } else {
        lemma_first_max_range(s, b, e);
        let m = first_max(s, b, e);
        if dist_exceeds_tol(s[b], s[e], s[m], t) {
            lemma_interior_membership(s, t, b, m);
            lemma_interior_membership(s, t, m, e);
            let il = simplified_interior(s, t, b, m);
            let ir = simplified_interior(s, t, m, e);
            let whole = simplified_interior(s, t, b, e);
            assert(whole == il + seq![s[m]] + ir);
            assert forall|j: int| 0 <= j < whole.len() implies point_of_span(
                s,
                b,
                e,
                #[trigger] whole[j],
            ) by {
                if j < il.len() {
                    assert(whole[j] == il[j]);
                    let i = choose|i: int| b < i < m && il[j] == s[i];
                    assert(b < i < e && whole[j] == s[i]);
                } else if j == il.len() {
                    assert(whole[j] == s[m]);
                    assert(b < m < e && whole[j] == s[m]);
                } else {
                    assert(whole[j] == ir[j - il.len() - 1]);
                    let i = choose|i: int| m < i < e && ir[j - il.len() - 1] == s[i];
                    assert(b < i < e && whole[j] == s[i]);
                }
            }
        }
    }
}

proof fn lemma_first_max_from_shift(
    s1: Seq<Point>,
    s2: Seq<Point>,
    b1: int,
    b2: int,
    n: int,
    d: int,
    dbest: int,
)
    requires
        forall|o: int| 0 <= o <= n ==> s1[b1 + o] == s2[#[trigger] (b2 + o)],
        1 <= dbest < n,
        1 <= d <= n,
    ensures
        first_max_from(s1, b1, b1 + n, b1 + d, b1 + dbest) - b1 == first_max_from(
            s2,
            b2,
            b2 + n,
            b2 + d,
            b2 + dbest,
        ) - b2,
    decreases n - d,
{
    assert(s1[b1] == s2[b2 + 0]);
    assert(s1[b1 + n] == s2[b2 + n]);
    assert(s1[b1 + d] == s2[b2 + d]);
    assert(s1[b1 + dbest] == s2[b2 + dbest]);
    if d >= n {
    } else if iabs(cross2(s1[b1], s1[b1 + n], s1[b1 + d])) > iabs(
        cross2(s1[b1], s1[b1 + n], s1[b1 + dbest]),
    ) {
        lemma_first_max_from_shift(s1, s2, b1, b2, n, d + 1, d);
    } else {
        lemma_first_max_from_shift(s1, s2, b1, b2, n, d + 1, dbest);
    }
}

/// The retained interior of a span depends only on the points of the span:
/// two sequences that agree on a span, offset for offset, retain the same
/// interior points there.
pub proof fn lemma_interior_shift(
    s1: Seq<Point>,
    s2: Seq<Point>,
    t: Tolerance,
    b1: int,
    b2: int,
    n: int,
)
    requires
        n >= 1,
        forall|o: int| 0 <= o <= n ==> s1[b1 + o] == s2[#[trigger] (b2 + o)],
    ensures
        simplified_interior(s1, t, b1, b1 + n) == simplified_interior(s2, t, b2, b2 + n),
    decreases n,
{
    if n == 1 {
    } else {
        lemma_first_max_from_shift(s1, s2, b1, b2, n, 2, 1);
        lemma_first_max_range(s1, b1, b1 + n);
        lemma_first_max_range(s2, b2, b2 + n);
        let m1 = first_max(s1, b1, b1 + n);
        let m2 = first_max(s2, b2, b2 + n);
        let dm = m1 - b1;
        assert(m2 == b2 + dm);
        assert(s1[b1] == s2[b2 + 0]);
        assert(s1[b1 + n] == s2[b2 + n]);
        assert(s1[m1] == s2[b2 + dm]);
        if dist_exceeds_tol(s1[b1], s1[b1 + n], s1[m1], t) {
            assert(forall|o: int| 0 <= o <= dm ==> s1[b1 + o] == s2[#[trigger] (b2 + o)]);
            lemma_interior_shift(s1, s2, t, b1, b2, dm);
            assert forall|o: int| 0 <= o <= n - dm implies s1[m1 + o] == s2[
                #[trigger] (m2 + o)
            ] by {
                assert(m1 + o == b1 + (dm + o));
                assert(s1[b1 + (dm + o)] == s2[b2 + (dm + o)]);
                assert(m2 + o == b2 + (dm + o));
            }
            lemma_interior_shift(s1, s2, t, m1, m2, n - dm);
            assert(simplified_interior(s1, t, b1, b1 + n) == simplified_interior(s1, t, b1, m1)
                + seq![s1[m1]] + simplified_interior(s1, t, m1, b1 + n));
            assert(simplified_interior(s2, t, b2, b2 + n) == simplified_interior(s2, t, b2, m2)
                + seq![s2[m2]] + simplified_interior(s2, t, m2, b2 + n));
        } else {
            assert(!dist_exceeds_tol(s2[b2], s2[b2 + n], s2[m2], t));
        }
    }
}

/// A distance that exceeds the larger of two tolerances exceeds the smaller
/// one as well.
proof fn lemma_exceeds_monotonic(area: int, l: int, t1: Tolerance, t2: Tolerance)
    requires
        t1.wf(),
        t2.wf(),
        t1.le(t2),
        area >= 0,
        exceeds_spec(area, l, t2),
    ensures
        exceeds_spec(area, l, t1),
{
    let a2 = area * area;
    let n1 = t1.num as int;
    let d1 = t1.den as int;
    let n2 = t2.num as int;
    let d2 = t2.den as int;
    assert((n1 * n1) * (d2 * d2) <= (n2 * n2) * (d1 * d1)) by (nonlinear_arith)
        requires
            0 <= n1,
            0 <= n2,
            1 <= d1,
            1 <= d2,
            n1 * d2 <= n2 * d1,
    ;
    assert((a2 * (d2 * d2)) * (d1 * d1) > ((n2 * n2) * l) * (d1 * d1)) by (nonlinear_arith)
        requires
            a2 * (d2 * d2) > (n2 * n2) * l,
            1 <= d1,
    ;
    assert(((n2 * n2) * l) * (d1 * d1) >= ((n1 * n1) * l) * (d2 * d2)) by (nonlinear_arith)
        requires
            (n1 * n1) * (d2 * d2) <= (n2 * n2) * (d1 * d1),
            l >= 0,
    ;
    assert(a2 * (d1 * d1) > (n1 * n1) * l) by (nonlinear_arith)
        requires
            (a2 * (d2 * d2)) * (d1 * d1) > ((n1 * n1) * l) * (d2 * d2),
            1 <= d2,
    ;
}

/// Raising the tolerance never retains more interior points of a span.
pub proof fn lemma_interior_monotonic(s: Seq<Point>, t1: Tolerance, t2: Tolerance, b: int, e: int)
    requires
        t1.wf(),
        t2.wf(),
        t1.le(t2),
        b < e,
    ensures
        simplified_interior(s, t2, b, e).len() <= simplified_interior(s, t1, b, e).len(),
    decreases e - b,
{
    if e - b <= 1 {
    } else {
        lemma_first_max_range(s, b, e);
        let m = first_max(s, b, e);
        if dist_exceeds_tol(s[b], s[e], s[m], t2) {
            lemma_exceeds_monotonic(iabs(cross2(s[b], s[e], s[m])), len2(s[b], s[e]), t1, t2);
            lemma_interior_monotonic(s, t1, t2, b, m);
            lemma_interior_monotonic(s, t1, t2, m, e);
        }
    }
}

/// Monotonicity in the tolerance: simplifying with a larger tolerance never
/// yields a longer output than simplifying with a smaller one.
pub proof fn lemma_tolerance_monotonic(s: Seq<Point>, t1: Tolerance, t2: Tolerance)
    requires
        t1.wf(),
        t2.wf(),
        t1.le(t2),
    ensures
        simplified_line(s, t2).len() <= simplified_line(s, t1).len(),
{
    if s.len() >= 2 {
        lemma_interior_monotonic(s, t1, t2, 0, s.len() - 1);
    }
}

/// Re-simplifying the points a span retained (endpoints included) retains
/// all of them again: the retained interior of the retained polyline over
/// its full range is the retained interior of the original span.
pub proof fn lemma_idem_span(s: Seq<Point>, t: Tolerance, b: int, e: int)
    requires
        b < e,
    ensures
        ({
            let r = seq![s[b]] + simplified_interior(s, t, b, e) + seq![s[e]];
            simplified_interior(r, t, 0, r.len() - 1) == simplified_interior(s, t, b, e)
        }),
    decreases e - b,
{
    let inner = simplified_interior(s, t, b, e);
    let r = seq![s[b]] + inner + seq![s[e]];
    let n = r.len() as int;
    let last = n - 1;
    assert(r[0] == s[b]);
    assert(r[last] == s[e]);
    if e - b <= 1 || !dist_exceeds_tol(s[b], s[e], s[first_max(s, b, e)], t) {
        assert(inner =~= Seq::<Point>::empty());
        assert(n == 2);
        assert(simplified_interior(r, t, 0, n - 1) == inner);
    } else {
        lemma_first_max_range(s, b, e);
        lemma_first_max_max(s, b, e);
        let m = first_max(s, b, e);
        let il = simplified_interior(s, t, b, m);
        let ir = simplified_interior(s, t, m, e);
        assert(inner == il + seq![s[m]] + ir);
        lemma_interior_membership(s, t, b, m);
        lemma_interior_membership(s, t, m, e);
        let k = il.len() + 1;
        let rl = seq![s[b]] + il + seq![s[m]];
        let rr = seq![s[m]] + ir + seq![s[e]];
        assert(r =~= rl + (ir + seq![s[e]]));
        assert(r =~= (seq![s[b]] + il) + rr);
        assert(r[k as int] == s[m]);
        assert forall|j: int| 0 < j < k implies chord_area(r, 0, last, j) < chord_area(
            r,
            0,
            last,
            k as int,
        ) by {
            assert(r[j] == il[j - 1]);
            assert(point_of_span(s, b, m, il[j - 1]));
            let i = choose|i: int| b < i < m && il[j - 1] == s[i];
            assert(chord_area(s, b, e, i) < chord_area(s, b, e, m));
            assert(chord_area(r, 0, last, j) == chord_area(s, b, e, i));
            assert(chord_area(r, 0, last, k as int) == chord_area(s, b, e, m));
        }
        assert forall|j: int| k < j < last implies chord_area(r, 0, last, j) <= chord_area(
            r,
            0,
            last,
            k as int,
        ) by {
            assert(r[j] == ir[j - k - 1]);
            assert(point_of_span(s, m, e, ir[j - k - 1]));
            let i = choose|i: int| m < i < e && ir[j - k - 1] == s[i];
            assert(chord_area(s, b, e, i) <= chord_area(s, b, e, m));
            assert(chord_area(r, 0, last, j) == chord_area(s, b, e, i));
            assert(chord_area(r, 0, last, k as int) == chord_area(s, b, e, m));
        }
        lemma_first_max_unique(r, 0, last, k as int);
        assert(first_max(r, 0, last) == k as int);
        assert(dist_exceeds_tol(r[0], r[last], r[k as int], t));
        assert(simplified_interior(r, t, 0, last) == simplified_interior(r, t, 0, k as int)
            + seq![r[k as int]] + simplified_interior(r, t, k as int, last));
        assert forall|o: int| 0 <= o <= k implies r[0 + o] == rl[#[trigger] (0 + o)] by {
            assert(r[o] == (rl + (ir + seq![s[e]]))[o]);
        }
        lemma_interior_shift(r, rl, t, 0, 0, k as int);
        lemma_idem_span(s, t, b, m);
        assert(simplified_interior(r, t, 0, k as int) == il);
        assert forall|o: int| 0 <= o <= last - k implies r[k + o] == rr[#[trigger] (0 + o)] by {
            assert(r[k + o] == ((seq![s[b]] + il) + rr)[k + o]);
        }
        lemma_interior_shift(r, rr, t, k as int, 0, last - k);
        lemma_idem_span(s, t, m, e);
        assert(simplified_interior(r, t, k as int, last) == ir);
        assert(simplified_interior(r, t, 0, last) == inner);
    }
}

/// Idempotence: simplifying an already-simplified polyline with the same
/// tolerance returns it unchanged.
pub proof fn lemma_idempotent(s: Seq<Point>, t: Tolerance)
    ensures
        simplified_line(simplified_line(s, t), t) == simplified_line(s, t),
{
    let r = simplified_line(s, t);
    if s.len() <= 1 {
    } else {
        lemma_idem_span(s, t, 0, s.len() - 1);
        assert(r.len() == simplified_interior(s, t, 0, s.len() - 1).len() + 2);
        assert(r[0] == s[0]);
        assert(r[r.len() - 1] == s[s.len() - 1]);
        assert(simplified_line(r, t) =~= r);
    }
}

/// A polyline of exactly two points is returned unchanged, whatever the
/// tolerance: there is no interior point to test.
pub proof fn lemma_two_points(s: Seq<Point>, t: Tolerance)
    requires
        s.len() == 2,
    ensures
        simplified_line(s, t) == s,
{
    assert(simplified_line(s, t) =~= s);
}

} // verus!
