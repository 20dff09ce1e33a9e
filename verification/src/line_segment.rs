//! Oriented line segments and the exact segment-intersection primitive.
//!
//! `intersect_segment` decides whether the infinite line through one segment
//! crosses the finite extent of another, and if so where, as an exact
//! rational fraction of the first segment's length, together with the
//! rotational sense of the crossing.  With bounded integer coordinates the
//! computation is exact: there are no tolerance thresholds and no unstable
//! divisions, and parallelism is decided by a cross product being exactly
//! zero.

use vstd::prelude::*;

use crate::frac::Frac;
use crate::frac::FRAC_BOUND;
use crate::frac::lemma_mul_bound;
use crate::geom::MAX_COORD;
use crate::geom::Point;
use crate::geom::Vector;
use crate::geom::XYFlip;

verus! {

/// A directed line segment between two points, drawn with a given pen.
#[derive(Clone, Copy, Debug, PartialEq, Eq, Structural)]
pub struct LineSegment {
    /// The first endpoint.
    pub c1: Point,
    /// The second endpoint.
    pub c2: Point,
    /// The pen that draws this segment.
    pub pen: usize,
}

/// Horizontal component of the segment's direction.
pub open spec fn dir_x(s: LineSegment) -> int {
    s.c2.x - s.c1.x
}

/// Vertical component of the segment's direction.
pub open spec fn dir_y(s: LineSegment) -> int {
    s.c2.y - s.c1.y
}

/// Cross product of the two segments' direction vectors.  Zero exactly when
/// the segments are parallel or one of them is degenerate.
pub open spec fn cross_dirs(a: LineSegment, b: LineSegment) -> int {
    dir_x(a) * dir_y(b) - dir_y(a) * dir_x(b)
}

/// Numerator of the crossing fraction along `a`: the cross product of the
/// displacement from `a.c1` to `b.c1` with `b`'s direction.
pub open spec fn frac_num_raw(a: LineSegment, b: LineSegment) -> int {
    (b.c1.x - a.c1.x) * dir_y(b) - (b.c1.y - a.c1.y) * dir_x(b)
}

/// Numerator of the crossing position along `b`: the cross product of the
/// displacement from `a.c1` to `b.c1` with `a`'s direction.
pub open spec fn other_num_raw(a: LineSegment, b: LineSegment) -> int {
    (b.c1.x - a.c1.x) * dir_y(a) - (b.c1.y - a.c1.y) * dir_x(a)
}

/// The crossing point of the two infinite lines falls within `b`'s finite
/// extent (inclusive of its endpoints), and the lines do cross at all.
pub open spec fn spec_has_crossing(a: LineSegment, b: LineSegment) -> bool {
    let c = cross_dirs(a, b);
    let u = other_num_raw(a, b);
    c != 0 && 0 <= u * c && u * c <= c * c
}

/// Numerator of the crossing fraction along `a`, normalized so the
/// denominator [`frac_den`] is positive.
pub open spec fn frac_num(a: LineSegment, b: LineSegment) -> int {
    if cross_dirs(a, b) > 0 {
        frac_num_raw(a, b)
    } else {
        -frac_num_raw(a, b)
    }
}

/// Positive denominator of the crossing fraction along `a`.
pub open spec fn frac_den(a: LineSegment, b: LineSegment) -> int {
    if cross_dirs(a, b) > 0 {
        cross_dirs(a, b)
    } else {
        -cross_dirs(a, b)
    }
}

/// The rotational sense in which `b` crosses `a`: the sign of the cross
/// product of their directions.
pub open spec fn spec_direction(a: LineSegment, b: LineSegment) -> bool {
    cross_dirs(a, b) > 0
}

/// The segment with its endpoints exchanged.
pub open spec fn spec_rev(s: LineSegment) -> LineSegment {
    LineSegment { c1: s.c2, c2: s.c1, pen: s.pen }
}

impl LineSegment {
    /// Both endpoints within coordinate range.
    pub open spec fn wf(self) -> bool {
        self.c1.wf() && self.c2.wf()
    }

    /// Create a segment with the default pen.
    pub fn new(c1: Point, c2: Point) -> (r: LineSegment)
        ensures
            r == (LineSegment { c1, c2, pen: 0 }),
    {
        LineSegment { c1, c2, pen: 0 }
    }

    /// Create a segment with a given pen.
    pub fn new_with_pen(c1: Point, c2: Point, pen: usize) -> (r: LineSegment)
        ensures
            r == (LineSegment { c1, c2, pen }),
    {
        LineSegment { c1, c2, pen }
    }

    /// The segment traversed the opposite way.
    pub fn reverse(&self) -> (r: LineSegment)
        ensures
            r == spec_rev(*self),
    {
        LineSegment { c1: self.c2, c2: self.c1, pen: self.pen }
    }

    /// The displacement from the first endpoint to the second.
    pub fn vector(&self) -> (r: Vector)
        requires
            self.wf(),
        ensures
            r.x == dir_x(*self),
            r.y == dir_y(*self),
    {
        Vector { x: self.c2.x - self.c1.x, y: self.c2.y - self.c1.y }
    }

    /// Where the infinite line through `self` crosses the finite extent of
    /// `other`, if it does.
    ///
    /// Returns the crossing position as an exact fraction of `self`'s length
    /// (values below zero or above one mean the crossing lies beyond
    /// `self`'s own endpoints), plus the rotational sense of the crossing.
    /// Returns nothing when either segment is degenerate, when the segments
    /// are parallel, or when the crossing point of the two infinite lines
    /// falls outside `other`'s extent.
    pub fn intersect_segment(&self, other: &LineSegment) -> (r: Option<(Frac, bool)>)
        requires
            self.wf(),
            other.wf(),
        ensures
            r.is_some() == spec_has_crossing(*self, *other),
            match r {
                Some((f, direction)) => {
                    &&& f.wf()
                    &&& f.n == frac_num(*self, *other)
                    &&& f.d == frac_den(*self, *other)
                    &&& direction == spec_direction(*self, *other)
                },
                None => true,
            },
    {
        let (c, fnum, unum) = self.crossing_numbers(other);
        if c == 0 {
            return None;
        }
        proof {
            lemma_mul_bound(unum as int, c as int, FRAC_BOUND as int);
            lemma_mul_bound(c as int, c as int, FRAC_BOUND as int);
        }
        let uc: i128 = unum * c;
        let cc: i128 = c * c;
        if uc < 0 || uc > cc {
            return None;
        }
        if c > 0 {
            Some((Frac { n: fnum, d: c }, true))
        } else {
            Some((Frac { n: -fnum, d: -c }, false))
        }
    }

    /// Where the infinite lines through the two segments cross, relative to
    /// each segment's own extent: the fraction along `self` and the fraction
    /// along `other`.  Returns nothing when the segments are parallel or
    /// either is degenerate.
    pub fn intersect_lines(&self, other: &LineSegment) -> (r: Option<(Frac, Frac)>)
        requires
            self.wf(),
            other.wf(),
        ensures
            r.is_some() == (cross_dirs(*self, *other) != 0),
            match r {
                Some((f, u)) => {
                    &&& f.wf()
                    &&& u.wf()
                    &&& f.n == frac_num(*self, *other)
                    &&& f.d == frac_den(*self, *other)
                    &&& u.n == (if cross_dirs(*self, *other) > 0 {
                        other_num_raw(*self, *other)
                    } else {
                        -other_num_raw(*self, *other)
                    })
                    &&& u.d == frac_den(*self, *other)
                },
                None => true,
            },
    {
        let (c, fnum, unum) = self.crossing_numbers(other);
        if c == 0 {
            return None;
        }
        if c > 0 {
            Some((Frac { n: fnum, d: c }, Frac { n: unum, d: c }))
        } else {
            Some((Frac { n: -fnum, d: -c }, Frac { n: -unum, d: -c }))
        }
    }

    /// The three cross products the intersection formulas are built from.
    fn crossing_numbers(&self, other: &LineSegment) -> (r: (i128, i128, i128))
        requires
            self.wf(),
            other.wf(),
        ensures
            r.0 == cross_dirs(*self, *other),
            r.1 == frac_num_raw(*self, *other),
            r.2 == other_num_raw(*self, *other),
            -FRAC_BOUND <= r.0 <= FRAC_BOUND,
            -FRAC_BOUND <= r.1 <= FRAC_BOUND,
            -FRAC_BOUND <= r.2 <= FRAC_BOUND,
    {
        let d1x: i128 = self.c2.x as i128 - self.c1.x as i128;
        let d1y: i128 = self.c2.y as i128 - self.c1.y as i128;
        let d2x: i128 = other.c2.x as i128 - other.c1.x as i128;
        let d2y: i128 = other.c2.y as i128 - other.c1.y as i128;
        let qx: i128 = other.c1.x as i128 - self.c1.x as i128;
        let qy: i128 = other.c1.y as i128 - self.c1.y as i128;
        let c: i128 = cross_product(d1x, d1y, d2x, d2y);
        let fnum: i128 = cross_product(qx, qy, d2x, d2y);
        let unum: i128 = cross_product(qx, qy, d1x, d1y);
        (c, fnum, unum)
    }
}

/// Exact 2D cross product of two bounded vectors given by components.
fn cross_product(ax: i128, ay: i128, bx: i128, by: i128) -> (r: i128)
    requires
        -2 * MAX_COORD <= ax <= 2 * MAX_COORD,
        -2 * MAX_COORD <= ay <= 2 * MAX_COORD,
        -2 * MAX_COORD <= bx <= 2 * MAX_COORD,
        -2 * MAX_COORD <= by <= 2 * MAX_COORD,
    ensures
        r == ax * by - ay * bx,
        -FRAC_BOUND <= r <= FRAC_BOUND,
{
    proof {
        assert(-288230376151711744 <= ax * by <= 288230376151711744 && -288230376151711744
            <= ay * bx <= 288230376151711744) by (nonlinear_arith)
            requires
                -536870912 <= ax <= 536870912,
                -536870912 <= ay <= 536870912,
                -536870912 <= bx <= 536870912,
                -536870912 <= by <= 536870912,
        ;
    }
    ax * by - ay * bx
}

impl XYFlip for LineSegment {
    open spec fn spec_xy_flip(self) -> LineSegment {
        LineSegment { c1: self.c1.spec_xy_flip(), c2: self.c2.spec_xy_flip(), pen: self.pen }
    }

    fn xy_flip(&self) -> (r: LineSegment) {
        LineSegment { c1: self.c1.xy_flip(), c2: self.c2.xy_flip(), pen: self.pen }
    }
}

/// Bilinearity of the cross product in its first argument.
proof fn lemma_cross_add(ax: int, ay: int, bx: int, by: int, cx: int, cy: int)
    ensures
        (ax + bx) * cy - (ay + by) * cx == (ax * cy - ay * cx) + (bx * cy - by * cx),
{
    assert((ax + bx) * cy - (ay + by) * cx == (ax * cy - ay * cx) + (bx * cy - by * cx))
        by (nonlinear_arith);
}

/// Negating the second argument negates the cross product.
proof fn lemma_cross_neg(ax: int, ay: int, bx: int, by: int)
    ensures
        ax * (-by) - ay * (-bx) == -(ax * by - ay * bx),
{
    assert(ax * (-by) - ay * (-bx) == -(ax * by - ay * bx)) by (nonlinear_arith);
}

/// The cross product of a vector with itself is zero.
proof fn lemma_cross_self(ax: int, ay: int)
    ensures
        ax * ay - ay * ax == 0,
{
    assert(ax * ay - ay * ax == 0) by (nonlinear_arith);
}

/// Exchanging `other`'s endpoints leaves the crossing fraction along `self`
/// unchanged (even representation for representation) and flips the
/// direction flag; whether a crossing exists is unaffected.
pub proof fn lemma_intersect_reverse_other(a: LineSegment, b: LineSegment)
    ensures
        spec_has_crossing(a, spec_rev(b)) == spec_has_crossing(a, b),
        cross_dirs(a, b) != 0 ==> frac_num(a, spec_rev(b)) == frac_num(a, b),
        cross_dirs(a, b) != 0 ==> frac_den(a, spec_rev(b)) == frac_den(a, b),
        cross_dirs(a, b) != 0 ==> spec_direction(a, spec_rev(b)) == !spec_direction(a, b),
{
    let rb = spec_rev(b);
    let d1x = dir_x(a);
    let d1y = dir_y(a);
    let d2x = dir_x(b);
    let d2y = dir_y(b);
    let qx = b.c1.x - a.c1.x;
    let qy = b.c1.y - a.c1.y;
    let c = cross_dirs(a, b);
    // Direction of the reversed segment is the negated direction.
    assert(dir_x(rb) == -d2x && dir_y(rb) == -d2y);
    // cross(d1, -d2) == -cross(d1, d2)
    lemma_cross_neg(d1x, d1y, d2x, d2y);
    assert(cross_dirs(a, rb) == -c);
    // The displacement to the reversed segment's start is q + d2.
    assert(rb.c1.x - a.c1.x == qx + d2x && rb.c1.y - a.c1.y == qy + d2y);
    // cross(q + d2, -d2) == -cross(q + d2, d2) == -(cross(q, d2) + cross(d2, d2))
    lemma_cross_neg(qx + d2x, qy + d2y, d2x, d2y);
    lemma_cross_add(qx, qy, d2x, d2y, d2x, d2y);
    lemma_cross_self(d2x, d2y);
    assert(frac_num_raw(a, rb) == -frac_num_raw(a, b));
    // cross(q + d2, d1) along a's direction: unum' == unum - c.
    lemma_cross_add(qx, qy, d2x, d2y, d1x, d1y);
    assert(other_num_raw(a, rb) == other_num_raw(a, b) + (d2x * d1y - d2y * d1x));
    assert(d2x * d1y - d2y * d1x == -c) by (nonlinear_arith)
        requires
            c == d1x * d2y - d1y * d2x,
    ;
    let u = other_num_raw(a, b);
    let ur = other_num_raw(a, rb);
    assert(ur == u - c);
    // The in-extent test is preserved: (u - c) * (-c) == c*c - u*c.
    assert((u - c) * (-c) == c * c - u * c) by (nonlinear_arith);
    assert((-c) * (-c) == c * c) by (nonlinear_arith);
    assert(spec_has_crossing(a, rb) == spec_has_crossing(a, b));
}

/// Exchanging `self`'s endpoints maps the crossing fraction `f` to `1 - f`
/// (exactly: same denominator, numerator becomes denominator minus
/// numerator) and flips the direction flag; whether a crossing exists is
/// unaffected.
pub proof fn lemma_intersect_reverse_self(a: LineSegment, b: LineSegment)
    ensures
        spec_has_crossing(spec_rev(a), b) == spec_has_crossing(a, b),
        cross_dirs(a, b) != 0 ==> frac_num(spec_rev(a), b) == frac_den(a, b) - frac_num(a, b),
        cross_dirs(a, b) != 0 ==> frac_den(spec_rev(a), b) == frac_den(a, b),
        cross_dirs(a, b) != 0 ==> spec_direction(spec_rev(a), b) == !spec_direction(a, b),
{
    let ra = spec_rev(a);
    let d1x = dir_x(a);
    let d1y = dir_y(a);
    let d2x = dir_x(b);
    let d2y = dir_y(b);
    let qx = b.c1.x - a.c1.x;
    let qy = b.c1.y - a.c1.y;
    let c = cross_dirs(a, b);
    assert(dir_x(ra) == -d1x && dir_y(ra) == -d1y);
    // cross(-d1, d2) == -cross(d1, d2): negation in the first argument.
    assert(cross_dirs(ra, b) == -c) by (nonlinear_arith)
        requires
            c == d1x * d2y - d1y * d2x,
            cross_dirs(ra, b) == (-d1x) * d2y - (-d1y) * d2x,
    ;
    // The displacement from the reversed start is q - d1.
    assert(b.c1.x - ra.c1.x == qx - d1x && b.c1.y - ra.c1.y == qy - d1y);
    // cross(q - d1, d2) == cross(q, d2) - cross(d1, d2) == fnum - c.
    let fr = frac_num_raw(ra, b);
    assert(fr == frac_num_raw(a, b) - c) by (nonlinear_arith)
        requires
            fr == (qx - d1x) * d2y - (qy - d1y) * d2x,
            frac_num_raw(a, b) == qx * d2y - qy * d2x,
            c == d1x * d2y - d1y * d2x,
    ;
    // cross(q - d1, -d1) == -cross(q, d1) + cross(d1, d1) == -unum.
    let ur = other_num_raw(ra, b);
    let u = other_num_raw(a, b);
    assert(ur == -u) by (nonlinear_arith)
        requires
            ur == (qx - d1x) * (-d1y) - (qy - d1y) * (-d1x),
            u == qx * d1y - qy * d1x,
    ;
    assert((-u) * (-c) == u * c) by (nonlinear_arith);
    assert((-c) * (-c) == c * c) by (nonlinear_arith);
    assert(spec_has_crossing(ra, b) == spec_has_crossing(a, b));
}

/// Parallel segments (and degenerate ones, whose direction is the zero
/// vector) never intersect: the crossing test is false whenever the cross
/// product of the direction vectors is zero, wherever the segments lie.
pub proof fn lemma_parallel_no_intersection(a: LineSegment, b: LineSegment)
    requires
        cross_dirs(a, b) == 0,
    ensures
        !spec_has_crossing(a, b),
{
}

} // verus!

use crate::geom::Translate;

verus! {

impl Translate for LineSegment {
    open spec fn can_translate(self, dist: Vector) -> bool {
        self.c1.can_translate(dist) && self.c2.can_translate(dist)
    }

    open spec fn spec_translate(self, dist: Vector) -> LineSegment {
        LineSegment {
            c1: self.c1.spec_translate(dist),
            c2: self.c2.spec_translate(dist),
            pen: self.pen,
        }
    }

    fn translate(&self, dist: &Vector) -> (r: LineSegment) {
        LineSegment { c1: self.c1.translate(dist), c2: self.c2.translate(dist), pen: self.pen }
    }
}

} // verus!
