//! Polygons: an outer loop of points plus optional hole loops.
//!
//! A loop is implicitly closed; its edges are the closing edge (last point
//! back to first) followed by each consecutive pair.  A polygon's edges for
//! occlusion purposes are the outer loop's edges followed by every hole
//! loop's edges, in order.

use vstd::prelude::*;

use crate::geom::Point;
use crate::line_segment::LineSegment;

verus! {

/// An ordered, implicitly closed loop of points.
#[derive(Clone, Debug)]
pub struct PointLoop(pub Vec<Point>);

/// A polygon: one outer loop plus zero or more holes.  Hole loops are
/// expected (by the occlusion algorithm's caller) to wind opposite to the
/// outer loop; the library does not check winding at runtime.
#[derive(Clone, Debug)]
pub struct Polygon {
    /// The outline of the polygon.
    pub points: PointLoop,
    /// Loops cut out of the polygon.
    pub holes: Vec<PointLoop>,
}

/// The edges of one implicitly closed loop, all with pen `pen`: the closing
/// edge first, then each consecutive pair.  A loop of fewer than two points
/// has no edges.
pub open spec fn loop_edges(ps: Seq<Point>, pen: usize) -> Seq<LineSegment> {
    if ps.len() < 2 {
        Seq::empty()
    } else {
        seq![LineSegment { c1: ps[ps.len() - 1], c2: ps[0], pen }] + Seq::new(
            (ps.len() - 1) as nat,
            |i: int| LineSegment { c1: ps[i], c2: ps[i + 1], pen },
        )
    }
}

/// The edges contributed by a sequence of hole loops, in order.
pub open spec fn holes_edges(holes: Seq<PointLoop>, pen: usize) -> Seq<LineSegment>
    decreases holes.len(),
{
    if holes.len() == 0 {
        Seq::empty()
    } else {
        loop_edges(holes[0].0@, pen) + holes_edges(holes.drop_first(), pen)
    }
}

/// Appending one more hole loop appends its edges.
pub proof fn lemma_holes_edges_push(holes: Seq<PointLoop>, h: PointLoop, pen: usize)
    ensures
        holes_edges(holes.push(h), pen) =~= holes_edges(holes, pen) + loop_edges(h.0@, pen),
    decreases holes.len(),
{
    if holes.len() == 0 {
        assert(holes.push(h)[0] == h);
        assert(holes.push(h).drop_first() =~= Seq::<PointLoop>::empty());
        assert(holes_edges(holes.push(h).drop_first(), pen) =~= Seq::<LineSegment>::empty());
        assert(holes_edges(holes.push(h), pen) =~= loop_edges(h.0@, pen));
        assert(holes_edges(holes, pen) =~= Seq::<LineSegment>::empty());
    } else {
        assert(holes.push(h).drop_first() =~= holes.drop_first().push(h));
        lemma_holes_edges_push(holes.drop_first(), h, pen);
        assert(holes.push(h)[0] == holes[0]);
        assert(holes_edges(holes.push(h), pen) =~= loop_edges(holes[0].0@, pen) + (holes_edges(
            holes.drop_first(),
            pen,
        ) + loop_edges(h.0@, pen)));
    }
}

/// The edges of a whole polygon: outer loop first, then each hole in order.
pub open spec fn poly_edges(p: Polygon, pen: usize) -> Seq<LineSegment> {
    loop_edges(p.points.0@, pen) + holes_edges(p.holes@, pen)
}

/// Every point of the sequence lies within coordinate range.
pub open spec fn points_wf(ps: Seq<Point>) -> bool {
    forall|i: int| 0 <= i < ps.len() ==> (#[trigger] ps[i]).wf()
}

impl PointLoop {
    /// All points within coordinate range.
    pub open spec fn wf(self) -> bool {
        points_wf(self.0@)
    }

    /// The loop's edges with the default pen.
    pub fn line_segments(&self) -> (r: Vec<LineSegment>)
        ensures
            r@ == loop_edges(self.0@, 0),
    {
        self.line_segments_with_pen(0)
    }

    /// The loop's edges, each carrying the given pen.
    pub fn line_segments_with_pen(&self, pen: usize) -> (r: Vec<LineSegment>)
        ensures
            r@ == loop_edges(self.0@, pen),
    {
        let mut result: Vec<LineSegment> = Vec::new();
        let n: usize = self.0.len();
        if n < 2 {
            assert(result@ =~= loop_edges(self.0@, pen));
            return result;
        }
        result.push(LineSegment { c1: self.0[n - 1], c2: self.0[0], pen });
        for i in 0..n - 1
            invariant
                n == self.0.len(),
                2 <= n,
                result@.len() == 1 + i,
                result@[0] == (LineSegment { c1: self.0@[n - 1], c2: self.0@[0], pen }),
                forall|j: int|
                    0 <= j < i ==> #[trigger] result@[j + 1] == (LineSegment {
                        c1: self.0@[j],
                        c2: self.0@[j + 1],
                        pen,
                    }),
        {
            result.push(LineSegment { c1: self.0[i], c2: self.0[i + 1], pen });
        }
        assert(result@ =~= loop_edges(self.0@, pen));
        result
    }
}

impl Polygon {
    /// All loops within coordinate range.
    pub open spec fn wf(self) -> bool {
        &&& self.points.wf()
        &&& forall|i: int| 0 <= i < self.holes@.len() ==> (#[trigger] self.holes@[i]).wf()
    }

    /// A polygon with the given outline and no holes.
    pub fn new(points: Vec<Point>) -> (r: Polygon)
        ensures
            r.points.0 == points,
            r.holes@ =~= Seq::<PointLoop>::empty(),
    {
        Polygon { points: PointLoop(points), holes: Vec::new() }
    }

    /// A polygon built from coordinate pairs, with no holes.
    pub fn from_coords(coords: Vec<(i64, i64)>) -> (r: Polygon)
        ensures
            r.holes@ =~= Seq::<PointLoop>::empty(),
            r.points.0@.len() == coords@.len(),
            forall|i: int|
                0 <= i < coords@.len() ==> #[trigger] r.points.0@[i] == (Point {
                    x: coords@[i].0,
                    y: coords@[i].1,
                }),
    {
        let mut points: Vec<Point> = Vec::new();
        for i in 0..coords.len()
            invariant
                points@.len() == i,
                forall|j: int|
                    0 <= j < i ==> #[trigger] points@[j] == (Point {
                        x: coords@[j].0,
                        y: coords@[j].1,
                    }),
        {
            points.push(Point { x: coords[i].0, y: coords[i].1 });
        }
        Polygon { points: PointLoop(points), holes: Vec::new() }
    }

    /// A polygon with the given outline and holes.
    pub fn with_holes(points: Vec<Point>, holes: Vec<Vec<Point>>) -> (r: Polygon)
        ensures
            r.points.0 == points,
            r.holes@.len() == holes@.len(),
            forall|i: int| 0 <= i < holes@.len() ==> #[trigger] r.holes@[i].0@ == holes@[i]@,
    {
        let mut hole_loops: Vec<PointLoop> = Vec::new();
        for i in 0..holes.len()
            invariant
                hole_loops@.len() == i,
                forall|j: int| 0 <= j < i ==> #[trigger] hole_loops@[j].0@ == holes@[j]@,
        {
            hole_loops.push(PointLoop(holes[i].clone()));
        }
        Polygon { points: PointLoop(points), holes: hole_loops }
    }

    /// Every edge of the polygon (outer loop then holes), with pen `pen`.
    pub fn edges_with_pen(&self, pen: usize) -> (r: Vec<LineSegment>)
        ensures
            r@ == poly_edges(*self, pen),
    {
        let mut result: Vec<LineSegment> = self.points.line_segments_with_pen(pen);
        proof {
            assert(self.holes@.take(0) =~= Seq::<PointLoop>::empty());
        }
        for i in 0..self.holes.len()
            invariant
                result@ == loop_edges(self.points.0@, pen) + holes_edges(
                    self.holes@.take(i as int),
                    pen,
                ),
        {
            let mut hole_edges = self.holes[i].line_segments_with_pen(pen);
            result.append(&mut hole_edges);
            proof {
                lemma_holes_edges_push(self.holes@.take(i as int), self.holes@[i as int], pen);
                assert(self.holes@.take(i as int).push(self.holes@[i as int]) =~= self.holes@.take(
                    i + 1,
                ));
                assert(result@ =~= loop_edges(self.points.0@, pen) + holes_edges(
                    self.holes@.take(i + 1),
                    pen,
                ));
            }
        }
        proof {
            assert(self.holes@.take(self.holes@.len() as int) =~= self.holes@);
        }
        result
    }
}

/// Well-formed polygons have well-formed edges: every edge of
/// [`poly_edges`] joins two in-range points.
pub proof fn lemma_poly_edges_wf(p: Polygon, pen: usize)
    requires
        p.wf(),
    ensures
        forall|i: int| 0 <= i < poly_edges(p, pen).len() ==> (#[trigger] poly_edges(p, pen)[i]).wf(),
{
    lemma_loop_edges_wf(p.points.0@, pen);
    lemma_holes_edges_wf(p.holes@, pen);
}

/// Every edge contributed by a sequence of well-formed hole loops joins two
/// in-range points.
proof fn lemma_holes_edges_wf(holes: Seq<PointLoop>, pen: usize)
    requires
        forall|i: int| 0 <= i < holes.len() ==> (#[trigger] holes[i]).wf(),
    ensures
        forall|i: int|
            0 <= i < holes_edges(holes, pen).len() ==> (#[trigger] holes_edges(holes, pen)[i]).wf(),
    decreases holes.len(),
{
    if holes.len() > 0 {
        lemma_loop_edges_wf(holes[0].0@, pen);
        lemma_holes_edges_wf(holes.drop_first(), pen);
        let head = loop_edges(holes[0].0@, pen);
        let rest = holes_edges(holes.drop_first(), pen);
        assert forall|i: int| 0 <= i < holes_edges(holes, pen).len() implies (
        #[trigger] holes_edges(holes, pen)[i]).wf() by {
            if i < head.len() {
                assert(holes_edges(holes, pen)[i] == head[i]);
            } else {
                assert(holes_edges(holes, pen)[i] == rest[i - head.len()]);
            }
        }
    }
}

/// Every edge of a well-formed loop joins two in-range points.
pub proof fn lemma_loop_edges_wf(ps: Seq<Point>, pen: usize)
    requires
        points_wf(ps),
    ensures
        forall|i: int|
            0 <= i < loop_edges(ps, pen).len() ==> (#[trigger] loop_edges(ps, pen)[i]).wf(),
{
}

} // verus!
