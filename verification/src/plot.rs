//! Plots: a drawing-order snapshot of a scene, grouped by pen, with a cost
//! model.
//!
//! Plot coordinates live on a fixed-point grid of `1 / SCALE` scene units,
//! so the cost model is exact: a distance is the integer square root
//! (rounded down) of the exact squared distance on that grid.

use vstd::prelude::*;

use crate::optimizer::greedy_optimize;
use crate::optimizer::spec_greedy;

verus! {

/// Fixed-point sub-steps per scene unit in plot coordinates.
pub const SCALE: i64 = 65536;

/// Largest magnitude of a well-formed plot coordinate
/// (`MAX_COORD * SCALE`).
pub const PLOT_BOUND: i64 = 268435456 * 65536;

/// Largest value [`distance`] can return for well-formed points
/// (`2^46`, above `2 * PLOT_BOUND * sqrt(2)`).
pub const DIST_BOUND: u64 = 70368744177664;

/// A position on the plot's fixed-point grid.
#[derive(Clone, Copy, Debug, PartialEq, Eq, Structural)]
pub struct PlotPoint {
    /// Horizontal coordinate, in grid steps.
    pub x: i64,
    /// Vertical coordinate, in grid steps.
    pub y: i64,
}

impl PlotPoint {
    /// Coordinates within the plot's working range.
    pub open spec fn wf(self) -> bool {
        -PLOT_BOUND <= self.x <= PLOT_BOUND && -PLOT_BOUND <= self.y <= PLOT_BOUND
    }

    /// Build a plot point from grid coordinates.
    pub fn new(x: i64, y: i64) -> (r: PlotPoint)
        ensures
            r.x == x,
            r.y == y,
    {
        PlotPoint { x, y }
    }

    /// The plot point for a whole number of scene units.
    pub fn from_units(x: i64, y: i64) -> (r: PlotPoint)
        requires
            -268435456 <= x <= 268435456,
            -268435456 <= y <= 268435456,
        ensures
            r.x == x * SCALE,
            r.y == y * SCALE,
            r.wf(),
    {
        PlotPoint { x: x * SCALE, y: y * SCALE }
    }
}

/// One stroke of a plot, on the fixed-point grid.
#[derive(Clone, Copy, Debug, PartialEq, Eq, Structural)]
pub struct PlotSegment {
    /// The stroke's start point.
    pub c1: PlotPoint,
    /// The stroke's end point.
    pub c2: PlotPoint,
}

impl PlotSegment {
    /// Both endpoints within range.
    pub open spec fn wf(self) -> bool {
        self.c1.wf() && self.c2.wf()
    }
}

/// The exact squared Euclidean distance between two plot points.
pub open spec fn sq_dist(p: PlotPoint, q: PlotPoint) -> int {
    (p.x - q.x) * (p.x - q.x) + (p.y - q.y) * (p.y - q.y)
}

/// The integer square root, rounded down.
pub open spec fn sqrt_floor(v: nat) -> nat
    decreases v,
{
    if v == 0 {
        0
    } else {
        let p = sqrt_floor((v - 1) as nat);
        if (p + 1) * (p + 1) <= v {
            p + 1
        } else {
            p
        }
    }
}

/// [`sqrt_floor`] is the rounded-down square root: its square is at most
/// `v`, and the next square exceeds `v`.
pub proof fn lemma_sqrt_floor_bounds(v: nat)
    ensures
        sqrt_floor(v) * sqrt_floor(v) <= v,
        v < (sqrt_floor(v) + 1) * (sqrt_floor(v) + 1),
    decreases v,
{
    let s = sqrt_floor(v);
    if v == 0 {
        assert(s == 0);
        assert(s * s <= v && v < (s + 1) * (s + 1)) by (nonlinear_arith)
            requires
                s == 0,
                v == 0,
        ;
    } else {
        lemma_sqrt_floor_bounds((v - 1) as nat);
        let p = sqrt_floor((v - 1) as nat);
        assert(s == if (p + 1) * (p + 1) <= v {
            p + 1
        } else {
            p
        });
        if (p + 1) * (p + 1) <= v {
            assert(s * s <= v && v < (s + 1) * (s + 1)) by (nonlinear_arith)
                requires
                    s == p + 1,
                    (p + 1) * (p + 1) <= v,
                    (v - 1) < (p + 1) * (p + 1),
                    0 <= p,
            ;
        } else {
            assert(s * s <= v && v < (s + 1) * (s + 1)) by (nonlinear_arith)
                requires
                    s == p,
                    !((p + 1) * (p + 1) <= v),
                    p * p <= v - 1,
                    0 <= p,
                    1 <= v,
            ;
        }
    }
}

/// Any value whose square brackets `v` is the rounded-down square root.
pub proof fn lemma_sqrt_floor_unique(v: nat, r: nat)
    requires
        r * r <= v,
        v < (r + 1) * (r + 1),
    ensures
        r == sqrt_floor(v),
{
    lemma_sqrt_floor_bounds(v);
    let s = sqrt_floor(v);
    if r < s {
        assert(false) by (nonlinear_arith)
            requires
                r < s,
                s * s <= v,
                v < (r + 1) * (r + 1),
                0 <= r,
                0 <= s,
        ;
    }
    if s < r {
        assert(false) by (nonlinear_arith)
            requires
                s < r,
                r * r <= v,
                v < (s + 1) * (s + 1),
                0 <= r,
                0 <= s,
        ;
    }
}

/// The distance between two plot points: the rounded-down square root of
/// the exact squared distance.
pub open spec fn dist(p: PlotPoint, q: PlotPoint) -> int {
    sqrt_floor(sq_dist(p, q) as nat) as int
}

/// Integer square root of a value below `2^94`, rounded down.
pub fn isqrt(v: u128) -> (r: u64)
    requires
        v < 19807040628566084398385987584,
    ensures
        r == sqrt_floor(v as nat),
        r < 140737488355328,
{
    let mut lo: u128 = 0;
    let mut hi: u128 = 140737488355328;
    proof {
        assert(140737488355328 * 140737488355328 == 19807040628566084398385987584int)
            by (nonlinear_arith);
    }
    while hi - lo > 1
        invariant
            lo * lo <= v,
            v < hi * hi,
            lo < hi <= 140737488355328,
        decreases hi - lo,
    {
        let mid: u128 = lo + (hi - lo) / 2;
        proof {
            assert(mid * mid <= 19807040628566084398385987584int) by (nonlinear_arith)
                requires
                    0 <= mid <= 140737488355328,
            ;
        }
        if mid * mid <= v {
            lo = mid;
        } else {
            hi = mid;
        }
    }
    proof {
        assert(hi == lo + 1);
        lemma_sqrt_floor_unique(v as nat, lo as nat);
    }
    lo as u64
}

/// The exact grid distance between two plot points.
pub fn distance(p: &PlotPoint, q: &PlotPoint) -> (r: u64)
    requires
        p.wf(),
        q.wf(),
    ensures
        r == dist(*p, *q),
        r <= DIST_BOUND,
{
    let dx: i128 = p.x as i128 - q.x as i128;
    let dy: i128 = p.y as i128 - q.y as i128;
    proof {
        assert(0 <= dx * dx <= 1237940039285380274899124224int && 0 <= dy * dy
            <= 1237940039285380274899124224int && 0 <= dx * dx + dy * dy
            < 4951760157141521099596496896int) by (nonlinear_arith)
            requires
                -35184372088832 <= dx <= 35184372088832,
                -35184372088832 <= dy <= 35184372088832,
        ;
    }
    let sq: u128 = (dx * dx + dy * dy) as u128;
    let r = isqrt(sq);
    proof {
        lemma_sqrt_floor_bounds(sq as nat);
        assert(r <= 70368744177664) by (nonlinear_arith)
            requires
                r * r <= sq,
                sq < 4951760157141521099596496896,
                0 <= r,
        ;
    }
    r
}

/// The drawn length of one plot stroke.
pub open spec fn seg_len(s: PlotSegment) -> int {
    dist(s.c1, s.c2)
}

/// Total drawn (pen-down) length of a run of strokes.
pub open spec fn spec_line_cost(lines: Seq<PlotSegment>) -> int
    decreases lines.len(),
{
    if lines.len() == 0 {
        0
    } else {
        spec_line_cost(lines.drop_last()) + seg_len(lines.last())
    }
}

/// Total pen-up travel of a run of strokes drawn in order from `cursor`,
/// including the final return to `origin`.
pub open spec fn spec_move_cost(lines: Seq<PlotSegment>, cursor: PlotPoint, origin: PlotPoint) -> int
    decreases lines.len(),
{
    if lines.len() == 0 {
        dist(cursor, origin)
    } else {
        (if lines[0].c1 != cursor {
            dist(cursor, lines[0].c1)
        } else {
            0
        }) + spec_move_cost(lines.drop_first(), lines[0].c2, origin)
    }
}

/// Number of pen-up repositionings in a run of strokes drawn in order from
/// `cursor` (the final return to the origin is not counted).
pub open spec fn spec_moves(lines: Seq<PlotSegment>, cursor: PlotPoint) -> int
    decreases lines.len(),
{
    if lines.len() == 0 {
        0
    } else {
        (if lines[0].c1 != cursor {
            1int
        } else {
            0int
        }) + spec_moves(lines.drop_first(), lines[0].c2)
    }
}

/// The cost of drawing a plot or one of its layers.
#[derive(Clone, Copy, Debug, PartialEq, Eq, Structural)]
pub struct PlotCost {
    /// Total pen-up travel distance, in grid steps.
    pub move_cost: u128,
    /// Total pen-down (drawn) distance, in grid steps.
    pub line_cost: u128,
    /// Number of strokes.
    pub segments: usize,
    /// Number of pen-up repositionings.
    pub moves: usize,
}

impl Default for PlotCost {
    /// The zero cost.
    fn default() -> (r: PlotCost)
        ensures
            r.move_cost == 0,
            r.line_cost == 0,
            r.segments == 0,
            r.moves == 0,
    {
        PlotCost { move_cost: 0, line_cost: 0, segments: 0, moves: 0 }
    }
}

impl PlotCost {
    /// The sum of two costs, field by field.
    pub fn add(&self, other: &PlotCost) -> (r: PlotCost)
        requires
            self.move_cost + other.move_cost <= u128::MAX,
            self.line_cost + other.line_cost <= u128::MAX,
            self.segments + other.segments <= usize::MAX,
            self.moves + other.moves <= usize::MAX,
        ensures
            r.move_cost == self.move_cost + other.move_cost,
            r.line_cost == self.line_cost + other.line_cost,
            r.segments == self.segments + other.segments,
            r.moves == self.moves + other.moves,
    {
        PlotCost {
            move_cost: self.move_cost + other.move_cost,
            line_cost: self.line_cost + other.line_cost,
            segments: self.segments + other.segments,
            moves: self.moves + other.moves,
        }
    }
}

/// The drawing commands for a single pen, in drawing order.
#[derive(Clone, Debug)]
pub struct Layer {
    /// The strokes of this layer, in drawing order.
    pub lines: Vec<PlotSegment>,
    /// The pen that draws this layer.
    pub pen: usize,
}

impl Layer {
    /// Every stroke within range.
    pub open spec fn wf(self) -> bool {
        forall|i: int| 0 <= i < self.lines@.len() ==> (#[trigger] self.lines@[i]).wf()
    }

    /// An empty layer for the given pen.
    pub fn new(pen: usize) -> (r: Layer)
        ensures
            r.lines@ =~= Seq::<PlotSegment>::empty(),
            r.pen == pen,
            r.wf(),
    {
        Layer { lines: Vec::new(), pen }
    }

    /// The cost of drawing this layer, starting and ending at `origin`:
    /// walk the strokes in order; each start that differs from the current
    /// position costs a pen-up move; every stroke costs its own length;
    /// finally the pen returns to the origin.
    pub fn cost(&self, origin: PlotPoint) -> (r: PlotCost)
        requires
            self.wf(),
            origin.wf(),
        ensures
            r.move_cost == spec_move_cost(self.lines@, origin, origin),
            r.line_cost == spec_line_cost(self.lines@),
            r.segments == self.lines@.len(),
            r.moves == spec_moves(self.lines@, origin),
            r.move_cost <= (self.lines@.len() + 1) * (DIST_BOUND as int),
            r.line_cost <= self.lines@.len() * (DIST_BOUND as int),
            r.moves <= self.lines@.len(),
    {
        let mut move_cost: u128 = 0;
        let mut line_cost: u128 = 0;
        let mut moves: usize = 0;
        let mut cursor: PlotPoint = origin;
        let n: usize = self.lines.len();
        let ghost total_moves = spec_moves(self.lines@, origin);
        let ghost total_move_cost = spec_move_cost(self.lines@, origin, origin);
        proof {
            assert(self.lines@.skip(0) =~= self.lines@);
        }
        for k in 0..n
            invariant
                n == self.lines@.len(),
                self.wf(),
                origin.wf(),
                cursor.wf(),
                total_moves == spec_moves(self.lines@, origin),
                total_move_cost == spec_move_cost(self.lines@, origin, origin),
                total_move_cost == move_cost + spec_move_cost(
                    self.lines@.skip(k as int),
                    cursor,
                    origin,
                ),
                total_moves == moves + spec_moves(self.lines@.skip(k as int), cursor),
                line_cost == spec_line_cost(self.lines@.take(k as int)),
                move_cost <= k * (DIST_BOUND as int),
                line_cost <= k * (DIST_BOUND as int),
                moves <= k,
        {
            let line = self.lines[k];
            proof {
                assert(self.lines@.skip(k as int).drop_first() =~= self.lines@.skip(k + 1));
                assert(self.lines@.skip(k as int)[0] == self.lines@[k as int]);
                assert(self.lines@.take(k + 1).drop_last() =~= self.lines@.take(k as int));
                assert(self.lines@.take(k + 1).last() == self.lines@[k as int]);
                assert(k * (DIST_BOUND as int) + DIST_BOUND <= (k + 1) * (DIST_BOUND as int))
                    by (nonlinear_arith);
                assert((k + 1) * (DIST_BOUND as int) <= 1298074214633706907132624082305024int)
                    by (nonlinear_arith)
                    requires
                        0 <= k < 0x10000000000000000,
                ;
            }
            if !(line.c1.x == cursor.x && line.c1.y == cursor.y) {
                move_cost = move_cost + distance(&cursor, &line.c1) as u128;
                moves = moves + 1;
            }
            line_cost = line_cost + distance(&line.c1, &line.c2) as u128;
            cursor = line.c2;
        }
        proof {
            assert(self.lines@.skip(n as int) =~= Seq::<PlotSegment>::empty());
            assert(self.lines@.take(n as int) =~= self.lines@);
            assert(n * (DIST_BOUND as int) + DIST_BOUND <= (n + 1) * (DIST_BOUND as int))
                by (nonlinear_arith);
            assert((n + 1) * (DIST_BOUND as int) <= 1298074214633706907132624082305024int)
                by (nonlinear_arith)
                requires
                    0 <= n < 0x10000000000000000,
            ;
        }
        move_cost = move_cost + distance(&cursor, &origin) as u128;
        PlotCost { move_cost, line_cost, segments: n, moves }
    }
}

} // verus!

use vstd::prelude::*;

verus! {

/// Total pen-up travel over a sequence of layers, each drawn from the
/// shared origin (modeling a pen change, and a return trip, between
/// layers).
pub open spec fn total_move_cost(layers: Seq<Layer>, origin: PlotPoint) -> int
    decreases layers.len(),
{
    if layers.len() == 0 {
        0
    } else {
        total_move_cost(layers.drop_last(), origin) + spec_move_cost(
            layers.last().lines@,
            origin,
            origin,
        )
    }
}

/// Total drawn length over a sequence of layers.
pub open spec fn total_line_cost(layers: Seq<Layer>) -> int
    decreases layers.len(),
{
    if layers.len() == 0 {
        0
    } else {
        total_line_cost(layers.drop_last()) + spec_line_cost(layers.last().lines@)
    }
}

/// Total stroke count over a sequence of layers.
pub open spec fn total_segments(layers: Seq<Layer>) -> int
    decreases layers.len(),
{
    if layers.len() == 0 {
        0
    } else {
        total_segments(layers.drop_last()) + layers.last().lines@.len()
    }
}

/// Total pen-up repositioning count over a sequence of layers.
pub open spec fn total_moves(layers: Seq<Layer>, origin: PlotPoint) -> int
    decreases layers.len(),
{
    if layers.len() == 0 {
        0
    } else {
        total_moves(layers.drop_last(), origin) + spec_moves(layers.last().lines@, origin)
    }
}

/// Drawn length is never negative.
pub proof fn lemma_line_cost_nonneg(lines: Seq<PlotSegment>)
    ensures
        0 <= spec_line_cost(lines),
    decreases lines.len(),
{
    if lines.len() > 0 {
        lemma_line_cost_nonneg(lines.drop_last());
    }
}

/// Pen-up travel is never negative.
pub proof fn lemma_move_cost_nonneg(lines: Seq<PlotSegment>, cursor: PlotPoint, origin: PlotPoint)
    ensures
        0 <= spec_move_cost(lines, cursor, origin),
    decreases lines.len(),
{
    if lines.len() > 0 {
        lemma_move_cost_nonneg(lines.drop_first(), lines[0].c2, origin);
    }
}

/// The repositioning count lies between zero and the stroke count.
pub proof fn lemma_moves_bounds(lines: Seq<PlotSegment>, cursor: PlotPoint)
    ensures
        0 <= spec_moves(lines, cursor) <= lines.len(),
    decreases lines.len(),
{
    if lines.len() > 0 {
        lemma_moves_bounds(lines.drop_first(), lines[0].c2);
    }
}

/// Every per-layer total of a prefix is bounded by the total over all
/// layers, and is nonnegative.
pub proof fn lemma_totals_prefix(layers: Seq<Layer>, origin: PlotPoint, k: int)
    requires
        0 <= k <= layers.len(),
    ensures
        0 <= total_move_cost(layers.take(k), origin) <= total_move_cost(layers, origin),
        0 <= total_line_cost(layers.take(k)) <= total_line_cost(layers),
        0 <= total_segments(layers.take(k)) <= total_segments(layers),
        0 <= total_moves(layers.take(k), origin) <= total_moves(layers, origin),
    decreases layers.len(),
{
    if layers.len() == 0 {
        assert(layers.take(k) =~= layers);
    } else if k == layers.len() {
        assert(layers.take(k) =~= layers);
        lemma_totals_prefix(layers.drop_last(), origin, layers.len() - 1);
        assert(layers.drop_last().take(layers.len() - 1) =~= layers.drop_last());
        lemma_move_cost_nonneg(layers.last().lines@, origin, origin);
        lemma_line_cost_nonneg(layers.last().lines@);
        lemma_moves_bounds(layers.last().lines@, origin);
    } else {
        assert(layers.take(k) =~= layers.drop_last().take(k));
        lemma_totals_prefix(layers.drop_last(), origin, k);
        lemma_move_cost_nonneg(layers.last().lines@, origin, origin);
        lemma_line_cost_nonneg(layers.last().lines@);
        lemma_moves_bounds(layers.last().lines@, origin);
    }
}

/// A plot: the layers of a scene in drawing order, its bounding corners,
/// and the origin where the pen rests between layers.
#[derive(Clone, Debug)]
pub struct Plot {
    /// The layers, one pen each.
    pub layers: Vec<Layer>,
    /// The lower corner of the plot's bounding box.
    pub lower_bound: PlotPoint,
    /// The upper corner of the plot's bounding box.
    pub upper_bound: PlotPoint,
    /// The pen's rest position.
    pub origin: PlotPoint,
}

impl Plot {
    /// Every layer and corner in range.
    pub open spec fn wf(self) -> bool {
        &&& forall|i: int| 0 <= i < self.layers@.len() ==> (#[trigger] self.layers@[i]).wf()
        &&& self.lower_bound.wf()
        &&& self.upper_bound.wf()
        &&& self.origin.wf()
    }

    /// A plot from the given layers and bounds, with the origin at (0, 0).
    pub fn new(layers: Vec<Layer>, lower_bound: PlotPoint, upper_bound: PlotPoint) -> (r: Plot)
        ensures
            r.layers == layers,
            r.lower_bound == lower_bound,
            r.upper_bound == upper_bound,
            r.origin == (PlotPoint { x: 0, y: 0 }),
    {
        Plot { layers, lower_bound, upper_bound, origin: PlotPoint { x: 0, y: 0 } }
    }

    /// The cost of the whole plot: the sum of its layers' costs, each
    /// computed from the shared origin.
    pub fn cost(&self) -> (r: PlotCost)
        requires
            self.wf(),
            total_move_cost(self.layers@, self.origin) <= u128::MAX,
            total_line_cost(self.layers@) <= u128::MAX,
            total_segments(self.layers@) <= usize::MAX,
            total_moves(self.layers@, self.origin) <= usize::MAX,
        ensures
            r.move_cost == total_move_cost(self.layers@, self.origin),
            r.line_cost == total_line_cost(self.layers@),
            r.segments == total_segments(self.layers@),
            r.moves == total_moves(self.layers@, self.origin),
    {
        let mut acc = PlotCost { move_cost: 0, line_cost: 0, segments: 0, moves: 0 };
        proof {
            assert(self.layers@.take(0) =~= Seq::<Layer>::empty());
        }
        for i in 0..self.layers.len()
            invariant
                self.wf(),
                total_move_cost(self.layers@, self.origin) <= u128::MAX,
                total_line_cost(self.layers@) <= u128::MAX,
                total_segments(self.layers@) <= usize::MAX,
                total_moves(self.layers@, self.origin) <= usize::MAX,
                acc.move_cost == total_move_cost(self.layers@.take(i as int), self.origin),
                acc.line_cost == total_line_cost(self.layers@.take(i as int)),
                acc.segments == total_segments(self.layers@.take(i as int)),
                acc.moves == total_moves(self.layers@.take(i as int), self.origin),
        {
            let c = self.layers[i].cost(self.origin);
            proof {
                assert(self.layers@.take(i + 1).drop_last() =~= self.layers@.take(i as int));
                assert(self.layers@.take(i + 1).last() == self.layers@[i as int]);
                lemma_totals_prefix(self.layers@, self.origin, i + 1);
                lemma_totals_prefix(self.layers@, self.origin, i as int);
                lemma_move_cost_nonneg(self.layers@[i as int].lines@, self.origin, self.origin);
                lemma_line_cost_nonneg(self.layers@[i as int].lines@);
                lemma_moves_bounds(self.layers@[i as int].lines@, self.origin);
            }
            acc = acc.add(&c);
        }
        proof {
            assert(self.layers@.take(self.layers@.len() as int) =~= self.layers@);
        }
        acc
    }

    /// Apply the greedy optimizer to every layer, producing a plot whose
    /// layers draw the same strokes in a cheaper order.  Bounds and origin
    /// are unchanged.
    pub fn optimize(self) -> (r: Plot)
        requires
            self.wf(),
        ensures
            r.lower_bound == self.lower_bound,
            r.upper_bound == self.upper_bound,
            r.origin == self.origin,
            r.layers@.len() == self.layers@.len(),
            forall|i: int|
                0 <= i < self.layers@.len() ==> (#[trigger] r.layers@[i]).pen
                    == self.layers@[i].pen && r.layers@[i].lines@ == spec_greedy(
                    self.layers@[i].lines@,
                    self.origin,
                ),
            r.wf(),
    {
        let Plot { layers: mut old_layers, lower_bound, upper_bound, origin } = self;
        let mut new_layers: Vec<Layer> = Vec::new();
        let ghost orig = old_layers@;
        while old_layers.len() > 0
            invariant
                origin.wf(),
                forall|i: int| 0 <= i < orig.len() ==> (#[trigger] orig[i]).wf(),
                new_layers@.len() + old_layers@.len() == orig.len(),
                old_layers@ == orig.skip(new_layers@.len() as int),
                forall|i: int|
                    0 <= i < new_layers@.len() ==> (#[trigger] new_layers@[i]).pen == orig[i].pen
                        && new_layers@[i].lines@ == spec_greedy(orig[i].lines@, origin)
                        && new_layers@[i].wf(),
            decreases old_layers@.len(),
        {
            let ghost done = new_layers@.len() as int;
            let layer = old_layers.remove(0);
            proof {
                assert(orig.skip(done)[0] == orig[done]);
                assert(orig.skip(done).remove(0) =~= orig.skip(done + 1));
            }
            let optimized = greedy_optimize(layer, origin);
            new_layers.push(optimized);
        }
        proof {
            assert(new_layers@.len() == orig.len());
        }
        Plot { layers: new_layers, lower_bound, upper_bound, origin }
    }
}

} // verus!

verus! {

/// Folding the drawn length over a run in any order gives
/// [`spec_line_cost`] plus the seed.
proof fn lemma_line_cost_as_fold(lines: Seq<PlotSegment>, f: spec_fn(PlotSegment, int) -> int)
    requires
        forall|s: PlotSegment, acc: int| #[trigger] f(s, acc) == acc + seg_len(s),
    ensures
        forall|b: int| #[trigger] lines.fold_right(f, b) == spec_line_cost(lines) + b,
    decreases lines.len(),
{
    if lines.len() > 0 {
        lemma_line_cost_as_fold(lines.drop_last(), f);
    }
    assert forall|b: int| #[trigger] lines.fold_right(f, b) == spec_line_cost(lines) + b by {
        if lines.len() == 0 {
            assert(lines.fold_right(f, b) == b);
        } else {
            assert(lines.fold_right(f, b) == lines.drop_last().fold_right(f, f(lines.last(), b)));
            assert(f(lines.last(), b) == b + seg_len(lines.last()));
        }
    }
}

/// Drawn length and stroke count do not depend on the drawing order: two
/// runs holding the same strokes (as a multiset, in any order) have the
/// same total drawn length and the same count.  Pen-up travel and the
/// repositioning count carry no such guarantee: they genuinely depend on
/// the order.
pub proof fn lemma_line_cost_permutation(s1: Seq<PlotSegment>, s2: Seq<PlotSegment>)
    requires
        s1.to_multiset() == s2.to_multiset(),
    ensures
        spec_line_cost(s1) == spec_line_cost(s2),
        s1.len() == s2.len(),
{
    broadcast use vstd::seq_lib::group_to_multiset_ensures;

    let f = |s: PlotSegment, acc: int| acc + seg_len(s);
    assert(vstd::seq_lib::commutative_foldr(f)) by {
        assert forall|x: PlotSegment, y: PlotSegment, v: int| #[trigger] f(x, f(y, v)) == f(
            y,
            f(x, v),
        ) by {
        }
    }
    lemma_line_cost_as_fold(s1, f);
    lemma_line_cost_as_fold(s2, f);
    vstd::seq_lib::lemma_fold_right_permutation(s1, s2, f, 0);
    assert(s1.fold_right(f, 0) == spec_line_cost(s1));
    assert(s2.fold_right(f, 0) == spec_line_cost(s2));
    assert(s1.len() == s1.to_multiset().len());
    assert(s2.len() == s2.to_multiset().len());
}

} // verus!
