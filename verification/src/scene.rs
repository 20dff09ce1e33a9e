//! 2D scenes and the analytic occlusion ("fill") algorithm.
//!
//! A scene stores line segments.  Each stored segment is kept as an integer
//! *base* segment plus an exact rational clip interval `[t0, t1]` of the
//! base: splitting a segment never moves its carrier line, so every
//! crossing ever computed is a crossing of two integer segments and stays
//! exactly representable.
//!
//! `fill_poly` erases the parts of stored segments that a polygon covers:
//! for each stored segment it collects the exact crossing fractions of the
//! polygon's edges with the segment's carrier line, sorts them, and walks
//! them left to right, toggling a draw state at each crossing whose
//! rotational sense differs from the preceding crossing's (so grazing a
//! vertex does not open a spurious gap), emitting the sub-intervals that
//! remain visible.

use vstd::prelude::*;

use crate::draw_mode::DrawMode;
use crate::frac::Frac;
use crate::frac::lemma_frac_le_lt_trans;
use crate::frac::lemma_frac_le_trans;
use crate::frac::lemma_frac_lt_le_trans;
use crate::frac::lemma_frac_order;
use crate::line_segment::LineSegment;
use crate::line_segment::cross_dirs;
use crate::line_segment::frac_den;
use crate::line_segment::frac_num;
use crate::line_segment::spec_direction;
use crate::line_segment::spec_has_crossing;
use crate::polygon::Polygon;
use crate::polygon::lemma_poly_edges_wf;
use crate::polygon::poly_edges;

verus! {

/// The rational number zero, as stored by the library.
pub open spec fn frac_zero() -> Frac {
    Frac { n: 0, d: 1 }
}

/// The rational number one, as stored by the library.
pub open spec fn frac_one() -> Frac {
    Frac { n: 1, d: 1 }
}

/// The representation [`Frac::max`] returns: `b` if `a < b`, else `a`.
pub open spec fn frac_max(a: Frac, b: Frac) -> Frac {
    if a.spec_lt(b) {
        b
    } else {
        a
    }
}

/// The representation [`Frac::min`] returns: `b` if `b < a`, else `a`.
pub open spec fn frac_min(a: Frac, b: Frac) -> Frac {
    if b.spec_lt(a) {
        b
    } else {
        a
    }
}

/// A stored stroke: a visible clip `[t0, t1]` of an integer base segment.
#[derive(Clone, Copy, Debug)]
pub struct SceneSeg {
    /// The integer segment whose carrier line the stroke lies on.
    pub base: LineSegment,
    /// Start of the visible part, as a fraction of `base`.
    pub t0: Frac,
    /// End of the visible part, as a fraction of `base`.
    pub t1: Frac,
}

impl SceneSeg {
    /// Well-formedness: base in range and a nonempty clip interval within
    /// `[0, 1]`.
    pub open spec fn wf(self) -> bool {
        &&& self.base.wf()
        &&& self.t0.wf()
        &&& self.t1.wf()
        &&& self.t0.spec_lt(self.t1)
        &&& frac_zero().spec_le(self.t0)
        &&& self.t1.spec_le(frac_one())
    }

    /// A whole, unclipped segment.
    pub open spec fn spec_full(seg: LineSegment) -> SceneSeg {
        SceneSeg { base: seg, t0: frac_zero(), t1: frac_one() }
    }

    /// Wrap a segment as a whole, unclipped stroke.
    pub fn full(seg: LineSegment) -> (r: SceneSeg)
        ensures
            r == SceneSeg::spec_full(seg),
    {
        SceneSeg { base: seg, t0: Frac::zero(), t1: Frac::one() }
    }
}

/// One crossing of a polygon edge with a stroke's carrier line: the
/// position along the base segment and the rotational sense of the
/// crossing.
#[derive(Clone, Copy, Debug)]
pub struct Crossing {
    /// The crossing position as a fraction of the base segment.
    pub t: Frac,
    /// The rotational sense in which the edge crosses the carrier.
    pub dir: bool,
}

/// The crossing fraction of edge `b` along segment `a`, as stored.
pub open spec fn crossing_frac(a: LineSegment, b: LineSegment) -> Frac {
    Frac { n: frac_num(a, b) as i128, d: frac_den(a, b) as i128 }
}

/// The crossings (none or one) that edge `e` contributes on `base`'s
/// carrier line.
pub open spec fn crossing_of(base: LineSegment, e: LineSegment) -> Seq<Crossing> {
    if spec_has_crossing(base, e) {
        seq![Crossing { t: crossing_frac(base, e), dir: spec_direction(base, e) }]
    } else {
        Seq::empty()
    }
}

/// All crossings the given edges make on `base`'s carrier line, in edge
/// order.
pub open spec fn seg_crossings(base: LineSegment, edges: Seq<LineSegment>) -> Seq<Crossing>
    decreases edges.len(),
{
    if edges.len() == 0 {
        Seq::empty()
    } else {
        seg_crossings(base, edges.drop_last()) + crossing_of(base, edges.last())
    }
}

/// The crossing lies within the clip interval `[t0, t1]` (inclusive).
pub open spec fn crossing_in(c: Crossing, t0: Frac, t1: Frac) -> bool {
    t0.spec_le(c.t) && c.t.spec_le(t1)
}

/// Some crossing lies within the clip interval.
pub open spec fn has_inter(cs: Seq<Crossing>, t0: Frac, t1: Frac) -> bool
    decreases cs.len(),
{
    if cs.len() == 0 {
        false
    } else {
        crossing_in(cs.last(), t0, t1) || has_inter(cs.drop_last(), t0, t1)
    }
}

/// Some crossing lies strictly before the clip interval.
pub open spec fn has_pre(cs: Seq<Crossing>, t0: Frac) -> bool
    decreases cs.len(),
{
    if cs.len() == 0 {
        false
    } else {
        cs.last().t.spec_lt(t0) || has_pre(cs.drop_last(), t0)
    }
}

/// Some crossing lies strictly after the clip interval.
pub open spec fn has_post(cs: Seq<Crossing>, t1: Frac) -> bool
    decreases cs.len(),
{
    if cs.len() == 0 {
        false
    } else {
        t1.spec_lt(cs.last().t) || has_post(cs.drop_last(), t1)
    }
}

/// Stable insertion of a crossing into a sorted run: the new crossing goes
/// after every element whose fraction is less than or equal to its own.
pub open spec fn insert_sorted(c: Crossing, s: Seq<Crossing>) -> Seq<Crossing>
    decreases s.len(),
{
    if s.len() == 0 {
        seq![c]
    } else if s[0].t.spec_le(c.t) {
        seq![s[0]] + insert_sorted(c, s.drop_first())
    } else {
        seq![c] + s
    }
}

/// Stable insertion sort of the crossings by fraction: equal fractions keep
/// their collection order.
pub open spec fn sort_crossings(s: Seq<Crossing>) -> Seq<Crossing>
    decreases s.len(),
{
    if s.len() == 0 {
        Seq::empty()
    } else {
        insert_sorted(s.last(), sort_crossings(s.drop_last()))
    }
}

/// Whether a crossing toggles the draw state: the first crossing always
/// does; a later one only when its rotational sense differs from the
/// immediately preceding crossing's.
pub open spec fn toggles(prev: Option<bool>, dir: bool) -> bool {
    match prev {
        Option::None => true,
        Option::Some(pd) => pd != dir,
    }
}

/// The walk over the sorted crossings: starting at `cursor` in draw state
/// `draw`, emit the visible sub-interval up to each crossing (clipped to
/// `[t0, t1]` and only when nonempty), update the draw state per
/// [`toggles`], and after the last crossing emit the remaining visible tail
/// up to `t1`.
pub open spec fn spec_walk(
    base: LineSegment,
    cs: Seq<Crossing>,
    cursor: Frac,
    draw: bool,
    prev: Option<bool>,
    t0: Frac,
    t1: Frac,
) -> Seq<SceneSeg>
    decreases cs.len(),
{
    if cs.len() == 0 {
        if draw && frac_max(cursor, t0).spec_lt(t1) {
            seq![SceneSeg { base, t0: frac_max(cursor, t0), t1 }]
        } else {
            Seq::empty()
        }
    } else {
        let c = cs[0];
        let lo = frac_max(cursor, t0);
        let hi = frac_min(c.t, t1);
        let emit: Seq<SceneSeg> = if draw && lo.spec_lt(hi) {
            seq![SceneSeg { base, t0: lo, t1: hi }]
        } else {
            Seq::empty()
        };
        let draw2 = if toggles(prev, c.dir) {
            !draw
        } else {
            draw
        };
        emit + spec_walk(base, cs.drop_first(), c.t, draw2, Some(c.dir), t0, t1)
    }
}

/// What one stored stroke becomes when the polygon with the given edges is
/// filled over it: left unchanged when it cannot be partially covered (no
/// crossing within its clip, and none both before and after), otherwise
/// replaced by the visible pieces of the walk.
pub open spec fn spec_visible(seg: SceneSeg, edges: Seq<LineSegment>) -> Seq<SceneSeg> {
    let cs = seg_crossings(seg.base, edges);
    if !has_inter(cs, seg.t0, seg.t1) && (!has_pre(cs, seg.t0) || !has_post(cs, seg.t1)) {
        seq![seg]
    } else {
        spec_walk(seg.base, sort_crossings(cs), seg.t0, true, None, seg.t0, seg.t1)
    }
}

/// The whole scene after a fill: each stored stroke replaced, in place, by
/// its visible pieces.
pub open spec fn spec_fill(segs: Seq<SceneSeg>, edges: Seq<LineSegment>) -> Seq<SceneSeg>
    decreases segs.len(),
{
    if segs.len() == 0 {
        Seq::empty()
    } else {
        spec_fill(segs.drop_last(), edges) + spec_visible(segs.last(), edges)
    }
}

/// A 2D scene: a collection of strokes, edited in place by polygon fills.
/// Polygons are expected to be added back to front, as in a painter's
/// algorithm.
#[derive(Clone, Debug)]
pub struct Scene {
    /// The stored strokes, in insertion order (fills replace a stroke by
    /// its pieces in place).
    pub segs: Vec<SceneSeg>,
}

impl Scene {
    /// Every stored stroke is well-formed.
    pub open spec fn wf(self) -> bool {
        forall|i: int| 0 <= i < self.segs@.len() ==> (#[trigger] self.segs@[i]).wf()
    }

    /// An empty scene.
    pub fn new() -> (r: Scene)
        ensures
            r.segs@ =~= Seq::<SceneSeg>::empty(),
            r.wf(),
    {
        Scene { segs: Vec::new() }
    }

    /// Add a single stroke.  Strokes have no area, so no overlap handling
    /// happens here.
    pub fn add_segment(&mut self, segment: LineSegment)
        requires
            old(self).wf(),
            segment.wf(),
        ensures
            final(self).segs@ == old(self).segs@.push(SceneSeg::spec_full(segment)),
            final(self).wf(),
    {
        self.segs.push(SceneSeg::full(segment));
    }

    /// Simulate fill for the polygon by erasing the parts of stored strokes
    /// that it covers.  Does not outline the polygon itself; that is
    /// [`Scene::stroke_poly`], called after the fill when wanted.
    pub fn fill_poly(&mut self, poly: &Polygon)
        requires
            old(self).wf(),
            poly.wf(),
        ensures
            final(self).segs@ == spec_fill(old(self).segs@, poly_edges(*poly, 0)),
            final(self).wf(),
    {
        let edges = poly.edges_with_pen(0);
        proof {
            lemma_poly_edges_wf(*poly, 0);
        }
        let mut out: Vec<SceneSeg> = Vec::new();
        proof {
            assert(self.segs@.take(0) =~= Seq::<SceneSeg>::empty());
        }
        let n: usize = self.segs.len();
        for i in 0..n
            invariant
                n == self.segs@.len(),
                edges@ == poly_edges(*poly, 0),
                forall|j: int| 0 <= j < edges@.len() ==> (#[trigger] edges@[j]).wf(),
                forall|j: int| 0 <= j < n ==> (#[trigger] self.segs@[j]).wf(),
                out@ == spec_fill(self.segs@.take(i as int), edges@),
                forall|j: int| 0 <= j < out@.len() ==> (#[trigger] out@[j]).wf(),
        {
            let seg = self.segs[i];
            let mut pieces = visible_pieces(seg, &edges);
            proof {
                lemma_spec_visible_wf(seg, edges@);
                assert(self.segs@.take(i + 1).drop_last() =~= self.segs@.take(i as int));
                assert(self.segs@.take(i + 1).last() == self.segs@[i as int]);
            }
            out.append(&mut pieces);
            proof {
                assert(out@ =~= spec_fill(self.segs@.take(i + 1), edges@));
            }
        }
        proof {
            assert(self.segs@.take(n as int) =~= self.segs@);
        }
        self.segs = out;
    }

    /// Draw the outline of the polygon and of each of its holes, under the
    /// given pen.
    pub fn stroke_poly(&mut self, poly: &Polygon, pen: usize)
        requires
            old(self).wf(),
            poly.wf(),
        ensures
            final(self).segs@ == old(self).segs@ + poly_edges(*poly, pen).map_values(
                |e: LineSegment| SceneSeg::spec_full(e),
            ),
            final(self).wf(),
    {
        let edges = poly.edges_with_pen(pen);
        proof {
            lemma_poly_edges_wf(*poly, pen);
        }
        let ghost f = |e: LineSegment| SceneSeg::spec_full(e);
        proof {
            assert(edges@.take(0).map_values(f) =~= Seq::<SceneSeg>::empty());
            assert(old(self).segs@ + edges@.take(0).map_values(f) =~= old(self).segs@);
        }
        for i in 0..edges.len()
            invariant
                edges@ == poly_edges(*poly, pen),
                forall|j: int| 0 <= j < edges@.len() ==> (#[trigger] edges@[j]).wf(),
                self.segs@ == old(self).segs@ + edges@.take(i as int).map_values(f),
                f == (|e: LineSegment| SceneSeg::spec_full(e)),
                old(self).wf(),
                self.wf(),
        {
            self.segs.push(SceneSeg::full(edges[i]));
            proof {
                assert(edges@.take(i + 1) =~= edges@.take(i as int).push(edges@[i as int]));
                assert(edges@.take(i + 1).map_values(f) =~= edges@.take(i as int).map_values(
                    f,
                ).push(f(edges@[i as int])));
                assert(self.segs@ =~= old(self).segs@ + edges@.take(i + 1).map_values(f));
            }
        }
        proof {
            assert(edges@.take(edges@.len() as int) =~= edges@);
        }
    }

    /// Add a polygon with the default draw mode: fill, then outline with
    /// pen 0.
    pub fn add_poly(&mut self, poly: &Polygon)
        requires
            old(self).wf(),
            poly.wf(),
        ensures
            final(self).segs@ == spec_fill(old(self).segs@, poly_edges(*poly, 0)) + poly_edges(
                *poly,
                0,
            ).map_values(|e: LineSegment| SceneSeg::spec_full(e)),
            final(self).wf(),
    {
        self.fill_poly(poly);
        self.stroke_poly(poly, 0);
    }

    /// Add a polygon under a caller-chosen draw mode: fill if the mode says
    /// so, then outline under the mode's pen if one is given.
    pub fn add_poly_with_draw_mode(&mut self, poly: &Polygon, draw_mode: DrawMode)
        requires
            old(self).wf(),
            poly.wf(),
        ensures
            final(self).wf(),
            ({
                let filled = if draw_mode.fill {
                    spec_fill(old(self).segs@, poly_edges(*poly, 0))
                } else {
                    old(self).segs@
                };
                final(self).segs@ == match draw_mode.pen {
                    Some(p) => filled + poly_edges(*poly, p).map_values(
                        |e: LineSegment| SceneSeg::spec_full(e),
                    ),
                    None => filled,
                }
            }),
    {
        if draw_mode.fill {
            self.fill_poly(poly)
        }
        if let Some(p) = draw_mode.pen {
            self.stroke_poly(poly, p)
        }
    }
}

/// Collect the crossings of every edge with the stroke's carrier line, and
/// the three classification flags: crossing within the clip, strictly
/// before it, strictly after it.
fn collect_crossings(seg: SceneSeg, edges: &Vec<LineSegment>) -> (r: (Vec<Crossing>, bool, bool, bool))
    requires
        seg.wf(),
        forall|j: int| 0 <= j < edges@.len() ==> (#[trigger] edges@[j]).wf(),
    ensures
        r.0@ == seg_crossings(seg.base, edges@),
        r.1 == has_inter(seg_crossings(seg.base, edges@), seg.t0, seg.t1),
        r.2 == has_pre(seg_crossings(seg.base, edges@), seg.t0),
        r.3 == has_post(seg_crossings(seg.base, edges@), seg.t1),
        forall|k: int| 0 <= k < r.0@.len() ==> (#[trigger] r.0@[k]).t.wf(),
{
    let mut cs: Vec<Crossing> = Vec::new();
    let mut inter: bool = false;
    let mut pre: bool = false;
    let mut post: bool = false;
    proof {
        assert(edges@.take(0) =~= Seq::<LineSegment>::empty());
    }
    for j in 0..edges.len()
        invariant
            seg.wf(),
            forall|jj: int| 0 <= jj < edges@.len() ==> (#[trigger] edges@[jj]).wf(),
            cs@ == seg_crossings(seg.base, edges@.take(j as int)),
            inter == has_inter(cs@, seg.t0, seg.t1),
            pre == has_pre(cs@, seg.t0),
            post == has_post(cs@, seg.t1),
            forall|k: int| 0 <= k < cs@.len() ==> (#[trigger] cs@[k]).t.wf(),
    {
        proof {
            assert(edges@.take(j + 1).drop_last() =~= edges@.take(j as int));
            assert(edges@.take(j + 1).last() == edges@[j as int]);
        }
        match seg.base.intersect_segment(&edges[j]) {
            Some((f, direction)) => {
                let c = Crossing { t: f, dir: direction };
                proof {
                    assert(c == (Crossing {
                        t: crossing_frac(seg.base, edges@[j as int]),
                        dir: spec_direction(seg.base, edges@[j as int]),
                    }));
                    assert(cs@.push(c).drop_last() =~= cs@);
                    assert(cs@.push(c).last() == c);
                    assert(cs@.push(c) =~= seg_crossings(seg.base, edges@.take(j + 1)));
                }
                let within_low = seg.t0.le(&c.t);
                let within_high = c.t.le(&seg.t1);
                if within_low && within_high {
                    inter = true;
                } else if !within_low {
                    pre = true;
                } else {
                    post = true;
                }
                proof {
                    lemma_frac_order(seg.t0, c.t);
                    lemma_frac_order(c.t, seg.t1);
                    if c.t.spec_lt(seg.t0) {
                        lemma_frac_lt_le_trans(c.t, seg.t0, seg.t1);
                    }
                    if seg.t1.spec_lt(c.t) {
                        lemma_frac_le_lt_trans(seg.t0, seg.t1, c.t);
                    }
                }
                cs.push(c);
            },
            None => {
                proof {
                    assert(crossing_of(seg.base, edges@[j as int]) =~= Seq::<Crossing>::empty());
                    assert(cs@ =~= seg_crossings(seg.base, edges@.take(j + 1)));
                }
            },
        }
    }
    proof {
        assert(edges@.take(edges@.len() as int) =~= edges@);
    }
    (cs, inter, pre, post)
}

/// Stable insertion sort of the collected crossings by fraction.
fn sort_crossings_exec(cs: &Vec<Crossing>) -> (r: Vec<Crossing>)
    requires
        forall|k: int| 0 <= k < cs@.len() ==> (#[trigger] cs@[k]).t.wf(),
    ensures
        r@ == sort_crossings(cs@),
        forall|k: int| 0 <= k < r@.len() ==> (#[trigger] r@[k]).t.wf(),
{
    let mut out: Vec<Crossing> = Vec::new();
    proof {
        assert(cs@.take(0) =~= Seq::<Crossing>::empty());
    }
    for k in 0..cs.len()
        invariant
            forall|kk: int| 0 <= kk < cs@.len() ==> (#[trigger] cs@[kk]).t.wf(),
            out@ == sort_crossings(cs@.take(k as int)),
            forall|kk: int| 0 <= kk < out@.len() ==> (#[trigger] out@[kk]).t.wf(),
    {
        let c = cs[k];
        let mut pos: usize = 0;
        while pos < out.len() && out[pos].t.le(&c.t)
            invariant
                pos <= out@.len(),
                forall|m: int| 0 <= m < pos ==> (#[trigger] out@[m]).t.spec_le(c.t),
                forall|kk: int| 0 <= kk < out@.len() ==> (#[trigger] out@[kk]).t.wf(),
                c.t.wf(),
            decreases out@.len() - pos,
        {
            pos = pos + 1;
        }
        proof {
            lemma_insert_sorted_at(c, out@, pos as int);
            assert(cs@.take(k + 1).drop_last() =~= cs@.take(k as int));
            assert(cs@.take(k + 1).last() == cs@[k as int]);
        }
        out.insert(pos, c);
        proof {
            assert(out@ =~= sort_crossings(cs@.take(k + 1)));
        }
    }
    proof {
        assert(cs@.take(cs@.len() as int) =~= cs@);
    }
    out
}

/// Inserting at the first position whose element exceeds the new crossing
/// realizes the stable [`insert_sorted`] specification.
proof fn lemma_insert_sorted_at(c: Crossing, s: Seq<Crossing>, pos: int)
    requires
        0 <= pos <= s.len(),
        forall|m: int| 0 <= m < pos ==> (#[trigger] s[m]).t.spec_le(c.t),
        pos < s.len() ==> !s[pos].t.spec_le(c.t),
    ensures
        insert_sorted(c, s) =~= s.insert(pos, c),
    decreases s.len(),
{
    if s.len() == 0 {
        assert(insert_sorted(c, s) =~= seq![c]);
        assert(s.insert(0, c) =~= seq![c]);
    } else if pos == 0 {
        assert(!s[0].t.spec_le(c.t));
        assert(insert_sorted(c, s) =~= seq![c] + s);
        assert(s.insert(0, c) =~= seq![c] + s);
    } else {
        assert(s[0].t.spec_le(c.t));
        lemma_insert_sorted_at(c, s.drop_first(), pos - 1);
        assert(insert_sorted(c, s) =~= seq![s[0]] + s.drop_first().insert(pos - 1, c));
        assert(s.insert(pos, c) =~= seq![s[0]] + s.drop_first().insert(pos - 1, c));
    }
}

/// Walk the sorted crossings and emit the visible pieces of the stroke.
fn walk_segments(seg: SceneSeg, sorted: &Vec<Crossing>) -> (out: Vec<SceneSeg>)
    requires
        seg.wf(),
        forall|k: int| 0 <= k < sorted@.len() ==> (#[trigger] sorted@[k]).t.wf(),
    ensures
        out@ == spec_walk(seg.base, sorted@, seg.t0, true, None, seg.t0, seg.t1),
{
    let mut out: Vec<SceneSeg> = Vec::new();
    let mut cursor: Frac = seg.t0;
    let mut draw: bool = true;
    let mut previous: Option<bool> = None;
    let ghost total = spec_walk(seg.base, sorted@, seg.t0, true, None, seg.t0, seg.t1);
    proof {
        assert(sorted@.skip(0) =~= sorted@);
        assert(out@ + spec_walk(seg.base, sorted@, seg.t0, true, None, seg.t0, seg.t1) =~= total);
    }
    for k in 0..sorted.len()
        invariant
            seg.wf(),
            forall|kk: int| 0 <= kk < sorted@.len() ==> (#[trigger] sorted@[kk]).t.wf(),
            cursor.wf(),
            total == spec_walk(seg.base, sorted@, seg.t0, true, None, seg.t0, seg.t1),
            total == out@ + spec_walk(
                seg.base,
                sorted@.skip(k as int),
                cursor,
                draw,
                previous,
                seg.t0,
                seg.t1,
            ),
    {
        let c = sorted[k];
        let ghost out_before = out@;
        let ghost cursor_before = cursor;
        let ghost draw_before = draw;
        let ghost previous_before = previous;
        proof {
            assert(sorted@.skip(k as int).drop_first() =~= sorted@.skip(k + 1));
            assert(sorted@.skip(k as int)[0] == sorted@[k as int]);
        }
        let lo = cursor.max(&seg.t0);
        let hi = c.t.min(&seg.t1);
        if draw && lo.lt(&hi) {
            out.push(SceneSeg { base: seg.base, t0: lo, t1: hi });
        }
        if match previous {
            None => true,
            Some(pd) => pd != c.dir,
        } {
            draw = !draw;
        }
        previous = Some(c.dir);
        cursor = c.t;
        proof {
            let rest = spec_walk(
                seg.base,
                sorted@.skip(k + 1),
                cursor,
                draw,
                previous,
                seg.t0,
                seg.t1,
            );
            let lo_spec = frac_max(cursor_before, seg.t0);
            let hi_spec = frac_min(c.t, seg.t1);
            if draw_before && lo_spec.spec_lt(hi_spec) {
                assert(out@ =~= out_before.push(
                    SceneSeg { base: seg.base, t0: lo_spec, t1: hi_spec },
                ));
            } else {
                assert(out@ =~= out_before);
            }
            assert(total =~= out@ + rest);
        }
    }
    proof {
        assert(sorted@.skip(sorted@.len() as int) =~= Seq::<Crossing>::empty());
    }
    let lo = cursor.max(&seg.t0);
    if draw && lo.lt(&seg.t1) {
        out.push(SceneSeg { base: seg.base, t0: lo, t1: seg.t1 });
    }
    proof {
        assert(out@ =~= total);
    }
    out
}

/// Compute [`spec_visible`] for one stored stroke: the stroke itself when
/// the polygon cannot partially cover it, otherwise the walked pieces.
fn visible_pieces(seg: SceneSeg, edges: &Vec<LineSegment>) -> (r: Vec<SceneSeg>)
    requires
        seg.wf(),
        forall|j: int| 0 <= j < edges@.len() ==> (#[trigger] edges@[j]).wf(),
    ensures
        r@ == spec_visible(seg, edges@),
{
    let (cs, inter, pre, post) = collect_crossings(seg, edges);
    if !inter && (!pre || !post) {
        let mut r: Vec<SceneSeg> = Vec::new();
        r.push(seg);
        proof {
            assert(r@ =~= spec_visible(seg, edges@));
        }
        r
    } else {
        let sorted = sort_crossings_exec(&cs);
        walk_segments(seg, &sorted)
    }
}

/// Every piece the walk emits is a well-formed stroke: its ends are taken
/// from well-formed fractions, it is nonempty by construction, and it stays
/// within `[0, 1]` because the clip bounds do.
proof fn lemma_walk_wf(
    base: LineSegment,
    cs: Seq<Crossing>,
    cursor: Frac,
    draw: bool,
    prev: Option<bool>,
    t0: Frac,
    t1: Frac,
)
    requires
        base.wf(),
        forall|k: int| 0 <= k < cs.len() ==> (#[trigger] cs[k]).t.wf(),
        cursor.wf(),
        t0.wf(),
        t1.wf(),
        frac_zero().spec_le(t0),
        t1.spec_le(frac_one()),
    ensures
        forall|i: int|
            0 <= i < spec_walk(base, cs, cursor, draw, prev, t0, t1).len() ==> (
            #[trigger] spec_walk(base, cs, cursor, draw, prev, t0, t1)[i]).wf(),
    decreases cs.len(),
{
    let result = spec_walk(base, cs, cursor, draw, prev, t0, t1);
    if cs.len() == 0 {
        let lo = frac_max(cursor, t0);
        if draw && lo.spec_lt(t1) {
            assert(frac_zero().spec_le(lo)) by {
                if cursor.spec_lt(t0) {
                } else {
                    lemma_frac_order(cursor, t0);
                    lemma_frac_le_trans(frac_zero(), t0, cursor);
                }
            }
            assert(SceneSeg { base, t0: lo, t1 }.wf());
            assert(result =~= seq![SceneSeg { base, t0: lo, t1 }]);
        } else {
            assert(result =~= Seq::<SceneSeg>::empty());
        }
    } else {
        let c = cs[0];
        let lo = frac_max(cursor, t0);
        let hi = frac_min(c.t, t1);
        let draw2 = if toggles(prev, c.dir) {
            !draw
        } else {
            draw
        };
        assert(forall|k: int|
            0 <= k < cs.drop_first().len() ==> (#[trigger] cs.drop_first()[k]).t.wf());
        lemma_walk_wf(base, cs.drop_first(), c.t, draw2, Some(c.dir), t0, t1);
        let rest = spec_walk(base, cs.drop_first(), c.t, draw2, Some(c.dir), t0, t1);
        if draw && lo.spec_lt(hi) {
            assert(frac_zero().spec_le(lo)) by {
                if cursor.spec_lt(t0) {
                } else {
                    lemma_frac_order(cursor, t0);
                    lemma_frac_le_trans(frac_zero(), t0, cursor);
                }
            }
            assert(hi.spec_le(frac_one())) by {
                if t1.spec_lt(c.t) {
                } else {
                    lemma_frac_order(t1, c.t);
                    lemma_frac_le_trans(c.t, t1, frac_one());
                }
            }
            assert(SceneSeg { base, t0: lo, t1: hi }.wf());
            let piece = SceneSeg { base, t0: lo, t1: hi };
            assert forall|i: int| 0 <= i < result.len() implies (#[trigger] result[i]).wf() by {
                if i == 0 {
                    assert(result[i] == piece);
                } else {
                    assert(result[i] == rest[i - 1]);
                }
            }
        } else {
            assert forall|i: int| 0 <= i < result.len() implies (#[trigger] result[i]).wf() by {
                assert(result[i] == rest[i]);
            }
        }
    }
}

/// Every crossing fraction an in-range edge produces on an in-range base is
/// a well-formed fraction.
proof fn lemma_seg_crossings_wf(base: LineSegment, edges: Seq<LineSegment>)
    requires
        base.wf(),
        forall|j: int| 0 <= j < edges.len() ==> (#[trigger] edges[j]).wf(),
    ensures
        forall|k: int|
            0 <= k < seg_crossings(base, edges).len() ==> (#[trigger] seg_crossings(base, edges)[
                k
            ]).t.wf(),
    decreases edges.len(),
{
    if edges.len() > 0 {
        lemma_seg_crossings_wf(base, edges.drop_last());
        let e = edges.last();
        if spec_has_crossing(base, e) {
            lemma_crossing_frac_wf(base, e);
        }
        let head = seg_crossings(base, edges.drop_last());
        let tail = crossing_of(base, e);
        assert forall|k: int| 0 <= k < seg_crossings(base, edges).len() implies (
        #[trigger] seg_crossings(base, edges)[k]).t.wf() by {
            if k < head.len() {
                assert(seg_crossings(base, edges)[k] == head[k]);
            } else {
                assert(seg_crossings(base, edges)[k] == tail[k - head.len()]);
            }
        }
    }
}

/// The stored crossing fraction of two in-range segments is well-formed:
/// its parts are cross products of coordinate differences, which the
/// coordinate bound keeps within [`crate::frac::FRAC_BOUND`].
proof fn lemma_crossing_frac_wf(a: LineSegment, b: LineSegment)
    requires
        a.wf(),
        b.wf(),
        cross_dirs(a, b) != 0,
    ensures
        crossing_frac(a, b).wf(),
{
    assert(-576460752303423488 <= frac_num(a, b) <= 576460752303423488 && 0 < frac_den(a, b)
        <= 576460752303423488) by (nonlinear_arith)
        requires
            a.wf(),
            b.wf(),
            cross_dirs(a, b) != 0,
    ;
}

/// Sorting preserves which fractions appear, so it preserves
/// well-formedness of every element.
proof fn lemma_sort_crossings_wf(cs: Seq<Crossing>)
    requires
        forall|k: int| 0 <= k < cs.len() ==> (#[trigger] cs[k]).t.wf(),
    ensures
        forall|k: int|
            0 <= k < sort_crossings(cs).len() ==> (#[trigger] sort_crossings(cs)[k]).t.wf(),
    decreases cs.len(),
{
    if cs.len() > 0 {
        lemma_sort_crossings_wf(cs.drop_last());
        lemma_insert_sorted_wf(cs.last(), sort_crossings(cs.drop_last()));
    }
}

/// Insertion preserves well-formedness of every element.
proof fn lemma_insert_sorted_wf(c: Crossing, s: Seq<Crossing>)
    requires
        c.t.wf(),
        forall|k: int| 0 <= k < s.len() ==> (#[trigger] s[k]).t.wf(),
    ensures
        forall|k: int|
            0 <= k < insert_sorted(c, s).len() ==> (#[trigger] insert_sorted(c, s)[k]).t.wf(),
    decreases s.len(),
{
    if s.len() == 0 {
        assert(insert_sorted(c, s) =~= seq![c]);
    } else if s[0].t.spec_le(c.t) {
        lemma_insert_sorted_wf(c, s.drop_first());
        let rest = insert_sorted(c, s.drop_first());
        assert forall|k: int| 0 <= k < insert_sorted(c, s).len() implies (
        #[trigger] insert_sorted(c, s)[k]).t.wf() by {
            if k == 0 {
                assert(insert_sorted(c, s)[k] == s[0]);
            } else {
                assert(insert_sorted(c, s)[k] == rest[k - 1]);
            }
        }
    } else {
        assert forall|k: int| 0 <= k < insert_sorted(c, s).len() implies (
        #[trigger] insert_sorted(c, s)[k]).t.wf() by {
            if k == 0 {
                assert(insert_sorted(c, s)[k] == c);
            } else {
                assert(insert_sorted(c, s)[k] == s[k - 1]);
            }
        }
    }
}

/// Every stroke [`spec_visible`] yields from a well-formed stroke and
/// in-range edges is well-formed.
pub proof fn lemma_spec_visible_wf(seg: SceneSeg, edges: Seq<LineSegment>)
    requires
        seg.wf(),
        forall|j: int| 0 <= j < edges.len() ==> (#[trigger] edges[j]).wf(),
    ensures
        forall|i: int|
            0 <= i < spec_visible(seg, edges).len() ==> (#[trigger] spec_visible(seg, edges)[
                i
            ]).wf(),
{
    let cs = seg_crossings(seg.base, edges);
    lemma_seg_crossings_wf(seg.base, edges);
    lemma_sort_crossings_wf(cs);
    lemma_walk_wf(seg.base, sort_crossings(cs), seg.t0, true, None, seg.t0, seg.t1);
}

} // verus!

use crate::plot::Layer;
use crate::plot::Plot;
use crate::plot::PlotPoint;
use crate::plot::PlotSegment;
use crate::plot::SCALE;
use vstd::arithmetic::div_mod::lemma_div_is_ordered;
use vstd::arithmetic::div_mod::lemma_div_multiples_vanish;
use vstd::arithmetic::div_mod::lemma_fundamental_div_mod;
use vstd::arithmetic::div_mod::lemma_fundamental_div_mod_converse;

verus! {

/// The plot-grid coordinate of the point a fraction `t` of the way from
/// `c1` to `c2`: the exact value scaled by [`SCALE`] and rounded down.
pub open spec fn quant_coord(c1: int, c2: int, t: Frac) -> int {
    ((c1 * (t.d as int) + (t.n as int) * (c2 - c1)) * (SCALE as int)) / (t.d as int)
}

/// The plot point where a stored stroke begins.
pub open spec fn quant_start(s: SceneSeg) -> PlotPoint {
    PlotPoint {
        x: quant_coord(s.base.c1.x as int, s.base.c2.x as int, s.t0) as i64,
        y: quant_coord(s.base.c1.y as int, s.base.c2.y as int, s.t0) as i64,
    }
}

/// The plot point where a stored stroke ends.
pub open spec fn quant_end(s: SceneSeg) -> PlotPoint {
    PlotPoint {
        x: quant_coord(s.base.c1.x as int, s.base.c2.x as int, s.t1) as i64,
        y: quant_coord(s.base.c1.y as int, s.base.c2.y as int, s.t1) as i64,
    }
}

/// A stored stroke as a plot stroke on the fixed-point grid.
pub open spec fn quant_seg(s: SceneSeg) -> PlotSegment {
    PlotSegment { c1: quant_start(s), c2: quant_end(s) }
}

/// Rounded-down division by a positive divisor.
fn floor_div(a: i128, b: i128) -> (r: i128)
    requires
        b > 0,
        -170141183460469231731687303715884105727 <= a,
    ensures
        r == a as int / b as int,
{
    if a >= 0 {
        let q = (a as u128) / (b as u128);
        proof {
            assert(q <= a as u128);
        }
        q as i128
    } else {
        let m = (-a) as u128;
        let q = m / (b as u128);
        let rr = m % (b as u128);
        proof {
            lemma_fundamental_div_mod(m as int, b as int);
        }
        if rr == 0 {
            proof {
                assert(a as int == (-(q as int)) * (b as int) + 0) by (nonlinear_arith)
                    requires
                        m == (b as int) * (q as int) + rr,
                        rr == 0,
                        a as int == -(m as int),
                ;
                lemma_fundamental_div_mod_converse(a as int, b as int, -(q as int), 0);
            }
            -(q as i128)
        } else {
            proof {
                assert(a as int == (-(q as int) - 1) * (b as int) + ((b as int) - (rr as int)))
                    by (nonlinear_arith)
                    requires
                        m == (b as int) * (q as int) + rr,
                        a as int == -(m as int),
                ;
                lemma_fundamental_div_mod_converse(
                    a as int,
                    b as int,
                    -(q as int) - 1,
                    (b as int) - (rr as int),
                );
            }
            -(q as i128) - 1
        }
    }
}

/// One quantized coordinate of the point a fraction `t` along a segment
/// whose endpoint coordinates are `c1` and `c2`.
fn quant_one(c1: i64, c2: i64, t: Frac) -> (r: i64)
    requires
        -268435456 <= c1 <= 268435456,
        -268435456 <= c2 <= 268435456,
        t.wf(),
        frac_zero().spec_le(t),
        t.spec_le(frac_one()),
    ensures
        r == quant_coord(c1 as int, c2 as int, t),
        -17592186044416 <= r <= 17592186044416,
{
    let c1w: i128 = c1 as i128;
    let c2w: i128 = c2 as i128;
    proof {
        assert(0 <= t.n <= t.d);
        assert(-154742504910672534362390528 <= c1w * t.d <= 154742504910672534362390528int
            && -309485009821345068724781056 <= t.n * (c2w - c1w)
            <= 309485009821345068724781056int) by (nonlinear_arith)
            requires
                -268435456 <= c1w <= 268435456,
                -268435456 <= c2w <= 268435456,
                0 <= t.n <= 576460752303423488,
                0 < t.d <= 576460752303423488,
        ;
    }
    let num: i128 = c1w * t.d + t.n * (c2w - c1w);
    proof {
        assert(-268435456 * t.d <= num <= 268435456 * t.d) by (nonlinear_arith)
            requires
                num == c1w * t.d + t.n * (c2w - c1w),
                0 <= t.n <= t.d,
                0 < t.d,
                -268435456 <= c1w <= 268435456,
                -268435456 <= c2w <= 268435456,
        ;
        assert(-17592186044416 * t.d <= num * 65536 <= 17592186044416 * t.d
            && -30423614405477505635920876929024 <= num * 65536
            <= 30423614405477505635920876929024int) by (nonlinear_arith)
            requires
                -268435456 * t.d <= num <= 268435456 * t.d,
                0 < t.d <= 576460752303423488,
        ;
    }
    let scaled: i128 = num * 65536;
    let q = floor_div(scaled, t.d);
    proof {
        lemma_div_is_ordered(-17592186044416 * (t.d as int), scaled as int, t.d as int);
        lemma_div_is_ordered(scaled as int, 17592186044416 * (t.d as int), t.d as int);
        lemma_div_multiples_vanish(-17592186044416, t.d as int);
        lemma_div_multiples_vanish(17592186044416, t.d as int);
        assert((t.d as int) * (-17592186044416) == -17592186044416 * (t.d as int));
        assert((t.d as int) * 17592186044416 == 17592186044416 * (t.d as int));
    }
    q as i64
}

/// The quantized plot point a fraction `t` along a base segment.
fn quant_point(base: &LineSegment, t: &Frac) -> (r: PlotPoint)
    requires
        base.wf(),
        t.wf(),
        frac_zero().spec_le(*t),
        t.spec_le(frac_one()),
    ensures
        r.x == quant_coord(base.c1.x as int, base.c2.x as int, *t),
        r.y == quant_coord(base.c1.y as int, base.c2.y as int, *t),
        r.wf(),
{
    PlotPoint { x: quant_one(base.c1.x, base.c2.x, *t), y: quant_one(base.c1.y, base.c2.y, *t) }
}

/// The pointwise smaller corner of two plot points.
pub open spec fn pmin(a: PlotPoint, b: PlotPoint) -> PlotPoint {
    PlotPoint {
        x: if a.x <= b.x {
            a.x
        } else {
            b.x
        },
        y: if a.y <= b.y {
            a.y
        } else {
            b.y
        },
    }
}

/// The pointwise larger corner of two plot points.
pub open spec fn pmax(a: PlotPoint, b: PlotPoint) -> PlotPoint {
    PlotPoint {
        x: if a.x >= b.x {
            a.x
        } else {
            b.x
        },
        y: if a.y >= b.y {
            a.y
        } else {
            b.y
        },
    }
}

/// The lower corner of one stored stroke's quantized endpoints.
pub open spec fn seg_lo(s: SceneSeg) -> PlotPoint {
    pmin(quant_start(s), quant_end(s))
}

/// The upper corner of one stored stroke's quantized endpoints.
pub open spec fn seg_hi(s: SceneSeg) -> PlotPoint {
    pmax(quant_start(s), quant_end(s))
}

/// The lower corner of the whole scene's envelope on the plot grid; the
/// origin for an empty scene.
pub open spec fn spec_bounds_lo(segs: Seq<SceneSeg>) -> PlotPoint
    decreases segs.len(),
{
    if segs.len() == 0 {
        PlotPoint { x: 0, y: 0 }
    } else if segs.len() == 1 {
        seg_lo(segs[0])
    } else {
        pmin(spec_bounds_lo(segs.drop_last()), seg_lo(segs.last()))
    }
}

/// The upper corner of the whole scene's envelope on the plot grid; the
/// origin for an empty scene.
pub open spec fn spec_bounds_hi(segs: Seq<SceneSeg>) -> PlotPoint
    decreases segs.len(),
{
    if segs.len() == 0 {
        PlotPoint { x: 0, y: 0 }
    } else if segs.len() == 1 {
        seg_hi(segs[0])
    } else {
        pmax(spec_bounds_hi(segs.drop_last()), seg_hi(segs.last()))
    }
}

/// The scene's strokes with pen `pen`, in order, quantized to the plot
/// grid.
pub open spec fn spec_pen_lines(segs: Seq<SceneSeg>, pen: usize) -> Seq<PlotSegment>
    decreases segs.len(),
{
    if segs.len() == 0 {
        Seq::empty()
    } else {
        spec_pen_lines(segs.drop_last(), pen) + (if segs.last().base.pen == pen {
            seq![quant_seg(segs.last())]
        } else {
            Seq::empty()
        })
    }
}

/// Some stroke of the scene uses pen `p`.
pub open spec fn scene_has_pen(segs: Seq<SceneSeg>, p: usize) -> bool {
    exists|k: int| 0 <= k < segs.len() && (#[trigger] segs[k]).base.pen == p
}

/// Some layer of the sequence uses pen `p`.
pub open spec fn plot_has_pen(layers: Seq<Layer>, p: usize) -> bool {
    exists|i: int| 0 <= i < layers.len() && (#[trigger] layers[i]).pen == p
}

/// The sequence of pens contains `p`.
pub open spec fn pens_contain(pens: Seq<usize>, p: usize) -> bool {
    exists|i: int| 0 <= i < pens.len() && pens[i] == p
}

impl Scene {
    /// The scene's envelope on the plot grid: the lower and upper corners
    /// of the box containing every stroke's quantized endpoints (both the
    /// origin when the scene is empty).
    pub fn bounds(&self) -> (r: (PlotPoint, PlotPoint))
        requires
            self.wf(),
        ensures
            r.0 == spec_bounds_lo(self.segs@),
            r.1 == spec_bounds_hi(self.segs@),
            r.0.wf(),
            r.1.wf(),
    {
        let mut lo = PlotPoint { x: 0, y: 0 };
        let mut hi = PlotPoint { x: 0, y: 0 };
        let n: usize = self.segs.len();
        for k in 0..n
            invariant
                n == self.segs@.len(),
                self.wf(),
                lo == spec_bounds_lo(self.segs@.take(k as int)),
                hi == spec_bounds_hi(self.segs@.take(k as int)),
                lo.wf(),
                hi.wf(),
        {
            let s = self.segs[k];
            proof {
                lemma_frac_lt_le_trans(s.t0, s.t1, frac_one());
                lemma_frac_le_lt_trans(frac_zero(), s.t0, s.t1);
            }
            let q0 = quant_point(&s.base, &s.t0);
            let q1 = quant_point(&s.base, &s.t1);
            proof {
                assert(self.segs@.take(k + 1).drop_last() =~= self.segs@.take(k as int));
                assert(self.segs@.take(k + 1).last() == self.segs@[k as int]);
                assert(q0 == quant_start(self.segs@[k as int]));
                assert(q1 == quant_end(self.segs@[k as int]));
            }
            let s_lo = PlotPoint {
                x: if q0.x <= q1.x {
                    q0.x
                } else {
                    q1.x
                },
                y: if q0.y <= q1.y {
                    q0.y
                } else {
                    q1.y
                },
            };
            let s_hi = PlotPoint {
                x: if q0.x >= q1.x {
                    q0.x
                } else {
                    q1.x
                },
                y: if q0.y >= q1.y {
                    q0.y
                } else {
                    q1.y
                },
            };
            if k == 0 {
                lo = s_lo;
                hi = s_hi;
            } else {
                lo = PlotPoint {
                    x: if lo.x <= s_lo.x {
                        lo.x
                    } else {
                        s_lo.x
                    },
                    y: if lo.y <= s_lo.y {
                        lo.y
                    } else {
                        s_lo.y
                    },
                };
                hi = PlotPoint {
                    x: if hi.x >= s_hi.x {
                        hi.x
                    } else {
                        s_hi.x
                    },
                    y: if hi.y >= s_hi.y {
                        hi.y
                    } else {
                        s_hi.y
                    },
                };
            }
        }
        proof {
            assert(self.segs@.take(n as int) =~= self.segs@);
        }
        (lo, hi)
    }

    /// Snapshot the scene as a plot: strokes grouped into layers by pen,
    /// pens in ascending order, each stroke quantized to the plot grid in
    /// scene order; the plot records the scene's envelope and an origin at
    /// (0, 0).
    pub fn to_plot(&self) -> (r: Plot)
        requires
            self.wf(),
        ensures
            r.origin == (PlotPoint { x: 0, y: 0 }),
            r.lower_bound == spec_bounds_lo(self.segs@),
            r.upper_bound == spec_bounds_hi(self.segs@),
            forall|i: int, j: int|
                0 <= i < j < r.layers@.len() ==> r.layers@[i].pen < r.layers@[j].pen,
            forall|i: int|
                0 <= i < r.layers@.len() ==> scene_has_pen(self.segs@, (#[trigger] r.layers@[i]).pen),
            forall|k: int|
                0 <= k < self.segs@.len() ==> plot_has_pen(
                    r.layers@,
                    (#[trigger] self.segs@[k]).base.pen,
                ),
            forall|i: int|
                0 <= i < r.layers@.len() ==> (#[trigger] r.layers@[i]).lines@ == spec_pen_lines(
                    self.segs@,
                    r.layers@[i].pen,
                ),
            r.wf(),
    {
        let (lo, hi) = self.bounds();
        let pens = self.collect_pens();
        let mut layers: Vec<Layer> = Vec::new();
        let np: usize = pens.len();
        for pi in 0..np
            invariant
                np == pens@.len(),
                self.wf(),
                forall|i: int, j: int| 0 <= i < j < pens@.len() ==> pens@[i] < pens@[j],
                forall|i: int|
                    0 <= i < pens@.len() ==> scene_has_pen(self.segs@, #[trigger] pens@[i]),
                layers@.len() == pi,
                forall|i: int| 0 <= i < pi ==> (#[trigger] layers@[i]).pen == pens@[i],
                forall|i: int|
                    0 <= i < pi ==> (#[trigger] layers@[i]).lines@ == spec_pen_lines(
                        self.segs@,
                        pens@[i],
                    ),
                forall|i: int| 0 <= i < pi ==> (#[trigger] layers@[i]).wf(),
        {
            let p = pens[pi];
            let lines = self.pen_lines(p);
            layers.push(Layer { lines, pen: p });
        }
        proof {
            assert forall|k: int| 0 <= k < self.segs@.len() implies plot_has_pen(
                layers@,
                (#[trigger] self.segs@[k]).base.pen,
            ) by {
                let p = self.segs@[k].base.pen;
                assert(pens_contain(pens@, p));
                let i = choose|i: int| 0 <= i < pens@.len() && pens@[i] == p;
                assert(layers@[i].pen == p);
            }
        }
        Plot::new(layers, lo, hi)
    }

    /// The distinct pens used in the scene, in ascending order.
    fn collect_pens(&self) -> (pens: Vec<usize>)
        ensures
            forall|i: int, j: int| 0 <= i < j < pens@.len() ==> pens@[i] < pens@[j],
            forall|i: int| 0 <= i < pens@.len() ==> scene_has_pen(self.segs@, #[trigger] pens@[i]),
            forall|k: int|
                0 <= k < self.segs@.len() ==> pens_contain(
                    pens@,
                    (#[trigger] self.segs@[k]).base.pen,
                ),
    {
        let mut pens: Vec<usize> = Vec::new();
        let n: usize = self.segs.len();
        for k in 0..n
            invariant
                n == self.segs@.len(),
                forall|i: int, j: int| 0 <= i < j < pens@.len() ==> pens@[i] < pens@[j],
                forall|i: int|
                    0 <= i < pens@.len() ==> scene_has_pen(
                        self.segs@.take(k as int),
                        #[trigger] pens@[i],
                    ),
                forall|m: int|
                    0 <= m < k ==> pens_contain(pens@, (#[trigger] self.segs@[m]).base.pen),
        {
            let p = self.segs[k].base.pen;
            let ghost pens_before = pens@;
            let mut pos: usize = 0;
            while pos < pens.len() && pens[pos] < p
                invariant
                    pos <= pens@.len(),
                    forall|m: int| 0 <= m < pos ==> pens@[m] < p,
                    pens@ == pens_before,
                decreases pens@.len() - pos,
            {
                pos = pos + 1;
            }
            let already = pos < pens.len() && pens[pos] == p;
            if !already {
                pens.insert(pos, p);
                proof {
                    vstd::seq::Seq::insert_ensures(pens_before, pos as int, p);
                    assert forall|i: int, j: int| 0 <= i < j < pens@.len() implies pens@[i]
                        < pens@[j] by {
                        if j < pos {
                        } else if i > pos {
                        } else if i == pos && j > pos {
                            assert(pens@[j] == pens_before[j - 1]);
                            assert(!(pens_before[pos as int] < p));
                            assert(pens_before[pos as int] != p);
                        } else if j == pos {
                            assert(pens@[i] == pens_before[i]);
                        } else {
                            // i < pos < j
                            assert(pens@[i] == pens_before[i]);
                            assert(pens@[j] == pens_before[j - 1]);
                            assert(!(pens_before[pos as int] < p));
                            assert(pens_before[pos as int] != p);
                        }
                    }
                }
            }
            proof {
                assert(self.segs@.take(k + 1)[k as int] == self.segs@[k as int]);
                assert(pens_contain(pens@, p)) by {
                    if already {
                        assert(pens@[pos as int] == p);
                    } else {
                        assert(pens@[pos as int] == p);
                    }
                }
                assert forall|m: int| 0 <= m < k + 1 implies pens_contain(
                    pens@,
                    (#[trigger] self.segs@[m]).base.pen,
                ) by {
                    if m < k {
                        let q = self.segs@[m].base.pen;
                        let i = choose|i: int| 0 <= i < pens_before.len() && pens_before[i] == q;
                        if already {
                            assert(pens@[i] == q);
                        } else {
                            if i < pos {
                                assert(pens@[i] == q);
                            } else {
                                assert(pens@[i + 1] == q);
                            }
                        }
                    }
                }
                assert forall|i: int| 0 <= i < pens@.len() implies scene_has_pen(
                    self.segs@.take(k + 1),
                    #[trigger] pens@[i],
                ) by {
                    let q = pens@[i];
                    if already || (i != pos) {
                        let iold: int = if already {
                            i
                        } else if i < pos {
                            i
                        } else {
                            i - 1
                        };
                        assert(pens_before[iold] == q);
                        assert(scene_has_pen(self.segs@.take(k as int), q));
                        let m = choose|m: int|
                            0 <= m < self.segs@.take(k as int).len() && (#[trigger] self.segs@.take(
                                k as int,
                            )[m]).base.pen == q;
                        assert(self.segs@.take(k + 1)[m].base.pen == q);
                    } else {
                        assert(self.segs@.take(k + 1)[k as int].base.pen == p);
                    }
                }
            }
        }
        proof {
            assert(self.segs@.take(n as int) =~= self.segs@);
        }
        pens
    }

    /// The quantized strokes of one pen, in scene order.
    fn pen_lines(&self, p: usize) -> (lines: Vec<PlotSegment>)
        requires
            self.wf(),
        ensures
            lines@ == spec_pen_lines(self.segs@, p),
            forall|i: int| 0 <= i < lines@.len() ==> (#[trigger] lines@[i]).wf(),
    {
        let mut lines: Vec<PlotSegment> = Vec::new();
        let n: usize = self.segs.len();
        proof {
            assert(self.segs@.take(0) =~= Seq::<SceneSeg>::empty());
        }
        for k in 0..n
            invariant
                n == self.segs@.len(),
                self.wf(),
                lines@ == spec_pen_lines(self.segs@.take(k as int), p),
                forall|i: int| 0 <= i < lines@.len() ==> (#[trigger] lines@[i]).wf(),
        {
            let s = self.segs[k];
            proof {
                assert(self.segs@.take(k + 1).drop_last() =~= self.segs@.take(k as int));
                assert(self.segs@.take(k + 1).last() == self.segs@[k as int]);
            }
            if s.base.pen == p {
                proof {
                    lemma_frac_lt_le_trans(s.t0, s.t1, frac_one());
                    lemma_frac_le_lt_trans(frac_zero(), s.t0, s.t1);
                }
                let q0 = quant_point(&s.base, &s.t0);
                let q1 = quant_point(&s.base, &s.t1);
                proof {
                    assert(q0 == quant_start(self.segs@[k as int]));
                    assert(q1 == quant_end(self.segs@[k as int]));
                }
                lines.push(PlotSegment { c1: q0, c2: q1 });
                proof {
                    assert(lines@ =~= spec_pen_lines(self.segs@.take(k + 1), p));
                }
            } else {
                proof {
                    assert(lines@ =~= spec_pen_lines(self.segs@.take(k + 1), p));
                }
            }
        }
        proof {
            assert(self.segs@.take(n as int) =~= self.segs@);
        }
        lines
    }
}

} // verus!

verus! {

/// The crossings are in non-decreasing order of fraction.
pub open spec fn crossings_sorted(cs: Seq<Crossing>) -> bool {
    forall|i: int, j: int|
        0 <= i <= j < cs.len() ==> #[trigger] cs[i].t.spec_le(#[trigger] cs[j].t)
}

/// A lower bound on a crossing run survives stable insertion of a bounded
/// element.
proof fn lemma_insert_sorted_lower(c: Crossing, s: Seq<Crossing>, x: Frac)
    requires
        x.spec_le(c.t),
        forall|k: int| 0 <= k < s.len() ==> x.spec_le((#[trigger] s[k]).t),
    ensures
        forall|k: int|
            0 <= k < insert_sorted(c, s).len() ==> x.spec_le((#[trigger] insert_sorted(c, s)[k]).t),
    decreases s.len(),
{
    if s.len() == 0 {
        assert(insert_sorted(c, s) =~= seq![c]);
    } else if s[0].t.spec_le(c.t) {
        lemma_insert_sorted_lower(c, s.drop_first(), x);
        let rest = insert_sorted(c, s.drop_first());
        assert forall|k: int| 0 <= k < insert_sorted(c, s).len() implies x.spec_le(
            (#[trigger] insert_sorted(c, s)[k]).t,
        ) by {
            if k == 0 {
                assert(insert_sorted(c, s)[k] == s[0]);
            } else {
                assert(insert_sorted(c, s)[k] == rest[k - 1]);
            }
        }
    } else {
        assert forall|k: int| 0 <= k < insert_sorted(c, s).len() implies x.spec_le(
            (#[trigger] insert_sorted(c, s)[k]).t,
        ) by {
            if k == 0 {
                assert(insert_sorted(c, s)[k] == c);
            } else {
                assert(insert_sorted(c, s)[k] == s[k - 1]);
            }
        }
    }
}

/// Stable insertion keeps the run sorted.
proof fn lemma_insert_sorted_is_sorted(c: Crossing, s: Seq<Crossing>)
    requires
        crossings_sorted(s),
        c.t.wf(),
        forall|k: int| 0 <= k < s.len() ==> (#[trigger] s[k]).t.wf(),
    ensures
        crossings_sorted(insert_sorted(c, s)),
    decreases s.len(),
{
    if s.len() == 0 {
        assert(insert_sorted(c, s) =~= seq![c]);
    } else if s[0].t.spec_le(c.t) {
        assert(crossings_sorted(s.drop_first()));
        lemma_insert_sorted_is_sorted(c, s.drop_first());
        assert forall|k: int|
            0 <= k < s.drop_first().len() implies s[0].t.spec_le(
            (#[trigger] s.drop_first()[k]).t,
        ) by {
            assert(s.drop_first()[k] == s[k + 1]);
        }
        lemma_insert_sorted_lower(c, s.drop_first(), s[0].t);
        let rest = insert_sorted(c, s.drop_first());
        assert forall|i: int, j: int|
            0 <= i <= j < insert_sorted(c, s).len() implies #[trigger] insert_sorted(c, s)[
            i
        ].t.spec_le(#[trigger] insert_sorted(c, s)[j].t) by {
            if i == 0 {
                if j == 0 {
                } else {
                    assert(insert_sorted(c, s)[j] == rest[j - 1]);
                }
            } else {
                assert(insert_sorted(c, s)[i] == rest[i - 1]);
                assert(insert_sorted(c, s)[j] == rest[j - 1]);
            }
        }
    } else {
        lemma_frac_order(s[0].t, c.t);
        assert forall|i: int, j: int|
            0 <= i <= j < insert_sorted(c, s).len() implies #[trigger] insert_sorted(c, s)[
            i
        ].t.spec_le(#[trigger] insert_sorted(c, s)[j].t) by {
            if i == 0 {
                if j > 0 {
                    assert(insert_sorted(c, s)[j] == s[j - 1]);
                    assert(c.t.spec_lt(s[0].t));
                    assert(s[0].t.spec_le(s[j - 1].t));
                    lemma_frac_lt_le_trans(c.t, s[0].t, s[j - 1].t);
                }
            } else {
                assert(insert_sorted(c, s)[i] == s[i - 1]);
                assert(insert_sorted(c, s)[j] == s[j - 1]);
            }
        }
    }
}

/// The insertion sort sorts.
proof fn lemma_sort_crossings_sorted(cs: Seq<Crossing>)
    requires
        forall|k: int| 0 <= k < cs.len() ==> (#[trigger] cs[k]).t.wf(),
    ensures
        crossings_sorted(sort_crossings(cs)),
    decreases cs.len(),
{
    if cs.len() > 0 {
        lemma_sort_crossings_sorted(cs.drop_last());
        lemma_sort_crossings_wf(cs.drop_last());
        lemma_insert_sorted_is_sorted(cs.last(), sort_crossings(cs.drop_last()));
    }
}

/// Every piece the walk emits lies on the walked stroke's base segment.
proof fn lemma_walk_base(
    base: LineSegment,
    cs: Seq<Crossing>,
    cursor: Frac,
    draw: bool,
    prev: Option<bool>,
    t0: Frac,
    t1: Frac,
)
    ensures
        forall|i: int|
            0 <= i < spec_walk(base, cs, cursor, draw, prev, t0, t1).len() ==> (#[trigger] spec_walk(
                base,
                cs,
                cursor,
                draw,
                prev,
                t0,
                t1,
            )[i]).base == base,
    decreases cs.len(),
{
    let result = spec_walk(base, cs, cursor, draw, prev, t0, t1);
    if cs.len() > 0 {
        let c = cs[0];
        let draw2 = if toggles(prev, c.dir) {
            !draw
        } else {
            draw
        };
        lemma_walk_base(base, cs.drop_first(), c.t, draw2, Some(c.dir), t0, t1);
        let rest = spec_walk(base, cs.drop_first(), c.t, draw2, Some(c.dir), t0, t1);
        let lo = frac_max(cursor, t0);
        let hi = frac_min(c.t, t1);
        let emits = draw && lo.spec_lt(hi);
        assert forall|i: int| 0 <= i < result.len() implies (#[trigger] result[i]).base
            == base by {
            if emits && i == 0 {
                assert(result[i] == (SceneSeg { base, t0: lo, t1: hi }));
            } else {
                let ri = if emits {
                    i - 1
                } else {
                    i
                };
                assert(result[i] == rest[ri]);
            }
        }
    }
}

/// Every piece the walk emits starts at or after the walk's starting
/// cursor, provided no crossing lies before it.
proof fn lemma_walk_lo_bound(
    base: LineSegment,
    cs: Seq<Crossing>,
    cursor: Frac,
    draw: bool,
    prev: Option<bool>,
    t0: Frac,
    t1: Frac,
)
    requires
        cursor.wf(),
        t0.wf(),
        t1.wf(),
        forall|k: int| 0 <= k < cs.len() ==> (#[trigger] cs[k]).t.wf(),
        crossings_sorted(cs),
        forall|k: int| 0 <= k < cs.len() ==> cursor.spec_le((#[trigger] cs[k]).t),
    ensures
        forall|i: int|
            0 <= i < spec_walk(base, cs, cursor, draw, prev, t0, t1).len() ==> cursor.spec_le(
                (#[trigger] spec_walk(base, cs, cursor, draw, prev, t0, t1)[i]).t0,
            ),
        forall|i: int|
            0 <= i < spec_walk(base, cs, cursor, draw, prev, t0, t1).len() ==> (
            #[trigger] spec_walk(base, cs, cursor, draw, prev, t0, t1)[i]).t0.wf(),
    decreases cs.len(),
{
    let result = spec_walk(base, cs, cursor, draw, prev, t0, t1);
    if cs.len() == 0 {
        if draw && frac_max(cursor, t0).spec_lt(t1) {
            assert(cursor.spec_le(frac_max(cursor, t0))) by {
                lemma_frac_order(cursor, t0);
            }
        }
    } else {
        let c = cs[0];
        let draw2 = if toggles(prev, c.dir) {
            !draw
        } else {
            draw
        };
        assert(crossings_sorted(cs.drop_first()));
        assert forall|k: int| 0 <= k < cs.drop_first().len() implies c.t.spec_le(
            (#[trigger] cs.drop_first()[k]).t,
        ) by {
            assert(cs.drop_first()[k] == cs[k + 1]);
        }
        lemma_walk_lo_bound(base, cs.drop_first(), c.t, draw2, Some(c.dir), t0, t1);
        let rest = spec_walk(base, cs.drop_first(), c.t, draw2, Some(c.dir), t0, t1);
        let lo = frac_max(cursor, t0);
        let hi = frac_min(c.t, t1);
        let emits = draw && lo.spec_lt(hi);
        assert forall|i: int| 0 <= i < result.len() implies cursor.spec_le(
            (#[trigger] result[i]).t0,
        ) && result[i].t0.wf() by {
            if emits && i == 0 {
                assert(result[i] == (SceneSeg { base, t0: lo, t1: hi }));
                lemma_frac_order(cursor, t0);
            } else {
                let ri = if emits {
                    i - 1
                } else {
                    i
                };
                assert(result[i] == rest[ri]);
                assert(c.t.spec_le(rest[ri].t0));
                assert(rest[ri].t0.wf());
                lemma_frac_le_trans(cursor, c.t, rest[ri].t0);
            }
        }
    }
}

/// A walk whose clip already lies behind the cursor, and behind every
/// crossing, emits nothing.
proof fn lemma_walk_empty(
    base: LineSegment,
    cs: Seq<Crossing>,
    cursor: Frac,
    draw: bool,
    prev: Option<bool>,
    a: Frac,
    b: Frac,
)
    requires
        cursor.wf(),
        a.wf(),
        b.wf(),
        forall|k: int| 0 <= k < cs.len() ==> (#[trigger] cs[k]).t.wf(),
        b.spec_le(cursor),
        forall|k: int| 0 <= k < cs.len() ==> b.spec_le((#[trigger] cs[k]).t),
    ensures
        spec_walk(base, cs, cursor, draw, prev, a, b) =~= Seq::<SceneSeg>::empty(),
    decreases cs.len(),
{
    let lo = frac_max(cursor, a);
    assert(cursor.spec_le(lo)) by {
        lemma_frac_order(cursor, a);
    }
    lemma_frac_le_trans(b, cursor, lo);
    if cs.len() == 0 {
        lemma_frac_order(lo, b);
    } else {
        let c = cs[0];
        let hi = frac_min(c.t, b);
        assert(hi.spec_le(b)) by {
            lemma_frac_order(c.t, b);
        }
        lemma_frac_le_trans(hi, b, lo);
        lemma_frac_order(lo, hi);
        let draw2 = if toggles(prev, c.dir) {
            !draw
        } else {
            draw
        };
        assert forall|k: int| 0 <= k < cs.drop_first().len() implies b.spec_le(
            (#[trigger] cs.drop_first()[k]).t,
        ) by {
            assert(cs.drop_first()[k] == cs[k + 1]);
        }
        lemma_walk_empty(base, cs.drop_first(), c.t, draw2, Some(c.dir), a, b);
    }
}

} // verus!

verus! {

/// Re-walking the same sorted crossings, clipped to one piece the walk
/// emitted, reproduces exactly that piece.  The draw-state sequence does
/// not depend on the clip interval; every crossing handled before the
/// piece lies at or before its start and every one handled after lies at
/// or after its end, so all other emissions clip away.
proof fn lemma_walk_restart(
    base: LineSegment,
    cs: Seq<Crossing>,
    cursor1: Frac,
    cursor2: Frac,
    draw: bool,
    prev: Option<bool>,
    t0: Frac,
    t1: Frac,
    idx: int,
)
    requires
        cursor1.wf(),
        cursor2.wf(),
        t0.wf(),
        t1.wf(),
        forall|k: int| 0 <= k < cs.len() ==> (#[trigger] cs[k]).t.wf(),
        crossings_sorted(cs),
        0 <= idx < spec_walk(base, cs, cursor1, draw, prev, t0, t1).len(),
        cursor2 == spec_walk(base, cs, cursor1, draw, prev, t0, t1)[idx].t0 || cursor2 == cursor1,
    ensures
        spec_walk(
            base,
            cs,
            cursor2,
            draw,
            prev,
            spec_walk(base, cs, cursor1, draw, prev, t0, t1)[idx].t0,
            spec_walk(base, cs, cursor1, draw, prev, t0, t1)[idx].t1,
        ) =~= seq![spec_walk(base, cs, cursor1, draw, prev, t0, t1)[idx]],
    decreases cs.len(),
{
    let w1 = spec_walk(base, cs, cursor1, draw, prev, t0, t1);
    let p = w1[idx];
    let a = p.t0;
    let b = p.t1;
    if cs.len() == 0 {
        assert(draw && frac_max(cursor1, t0).spec_lt(t1));
        assert(w1 =~= seq![SceneSeg { base, t0: frac_max(cursor1, t0), t1 }]);
        assert(idx == 0);
        assert(a == frac_max(cursor1, t0) && b == t1);
        assert(frac_max(cursor2, a) == a) by {
            if cursor2 == cursor1 {
                if cursor1.spec_lt(t0) {
                } else {
                }
            }
        }
        assert(spec_walk(base, cs, cursor2, draw, prev, a, b) =~= seq![
            SceneSeg { base, t0: a, t1: b },
        ]);
    } else {
        let c = cs[0];
        let lo = frac_max(cursor1, t0);
        let hi = frac_min(c.t, t1);
        let emits = draw && lo.spec_lt(hi);
        let draw2 = if toggles(prev, c.dir) {
            !draw
        } else {
            draw
        };
        let rest1 = spec_walk(base, cs.drop_first(), c.t, draw2, Some(c.dir), t0, t1);
        assert(crossings_sorted(cs.drop_first()));
        assert forall|k: int| 0 <= k < cs.drop_first().len() implies c.t.spec_le(
            (#[trigger] cs.drop_first()[k]).t,
        ) by {
            assert(cs.drop_first()[k] == cs[k + 1]);
        }
        if emits && idx == 0 {
            assert(p == (SceneSeg { base, t0: lo, t1: hi }));
            assert(frac_max(cursor2, a) == a) by {
                if cursor2 == cursor1 {
                    if cursor1.spec_lt(t0) {
                    } else {
                    }
                }
            }
            assert(frac_min(c.t, b) == b) by {
                if t1.spec_lt(c.t) {
                } else {
                }
            }
            assert(b.spec_le(c.t)) by {
                if t1.spec_lt(c.t) {
                } else {
                }
            }
            assert forall|k: int| 0 <= k < cs.drop_first().len() implies b.spec_le(
                (#[trigger] cs.drop_first()[k]).t,
            ) by {
                assert(cs.drop_first()[k] == cs[k + 1]);
                assert(c.t.spec_le(cs[k + 1].t));
                lemma_frac_le_trans(b, c.t, cs[k + 1].t);
            }
            lemma_walk_empty(base, cs.drop_first(), c.t, draw2, Some(c.dir), a, b);
            assert(spec_walk(base, cs, cursor2, draw, prev, a, b) =~= seq![p]);
        } else {
            let ridx = if emits {
                idx - 1
            } else {
                idx
            };
            assert(p == rest1[ridx]);
            lemma_walk_lo_bound(base, cs.drop_first(), c.t, draw2, Some(c.dir), t0, t1);
            assert(c.t.spec_le(a));
            assert(a.wf());
            assert(b.wf()) by {
                lemma_walk_t1_wf(base, cs.drop_first(), c.t, draw2, Some(c.dir), t0, t1);
            }
            let lo2 = frac_max(cursor2, a);
            let hi2 = frac_min(c.t, b);
            assert(a.spec_le(lo2)) by {
                lemma_frac_order(cursor2, a);
            }
            assert(hi2.spec_le(c.t)) by {
                lemma_frac_order(b, c.t);
            }
            lemma_frac_le_trans(hi2, c.t, a);
            lemma_frac_le_trans(hi2, a, lo2);
            lemma_frac_order(hi2, lo2);
            assert(!lo2.spec_lt(hi2));
            lemma_walk_restart(
                base,
                cs.drop_first(),
                c.t,
                c.t,
                draw2,
                Some(c.dir),
                t0,
                t1,
                ridx,
            );
            assert(spec_walk(base, cs, cursor2, draw, prev, a, b) =~= seq![p]);
        }
    }
}

/// Every piece the walk emits has a well-formed end fraction.
proof fn lemma_walk_t1_wf(
    base: LineSegment,
    cs: Seq<Crossing>,
    cursor: Frac,
    draw: bool,
    prev: Option<bool>,
    t0: Frac,
    t1: Frac,
)
    requires
        cursor.wf(),
        t0.wf(),
        t1.wf(),
        forall|k: int| 0 <= k < cs.len() ==> (#[trigger] cs[k]).t.wf(),
    ensures
        forall|i: int|
            0 <= i < spec_walk(base, cs, cursor, draw, prev, t0, t1).len() ==> (
            #[trigger] spec_walk(base, cs, cursor, draw, prev, t0, t1)[i]).t1.wf(),
    decreases cs.len(),
{
    let result = spec_walk(base, cs, cursor, draw, prev, t0, t1);
    if cs.len() > 0 {
        let c = cs[0];
        let lo = frac_max(cursor, t0);
        let hi = frac_min(c.t, t1);
        let emits = draw && lo.spec_lt(hi);
        let draw2 = if toggles(prev, c.dir) {
            !draw
        } else {
            draw
        };
        lemma_walk_t1_wf(base, cs.drop_first(), c.t, draw2, Some(c.dir), t0, t1);
        let rest = spec_walk(base, cs.drop_first(), c.t, draw2, Some(c.dir), t0, t1);
        assert forall|i: int| 0 <= i < result.len() implies (#[trigger] result[i]).t1.wf() by {
            if emits && i == 0 {
                assert(result[i] == (SceneSeg { base, t0: lo, t1: hi }));
            } else {
                let ri = if emits {
                    i - 1
                } else {
                    i
                };
                assert(result[i] == rest[ri]);
            }
        }
    }
}

/// A stroke that a fill emitted is left exactly as it is by filling the
/// same polygon's edges again.
proof fn lemma_visible_piece_stable(seg: SceneSeg, edges: Seq<LineSegment>, i: int)
    requires
        seg.wf(),
        forall|j: int| 0 <= j < edges.len() ==> (#[trigger] edges[j]).wf(),
        0 <= i < spec_visible(seg, edges).len(),
    ensures
        spec_visible(spec_visible(seg, edges)[i], edges) =~= seq![spec_visible(seg, edges)[i]],
{
    let cs = seg_crossings(seg.base, edges);
    let sorted = sort_crossings(cs);
    let p = spec_visible(seg, edges)[i];
    lemma_spec_visible_wf(seg, edges);
    assert(p.wf());
    if !has_inter(cs, seg.t0, seg.t1) && (!has_pre(cs, seg.t0) || !has_post(cs, seg.t1)) {
        assert(spec_visible(seg, edges) =~= seq![seg]);
        assert(p == seg);
    } else {
        lemma_seg_crossings_wf(seg.base, edges);
        lemma_sort_crossings_wf(cs);
        lemma_sort_crossings_sorted(cs);
        lemma_walk_base(seg.base, sorted, seg.t0, true, None, seg.t0, seg.t1);
        assert(p.base == seg.base);
        let cs_p = seg_crossings(p.base, edges);
        assert(cs_p == cs);
        if !has_inter(cs, p.t0, p.t1) && (!has_pre(cs, p.t0) || !has_post(cs, p.t1)) {
            assert(spec_visible(p, edges) =~= seq![p]);
        } else {
            lemma_walk_restart(
                seg.base,
                sorted,
                seg.t0,
                p.t0,
                true,
                None,
                seg.t0,
                seg.t1,
                i,
            );
            assert(spec_visible(p, edges) =~= seq![p]);
        }
    }
}

/// A fill distributes over concatenation of the stored strokes.
proof fn lemma_fill_concat(s1: Seq<SceneSeg>, s2: Seq<SceneSeg>, edges: Seq<LineSegment>)
    ensures
        spec_fill(s1 + s2, edges) =~= spec_fill(s1, edges) + spec_fill(s2, edges),
    decreases s2.len(),
{
    if s2.len() == 0 {
        assert(s1 + s2 =~= s1);
        assert(spec_fill(s2, edges) =~= Seq::<SceneSeg>::empty());
    } else {
        assert((s1 + s2).drop_last() =~= s1 + s2.drop_last());
        assert((s1 + s2).last() == s2.last());
        lemma_fill_concat(s1, s2.drop_last(), edges);
    }
}

/// Filling leaves a run of strokes unchanged when it leaves each of them
/// unchanged.
proof fn lemma_fill_fixed(w: Seq<SceneSeg>, edges: Seq<LineSegment>)
    requires
        forall|i: int|
            0 <= i < w.len() ==> spec_visible(#[trigger] w[i], edges) =~= seq![w[i]],
    ensures
        spec_fill(w, edges) =~= w,
    decreases w.len(),
{
    if w.len() > 0 {
        assert(forall|i: int|
            0 <= i < w.drop_last().len() ==> spec_visible(#[trigger] w.drop_last()[i], edges)
                =~= seq![w.drop_last()[i]]);
        lemma_fill_fixed(w.drop_last(), edges);
    }
}

/// Covering is monotonic: filling the same polygon's edges a second time
/// is a no-op — no further strokes are removed or added, in place or out.
pub proof fn lemma_fill_idempotent(segs: Seq<SceneSeg>, edges: Seq<LineSegment>)
    requires
        forall|i: int| 0 <= i < segs.len() ==> (#[trigger] segs[i]).wf(),
        forall|j: int| 0 <= j < edges.len() ==> (#[trigger] edges[j]).wf(),
    ensures
        spec_fill(spec_fill(segs, edges), edges) =~= spec_fill(segs, edges),
    decreases segs.len(),
{
    if segs.len() > 0 {
        let seg = segs.last();
        let v = spec_visible(seg, edges);
        lemma_fill_idempotent(segs.drop_last(), edges);
        lemma_fill_concat(spec_fill(segs.drop_last(), edges), v, edges);
        assert forall|i: int| 0 <= i < v.len() implies spec_visible(#[trigger] v[i], edges)
            =~= seq![v[i]] by {
            lemma_visible_piece_stable(seg, edges, i);
        }
        lemma_fill_fixed(v, edges);
    }
}

} // verus!
