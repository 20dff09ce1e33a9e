//! Greedy reordering of a layer's strokes to shorten pen-up travel.
//!
//! The optimizer repeatedly draws next whichever remaining stroke starts
//! nearest (by exact squared grid distance) to the pen's current position,
//! in either traversal direction; ties prefer the earliest remaining stroke
//! in its stored direction, which makes the result fully deterministic.

use vstd::prelude::*;
use vstd::multiset::Multiset;

use crate::plot::Layer;
use crate::plot::PlotPoint;
use crate::plot::PlotSegment;
use crate::plot::sq_dist;

verus! {

/// The start point of a stroke traversed forwards (`flip == false`) or
/// backwards.
pub open spec fn orient_start(s: PlotSegment, flip: bool) -> PlotPoint {
    if flip {
        s.c2
    } else {
        s.c1
    }
}

/// The end point of a stroke traversed forwards or backwards.
pub open spec fn orient_end(s: PlotSegment, flip: bool) -> PlotPoint {
    if flip {
        s.c1
    } else {
        s.c2
    }
}

/// The stroke as actually drawn under the chosen direction.
pub open spec fn oriented(s: PlotSegment, flip: bool) -> PlotSegment {
    PlotSegment { c1: orient_start(s, flip), c2: orient_end(s, flip) }
}

/// Whether the backwards traversal of `s` starts strictly nearer to
/// `cursor` than the forwards one.
pub open spec fn seg_best_flip(s: PlotSegment, cursor: PlotPoint) -> bool {
    sq_dist(cursor, s.c2) < sq_dist(cursor, s.c1)
}

/// The squared distance from `cursor` to the nearer start of `s`.
pub open spec fn seg_best_dist(s: PlotSegment, cursor: PlotPoint) -> int {
    sq_dist(cursor, orient_start(s, seg_best_flip(s, cursor)))
}

/// The index, among the first `k` strokes, of the first stroke whose
/// nearer start is nearest to `cursor`.
pub open spec fn best_in(lines: Seq<PlotSegment>, cursor: PlotPoint, k: int) -> int
    decreases k,
{
    if k <= 1 {
        0
    } else {
        let b = best_in(lines, cursor, k - 1);
        if seg_best_dist(lines[k - 1], cursor) < seg_best_dist(lines[b], cursor) {
            k - 1
        } else {
            b
        }
    }
}

/// [`best_in`] picks an index in range.
pub proof fn lemma_best_in_range(lines: Seq<PlotSegment>, cursor: PlotPoint, k: int)
    requires
        1 <= k,
    ensures
        0 <= best_in(lines, cursor, k) < k,
    decreases k,
{
    if k > 1 {
        lemma_best_in_range(lines, cursor, k - 1);
    }
}

/// The greedy tour: repeatedly draw the remaining stroke whose nearer
/// start is nearest to the pen, in its nearer direction, and move the pen
/// to that stroke's other end.
pub open spec fn spec_greedy(lines: Seq<PlotSegment>, cursor: PlotPoint) -> Seq<PlotSegment>
    decreases lines.len(),
{
    if lines.len() == 0 {
        Seq::empty()
    } else {
        let b = best_in(lines, cursor, lines.len() as int);
        // `best_in` always lands in range (see `lemma_best_in_range`); the
        // clamp only makes that evident to the termination check.
        let i = if 0 <= b < lines.len() {
            b
        } else {
            0
        };
        let chosen = oriented(lines[i], seg_best_flip(lines[i], cursor));
        seq![chosen] + spec_greedy(lines.remove(i), chosen.c2)
    }
}

/// A stroke as an unordered pair of endpoints: the endpoints in a fixed
/// (lexicographic) order, so both traversal directions map to one value.
pub open spec fn canon(s: PlotSegment) -> (PlotPoint, PlotPoint) {
    if s.c2.x < s.c1.x || (s.c2.x == s.c1.x && s.c2.y < s.c1.y) {
        (s.c2, s.c1)
    } else {
        (s.c1, s.c2)
    }
}

/// A run's strokes, each taken as an unordered pair, in order.
pub open spec fn canon_seq(lines: Seq<PlotSegment>) -> Seq<(PlotPoint, PlotPoint)> {
    lines.map_values(|s: PlotSegment| canon(s))
}

/// The multiset of a run's strokes, each taken as an unordered pair.
pub open spec fn strokes_multiset(lines: Seq<PlotSegment>) -> Multiset<(PlotPoint, PlotPoint)> {
    canon_seq(lines).to_multiset()
}

/// Reversing a stroke does not change it as an unordered pair.
pub proof fn lemma_canon_flip(s: PlotSegment, flip: bool)
    ensures
        canon(oriented(s, flip)) == canon(s),
{
}

/// Prepending an element to a sequence inserts it into the multiset.
proof fn lemma_prepend_to_multiset<T>(x: T, s: Seq<T>)
    ensures
        (seq![x] + s).to_multiset() =~= s.to_multiset().insert(x),
{
    broadcast use vstd::seq_lib::group_to_multiset_ensures;
    broadcast use vstd::multiset::group_multiset_axioms;

    let w = seq![x] + s;
    assert(w[0] == x);
    assert(w.remove(0) =~= s);
    assert(w.to_multiset().contains(x)) by {
        assert(w.contains(x));
    }
    assert(w.remove(0).to_multiset() =~= w.to_multiset().remove(w[0]));
    assert forall|y: T| true implies w.to_multiset().count(y) == s.to_multiset().insert(x).count(
        y,
    ) by {
        if y == x {
            assert(w.to_multiset().remove(x).count(x) == w.to_multiset().count(x) - 1);
        } else {
            assert(w.to_multiset().remove(x).count(y) == w.to_multiset().count(y));
        }
    }
}

/// The greedy tour returns exactly the strokes it was given: the same
/// number, and the same multiset of unordered endpoint pairs — no stroke
/// is duplicated or dropped, only reordered and possibly reversed.
pub proof fn lemma_greedy_complete(lines: Seq<PlotSegment>, cursor: PlotPoint)
    ensures
        spec_greedy(lines, cursor).len() == lines.len(),
        strokes_multiset(spec_greedy(lines, cursor)) =~= strokes_multiset(lines),
    decreases lines.len(),
{
    broadcast use vstd::seq_lib::group_to_multiset_ensures;
    broadcast use vstd::multiset::group_multiset_axioms;

    if lines.len() > 0 {
        let i = best_in(lines, cursor, lines.len() as int);
        lemma_best_in_range(lines, cursor, lines.len() as int);
        let flip = seg_best_flip(lines[i], cursor);
        let chosen = oriented(lines[i], flip);
        let rest = spec_greedy(lines.remove(i), chosen.c2);
        lemma_greedy_complete(lines.remove(i), chosen.c2);
        lemma_canon_flip(lines[i], flip);
        // Result multiset: canon(chosen) inserted into the recursive result.
        assert(canon_seq(seq![chosen] + rest) =~= seq![canon(chosen)] + canon_seq(rest));
        lemma_prepend_to_multiset(canon(chosen), canon_seq(rest));
        // Input multiset: canon(lines[i]) removed from the whole.
        assert(canon_seq(lines.remove(i)) =~= canon_seq(lines).remove(i));
        assert(canon_seq(lines).remove(i).to_multiset() =~= canon_seq(
            lines,
        ).to_multiset().remove(canon_seq(lines)[i]));
        assert(canon_seq(lines)[i] == canon(lines[i]));
        assert(canon_seq(lines).to_multiset().contains(canon(lines[i]))) by {
            assert(canon_seq(lines).contains(canon(lines[i])));
        }
        assert forall|y: (PlotPoint, PlotPoint)| true implies strokes_multiset(
            spec_greedy(lines, cursor),
        ).count(y) == strokes_multiset(lines).count(y) by {
            let whole = canon_seq(lines).to_multiset();
            assert(strokes_multiset(spec_greedy(lines, cursor)) =~= strokes_multiset(
                lines.remove(i),
            ).insert(canon(lines[i])));
            assert(strokes_multiset(lines.remove(i)) =~= whole.remove(canon(lines[i])));
            if y == canon(lines[i]) {
                assert(whole.remove(canon(lines[i])).count(y) == whole.count(y) - 1);
            } else {
                assert(whole.remove(canon(lines[i])).count(y) == whole.count(y));
            }
        }
    }
}

/// Exact squared distance between two plot points, executable.
fn sq_dist_exec(p: &PlotPoint, q: &PlotPoint) -> (r: i128)
    requires
        p.wf(),
        q.wf(),
    ensures
        r == sq_dist(*p, *q),
{
    let dx: i128 = p.x as i128 - q.x as i128;
    let dy: i128 = p.y as i128 - q.y as i128;
    proof {
        assert(0 <= dx * dx <= 1237940039285380274899124224int && 0 <= dy * dy
            <= 1237940039285380274899124224int) by (nonlinear_arith)
            requires
                -35184372088832 <= dx <= 35184372088832,
                -35184372088832 <= dy <= 35184372088832,
        ;
    }
    dx * dx + dy * dy
}

/// Reorder a layer's strokes greedily so that the pen repeatedly moves to
/// the nearest remaining stroke's nearer end, starting from `origin`.  The
/// output draws exactly the input strokes, each possibly reversed.
pub fn greedy_optimize(layer: Layer, origin: PlotPoint) -> (r: Layer)
    requires
        layer.wf(),
        origin.wf(),
    ensures
        r.pen == layer.pen,
        r.lines@ == spec_greedy(layer.lines@, origin),
        r.lines@.len() == layer.lines@.len(),
        strokes_multiset(r.lines@) == strokes_multiset(layer.lines@),
        r.wf(),
{
    let Layer { lines: mut remaining, pen } = layer;
    let mut out: Vec<PlotSegment> = Vec::new();
    let mut cursor: PlotPoint = origin;
    let ghost total = spec_greedy(remaining@, origin);
    proof {
        assert(out@ + total =~= total);
    }
    while remaining.len() > 0
        invariant
            cursor.wf(),
            forall|j: int| 0 <= j < remaining@.len() ==> (#[trigger] remaining@[j]).wf(),
            forall|j: int| 0 <= j < out@.len() ==> (#[trigger] out@[j]).wf(),
            total == out@ + spec_greedy(remaining@, cursor),
        decreases remaining@.len(),
    {
        let mut best_i: usize = 0;
        let d1 = sq_dist_exec(&cursor, &remaining[0].c1);
        let d2 = sq_dist_exec(&cursor, &remaining[0].c2);
        let mut best_flip: bool = d2 < d1;
        let mut best_d: i128 = if best_flip {
            d2
        } else {
            d1
        };
        let n = remaining.len();
        for k in 1..n
            invariant
                n == remaining@.len(),
                cursor.wf(),
                forall|j: int| 0 <= j < remaining@.len() ==> (#[trigger] remaining@[j]).wf(),
                best_i < k,
                best_i as int == best_in(remaining@, cursor, k as int),
                best_flip == seg_best_flip(remaining@[best_i as int], cursor),
                best_d == seg_best_dist(remaining@[best_i as int], cursor),
        {
            let e1 = sq_dist_exec(&cursor, &remaining[k].c1);
            let e2 = sq_dist_exec(&cursor, &remaining[k].c2);
            let cand_flip = e2 < e1;
            let cand_d = if cand_flip {
                e2
            } else {
                e1
            };
            if cand_d < best_d {
                best_i = k;
                best_flip = cand_flip;
                best_d = cand_d;
            }
        }
        proof {
            if n == 1 {
                assert(best_i as int == best_in(remaining@, cursor, n as int));
            }
        }
        let picked = remaining[best_i];
        let chosen = if best_flip {
            PlotSegment { c1: picked.c2, c2: picked.c1 }
        } else {
            picked
        };
        let ghost remaining_before = remaining@;
        let ghost cursor_before = cursor;
        let ghost out_before = out@;
        out.push(chosen);
        cursor = chosen.c2;
        remaining.remove(best_i);
        proof {
            assert(chosen == oriented(
                remaining_before[best_i as int],
                seg_best_flip(remaining_before[best_i as int], cursor_before),
            ));
            assert(spec_greedy(remaining_before, cursor_before) =~= seq![chosen] + spec_greedy(
                remaining@,
                cursor,
            ));
            assert(total =~= out@ + spec_greedy(remaining@, cursor));
        }
    }
    proof {
        assert(total =~= out@);
        lemma_greedy_complete(layer.lines@, origin);
    }
    Layer { lines: out, pen }
}

} // verus!
