//! Tests for the cost model, the greedy optimizer, and draw modes.

use scenelib::draw_mode::DrawMode;
use scenelib::draw_mode::default_fills;
use scenelib::draw_mode::fill_only;
use scenelib::draw_mode::pen;
use scenelib::draw_mode::stroke;
use scenelib::optimizer::greedy_optimize;
use scenelib::plot::Layer;
use scenelib::plot::Plot;
use scenelib::plot::PlotPoint;
use scenelib::plot::PlotSegment;
use scenelib::plot::distance;
use scenelib::plot::isqrt;
use scenelib::plot::PlotCost;

/// One fixed-point grid step per scene unit boundary.
const S: i64 = 65536;

fn seg(x1: i64, y1: i64, x2: i64, y2: i64) -> PlotSegment {
    PlotSegment { c1: PlotPoint { x: x1, y: y1 }, c2: PlotPoint { x: x2, y: y2 } }
}

#[test]
fn test_isqrt_exact_values() {
    assert_eq!(isqrt(0), 0);
    assert_eq!(isqrt(1), 1);
    assert_eq!(isqrt(2), 1);
    assert_eq!(isqrt(3), 1);
    assert_eq!(isqrt(4), 2);
    assert_eq!(isqrt(99), 9);
    assert_eq!(isqrt(100), 10);
    assert_eq!(isqrt(4294967295), 65535);
}

#[test]
fn test_distance_exact_values() {
    let o = PlotPoint { x: 0, y: 0 };
    assert_eq!(distance(&o, &PlotPoint { x: 3, y: 4 }), 5);
    assert_eq!(distance(&o, &PlotPoint { x: -3, y: 4 }), 5);
    assert_eq!(distance(&o, &PlotPoint { x: 1, y: 1 }), 1); // floor of sqrt(2)
    assert_eq!(distance(&o, &o), 0);
}

#[test]
fn test_layer_cost_walk() {
    // One 3-4-5 stroke starting at the origin: no pen-up move at the
    // start, a 5-unit draw, and a 5-unit return trip.
    let layer = Layer { lines: vec![seg(0, 0, 3 * S, 4 * S)], pen: 0 };
    let cost = layer.cost(PlotPoint { x: 0, y: 0 });
    assert_eq!(cost.line_cost, 5 * S as u128);
    assert_eq!(cost.move_cost, 5 * S as u128);
    assert_eq!(cost.segments, 1);
    assert_eq!(cost.moves, 0);
}

#[test]
fn test_cost_order_dependence() {
    // The same two strokes in both orders: drawn length and stroke count
    // agree, pen-up travel and the move count do not.
    let s1 = seg(0, 0, S, 0);
    let s2 = seg(2 * S, 0, 3 * S, 0);
    let origin = PlotPoint { x: 0, y: 0 };

    let a = Layer { lines: vec![s1, s2], pen: 0 }.cost(origin);
    let b = Layer { lines: vec![s2, s1], pen: 0 }.cost(origin);

    assert_eq!(a.line_cost, b.line_cost);
    assert_eq!(a.segments, b.segments);
    assert_eq!(a.line_cost, 2 * S as u128);

    // Order a: draw, hop one unit, draw, return three units.
    assert_eq!(a.move_cost, 4 * S as u128);
    assert_eq!(a.moves, 1);
    // Order b: hop two units, draw, hop three units back, draw, return one.
    assert_eq!(b.move_cost, 6 * S as u128);
    assert_eq!(b.moves, 2);
    assert_ne!(a.move_cost, b.move_cost);
    assert_ne!(a.moves, b.moves);
}

#[test]
fn test_plot_cost_sums_layers() {
    let origin_layer =
        |lines: Vec<PlotSegment>, p: usize| Layer { lines, pen: p };
    let plot = Plot::new(
        vec![
            origin_layer(vec![seg(0, 0, 3 * S, 4 * S)], 0),
            origin_layer(vec![seg(0, 0, 0, 2 * S)], 1),
        ],
        PlotPoint { x: 0, y: 0 },
        PlotPoint { x: 3 * S, y: 4 * S },
    );
    let cost = plot.cost();
    assert_eq!(cost.line_cost, 7 * S as u128);
    // Each layer returns to the origin on its own.
    assert_eq!(cost.move_cost, 7 * S as u128);
    assert_eq!(cost.segments, 2);
    assert_eq!(cost.moves, 0);
}

#[test]
fn test_plot_cost_add_default() {
    let zero = PlotCost::default();
    assert_eq!(zero.move_cost, 0);
    assert_eq!(zero.line_cost, 0);
    assert_eq!(zero.segments, 0);
    assert_eq!(zero.moves, 0);
    let a = PlotCost { move_cost: 1, line_cost: 2, segments: 3, moves: 4 };
    let b = PlotCost { move_cost: 10, line_cost: 20, segments: 30, moves: 40 };
    let c = a.add(&b);
    assert_eq!(c.move_cost, 11);
    assert_eq!(c.line_cost, 22);
    assert_eq!(c.segments, 33);
    assert_eq!(c.moves, 44);
}

#[test]
fn test_greedy_optimize_orders_nearest_first() {
    let far = seg(10 * S, 0, 20 * S, 0);
    let near = seg(0, 0, 5 * S, 0);
    let layer = Layer { lines: vec![far, near], pen: 7 };
    let out = greedy_optimize(layer, PlotPoint { x: 0, y: 0 });
    assert_eq!(out.pen, 7);
    assert_eq!(out.lines, vec![near, far]);
}

#[test]
fn test_greedy_optimize_reverses_when_nearer() {
    // The stroke's far end is written first; the optimizer draws it from
    // its near end.
    let layer = Layer { lines: vec![seg(5 * S, 0, S, 0)], pen: 0 };
    let out = greedy_optimize(layer, PlotPoint { x: 0, y: 0 });
    assert_eq!(out.lines, vec![seg(S, 0, 5 * S, 0)]);
}

#[test]
fn test_greedy_optimize_keeps_all_strokes() {
    // Every input stroke appears exactly once in the output, as the same
    // unordered endpoint pair, possibly reversed.
    let input = vec![
        seg(9 * S, 9 * S, 8 * S, 8 * S),
        seg(0, 0, S, 0),
        seg(5 * S, 0, 4 * S, S),
        seg(S, 0, 0, 0),
    ];
    let layer = Layer { lines: input.clone(), pen: 0 };
    let out = greedy_optimize(layer, PlotPoint { x: 0, y: 0 });
    assert_eq!(out.lines.len(), input.len());

    let unordered = |s: &PlotSegment| {
        let a = (s.c1.x, s.c1.y);
        let b = (s.c2.x, s.c2.y);
        if b < a { (b, a) } else { (a, b) }
    };
    let mut got: Vec<_> = out.lines.iter().map(unordered).collect();
    let mut want: Vec<_> = input.iter().map(unordered).collect();
    got.sort();
    want.sort();
    assert_eq!(got, want);
}

#[test]
fn test_optimize_shrinks_travel() {
    // A deliberately bad order: optimization never increases pen-up
    // travel here, and strictly shrinks it.
    let s1 = seg(0, 0, S, 0);
    let s2 = seg(9 * S, 0, 5 * S, 0);
    let s3 = seg(S, 0, 3 * S, 0);
    let plot = Plot::new(
        vec![Layer { lines: vec![s2, s1, s3], pen: 0 }],
        PlotPoint { x: 0, y: 0 },
        PlotPoint { x: 9 * S, y: 0 },
    );
    let before = plot.cost();
    let optimized = plot.optimize();
    let after = optimized.cost();
    assert_eq!(before.line_cost, after.line_cost);
    assert_eq!(before.segments, after.segments);
    assert!(after.move_cost < before.move_cost);
    // The tour follows the line left to right and pays only the return.
    assert_eq!(after.moves, 1);
}

#[test]
fn test_draw_modes() {
    let d = DrawMode::default();
    assert_eq!(d.pen, Some(0));
    assert!(d.fill);

    let s = stroke(4);
    assert_eq!(s.pen, Some(4));
    assert!(!s.fill);

    let f = fill_only();
    assert_eq!(f.pen, None);
    assert!(f.fill);

    let p = pen(2);
    assert_eq!(p.pen, Some(2));
    assert!(p.fill);
}

#[test]
fn test_default_fills_palette() {
    let fills = default_fills();
    assert_eq!(fills.len(), 3);
    assert_eq!(fills[0], (0, "black".to_string()));
    assert_eq!(fills[1], (1, "red".to_string()));
    assert_eq!(fills[2], (2, "blue".to_string()));
}

#[test]
fn test_plot_point_from_units() {
    let p = PlotPoint::from_units(-3, 7);
    assert_eq!(p.x, -3 * S);
    assert_eq!(p.y, 7 * S);
}
