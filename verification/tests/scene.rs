//! Tests for the occlusion algorithm, through the plot snapshot.

use scenelib::geom::pt;
use scenelib::line_segment::LineSegment;
use scenelib::plot::PlotPoint;
use scenelib::plot::PlotSegment;
use scenelib::polygon::Polygon;
use scenelib::scene::Scene;

/// One fixed-point grid step per scene unit boundary.
const S: i64 = 65536;

/// The strokes of the single expected layer, as `(x1, y1, x2, y2)` in
/// scene units.
fn layer0_units(sc: &Scene) -> Vec<(i64, i64, i64, i64)> {
    let plot = sc.to_plot();
    assert_eq!(plot.layers.len(), 1);
    assert_eq!(plot.layers[0].pen, 0);
    plot.layers[0]
        .lines
        .iter()
        .map(|l| (l.c1.x / S, l.c1.y / S, l.c2.x / S, l.c2.y / S))
        .collect()
}

#[test]
fn test_double_intersection() {
    let mut sc = Scene::new();

    let line = LineSegment::new(pt(0, 0), pt(10, 0));
    sc.add_segment(line);

    let poly = Polygon::new(vec![pt(10, 5), pt(5, 0), pt(10, -5), pt(15, 0)]);

    sc.fill_poly(&poly);

    assert_eq!(layer0_units(&sc), vec![(0, 0, 5, 0)]);
}

#[test]
fn test_double_cut() {
    let mut sc = Scene::new();

    let line = LineSegment::new(pt(0, 0), pt(10, 0));
    sc.add_segment(line);

    let poly = Polygon::new(vec![pt(8, 0), pt(7, 1), pt(8, 2), pt(9, 1)]);

    sc.fill_poly(&poly);

    // The polygon only grazes the line at (8, 0): the line splits there,
    // with no open gap.
    assert_eq!(layer0_units(&sc), vec![(0, 0, 8, 0), (8, 0, 10, 0)]);
}

#[test]
fn test_basic_cases() {
    let mut sc = Scene::new();

    let untouched_line = LineSegment::new(pt(0, 9), pt(6, 9));
    sc.add_segment(untouched_line);

    let completely_removed_line = LineSegment::new(pt(2, 5), pt(4, 5));
    sc.add_segment(completely_removed_line);

    let clipped_line = LineSegment::new(pt(4, 5), pt(4, 10));
    sc.add_segment(clipped_line);

    let split_line = LineSegment::new(pt(0, 3), pt(10, 3));
    sc.add_segment(split_line);

    let poly = Polygon::new(vec![pt(3, 1), pt(6, 7), pt(0, 7)]);
    sc.fill_poly(&poly);

    let mut result = layer0_units(&sc);
    let mut expect = vec![
        (0, 9, 6, 9), // untouched
        (4, 7, 4, 10), // clipped
        (0, 3, 2, 3), // first part of the split line
        (4, 3, 10, 3), // second part of the split line
    ];
    result.sort();
    expect.sort();
    assert_eq!(expect, result);
}

#[test]
fn test_polygon_hole() {
    let mut sc = Scene::new();
    let line1 = LineSegment::new(pt(2, 7), pt(12, 7));
    sc.add_segment(line1);

    let poly = Polygon::with_holes(
        vec![pt(0, 0), pt(0, 15), pt(15, 15), pt(15, 0)],
        vec![vec![pt(10, 5), pt(10, 10), pt(5, 10), pt(5, 5)]],
    );
    sc.fill_poly(&poly);

    // Only the part of the line over the hole survives.
    assert_eq!(layer0_units(&sc), vec![(5, 7, 10, 7)]);
}

#[test]
fn test_fill_poly_idempotent_scenarios() {
    // Filling the same polygon again removes and adds nothing further.
    let polys = vec![
        Polygon::new(vec![pt(10, 5), pt(5, 0), pt(10, -5), pt(15, 0)]),
        Polygon::new(vec![pt(8, 0), pt(7, 1), pt(8, 2), pt(9, 1)]),
        Polygon::with_holes(
            vec![pt(0, 0), pt(0, 15), pt(15, 15), pt(15, 0)],
            vec![vec![pt(10, 5), pt(10, 10), pt(5, 10), pt(5, 5)]],
        ),
    ];
    for poly in &polys {
        let mut sc = Scene::new();
        sc.add_segment(LineSegment::new(pt(0, 0), pt(10, 0)));
        sc.add_segment(LineSegment::new(pt(2, 7), pt(12, 7)));
        sc.fill_poly(poly);
        let once = layer0_units(&sc);
        sc.fill_poly(poly);
        let twice = layer0_units(&sc);
        assert_eq!(once, twice);
    }
}

#[test]
fn test_stroke_poly_edges() {
    let mut sc = Scene::new();
    let poly = Polygon::new(vec![pt(0, 0), pt(0, 1), pt(1, 1), pt(1, 0)]);
    sc.stroke_poly(&poly, 2);

    let plot = sc.to_plot();
    assert_eq!(plot.layers.len(), 1);
    assert_eq!(plot.layers[0].pen, 2);
    // The closing edge comes first, then each consecutive pair.
    let expected = vec![
        (1 * S, 0, 0, 0),
        (0, 0, 0, 1 * S),
        (0, 1 * S, 1 * S, 1 * S),
        (1 * S, 1 * S, 1 * S, 0),
    ];
    let got: Vec<(i64, i64, i64, i64)> = plot.layers[0]
        .lines
        .iter()
        .map(|l| (l.c1.x, l.c1.y, l.c2.x, l.c2.y))
        .collect();
    assert_eq!(expected, got);
}

#[test]
fn test_add_poly_fills_and_strokes() {
    let mut sc = Scene::new();
    sc.add_segment(LineSegment::new(pt(0, 0), pt(10, 0)));
    // A triangle sitting over the middle of the line.
    sc.add_poly(&Polygon::new(vec![pt(3, -2), pt(5, 2), pt(7, -2)]));

    let plot = sc.to_plot();
    assert_eq!(plot.layers.len(), 1);
    // The first line is split where the triangle covers it (at x = 4
    // and x = 6), and the triangle's own three edges are added after it.
    assert_eq!(plot.layers[0].lines.len(), 5);
}

#[test]
fn test_add_poly_with_draw_mode_variants() {
    // Stroke-only: the crossing line is left alone, outline added.
    let mut sc = Scene::new();
    sc.add_segment(LineSegment::new(pt(0, 0), pt(10, 0)));
    sc.add_poly_with_draw_mode(&Polygon::new(vec![pt(3, -2), pt(5, 2), pt(7, -2)]), scenelib::draw_mode::stroke(1));
    let plot = sc.to_plot();
    assert_eq!(plot.layers.len(), 2);
    assert_eq!(plot.layers[0].pen, 0);
    assert_eq!(plot.layers[0].lines.len(), 1);
    assert_eq!(plot.layers[1].pen, 1);
    assert_eq!(plot.layers[1].lines.len(), 3);

    // Fill-only: the line is clipped, no outline appears.
    let mut sc2 = Scene::new();
    sc2.add_segment(LineSegment::new(pt(0, 0), pt(10, 0)));
    sc2.add_poly_with_draw_mode(&Polygon::new(vec![pt(3, -2), pt(5, 2), pt(7, -2)]), scenelib::draw_mode::fill_only());
    let plot2 = sc2.to_plot();
    assert_eq!(plot2.layers.len(), 1);
    assert_eq!(plot2.layers[0].pen, 0);
    assert_eq!(plot2.layers[0].lines.len(), 2);
}

#[test]
fn test_bounds_and_empty_scene() {
    let sc = Scene::new();
    let (lo, hi) = sc.bounds();
    assert_eq!((lo.x, lo.y), (0, 0));
    assert_eq!((hi.x, hi.y), (0, 0));
    let plot = sc.to_plot();
    assert_eq!(plot.layers.len(), 0);
    assert_eq!(plot.origin, PlotPoint { x: 0, y: 0 });

    let mut sc2 = Scene::new();
    sc2.add_segment(LineSegment::new(pt(-3, 2), pt(5, -7)));
    sc2.add_segment(LineSegment::new(pt(1, 4), pt(2, 1)));
    let (lo2, hi2) = sc2.bounds();
    assert_eq!((lo2.x, lo2.y), (-3 * S, -7 * S));
    assert_eq!((hi2.x, hi2.y), (5 * S, 4 * S));
    let plot2 = sc2.to_plot();
    assert_eq!(plot2.lower_bound, lo2);
    assert_eq!(plot2.upper_bound, hi2);
}

#[test]
fn test_to_plot_groups_by_pen_ascending() {
    let mut sc = Scene::new();
    sc.add_segment(LineSegment::new_with_pen(pt(0, 0), pt(1, 0), 3));
    sc.add_segment(LineSegment::new_with_pen(pt(0, 1), pt(1, 1), 0));
    sc.add_segment(LineSegment::new_with_pen(pt(0, 2), pt(1, 2), 3));
    sc.add_segment(LineSegment::new_with_pen(pt(0, 3), pt(1, 3), 1));

    let plot = sc.to_plot();
    let pens: Vec<usize> = plot.layers.iter().map(|l| l.pen).collect();
    assert_eq!(pens, vec![0, 1, 3]);
    assert_eq!(plot.layers[0].lines.len(), 1);
    assert_eq!(plot.layers[1].lines.len(), 1);
    assert_eq!(plot.layers[2].lines.len(), 2);
    // Within a pen, scene order is kept.
    assert_eq!(
        plot.layers[2].lines[0],
        PlotSegment { c1: PlotPoint { x: 0, y: 0 }, c2: PlotPoint { x: S, y: 0 } }
    );
    assert_eq!(
        plot.layers[2].lines[1],
        PlotSegment { c1: PlotPoint { x: 0, y: 2 * S }, c2: PlotPoint { x: S, y: 2 * S } }
    );
}

#[test]
fn test_fractional_split_is_quantized() {
    // A diagonal cut that lands between grid units: the crossing at
    // x = 7/2 is kept exactly in the scene and rounded only on the plot
    // grid.
    let mut sc = Scene::new();
    sc.add_segment(LineSegment::new(pt(0, 0), pt(7, 0)));
    // A triangle whose left edge crosses y = 0 at x = 3.5.
    sc.add_poly_with_draw_mode(
        &Polygon::new(vec![pt(3, -1), pt(4, 1), pt(5, -1)]),
        scenelib::draw_mode::fill_only(),
    );
    let plot = sc.to_plot();
    assert_eq!(plot.layers.len(), 1);
    let lines = &plot.layers[0].lines;
    assert_eq!(lines.len(), 2);
    assert_eq!((lines[0].c1.x, lines[0].c2.x), (0, 7 * S / 2));
    assert_eq!((lines[1].c1.x, lines[1].c2.x), (9 * S / 2, 7 * S));
}

#[test]
fn test_degenerate_segment_survives_fill() {
    // A zero-length segment produces no crossings and is never erased.
    let mut sc = Scene::new();
    sc.add_segment(LineSegment::new(pt(5, 5), pt(5, 5)));
    sc.fill_poly(&Polygon::new(vec![pt(0, 0), pt(0, 10), pt(10, 10), pt(10, 0)]));
    assert_eq!(sc.segs.len(), 1);
    assert_eq!(layer0_units(&sc), vec![(5, 5, 5, 5)]);
}

#[test]
fn test_tiny_loops_have_no_edges() {
    // Loops of fewer than two points contribute no edges, so filling and
    // stroking with them changes nothing geometric.
    let mut sc = Scene::new();
    sc.add_segment(LineSegment::new(pt(0, 0), pt(10, 0)));
    let poly = Polygon::new(vec![pt(3, -1)]);
    sc.fill_poly(&poly);
    sc.stroke_poly(&poly, 0);
    assert_eq!(layer0_units(&sc), vec![(0, 0, 10, 0)]);

    let lp = scenelib::polygon::PointLoop(vec![pt(1, 1)]);
    assert_eq!(lp.line_segments().len(), 0);
    let two = scenelib::polygon::PointLoop(vec![pt(0, 0), pt(2, 0)]);
    // Two points close into a there-and-back pair of edges.
    assert_eq!(two.line_segments_with_pen(5).len(), 2);
}
