//! Tests for the exact segment-intersection primitive.

use scenelib::frac::Frac;
use scenelib::geom::Translate;
use scenelib::geom::XYFlip;
use scenelib::geom::pt;
use scenelib::line_segment::LineSegment;

/// The fraction equals `num / den` exactly.
fn frac_is(f: &Frac, num: i128, den: i128) -> bool {
    f.n * den == num * f.d
}

#[test]
fn test_intersect_vertical() {
    let l1 = LineSegment::new(pt(0, 5), pt(10, 5));
    let l2 = LineSegment::new(pt(5, 0), pt(5, 10));

    let (f, dir) = l1.intersect_segment(&l2).expect("crossing expected");
    assert!(frac_is(&f, 1, 2));
    assert!(dir);

    let (f, dir) = l1
        .intersect_segment(&l2.translate(&scenelib::geom::vec(10, 0)))
        .expect("crossing expected");
    assert!(frac_is(&f, 3, 2));
    assert!(dir);

    // The other segment never meets the extended line.
    assert!(l1.intersect_segment(&l2.translate(&scenelib::geom::vec(0, 10))).is_none());
    assert!(l1.intersect_segment(&l2.translate(&scenelib::geom::vec(10, 10))).is_none());
}

#[test]
fn test_intersect_horizontal() {
    let l1 = LineSegment::new(pt(0, 0), pt(10, 10));
    let l2 = LineSegment::new(pt(0, 8), pt(20, 8));
    let (f, dir) = l1.intersect_segment(&l2).expect("crossing expected");
    assert!(frac_is(&f, 4, 5));
    assert!(!dir);
}

#[test]
fn test_intersect_regular() {
    let l1 = LineSegment::new(pt(3, 1), pt(13, 6));
    let l2 = LineSegment::new(pt(10, 6), pt(14, 2));

    let (f, dir) = l1.intersect_segment(&l2).expect("crossing expected");
    assert!(frac_is(&f, 4, 5));
    assert!(!dir);

    let (f, dir) = l1
        .intersect_segment(&l2.translate(&scenelib::geom::vec(-2, -1)))
        .expect("crossing expected");
    assert!(frac_is(&f, 3, 5));
    assert!(!dir);

    let (f, dir) = l1
        .intersect_segment(&l2.translate(&scenelib::geom::vec(4, 2)))
        .expect("crossing expected");
    assert!(frac_is(&f, 6, 5));
    assert!(!dir);

    let (f, dir) = l1
        .intersect_segment(&l2.translate(&scenelib::geom::vec(-10, -5)))
        .expect("crossing expected");
    assert!(frac_is(&f, -1, 5));
    assert!(!dir);

    assert!(l1
        .intersect_segment(&l2.translate(&scenelib::geom::vec(-20, -5)))
        .is_none());
}

#[test]
fn test_intersect_direction() {
    let l1 = LineSegment::new(pt(3, 1), pt(13, 6));
    let l2 = LineSegment::new(pt(10, 6), pt(14, 2));

    let (f, dir) = l1.intersect_segment(&l2).expect("crossing expected");
    assert!(frac_is(&f, 4, 5));
    assert!(!dir);

    let (f, dir) = l1
        .intersect_segment(&l2.reverse())
        .expect("crossing expected");
    assert!(frac_is(&f, 4, 5));
    assert!(dir);

    let (f, dir) = l1
        .reverse()
        .intersect_segment(&l2)
        .expect("crossing expected");
    assert!(frac_is(&f, 1, 5));
    assert!(dir);

    let (f, dir) = l1
        .reverse()
        .intersect_segment(&l2.reverse())
        .expect("crossing expected");
    assert!(frac_is(&f, 1, 5));
    assert!(!dir);
}

#[test]
fn test_near_infinite_slope() {
    // A vertical segment: the case that defeats slope-based solving is
    // exact here.
    let l1 = LineSegment::new(pt(0, 10), pt(0, 0));
    let l2 = LineSegment::new(pt(-10, 6), pt(10, 6));

    let (f, dir) = l1.intersect_segment(&l2).expect("crossing expected");
    assert!(frac_is(&f, 2, 5));
    assert!(dir);

    let (f, dir) = l2.intersect_segment(&l1).expect("crossing expected");
    assert!(frac_is(&f, 1, 2));
    assert!(!dir);
}

#[test]
fn test_parallel_segments_never_intersect() {
    // Parallel and collinear pairs both return nothing.
    let l1 = LineSegment::new(pt(0, 0), pt(10, 0));
    let parallel = LineSegment::new(pt(0, 3), pt(10, 3));
    let collinear = LineSegment::new(pt(20, 0), pt(30, 0));
    let degenerate = LineSegment::new(pt(5, 5), pt(5, 5));
    assert!(l1.intersect_segment(&parallel).is_none());
    assert!(l1.intersect_segment(&collinear).is_none());
    assert!(l1.intersect_segment(&degenerate).is_none());
    assert!(degenerate.intersect_segment(&l1).is_none());
}

#[test]
fn test_intersect_lines_fractions() {
    let l1 = LineSegment::new(pt(0, 0), pt(10, 0));
    let l2 = LineSegment::new(pt(4, -2), pt(4, 6));
    let (f, u) = l1.intersect_lines(&l2).expect("lines cross");
    assert!(frac_is(&f, 2, 5));
    assert!(frac_is(&u, 1, 4));

    let parallel = LineSegment::new(pt(0, 1), pt(10, 1));
    assert!(l1.intersect_lines(&parallel).is_none());
}

#[test]
fn test_xy_flip() {
    let p = pt(3, 7);
    let flipped = p.xy_flip();
    assert_eq!(flipped.x, 7);
    assert_eq!(flipped.y, 3);

    let l = LineSegment::new(pt(1, 2), pt(3, 4));
    let fl = l.xy_flip();
    assert_eq!(fl.c1.x, 2);
    assert_eq!(fl.c1.y, 1);
    assert_eq!(fl.c2.x, 4);
    assert_eq!(fl.c2.y, 3);
}

#[test]
fn test_frac_comparisons() {
    let half = Frac { n: 2, d: 4 };
    let same_half = Frac { n: 1, d: 2 };
    let third = Frac { n: 1, d: 3 };
    assert!(half.eq_value(&same_half));
    assert!(third.lt(&half));
    assert!(third.le(&half));
    assert!(!half.lt(&same_half));
    assert!(half.le(&same_half));
    let mx = third.max(&half);
    assert!(mx.eq_value(&same_half));
    let mn = third.min(&half);
    assert!(mn.eq_value(&Frac { n: 1, d: 3 }));
}
