use field_lines::boundary::Boundary;
use field_lines::plane::{Line, Point, RatPoint, Segment};

fn pt(x: i64, y: i64) -> Point {
    Point { x, y }
}

fn is_at(p: RatPoint, x: i128, y: i128) -> bool {
    p.den > 0 && p.x == x * p.den && p.y == y * p.den
}

#[test]
fn crossing_of_two_diagonals() {
    let a = Line::new(pt(0, 0), pt(10, 10));
    let b = Line::new(pt(0, 10), pt(10, 0));
    let p = a.intersection(b).unwrap();
    assert!(is_at(p, 5, 5));
}

#[test]
fn crossing_with_fractional_point() {
    // y = 2x and y = -x + 1 meet at (1/3, 2/3).
    let a = Line::new(pt(0, 0), pt(1, 2));
    let b = Line::new(pt(0, 1), pt(1, 0));
    let p = a.intersection(b).unwrap();
    assert_eq!(p.x * 3, p.den);
    assert_eq!(p.y * 3, 2 * p.den);
}

#[test]
fn parallel_lines_do_not_cross() {
    let a = Line::new(pt(0, 0), pt(2, 1));
    let b = Line::new(pt(0, 5), pt(4, 7));
    assert!(a.intersection(b).is_none());
}

#[test]
fn vertical_and_horizontal_lines_cross() {
    let a = Line::new(pt(3, -4), pt(3, 9));
    let b = Line::from_slope(0, 1, pt(-2, 7));
    assert!(is_at(a.intersection(b).unwrap(), 3, 7));
}

#[test]
fn segment_ignores_crossing_on_its_extension() {
    let seg = Segment { a: pt(0, 0), b: pt(1, 1) };
    let line = Line::new(pt(0, 4), pt(4, 0));
    assert!(seg.intersection(line).is_none());
    let p = line.intersection(seg.as_line()).unwrap();
    assert!(is_at(p, 2, 2));
}

#[test]
fn segment_keeps_crossing_within_span() {
    let seg = Segment { a: pt(4, 4), b: pt(0, 0) };
    let line = Line::new(pt(0, 4), pt(4, 0));
    assert!(is_at(seg.intersection(line).unwrap(), 2, 2));
}

#[test]
fn segment_crossing_at_endpoint_counts() {
    let seg = Segment { a: pt(0, 0), b: pt(2, 2) };
    let line = Line::new(pt(0, 4), pt(4, 0));
    assert!(is_at(seg.intersection(line).unwrap(), 2, 2));
}

#[test]
fn degenerate_segment_has_no_crossing() {
    let seg = Segment { a: pt(1, 1), b: pt(1, 1) };
    let line = Line::new(pt(0, 0), pt(2, 2));
    assert!(seg.intersection(line).is_none());
}

#[test]
fn tessellate_runs_from_low_to_high_x() {
    let seg = Segment { a: pt(10, 0), b: pt(0, 5) };
    let pts = seg.tessellate(3);
    let xs: Vec<i128> = pts.iter().map(|p| p.x / p.den).collect();
    assert_eq!(xs, vec![0, 3, 6, 9, 10]);
    assert!(is_at(pts[0], 0, 5));
    assert!(is_at(*pts.last().unwrap(), 10, 0));
    // y = 5 - x / 2 at x = 3
    assert_eq!(pts[1].y * 2, 7 * pts[1].den);
}

#[test]
fn tessellate_step_landing_on_end_keeps_end_once() {
    let seg = Segment { a: pt(0, 0), b: pt(4, 8) };
    let pts = seg.tessellate(2);
    assert_eq!(pts.len(), 3);
    assert!(is_at(pts[0], 0, 0));
    assert!(is_at(pts[1], 2, 4));
    assert!(is_at(pts[2], 4, 8));
}

#[test]
fn tessellate_step_past_end() {
    let seg = Segment { a: pt(0, 0), b: pt(3, 3) };
    let pts = seg.tessellate(100);
    assert_eq!(pts.len(), 2);
    assert!(is_at(pts[0], 0, 0));
    assert!(is_at(pts[1], 3, 3));
}

fn square() -> Boundary {
    let m = 1_000_000;
    Boundary {
        ring: vec![pt(0, 0), pt(10 * m, 0), pt(10 * m, 10 * m), pt(0, 10 * m), pt(0, 0)],
    }
}

#[test]
fn boundary_clip_square() {
    let m: i64 = 1_000_000;
    let line = Line::new(pt(4 * m, 5 * m), pt(6 * m, 5 * m));
    let span = square().limit(line, pt(5 * m, 5 * m)).unwrap();
    assert!(is_at(span.start, 0, 5 * m as i128));
    assert!(is_at(span.end, 10 * m as i128, 5 * m as i128));
}

#[test]
fn boundary_clip_outside_square() {
    let m: i64 = 1_000_000;
    let line = Line::new(pt(4 * m, 50 * m), pt(6 * m, 50 * m));
    assert!(square().limit(line, pt(5 * m, 50 * m)).is_none());
}

#[test]
fn boundary_clip_open_ring_misses_closing_edge() {
    let m: i64 = 1_000_000;
    let open = Boundary { ring: vec![pt(0, 0), pt(10 * m, 0), pt(10 * m, 10 * m), pt(0, 10 * m)] };
    let line = Line::new(pt(4 * m, 5 * m), pt(6 * m, 5 * m));
    assert!(open.limit(line, pt(5 * m, 5 * m)).is_none());
}

#[test]
fn boundary_clip_picks_nearest_on_each_side() {
    // A comb: the line y = 1 crosses x = 0, 2, 4, 6, 8 and 10.
    let ring = vec![
        pt(0, 0),
        pt(0, 2),
        pt(2, 2),
        pt(2, 0),
        pt(4, 0),
        pt(4, 2),
        pt(6, 2),
        pt(6, 0),
        pt(8, 0),
        pt(8, 2),
        pt(10, 2),
        pt(10, 0),
    ];
    let b = Boundary { ring };
    let line = Line::new(pt(0, 1), pt(1, 1));
    let span = b.limit(line, pt(5, 1)).unwrap();
    assert!(is_at(span.start, 4, 1));
    assert!(is_at(span.end, 6, 1));
}

#[test]
fn boundary_clip_field_on_crossing_counts_as_east() {
    let b = Boundary { ring: vec![pt(0, 0), pt(0, 4), pt(4, 4), pt(4, 0)] };
    let line = Line::new(pt(0, 2), pt(1, 2));
    let span = b.limit(line, pt(0, 2));
    assert!(span.is_none());
    let span = b.limit(line, pt(1, 2)).unwrap();
    assert!(is_at(span.start, 0, 2));
    assert!(is_at(span.end, 4, 2));
}

#[test]
fn boundary_clip_sloped_line() {
    let b = Boundary { ring: vec![pt(0, 0), pt(0, 10), pt(10, 10), pt(10, 0), pt(0, 0)] };
    // y = x / 2 + 2 crosses x = 0 at y = 2 and x = 10 at y = 7.
    let line = Line::new(pt(2, 3), pt(4, 4));
    let span = b.limit(line, pt(4, 4)).unwrap();
    assert!(is_at(span.start, 0, 2));
    assert!(is_at(span.end, 10, 7));
}

#[test]
fn boundary_too_short_has_no_crossing() {
    let b = Boundary { ring: vec![pt(0, 0)] };
    let line = Line::new(pt(0, 0), pt(1, 1));
    assert!(b.limit(line, pt(0, 0)).is_none());
}

#[test]
fn vertical_segment_ignores_crossing_beyond_its_end() {
    let seg = Segment { a: pt(0, 0), b: pt(0, 10) };
    let line = Line::new(pt(-1, 50), pt(1, 50));
    assert!(seg.intersection(line).is_none());
    let line = Line::new(pt(-1, 5), pt(1, 5));
    assert!(is_at(seg.intersection(line).unwrap(), 0, 5));
}

#[test]
fn point_arithmetic() {
    let p = pt(3, -4);
    let q = pt(10, 2);
    assert_eq!(p.add(q), pt(13, -2));
    assert_eq!(q.sub(p), pt(7, 6));
    assert_eq!(p.scale(-2), pt(-6, 8));
}

#[test]
fn nearly_parallel_lines_do_not_cross() {
    let n: i64 = 1 << 30;
    let a = Line::new(pt(0, 0), pt(n, n - 1));
    let b = Line::new(pt(0, 0), pt(n - 1, n - 2));
    assert!(a.intersection(b).is_none());
    assert!(b.intersection(a).is_none());
}

#[test]
fn slightly_different_slopes_still_cross() {
    // Slopes 1 and 1000/999 differ by far more than the epsilon guard.
    let a = Line::new(pt(0, 0), pt(1000, 1000));
    let b = Line::new(pt(0, 1), pt(999, 1001));
    assert!(a.intersection(b).is_some());
}

#[test]
fn tessellate_vertical_segment_gives_high_end() {
    let seg = Segment { a: pt(2, 0), b: pt(2, 9) };
    let pts = seg.tessellate(1);
    assert_eq!(pts, vec![RatPoint { x: 2, y: 9, den: 1 }]);
}

#[test]
fn point_sum() {
    assert_eq!(Point::sum(&vec![pt(1, 2), pt(3, -4), pt(-10, 5)]), pt(-6, 3));
    assert_eq!(Point::sum(&Vec::new()), pt(0, 0));
}

#[test]
fn tessellate_uniform_steps_along_the_line() {
    // Direction (30, 40) has length 50: 10 units along the line is 6 in x.
    let seg = Segment { a: pt(30, 40), b: pt(0, 0) };
    let pts = seg.tessellate_uniform(10);
    let xs: Vec<i128> = pts.iter().map(|p| p.x / p.den).collect();
    assert_eq!(xs, vec![0, 6, 12, 18, 24, 30]);
    assert!(is_at(pts[1], 6, 8));
    assert!(is_at(pts[5], 30, 40));
}

#[test]
fn tessellate_uniform_rounds_length_up() {
    // Direction (10, 10) has length about 14.14, rounded up to 15: the step
    // is 10 * 10 / 15, rounded down to 6.
    let seg = Segment { a: pt(0, 0), b: pt(10, 10) };
    let pts = seg.tessellate_uniform(10);
    assert_eq!(pts.len(), 3);
    assert!(is_at(pts[1], 6, 6));
    assert!(is_at(pts[2], 10, 10));
}

#[test]
fn tessellate_uniform_vertical() {
    let seg = Segment { a: pt(1, 5), b: pt(1, -5) };
    assert_eq!(seg.tessellate_uniform(10), vec![RatPoint { x: 1, y: -5, den: 1 }]);
}
