use ray_segments::arith::frac_lt;
use ray_segments::geometry::{det, Point, RationalPoint, Ray, Vector};
use ray_segments::nearest::{nearest, SquaredDistance};

fn seg(x: i64, y: i64, x_end: i64, y_end: i64) -> Vector {
    Vector { x, y, x_end, y_end }
}

fn ray(x: i64, y: i64, tx: i64, ty: i64) -> Ray {
    Ray::new(Point { x, y }, Point { x: tx, y: ty })
}

fn residual(v: &Vector, p: &RationalPoint) -> i128 {
    let (x, y, xe, ye) = (v.x as i128, v.y as i128, v.x_end as i128, v.y_end as i128);
    (xe - x) * (p.y - y * p.den) - (ye - y) * (p.x - x * p.den)
}

#[test]
fn distance_is_symmetric_and_zero_on_itself() {
    let p = Point { x: 3, y: 4 };
    let q = Point { x: 0, y: 0 };
    assert_eq!(p.distance_squared(&q), 25);
    assert_eq!(q.distance_squared(&p), 25);
    assert_eq!(p.distance_squared(&p), 0);
    let a = Point { x: -7, y: 2 };
    let b = Point { x: 5, y: -3 };
    assert_eq!(a.distance_squared(&b), 169);
    assert_eq!(b.distance_squared(&a), 169);
}

#[test]
fn determinant_of_two_directions() {
    assert_eq!(det(&seg(0, 0, 1, 0), &seg(0, 0, 0, 1)), 1);
    assert_eq!(det(&seg(0, 0, 0, 1), &seg(0, 0, 1, 0)), -1);
    assert_eq!(det(&seg(0, 0, 2, 2), &seg(1, 1, 5, 5)), 0);
}

#[test]
fn crossing_point_lies_on_both_lines() {
    let s = seg(0, 0, 4, 4);
    let r = ray(0, 4, 4, 0);
    let p = s.get_intersection(&r).unwrap();
    assert!(p.den > 0);
    assert_eq!(p.x, 2 * p.den);
    assert_eq!(p.y, 2 * p.den);
    assert_eq!(residual(&s, &p), 0);
    assert_eq!(residual(&r.to_vector(), &p), 0);

    let s = seg(0, 0, 3, 1);
    let r = ray(1, 0, 1, 5);
    let p = s.get_intersection(&r).unwrap();
    assert!(p.den > 0);
    assert_eq!(p.x, p.den);
    assert_eq!(3 * p.y, p.den);
    assert_eq!(residual(&s, &p), 0);
    assert_eq!(residual(&r.to_vector(), &p), 0);
}

#[test]
fn parallel_lines_do_not_cross() {
    let s = seg(0, 0, 5, 0);
    assert!(s.get_intersection(&ray(0, 1, 3, 1)).is_none());
    assert!(!s.intersects(&ray(0, 1, 3, 1)));
    assert!(s.hit_distance(&ray(0, 1, 3, 1)).is_none());
}

#[test]
fn collinear_lines_count_as_not_crossing() {
    let s = seg(0, 0, 5, 0);
    let r = ray(-1, 0, 1, 0);
    assert!(s.get_intersection(&r).is_none());
    assert!(!s.intersects(&r));
}

#[test]
fn zero_length_segment_is_never_hit() {
    let s = seg(1, 1, 1, 1);
    let r = ray(0, 0, 2, 2);
    assert!(s.get_intersection(&r).is_none());
    assert!(!s.intersects(&r));
}

#[test]
fn crossing_outside_the_segment_is_not_a_hit() {
    let s = seg(20, 0, 20, 5);
    let r = ray(0, 0, 10, 10);
    let p = s.get_intersection(&r).unwrap();
    assert_eq!(p.x, 20 * p.den);
    assert_eq!(p.y, 20 * p.den);
    assert!(!s.has_point(&p));
    assert!(r.has_point(&p));
    assert!(!s.intersects(&r));
}

#[test]
fn crossing_behind_the_ray_is_not_a_hit() {
    let s = seg(-1, -5, -1, 5);
    let r = ray(0, 0, 1, 0);
    let p = s.get_intersection(&r).unwrap();
    assert!(s.has_point(&p));
    assert!(!r.has_point(&p));
    assert!(!s.intersects(&r));
}

#[test]
fn crossing_inside_and_ahead_is_a_hit() {
    let s = seg(1, 0, 1, 5);
    let r = ray(0, 0, 10, 10);
    assert!(s.intersects(&r));
    let d = s.hit_distance(&r).unwrap();
    assert_eq!(d.num, d.den);
}

#[test]
fn reversed_endpoints_still_bound_the_segment() {
    let s = seg(1, 5, 1, 0);
    let r = ray(0, 0, 10, 10);
    assert!(s.intersects(&r));
    let d = s.hit_distance(&r).unwrap();
    assert_eq!(d.num, 16 * d.den);
}

#[test]
fn ray_origin_on_the_segment_follows_the_axis_sign_test() {
    let s = seg(0, -2, 0, 2);
    assert!(!s.intersects(&ray(0, 0, 3, 1)));
    let r = ray(0, 0, -3, -1);
    assert!(s.intersects(&r));
    let d = s.hit_distance(&r).unwrap();
    assert_eq!(d.num, 4 * d.den);
}

#[test]
fn segment_accessors_give_endpoints() {
    let s = seg(1, 2, 3, 4);
    assert_eq!(s.get_start(), Point { x: 1, y: 2 });
    assert_eq!(s.get_end(), Point { x: 3, y: 4 });
    assert_eq!(ray(5, 6, 7, 8).to_vector(), seg(5, 6, 7, 8));
}

#[test]
fn fractions_compare_exactly() {
    assert!(frac_lt(1, 3, 1, 2));
    assert!(!frac_lt(1, 2, 1, 3));
    assert!(!frac_lt(2, 4, 1, 2));
    assert!(!frac_lt(0, 5, 0, 7));
    assert!(frac_lt(0, 5, 1, 7));
    let big = u128::MAX;
    assert!(frac_lt(big - 1, big, 1, 1));
    assert!(!frac_lt(big, big - 1, 1, 1));
    assert!(frac_lt(big - 2, big - 1, big - 1, big));
    assert!(!frac_lt(big, big, big - 3, big - 3));
    let a = SquaredDistance { num: 2, den: 1 };
    let b = SquaredDistance { num: 9, den: 4 };
    assert!(a.less_than(&b));
    assert!(!b.less_than(&a));
    assert!(!a.less_than(&SquaredDistance { num: 8, den: 4 }));
}

#[test]
fn nearest_over_no_segments_finds_nothing() {
    assert!(nearest(&ray(0, 0, 1, 1), &Vec::new()).is_none());
}

#[test]
fn nearest_when_nothing_is_hit_finds_nothing() {
    let segs = vec![seg(20, 0, 20, 5), seg(0, 1, 5, 6), seg(-3, -1, -3, -5)];
    assert!(nearest(&ray(0, 0, 10, 10), &segs).is_none());
}

#[test]
fn nearest_with_a_single_hit_picks_it() {
    let segs = vec![seg(20, 0, 20, 5), seg(0, 3, 6, 3), seg(3, 1, 5, 2)];
    let n = nearest(&ray(0, 0, 1, 2), &segs).unwrap();
    assert_eq!(n.index, 1);
    // crossing at (1.5, 3), at distance 1.5 from (0, 3)
    assert_eq!(4 * n.distance.num, 9 * n.distance.den);
}

#[test]
fn diagonal_ray_picks_the_crossing_segment() {
    let segs = vec![seg(1, 0, 1, 5), seg(20, 0, 20, 5)];
    let n = nearest(&ray(0, 0, 10, 10), &segs).unwrap();
    assert_eq!(n.index, 0);
    // crossing at (1, 1), at distance 1 from the segment's own start (1, 0)
    assert_eq!(n.distance.num, n.distance.den);
    let shown = ((n.distance.num as f64) / (n.distance.den as f64)).sqrt();
    assert_eq!(format!("{:.3}", shown), "1.000");
}

#[test]
fn equal_distances_keep_the_earlier_segment() {
    let a = seg(2, -1, 2, 1);
    let b = seg(5, -1, 5, 1);
    let r = ray(0, 0, 10, 0);
    let n = nearest(&r, &vec![a, b]).unwrap();
    assert_eq!(n.index, 0);
    assert_eq!(n.distance.num, n.distance.den);
    let n = nearest(&r, &vec![b, a]).unwrap();
    assert_eq!(n.index, 0);
}

#[test]
fn strictly_closer_later_segment_wins() {
    let segs = vec![seg(2, -3, 2, 1), seg(5, -1, 5, 1), seg(7, 0, 7, 4)];
    let n = nearest(&ray(0, 0, 10, 0), &segs).unwrap();
    assert_eq!(n.index, 2);
    assert_eq!(n.distance.num, 0);
}

#[test]
fn coordinates_at_the_bound_do_not_overflow() {
    let m = 524288;
    let segs = vec![seg(-m, m, m, -m), seg(m, -m, m, m)];
    let n = nearest(&ray(-m, -m, m, m), &segs).unwrap();
    assert_eq!(n.index, 0);
    // crossing at the origin, at distance m * sqrt(2) from (-m, m)
    assert_eq!(n.distance.num, 2 * (m as u128) * (m as u128) * n.distance.den);
}
