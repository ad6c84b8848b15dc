use tesselate::arith::{divide_nearest, divide_toward_zero, saturate};
use tesselate::contour::{drop_level_edges, points_to_edges};
use tesselate::edge::Edge;
use tesselate::geometry::Pointfix;
use tesselate::order::{comes_before, reverse_edges, sort_edges, EdgeOrder};

fn pt(x: i32, y: i32) -> Pointfix {
    Pointfix { x, y }
}

fn edge(x1: i32, y1: i32, x2: i32, y2: i32) -> Edge {
    Edge { x1, y1, x2, y2, current_x: 0 }
}

#[test]
fn edge_has_its_upper_end_first() {
    assert_eq!(Edge::from_points(pt(1, 2), pt(3, 4)), edge(1, 2, 3, 4));
    assert_eq!(Edge::from_points(pt(3, 4), pt(1, 2)), edge(1, 2, 3, 4));
}

#[test]
fn level_edge_starts_at_its_second_point() {
    assert_eq!(Edge::from_points(pt(1, 5), pt(9, 5)), edge(9, 5, 1, 5));
}

#[test]
fn placing_interpolates() {
    let mut e = edge(0, 0, 10, 10);
    e.compute_x(3);
    assert_eq!(e, Edge { x1: 0, y1: 0, x2: 10, y2: 10, current_x: 3 });
    let mut e = edge(2 * 65536, 65536, 5 * 65536, 7 * 65536);
    e.compute_x(4 * 65536);
    assert_eq!(e.current_x, 2 * 65536 + 98304);
}

#[test]
fn placing_rounds_toward_zero() {
    let mut e = edge(0, 0, 1, 3);
    e.compute_x(2);
    assert_eq!(e.current_x, 0);
    let mut e = edge(0, 0, -1, 3);
    e.compute_x(2);
    assert_eq!(e.current_x, 0);
    let mut e = edge(0, 0, -5, 3);
    e.compute_x(2);
    assert_eq!(e.current_x, -3);
    let mut e = edge(7, 0, 12, 3);
    e.compute_x(2);
    assert_eq!(e.current_x, 10);
}

#[test]
fn placing_at_the_ends() {
    let mut e = edge(-7, 2, 31, 19);
    e.compute_x(2);
    assert_eq!(e.current_x, -7);
    e.compute_x(19);
    assert_eq!(e.current_x, 31);
}

#[test]
fn placing_outside_the_edge_follows_its_line() {
    let mut e = edge(0, 0, 20, 200);
    e.compute_x(-199);
    assert_eq!(e.current_x, -19);
    e.compute_x(400);
    assert_eq!(e.current_x, 40);
}

#[test]
fn placing_stays_in_range() {
    let mut e = edge(i32::MIN, 0, i32::MAX, 1);
    e.compute_x(2);
    assert_eq!(e.current_x, i32::MAX);
    e.compute_x(-1);
    assert_eq!(e.current_x, i32::MIN);
    let mut e = edge(i32::MAX, i32::MIN, i32::MIN, i32::MAX);
    e.compute_x(i32::MAX);
    assert_eq!(e.current_x, i32::MIN);
    e.compute_x(i32::MIN);
    assert_eq!(e.current_x, i32::MAX);
    e.compute_x(0);
    assert_eq!(e.current_x, -1);
}

#[test]
fn crossing_of_a_bow_tie() {
    let a = edge(0, 0, 10, 10);
    let b = edge(10, 0, 0, 10);
    assert_eq!(a.compute_intersect(b), Some(5));
    assert_eq!(b.compute_intersect(a), Some(5));
}

#[test]
fn crossing_above_both_edges() {
    let a = edge(0, 0, 20, 200);
    let b = edge(10, 0, 13, 20);
    assert_eq!(a.compute_intersect(b), Some(-200));
}

#[test]
fn crossing_rounds_to_the_nearest() {
    let upright = edge(1, 0, 1, 3);
    assert_eq!(edge(0, 0, 2, 3).compute_intersect(upright), Some(2));
    assert_eq!(edge(0, 0, 3, 3).compute_intersect(upright), Some(1));
    assert_eq!(edge(0, 0, 3, 4).compute_intersect(upright), Some(1));
    assert_eq!(edge(0, 0, 3, 5).compute_intersect(upright), Some(2));
    let left = edge(-1, 0, -1, 3);
    assert_eq!(edge(0, 0, 2, 3).compute_intersect(left), Some(-2));
    assert_eq!(edge(0, 0, 3, 4).compute_intersect(left), Some(-1));
}

#[test]
fn crossing_away_from_the_origin() {
    let a = edge(100, 1000, 110, 1010);
    let b = edge(110, 1000, 100, 1010);
    assert_eq!(a.compute_intersect(b), Some(1005));
}

#[test]
fn parallel_lines_do_not_cross() {
    assert_eq!(edge(0, 0, 10, 100).compute_intersect(edge(5, 0, 6, 10)), None);
    assert_eq!(edge(0, 0, 0, 5).compute_intersect(edge(3, 1, 3, 2)), None);
    assert_eq!(edge(0, 0, 4, 4).compute_intersect(edge(0, 0, 4, 4)), None);
}

#[test]
fn crossing_stays_in_range() {
    let a = edge(0, 0, i32::MAX, 1);
    let b = edge(i32::MIN, 0, 0, 1);
    assert_eq!(a.compute_intersect(b), Some(i32::MAX));
    assert_eq!(b.compute_intersect(a), Some(i32::MAX));
    let upright = edge(i32::MAX, 0, i32::MAX, 1);
    assert_eq!(edge(0, 0, 1, i32::MAX).compute_intersect(upright), Some(i32::MAX));
    assert_eq!(edge(0, 0, -1, i32::MAX).compute_intersect(upright), Some(i32::MIN));
    assert_eq!(edge(0, 0, i32::MIN, 1).compute_intersect(edge(i32::MAX, 0, 0, 1)), Some(i32::MIN + 1));
}

#[test]
fn sides_of_an_open_contour_are_closed() {
    let sides = points_to_edges(&vec![pt(0, 0), pt(10, 0), pt(5, 10)]);
    assert_eq!(sides, vec![edge(10, 0, 0, 0), edge(10, 0, 5, 10), edge(0, 0, 5, 10)]);
}

#[test]
fn sides_of_a_closed_contour() {
    let sides = points_to_edges(&vec![pt(0, 0), pt(10, 0), pt(5, 10), pt(0, 0)]);
    assert_eq!(sides, vec![edge(10, 0, 0, 0), edge(10, 0, 5, 10), edge(0, 0, 5, 10)]);
}

#[test]
fn few_points_have_no_sides() {
    assert_eq!(points_to_edges(&vec![]), vec![]);
    assert_eq!(points_to_edges(&vec![pt(4, 4)]), vec![]);
}

#[test]
fn two_points_have_two_sides() {
    assert_eq!(
        points_to_edges(&vec![pt(0, 0), pt(4, 8)]),
        vec![edge(0, 0, 4, 8), edge(0, 0, 4, 8)]
    );
    assert_eq!(points_to_edges(&vec![pt(4, 8), pt(4, 8)]), vec![edge(4, 8, 4, 8)]);
}

#[test]
fn level_edges_are_dropped() {
    let kept = drop_level_edges(vec![edge(10, 0, 0, 0), edge(10, 0, 5, 10), edge(1, 1, 1, 1), edge(0, 0, 5, 10)]);
    assert_eq!(kept, vec![edge(10, 0, 5, 10), edge(0, 0, 5, 10)]);
}

#[test]
fn sorting_by_upper_end() {
    let edges = vec![edge(5, 3, 0, 9), edge(1, 3, 0, 4), edge(9, -2, 0, 0), edge(1, 3, 7, 8), edge(0, 4, 0, 5)];
    let sorted = sort_edges(&edges, EdgeOrder::ByStart);
    assert_eq!(
        sorted,
        vec![edge(9, -2, 0, 0), edge(1, 3, 0, 4), edge(1, 3, 7, 8), edge(5, 3, 0, 9), edge(0, 4, 0, 5)]
    );
    assert_eq!(
        reverse_edges(&sorted),
        vec![edge(0, 4, 0, 5), edge(5, 3, 0, 9), edge(1, 3, 7, 8), edge(1, 3, 0, 4), edge(9, -2, 0, 0)]
    );
}

#[test]
fn sorting_along_the_scan_line() {
    let at = |current_x: i32, x2: i32, y2: i32| Edge { x1: 0, y1: 0, x2, y2, current_x };
    let edges = vec![at(4, 1, 1), at(2, 9, 2), at(4, 0, 3), at(2, 9, 4), at(-1, 5, 5)];
    assert_eq!(
        sort_edges(&edges, EdgeOrder::ByScan),
        vec![at(-1, 5, 5), at(2, 9, 2), at(2, 9, 4), at(4, 0, 3), at(4, 1, 1)]
    );
}

#[test]
fn order_of_two_edges() {
    let a = Edge { x1: 1, y1: 2, x2: 3, y2: 4, current_x: 5 };
    let b = Edge { x1: 0, y1: 3, x2: 3, y2: 4, current_x: 5 };
    assert!(comes_before(EdgeOrder::ByStart, &a, &b));
    assert!(!comes_before(EdgeOrder::ByStart, &b, &a));
    assert!(comes_before(EdgeOrder::ByScan, &a, &b));
    assert!(comes_before(EdgeOrder::ByScan, &b, &a));
}

#[test]
fn quotients_toward_zero() {
    assert_eq!(divide_toward_zero(7, 2), 3);
    assert_eq!(divide_toward_zero(-7, 2), -3);
    assert_eq!(divide_toward_zero(6, 3), 2);
    assert_eq!(divide_toward_zero(-1, 5), 0);
    assert_eq!(divide_toward_zero(0, 5), 0);
}

#[test]
fn quotients_to_the_nearest() {
    assert_eq!(divide_nearest(7, 2), 4);
    assert_eq!(divide_nearest(-7, 2), -4);
    assert_eq!(divide_nearest(7, -2), -4);
    assert_eq!(divide_nearest(-7, -2), 4);
    assert_eq!(divide_nearest(7, 3), 2);
    assert_eq!(divide_nearest(8, 3), 3);
    assert_eq!(divide_nearest(-8, 3), -3);
    assert_eq!(divide_nearest(1, 3), 0);
    assert_eq!(divide_nearest(0, -9), 0);
}

#[test]
fn wide_numbers_are_brought_into_range() {
    assert_eq!(saturate(5), 5);
    assert_eq!(saturate(-5), -5);
    assert_eq!(saturate(i32::MAX as i128), i32::MAX);
    assert_eq!(saturate(i32::MAX as i128 + 1), i32::MAX);
    assert_eq!(saturate(i32::MIN as i128), i32::MIN);
    assert_eq!(saturate(i32::MIN as i128 - 1), i32::MIN);
    assert_eq!(saturate(1 << 100), i32::MAX);
}

struct Numbers(u64);

impl Numbers {
    fn next(&mut self, low: i32, high: i32) -> i32 {
        self.0 = self.0.wrapping_mul(6364136223846793005).wrapping_add(1442695040888963407);
        let span = (i64::from(high) - i64::from(low) + 1) as u64;
        (i64::from(low) + ((self.0 >> 33) % span) as i64) as i32
    }
}

#[test]
fn placing_agrees_with_floating_point() {
    let mut numbers = Numbers(17);
    for _ in 0..20000 {
        let y1 = numbers.next(-1 << 20, 1 << 20);
        let y2 = y1 + numbers.next(1, 1 << 20);
        let mut e = edge(numbers.next(-1 << 20, 1 << 20), y1, numbers.next(-1 << 20, 1 << 20), y2);
        let y = numbers.next(y1, y2);
        let ex = f64::from(y - e.y1) * f64::from(e.x2 - e.x1);
        let expected = e.x1 + ((ex / f64::from(e.y2 - e.y1)) as i32);
        e.compute_x(y);
        assert_eq!(e.current_x, expected);
    }
}

#[test]
fn crossing_agrees_with_floating_point() {
    let mut numbers = Numbers(23);
    let mut compared = 0;
    for _ in 0..20000 {
        let ya = numbers.next(-1 << 18, 1 << 18);
        let yb = numbers.next(-1 << 18, 1 << 18);
        let a = edge(
            numbers.next(-1 << 18, 1 << 18),
            ya,
            numbers.next(-1 << 18, 1 << 18),
            ya + numbers.next(1, 1 << 18),
        );
        let b = edge(
            numbers.next(-1 << 18, 1 << 18),
            yb,
            numbers.next(-1 << 18, 1 << 18),
            yb + numbers.next(1, 1 << 18),
        );
        let slope_a = f64::from(a.x2 - a.x1) / f64::from(a.y2 - a.y1);
        let slope_b = f64::from(b.x2 - b.x1) / f64::from(b.y2 - b.y1);
        if (slope_a - slope_b).abs() < 0.01 {
            continue;
        }
        let start_a = f64::from(a.x1) - slope_a * f64::from(a.y1);
        let start_b = f64::from(b.x1) - slope_b * f64::from(b.y1);
        let expected = ((start_b - start_a) / (slope_a - slope_b)).round();
        let at = a.compute_intersect(b).expect("the lines are not parallel");
        assert!((f64::from(at) - expected).abs() <= 1.0, "{:?} {:?}: {} {}", a, b, at, expected);
        compared += 1;
    }
    assert!(compared > 10000);
}
