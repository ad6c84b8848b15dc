use tesselate::engine::{edges_to_trapezoids, tesselate_shape, Trapezoids};
use tesselate::edge::Edge;
use tesselate::geometry::{Linefix, Pointfix, Trapezoid};

const ONE: i32 = 65536;

fn pt(x: i32, y: i32) -> Pointfix {
    Pointfix { x, y }
}

fn line(x1: i32, y1: i32, x2: i32, y2: i32) -> Linefix {
    Linefix { p1: pt(x1, y1), p2: pt(x2, y2) }
}

fn trap(top: i32, bottom: i32, left: Linefix, right: Linefix) -> Trapezoid {
    Trapezoid { top, bottom, left, right }
}

fn pull_all(mut sweep: Trapezoids) -> Vec<Trapezoid> {
    let mut all = Vec::new();
    while let Some(t) = sweep.next_one() {
        all.push(t);
    }
    assert_eq!(sweep.next_one(), None);
    all
}

#[test]
fn no_points_give_nothing() {
    assert_eq!(tesselate_shape(vec![]).drain_all(), vec![]);
    assert_eq!(tesselate_shape(vec![]).next_one(), None);
}

#[test]
fn one_point_gives_nothing() {
    assert_eq!(tesselate_shape(vec![pt(3, 4)]).drain_all(), vec![]);
    assert_eq!(tesselate_shape(vec![pt(3, 4)]).next_one(), None);
}

#[test]
fn level_contour_gives_nothing() {
    let points = vec![pt(0, 7), pt(10, 7), pt(4, 7), pt(-3, 7)];
    assert_eq!(tesselate_shape(points.clone()).drain_all(), vec![]);
    assert_eq!(tesselate_shape(points).next_one(), None);
}

#[test]
fn repeated_point_gives_nothing() {
    assert_eq!(tesselate_shape(vec![pt(1, 1), pt(1, 1), pt(1, 1)]).drain_all(), vec![]);
}

#[test]
fn rectangle_is_one_trapezoid() {
    let all = tesselate_shape(vec![pt(0, 0), pt(10, 0), pt(10, 10), pt(0, 10)]).drain_all();
    assert_eq!(all, vec![trap(0, 10, line(0, 0, 0, 10), line(10, 0, 10, 10))]);
}

#[test]
fn rectangle_wound_the_other_way() {
    let all = tesselate_shape(vec![pt(0, 0), pt(0, 10), pt(10, 10), pt(10, 0)]).drain_all();
    assert_eq!(all, vec![trap(0, 10, line(0, 0, 0, 10), line(10, 0, 10, 10))]);
}

#[test]
fn rectangle_in_whole_units() {
    let points = vec![pt(0, 0), pt(10 * ONE, 0), pt(10 * ONE, 10 * ONE), pt(0, 10 * ONE)];
    let all = tesselate_shape(points).drain_all();
    assert_eq!(
        all,
        vec![trap(
            0,
            10 * ONE,
            line(0, 0, 0, 10 * ONE),
            line(10 * ONE, 0, 10 * ONE, 10 * ONE)
        )]
    );
}

#[test]
fn closed_rectangle_needs_no_closing_edge() {
    let points = vec![pt(0, 0), pt(10, 0), pt(10, 10), pt(0, 10), pt(0, 0)];
    let all = tesselate_shape(points).drain_all();
    assert_eq!(all, vec![trap(0, 10, line(0, 0, 0, 10), line(10, 0, 10, 10))]);
}

#[test]
fn triangle_is_one_trapezoid() {
    let all = tesselate_shape(vec![pt(0, 0), pt(10, 0), pt(5, 10)]).drain_all();
    assert_eq!(all, vec![trap(0, 10, line(0, 0, 5, 10), line(10, 0, 5, 10))]);
}

#[test]
fn diamond_is_cut_at_its_corners() {
    let points = vec![pt(5, 0), pt(10, 5), pt(5, 10), pt(0, 5)];
    let all = tesselate_shape(points).drain_all();
    assert_eq!(
        all,
        vec![
            trap(0, 5, line(5, 0, 0, 5), line(5, 0, 10, 5)),
            trap(5, 10, line(0, 5, 5, 10), line(10, 5, 5, 10)),
        ]
    );
}

#[test]
fn two_points_make_the_same_edge_twice() {
    let all = tesselate_shape(vec![pt(0, 0), pt(4, 8)]).drain_all();
    assert_eq!(all, vec![trap(0, 8, line(0, 0, 4, 8), line(0, 0, 4, 8))]);
}

#[test]
fn pulling_and_draining_agree() {
    let shapes = vec![
        vec![],
        vec![pt(0, 0), pt(10, 0), pt(10, 10), pt(0, 10)],
        vec![pt(0, 0), pt(10, 0), pt(5, 10)],
        vec![pt(5, 0), pt(10, 5), pt(5, 10), pt(0, 5)],
        vec![pt(0, 0), pt(10, 10), pt(10, 0), pt(0, 10)],
        vec![pt(0, 0), pt(10, 0), pt(13, 20), pt(20, 200)],
        vec![pt(0, 0), pt(7 * ONE, 3 * ONE), pt(2 * ONE, 9 * ONE), pt(-4 * ONE, 5 * ONE), pt(ONE, 4 * ONE)],
    ];
    for points in shapes {
        let drained = tesselate_shape(points.clone()).drain_all();
        let pulled = pull_all(tesselate_shape(points));
        assert_eq!(pulled, drained);
    }
}

#[test]
fn pulling_part_and_draining_the_rest() {
    let points = vec![pt(0, 0), pt(10, 10), pt(10, 0), pt(0, 10)];
    let all = tesselate_shape(points.clone()).drain_all();
    assert_eq!(all.len(), 4);
    let mut sweep = tesselate_shape(points);
    let first = sweep.next_one();
    assert_eq!(first, Some(all[0]));
    assert_eq!(sweep.drain_all(), all[1..].to_vec());
}

#[test]
fn bow_tie_stops_just_past_its_crossing() {
    let points = vec![pt(0, 0), pt(10, 10), pt(10, 0), pt(0, 10)];
    let all = tesselate_shape(points).drain_all();
    assert_eq!(
        all,
        vec![
            trap(0, 6, line(0, 0, 0, 10), line(0, 0, 10, 10)),
            trap(0, 6, line(10, 0, 0, 10), line(10, 0, 10, 10)),
            trap(6, 10, line(0, 0, 0, 10), line(10, 0, 0, 10)),
            trap(6, 10, line(0, 0, 10, 10), line(10, 0, 10, 10)),
        ]
    );
}

#[test]
fn edges_crossing_at_a_whole_scan_position() {
    let a = Edge::from_points(pt(0, 0), pt(10 * ONE, 10 * ONE));
    let b = Edge::from_points(pt(10 * ONE, 0), pt(0, 10 * ONE));
    let all = edges_to_trapezoids(vec![a, b]).drain_all();
    assert_eq!(
        all,
        vec![
            trap(0, 5 * ONE + 1, line(0, 0, 10 * ONE, 10 * ONE), line(10 * ONE, 0, 0, 10 * ONE)),
            trap(
                5 * ONE + 1,
                10 * ONE,
                line(10 * ONE, 0, 0, 10 * ONE),
                line(0, 0, 10 * ONE, 10 * ONE)
            ),
        ]
    );
    for t in all {
        assert!(t.bottom > t.top);
    }
}

#[test]
fn odd_edge_is_left_out() {
    let a = Edge::from_points(pt(0, 0), pt(0, 10));
    let b = Edge::from_points(pt(5, 0), pt(5, 10));
    let c = Edge::from_points(pt(9, 0), pt(9, 10));
    let all = edges_to_trapezoids(vec![c, a, b]).drain_all();
    assert_eq!(all, vec![trap(0, 10, line(0, 0, 0, 10), line(5, 0, 5, 10))]);
}

#[test]
fn single_edge_makes_nothing() {
    let a = Edge::from_points(pt(0, 0), pt(3, 10));
    let mut sweep = edges_to_trapezoids(vec![a]);
    assert!(!sweep.is_exhausted());
    assert_eq!(sweep.next_one(), None);
    assert!(sweep.is_exhausted());
    assert_eq!(sweep.scan_position(), 10);
}

#[test]
fn lines_meeting_above_the_scan_turn_it_back() {
    let points = vec![pt(0, 0), pt(10, 0), pt(13, 20), pt(20, 200)];
    let all = tesselate_shape(points).drain_all();
    assert_eq!(
        all,
        vec![
            trap(0, -199, line(0, 0, 20, 200), line(10, 0, 13, 20)),
            trap(-199, 20, line(10, 0, 13, 20), line(0, 0, 20, 200)),
            trap(20, 200, line(0, 0, 20, 200), line(13, 20, 20, 200)),
        ]
    );
}

#[test]
fn steps_one_at_a_time() {
    let points = vec![pt(5, 0), pt(10, 5), pt(5, 10), pt(0, 5)];
    let mut sweep = tesselate_shape(points);
    assert_eq!(sweep.scan_position(), 0);
    assert_eq!(sweep.queued(), 0);
    assert!(sweep.populate_queue());
    assert_eq!(sweep.scan_position(), 5);
    assert_eq!(sweep.queued(), 1);
    assert!(sweep.populate_queue());
    assert_eq!(sweep.scan_position(), 10);
    assert_eq!(sweep.queued(), 2);
    assert!(sweep.is_exhausted());
    assert!(!sweep.populate_queue());
    assert_eq!(sweep.scan_position(), 10);
    assert_eq!(sweep.queued(), 2);
}

#[test]
fn gap_between_two_shapes_is_stepped_over() {
    let upper_left = Edge::from_points(pt(0, 0), pt(0, 4));
    let upper_right = Edge::from_points(pt(6, 0), pt(6, 4));
    let lower_left = Edge::from_points(pt(1, 9), pt(1, 12));
    let lower_right = Edge::from_points(pt(3, 9), pt(3, 12));
    let mut sweep = edges_to_trapezoids(vec![lower_right, upper_right, lower_left, upper_left]);
    assert!(sweep.populate_queue());
    assert_eq!((sweep.scan_position(), sweep.queued()), (4, 1));
    assert!(sweep.populate_queue());
    assert_eq!((sweep.scan_position(), sweep.queued()), (9, 1));
    assert!(sweep.populate_queue());
    assert_eq!((sweep.scan_position(), sweep.queued()), (12, 2));
    assert!(!sweep.populate_queue());
    assert_eq!(
        sweep.drain_all(),
        vec![
            trap(0, 4, line(0, 0, 0, 4), line(6, 0, 6, 4)),
            trap(9, 12, line(1, 9, 1, 12), line(3, 9, 3, 12)),
        ]
    );
}

#[test]
fn rectangle_from_its_lower_left_corner() {
    let all = tesselate_shape(vec![pt(0, 10), pt(10, 10), pt(10, 0), pt(0, 0)]).drain_all();
    assert_eq!(all, vec![trap(0, 10, line(0, 0, 0, 10), line(10, 0, 10, 10))]);
}

#[test]
fn rectangle_away_from_the_origin() {
    let all = tesselate_shape(vec![pt(-30, -7), pt(-2, -7), pt(-2, 55), pt(-30, 55)]).drain_all();
    assert_eq!(all, vec![trap(-7, 55, line(-30, -7, -30, 55), line(-2, -7, -2, 55))]);
}

#[test]
fn heights_in_simple_contours_are_positive() {
    let shapes = vec![
        vec![pt(0, 0), pt(10, 0), pt(10, 10), pt(0, 10)],
        vec![pt(5, 0), pt(10, 5), pt(5, 10), pt(0, 5)],
        vec![pt(0, 0), pt(8 * ONE, 2 * ONE), pt(6 * ONE, 9 * ONE), pt(-3 * ONE, 7 * ONE)],
        vec![pt(0, 0), pt(4, 3), pt(9, 0), pt(9, 12), pt(4, 8), pt(0, 12)],
    ];
    for points in shapes {
        let all = tesselate_shape(points).drain_all();
        assert!(!all.is_empty());
        let mut sum: i64 = 0;
        let mut top = all[0].top;
        for t in &all {
            assert!(t.bottom > t.top);
            if t.top != top {
                assert!(sum >= 0);
                sum = 0;
                top = t.top;
            }
            sum += i64::from(t.bottom) - i64::from(t.top);
        }
        assert!(sum >= 0);
    }
}

#[test]
fn notched_contour_is_cut_at_every_corner() {
    let points = vec![pt(0, 0), pt(4, 3), pt(9, 0), pt(9, 12), pt(4, 8), pt(0, 12)];
    let all = tesselate_shape(points).drain_all();
    assert_eq!(
        all,
        vec![
            trap(0, 3, line(0, 0, 0, 12), line(0, 0, 4, 3)),
            trap(0, 3, line(9, 0, 4, 3), line(9, 0, 9, 12)),
            trap(3, 8, line(0, 0, 0, 12), line(9, 0, 9, 12)),
            trap(8, 12, line(0, 0, 0, 12), line(4, 8, 0, 12)),
            trap(8, 12, line(4, 8, 9, 12), line(9, 0, 9, 12)),
        ]
    );
}

#[test]
fn lines_parting_fast_above_the_scan_hold_it_back() {
    let points = vec![pt(0, 0), pt(5, 0), pt(65, 20), pt(200, 200)];
    let mut sweep = tesselate_shape(points);
    assert_eq!(sweep.next_one(), Some(trap(0, -2, line(0, 0, 200, 200), line(5, 0, 65, 20))));
    for _ in 0..20 {
        assert_eq!(sweep.next_one(), Some(trap(-2, -2, line(0, 0, 200, 200), line(5, 0, 65, 20))));
        assert_eq!(sweep.scan_position(), -2);
        assert_eq!(sweep.edges_left(), 3);
    }
}
