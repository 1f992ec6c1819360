use flo_curves::geo::Coord2;
use flo_curves::curve::{Bounds, Curve};
use flo_curves::path::{SimpleBezierPath, path_fast_bounding_box, path_to_curves};
use flo_curves::fill::{RayCollision, find_nearest_collision, find_long_edges, ray_is_moving_outwards};
use flo_curves::stroke::{butt_end_cap, create_path, Coord2Thirds, LineCap, LineJoin};
use flo_curves::geo::fraction_along_exec;

#[test]
fn fast_bounding_box_of_curve() {
    let curve = Curve::from_points(Coord2(10, 20), (Coord2(-5, 40), Coord2(30, -7)), Coord2(12, 18));
    let bounds = curve.fast_bounding_box();
    assert_eq!(bounds.min(), Coord2(-5, -7));
    assert_eq!(bounds.max(), Coord2(30, 40));
}

#[test]
fn path_fast_bounds_union_of_curves() {
    let path = SimpleBezierPath::from_points(
        Coord2(0, 0),
        vec![(Coord2(1, 2), Coord2(3, 4), Coord2(5, 5)), (Coord2(7, -3), Coord2(9, 9), Coord2(10, 1))],
    );
    let bounds = path_fast_bounding_box(&path);
    assert_eq!(bounds, Bounds::from_min_max(Coord2(0, -3), Coord2(10, 9)));
}

#[test]
fn empty_path_has_origin_bounds() {
    let path = SimpleBezierPath::from_points(Coord2(4, 4), vec![]);
    let bounds = path_fast_bounding_box(&path);
    assert_eq!(bounds, Bounds::from_min_max(Coord2(0, 0), Coord2(0, 0)));
}

#[test]
fn path_curves_follow_on() {
    let path = SimpleBezierPath::from_points(
        Coord2(0, 0),
        vec![(Coord2(1, 2), Coord2(3, 4), Coord2(5, 5)), (Coord2(7, -3), Coord2(9, 9), Coord2(10, 1))],
    );
    let curves = path_to_curves(&path);
    assert_eq!(curves.len(), 2);
    assert_eq!(curves[1].start_point(), Coord2(5, 5));
    assert_eq!(curves[1].end_point(), Coord2(10, 1));
    assert_eq!(curves[0].reverse().start_point(), Coord2(5, 5));
}

#[test]
fn union_of_bounds() {
    let a = Bounds::from_min_max(Coord2(0, 0), Coord2(2, 2));
    let b = Bounds::from_min_max(Coord2(-1, 1), Coord2(1, 5));
    assert_eq!(a.union_bounds(b), Bounds::from_min_max(Coord2(-1, 0), Coord2(2, 5)));
}

#[test]
fn nearest_collision_ignores_collisions_behind() {
    let candidates = vec![
        RayCollision::new(Coord2(-1, 0), 'a'),
        RayCollision::new(Coord2(5, 0), 'b'),
        RayCollision::new(Coord2(3, 0), 'c'),
        RayCollision::new(Coord2(3, 0), 'd'),
    ];
    let (nearest, distance) = find_nearest_collision(candidates, Coord2(0, 0), Coord2(1, 0)).unwrap();
    assert_eq!(nearest.what, 'c');
    assert_eq!(nearest.position, Coord2(3, 0));
    assert_eq!(distance, 9);
}

#[test]
fn nearest_collision_none_when_all_behind() {
    let candidates = vec![RayCollision::new(Coord2(-1, 0), 1), RayCollision::new(Coord2(-4, 2), 2)];
    assert!(find_nearest_collision(candidates, Coord2(0, 0), Coord2(1, 0)).is_none());
}

#[test]
fn long_edges_wrap_around() {
    let edges = vec![
        RayCollision::new(Coord2(0, 0), ()),
        RayCollision::new(Coord2(1, 0), ()),
        RayCollision::new(Coord2(10, 0), ()),
    ];
    let long = find_long_edges(&edges, 25);
    assert_eq!(long.len(), 2);
    assert_eq!(long[0].edge_index, (2, 0));
    assert_eq!(long[0].start, Coord2(10, 0));
    assert_eq!(long[1].edge_index, (1, 2));
    assert!(!long[1].ray_collided);
}

#[test]
fn moving_outwards() {
    assert!(ray_is_moving_outwards(&Coord2(0, 0), &Coord2(2, 0), &Coord2(3, 1)));
    assert!(!ray_is_moving_outwards(&Coord2(0, 0), &Coord2(2, 0), &Coord2(1, 5)));
    assert!(!ray_is_moving_outwards(&Coord2(0, 0), &Coord2(2, 0), &Coord2(2, 9)));
}

#[test]
fn create_path_needs_start_and_points() {
    assert!(create_path(&None, vec![(Coord2(1, 1), Coord2(2, 2), Coord2(3, 3))]).is_none());
    assert!(create_path(&Some((Coord2(0, 0), Coord2(1, 0))), vec![]).is_none());
    let path = create_path(&Some((Coord2(0, 0), Coord2(1, 0))), vec![(Coord2(1, 1), Coord2(2, 2), Coord2(3, 3))]).unwrap();
    assert_eq!(path.start_point(), Coord2(0, 0));
    assert_eq!(path.points.len(), 1);
}

#[test]
fn line_styles_are_ordered() {
    assert!(LineJoin::Miter < LineJoin::Bevel);
    assert!(LineCap::Butt < LineCap::Square);
}

#[test]
fn butt_end_cap_draws_a_straight_line() {
    let mut points = vec![(Coord2Thirds(0, 0), Coord2Thirds(0, 0), Coord2Thirds(15, 15))];
    assert!(butt_end_cap(&mut points, Coord2(0, 0), Coord2(30, -9)));
    assert_eq!(points.len(), 2);
    // (10, -3), (20, -6), (30, -9) in thirds of a grid step
    assert_eq!(points[1], (Coord2Thirds(30, -9), Coord2Thirds(60, -18), Coord2Thirds(90, -27)));
}

#[test]
fn butt_end_cap_between_the_same_point_adds_nothing() {
    let mut points = vec![];
    assert!(!butt_end_cap(&mut points, Coord2(4, 4), Coord2(4, 4)));
    assert_eq!(points.len(), 0);
}

#[test]
fn fractions_along_round_down() {
    assert_eq!(fraction_along_exec(0, 10, 1, 3), 3);
    assert_eq!(fraction_along_exec(0, -10, 1, 3), -4);
    assert_eq!(fraction_along_exec(10, 0, 2, 3), 3);
    assert_eq!(fraction_along_exec(-5, 5, 1, 2), 0);
    assert_eq!(fraction_along_exec(7, 7, 1, 3), 7);
    assert_eq!(fraction_along_exec(i32::MIN, i32::MAX, 100, 100), i32::MAX);
}

#[test]
fn butt_end_cap_control_points_are_exact_thirds() {
    let mut points = vec![];
    assert!(butt_end_cap(&mut points, Coord2(0, 0), Coord2(1, 0)));
    // (1/3, 0), (2/3, 0), (1, 0)
    assert_eq!(points[0], (Coord2Thirds(1, 0), Coord2Thirds(2, 0), Coord2Thirds(3, 0)));
    for (num, cp) in [(1.0, points[0].0), (2.0, points[0].1)] {
        assert_eq!(cp.0 as f64 / 3.0, num / 3.0);
        assert_eq!(cp.1, 0);
    }

    let mut points = vec![];
    assert!(butt_end_cap(&mut points, Coord2(0, 0), Coord2(3, 0)));
    assert_eq!(points[0], (Coord2Thirds(3, 0), Coord2Thirds(6, 0), Coord2Thirds(9, 0)));
}
