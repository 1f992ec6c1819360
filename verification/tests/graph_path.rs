use flo_curves::geo::Coord2;
use flo_curves::path::SimpleBezierPath;
use flo_curves::graph_path::{GraphEdge, GraphEdgeRef, GraphPath, GraphPathEdgeKind, PathDirection, PathLabel};

fn square() -> SimpleBezierPath {
    SimpleBezierPath::from_points(
        Coord2(0, 0),
        vec![
            (Coord2(3, 0), Coord2(6, 0), Coord2(10, 0)),
            (Coord2(10, 3), Coord2(10, 6), Coord2(10, 10)),
            (Coord2(6, 10), Coord2(3, 10), Coord2(0, 10)),
            (Coord2(0, 6), Coord2(0, 3), Coord2(0, 0)),
        ],
    )
}

fn open_triangle() -> SimpleBezierPath {
    SimpleBezierPath::from_points(
        Coord2(0, 0),
        vec![
            (Coord2(1, 0), Coord2(2, 0), Coord2(100, 0)),
            (Coord2(100, 1), Coord2(100, 2), Coord2(100, 100)),
        ],
    )
}

fn label(n: u32) -> PathLabel {
    PathLabel(n, PathDirection::Clockwise)
}

#[test]
fn closed_path_has_one_point_per_section() {
    let graph = GraphPath::from_path(&square(), label(0));
    assert_eq!(graph.num_points(), 4);
    for point in 0..4 {
        assert_eq!(graph.num_edges(point), 1);
        let edge = GraphEdgeRef { start_idx: point, edge_idx: 0, reverse: false };
        assert_eq!(graph.edge_end_point_idx(edge), (point + 1) % 4);
        assert_eq!(graph.edge_kind(edge), GraphPathEdgeKind::Uncategorised);
        assert_eq!(graph.edge_label(edge), label(0));
    }
    assert_eq!(graph.point_position(2), Coord2(10, 10));
}

#[test]
fn open_path_gets_closing_line() {
    let graph = GraphPath::from_path(&open_triangle(), label(0));
    assert_eq!(graph.num_points(), 3);
    let closing = graph.edge(GraphEdgeRef { start_idx: 2, edge_idx: 0, reverse: false });
    assert_eq!(closing.end_idx, 0);
    // 33% and 66% of the way from the start (0, 0) back to... the start point towards the last point (100, 100)
    assert_eq!(closing.cp1, Coord2(33, 33));
    assert_eq!(closing.cp2, Coord2(66, 66));
}

#[test]
fn sections_that_do_not_move_are_skipped() {
    let path = SimpleBezierPath::from_points(
        Coord2(0, 0),
        vec![
            (Coord2(3, 0), Coord2(6, 0), Coord2(10, 0)),
            (Coord2(10, 0), Coord2(10, 0), Coord2(10, 0)),
            (Coord2(10, 5), Coord2(5, 10), Coord2(0, 0)),
        ],
    );
    let graph = GraphPath::from_path(&path, label(0));
    assert_eq!(graph.num_points(), 2);
}

#[test]
fn empty_path_gives_empty_graph() {
    let graph = GraphPath::from_path(&SimpleBezierPath::from_points(Coord2(1, 1), vec![]), label(0));
    assert_eq!(graph.num_points(), 0);
}

#[test]
fn reverse_edges_come_from_the_previous_point() {
    let graph = GraphPath::from_path(&square(), label(0));
    let reverse = graph.reverse_edges_for_point(0);
    assert_eq!(reverse, vec![GraphEdgeRef { start_idx: 3, edge_idx: 0, reverse: true }]);
    let following = graph.following_edge_ref(GraphEdgeRef { start_idx: 1, edge_idx: 0, reverse: false });
    assert_eq!(following, GraphEdgeRef { start_idx: 2, edge_idx: 0, reverse: false });
}

#[test]
fn merge_renumbers_second_graph() {
    let a = GraphPath::from_path(&square(), label(0));
    let b = GraphPath::from_path(&open_triangle(), label(1));
    let merged = a.merge(b);
    assert_eq!(merged.num_points(), 7);
    let edge = GraphEdgeRef { start_idx: 6, edge_idx: 0, reverse: false };
    assert_eq!(merged.edge_end_point_idx(edge), 4);
    assert_eq!(merged.edge_label(edge), label(1));
    assert_eq!(merged.reverse_edges_for_point(4), vec![GraphEdgeRef { start_idx: 6, edge_idx: 0, reverse: true }]);
    assert_eq!(merged.all_edge_refs().len(), 7);
}

#[test]
fn from_merged_paths_merges_in_order() {
    let merged = GraphPath::from_merged_paths(&vec![(square(), label(0)), (open_triangle(), label(1))]);
    assert_eq!(merged.num_points(), 7);
    assert_eq!(merged.point_position(4), Coord2(0, 0));
    assert_eq!(merged.point_position(6), Coord2(100, 100));
}

#[test]
fn set_kind_and_label() {
    let mut graph = GraphPath::from_path(&square(), label(0));
    let edge = GraphEdgeRef { start_idx: 1, edge_idx: 0, reverse: false };
    graph.set_edge_kind(edge, GraphPathEdgeKind::Exterior);
    graph.set_edge_label(edge, label(5));
    assert_eq!(graph.edge_kind(edge), GraphPathEdgeKind::Exterior);
    assert_eq!(graph.edge_label(edge), label(5));
    assert_eq!(graph.edge_kind(GraphEdgeRef { start_idx: 0, edge_idx: 0, reverse: false }), GraphPathEdgeKind::Uncategorised);
    assert_eq!(edge.reversed(), GraphEdgeRef { start_idx: 1, edge_idx: 0, reverse: true });
}

fn edge_ref(start_idx: usize) -> GraphEdgeRef {
    GraphEdgeRef { start_idx, edge_idx: 0, reverse: false }
}

#[test]
fn setting_a_kind_follows_a_loop_without_branches() {
    let mut graph = GraphPath::from_path(&square(), label(0));
    graph.set_edge_kind_connected(edge_ref(1), GraphPathEdgeKind::Exterior);
    for point in 0..4 {
        assert_eq!(graph.edge_kind(edge_ref(point)), GraphPathEdgeKind::Exterior);
    }
}

#[test]
fn setting_a_kind_stops_at_a_branch() {
    // Two squares sharing nothing: setting one loop leaves the other alone
    let mut graph = GraphPath::from_merged_paths(&vec![(square(), label(0)), (square(), label(1))]);
    graph.set_edge_kind_connected(edge_ref(5), GraphPathEdgeKind::Interior);
    for point in 0..4 {
        assert_eq!(graph.edge_kind(edge_ref(point)), GraphPathEdgeKind::Uncategorised);
    }
    for point in 4..8 {
        assert_eq!(graph.edge_kind(edge_ref(point)), GraphPathEdgeKind::Interior);
    }
}

#[test]
fn single_exterior_edges_and_gaps() {
    let mut graph = GraphPath::from_path(&square(), label(0));
    graph.set_edge_kind(edge_ref(0), GraphPathEdgeKind::Exterior);
    assert!(graph.has_single_exterior_edge(0));
    assert!(graph.has_single_exterior_edge(1));
    assert!(!graph.has_single_exterior_edge(2));
    assert!(graph.edge_has_gap(edge_ref(0)));
    assert!(graph.edge_has_gap(edge_ref(0).reversed()));
    assert!(!graph.edge_has_gap(edge_ref(1)));

    graph.set_edge_kind(edge_ref(1), GraphPathEdgeKind::Exterior);
    assert!(!graph.has_single_exterior_edge(1));
    assert!(!graph.edge_has_gap(edge_ref(0)));
    assert!(graph.edge_has_gap(edge_ref(1)));
}

#[test]
fn edge_curve_points_follow_the_direction_of_the_ref() {
    let graph = GraphPath::from_path(&square(), label(0));
    assert_eq!(graph.edge_control_points(edge_ref(0)), (Coord2(3, 0), Coord2(6, 0)));
    assert_eq!(graph.edge_control_points(edge_ref(0).reversed()), (Coord2(6, 0), Coord2(3, 0)));
    assert_eq!(graph.edge_start_point(edge_ref(0)), Coord2(0, 0));
    assert_eq!(graph.edge_end_point(edge_ref(0)), Coord2(10, 0));
    assert_eq!(graph.edge_start_point(edge_ref(0).reversed()), Coord2(10, 0));
    assert_eq!(graph.edge_end_point(edge_ref(0).reversed()), Coord2(0, 0));
    assert!(!graph.edge_is_very_short(edge_ref(0)));
}

#[test]
fn exterior_square_gives_back_the_square() {
    let mut graph = GraphPath::from_path(&square(), label(0));
    graph.set_edge_kind_connected(edge_ref(0), GraphPathEdgeKind::Exterior);
    let paths = graph.exterior_paths();
    assert_eq!(paths.len(), 1);
    let expected = square();
    assert_eq!(paths[0].start_point, expected.start_point);
    assert_eq!(paths[0].points, expected.points);
}

#[test]
fn no_exterior_edges_gives_no_paths() {
    let graph = GraphPath::from_path(&square(), label(0));
    assert_eq!(graph.exterior_paths().len(), 0);
}

#[test]
fn exterior_paths_of_two_loops() {
    let mut graph = GraphPath::from_merged_paths(&vec![(square(), label(0)), (open_triangle(), label(1))]);
    graph.set_edge_kind_connected(edge_ref(0), GraphPathEdgeKind::Exterior);
    graph.set_edge_kind_connected(edge_ref(4), GraphPathEdgeKind::Exterior);
    let paths = graph.exterior_paths();
    assert_eq!(paths.len(), 2);
    assert_eq!(paths[0].start_point, Coord2(0, 0));
    assert_eq!(paths[0].points.len(), 4);
    assert_eq!(paths[1].start_point, Coord2(0, 0));
    assert_eq!(paths[1].points.len(), 3);
    assert_eq!(paths[1].points[0], (Coord2(1, 0), Coord2(2, 0), Coord2(100, 0)));
    assert_eq!(paths[1].points[2], (Coord2(33, 33), Coord2(66, 66), Coord2(0, 0)));
}

#[test]
fn gap_in_exterior_edges_is_healed() {
    let mut graph = GraphPath::from_path(&square(), label(0));
    graph.set_edge_kind(edge_ref(0), GraphPathEdgeKind::Exterior);
    graph.set_edge_kind(edge_ref(2), GraphPathEdgeKind::Exterior);
    graph.set_edge_kind(edge_ref(3), GraphPathEdgeKind::Exterior);
    assert!(graph.edge_has_gap(edge_ref(0)));
    assert!(graph.heal_exterior_gaps());
    assert_eq!(graph.edge_kind(edge_ref(1)), GraphPathEdgeKind::Exterior);
    assert_eq!(graph.exterior_paths().len(), 1);
}

#[test]
fn gap_too_far_from_other_exterior_edges_is_not_healed() {
    let mut graph = GraphPath::from_path(&square(), label(0));
    graph.set_edge_kind(edge_ref(0), GraphPathEdgeKind::Exterior);
    assert!(!graph.heal_exterior_gaps());
    for point in 1..4 {
        assert_eq!(graph.edge_kind(edge_ref(point)), GraphPathEdgeKind::Uncategorised);
    }
}

#[test]
fn graph_without_gaps_is_already_healed() {
    let mut graph = GraphPath::from_path(&square(), label(0));
    assert!(graph.heal_exterior_gaps());
    graph.set_edge_kind_connected(edge_ref(0), GraphPathEdgeKind::Exterior);
    assert!(graph.heal_exterior_gaps());
    assert_eq!(graph.exterior_paths().len(), 1);
}

#[test]
fn edge_curves_and_bounds() {
    let graph = GraphPath::from_path(&open_triangle(), label(0));
    let closing = GraphEdgeRef { start_idx: 2, edge_idx: 0, reverse: false };
    let curve = graph.edge_curve(closing);
    assert_eq!(curve.start_point(), Coord2(100, 100));
    assert_eq!(curve.end_point(), Coord2(0, 0));
    assert_eq!(curve.control_points(), (Coord2(33, 33), Coord2(66, 66)));
    let reversed = graph.edge_curve(closing.reversed());
    assert_eq!(reversed.start_point(), Coord2(0, 0));
    assert_eq!(reversed.control_points(), (Coord2(66, 66), Coord2(33, 33)));

    let bounds = graph.edge_fast_bounding_box(edge_ref(1));
    assert_eq!(bounds.min(), Coord2(100, 0));
    assert_eq!(bounds.max(), Coord2(100, 100));
    assert_eq!(graph.edge_fast_bounding_box(edge_ref(1).reversed()), bounds);
}

#[test]
fn next_edge_follows_the_path() {
    let graph = GraphPath::from_path(&square(), label(0));
    let (next, curve) = graph.get_next_edge(edge_ref(3));
    assert_eq!(next, edge_ref(0));
    assert_eq!(curve.start_point(), Coord2(0, 0));
    assert_eq!(curve.end_point(), Coord2(10, 0));
}

#[test]
fn removing_very_short_edges_keeps_a_graph_without_them() {
    let mut graph = GraphPath::from_path(&square(), label(0));
    graph.remove_all_very_short_edges();
    assert_eq!(graph.num_points(), 4);
    for point in 0..4 {
        assert_eq!(graph.num_edges(point), 1);
        assert_eq!(graph.edge_end_point_idx(edge_ref(point)), (point + 1) % 4);
        assert_eq!(graph.edge_following_edge_idx(edge_ref(point)), 0);
    }
    assert_eq!(graph.reverse_edges_for_point(0), vec![GraphEdgeRef { start_idx: 3, edge_idx: 0, reverse: true }]);
}

#[test]
fn find_gaps() {
    // A square drawn with straight lines (control points a third and two thirds of the way along)
    let path = SimpleBezierPath::from_points(
        Coord2(1, 1),
        vec![
            (Coord2(1, 2), Coord2(1, 3), Coord2(1, 5)),
            (Coord2(2, 5), Coord2(3, 5), Coord2(5, 5)),
            (Coord2(5, 3), Coord2(5, 2), Coord2(5, 1)),
            (Coord2(3, 1), Coord2(2, 1), Coord2(1, 1)),
        ],
    );

    let mut graph_path = GraphPath::from_path(&path, label(0));
    let edges = (0..4).map(|point_idx| graph_path.edge_refs_for_point(point_idx)[0]).collect::<Vec<_>>();

    graph_path.set_edge_kind(edges[0], GraphPathEdgeKind::Exterior);
    graph_path.set_edge_kind(edges[2], GraphPathEdgeKind::Exterior);
    graph_path.set_edge_kind(edges[3], GraphPathEdgeKind::Exterior);

    // Edge 0,0 is followed by a gap
    assert!(graph_path.edge_has_gap(GraphEdgeRef { start_idx: 0, edge_idx: 0, reverse: false }));

    // Edge 1,0 is the gap
    assert!(!graph_path.edge_has_gap(GraphEdgeRef { start_idx: 1, edge_idx: 0, reverse: false }));

    // Edge 2,0 is preceded by the gap
    assert!(graph_path.edge_has_gap(GraphEdgeRef { start_idx: 2, edge_idx: 0, reverse: true }));
}

#[test]
fn paths_have_consistent_following_edges() {
    assert!(GraphPath::from_path(&square(), label(0)).check_following_edge_consistency());
    let merged = GraphPath::from_merged_paths(&vec![(square(), label(0)), (open_triangle(), label(1))]);
    assert!(merged.check_following_edge_consistency());
    assert!(GraphPath::new().check_following_edge_consistency());
}

#[test]
fn edges_ordered_by_smallest_x() {
    let graph = GraphPath::from_path(&square(), label(0));
    let ordered = graph.get_ordered_edges(0, 4);
    assert_eq!(ordered, vec![edge_ref(0), edge_ref(2), edge_ref(3), edge_ref(1)]);
    assert_eq!(graph.get_ordered_edges(1, 3), vec![edge_ref(2), edge_ref(1)]);
    assert_eq!(graph.get_ordered_edges(2, 2), vec![]);
}

#[test]
fn graph_edges_describe_their_curves() {
    let mut graph = GraphPath::from_path(&square(), label(0));
    graph.set_edge_kind(edge_ref(1), GraphPathEdgeKind::Exterior);

    let edge = graph.get_edge(edge_ref(1));
    assert!(!edge.is_reversed());
    assert_eq!(edge.kind(), GraphPathEdgeKind::Exterior);
    assert_eq!(edge.label(), label(0));
    assert_eq!(edge.start_point_index(), 1);
    assert_eq!(edge.end_point_index(), 2);
    assert_eq!(edge.start_point(), Coord2(10, 0));
    assert_eq!(edge.end_point(), Coord2(10, 10));
    assert_eq!(edge.control_points(), (Coord2(10, 3), Coord2(10, 6)));
    assert_eq!(edge.fast_bounding_box().min(), Coord2(10, 0));
    assert_eq!(GraphEdgeRef::from(&edge), edge_ref(1));

    let reversed = GraphEdge::new(&graph, edge_ref(1).reversed());
    assert!(reversed.is_reversed());
    assert_eq!(reversed.start_point_index(), 2);
    assert_eq!(reversed.end_point_index(), 1);
    assert_eq!(reversed.control_points(), (Coord2(10, 6), Coord2(10, 3)));

    let at_point = graph.edges_for_point(3);
    assert_eq!(at_point.len(), 1);
    assert_eq!(at_point[0].end_point_index(), 0);
    let all = graph.all_edges();
    assert_eq!(all.len(), 4);
    assert_eq!(GraphEdgeRef::from(&all[2]), edge_ref(2));
}

#[test]
fn closed_path_round_trips_through_a_graph() {
    let triangle = SimpleBezierPath::from_points(
        Coord2(-5, 2),
        vec![
            (Coord2(0, 9), Coord2(4, 12), Coord2(20, 7)),
            (Coord2(18, 0), Coord2(10, -6), Coord2(3, -8)),
            (Coord2(-2, -7), Coord2(-6, -3), Coord2(-5, 2)),
        ],
    );
    let mut graph = GraphPath::from_path(&triangle, label(3));
    assert_eq!(graph.num_points(), 3);
    graph.set_edge_kind_connected(edge_ref(0), GraphPathEdgeKind::Exterior);
    assert!(graph.heal_exterior_gaps());
    let paths = graph.exterior_paths();
    assert_eq!(paths.len(), 1);
    assert_eq!(paths[0].start_point, triangle.start_point);
    assert_eq!(paths[0].points, triangle.points);
}

#[test]
fn single_gap_in_a_loop_is_bridged_by_its_edge() {
    let mut graph = GraphPath::from_path(&square(), label(0));
    graph.set_edge_kind_connected(edge_ref(0), GraphPathEdgeKind::Exterior);
    graph.set_edge_kind(edge_ref(3), GraphPathEdgeKind::Interior);
    assert!(graph.edge_has_gap(edge_ref(2)));
    assert!(graph.heal_exterior_gaps());
    for point in 0..4 {
        assert_eq!(graph.edge_kind(edge_ref(point)), GraphPathEdgeKind::Exterior);
    }
}

fn pentagon() -> SimpleBezierPath {
    SimpleBezierPath::from_points(
        Coord2(0, 0),
        vec![
            (Coord2(3, 0), Coord2(6, 0), Coord2(10, 0)),
            (Coord2(13, 3), Coord2(16, 6), Coord2(20, 10)),
            (Coord2(16, 13), Coord2(13, 16), Coord2(10, 20)),
            (Coord2(6, 16), Coord2(3, 13), Coord2(0, 10)),
            (Coord2(0, 6), Coord2(0, 3), Coord2(0, 0)),
        ],
    )
}

#[test]
fn gap_needing_three_edges_is_healed() {
    // Edges 1 and 2 are interior: crossing the gap at point 1 takes them and exterior edge 3
    let mut graph = GraphPath::from_path(&pentagon(), label(0));
    for point in [0, 3, 4] {
        graph.set_edge_kind(edge_ref(point), GraphPathEdgeKind::Exterior);
    }
    for point in [1, 2] {
        graph.set_edge_kind(edge_ref(point), GraphPathEdgeKind::Interior);
    }
    assert!(graph.edge_has_gap(edge_ref(0)));
    assert!(graph.heal_exterior_gaps());
    for point in 0..5 {
        assert_eq!(graph.edge_kind(edge_ref(point)), GraphPathEdgeKind::Exterior);
    }
    let paths = graph.exterior_paths();
    assert_eq!(paths.len(), 1);
    assert_eq!(paths[0].points.len(), 5);
}

#[test]
fn gap_needing_four_edges_is_not_healed() {
    let mut graph = GraphPath::from_path(&pentagon(), label(0));
    for point in [0, 4] {
        graph.set_edge_kind(edge_ref(point), GraphPathEdgeKind::Exterior);
    }
    for point in [1, 2, 3] {
        graph.set_edge_kind(edge_ref(point), GraphPathEdgeKind::Interior);
    }
    assert!(!graph.heal_exterior_gaps());
    assert_eq!(graph.edge_kind(edge_ref(1)), GraphPathEdgeKind::Interior);
}
