use kicad_cdb::grid::{Cell, RoutingGrid};
use kicad_cdb::maze::Node;
use kicad_cdb::nets::prefers_inner_layer;
use kicad_cdb::pattern_route::{edge_layer_order, is_clearance_clear, try_l_shape_route};

fn node(col: usize, row: usize) -> Node {
    Node { col, row, layer: 0 }
}

fn cells(path: &[Node]) -> Vec<(usize, usize)> {
    path.iter().map(|n| (n.col, n.row)).collect()
}

#[test]
fn clearance_zone_sees_other_nets_only() {
    let mut g = RoutingGrid::new_bounded(10, 10, &[true], 8);
    g.set(0, 5, 5, Cell::Trace(2));
    g.set(0, 8, 8, Cell::Trace(1));
    // the trace of net 2 is one cell away diagonally
    assert!(!is_clearance_clear(&g, 0, 4, 4, 1, 1));
    assert!(is_clearance_clear(&g, 0, 4, 4, 2, 1));
    // the centre itself is not tested
    assert!(is_clearance_clear(&g, 0, 5, 5, 1, 0));
    // two cells away is outside a one-cell zone
    assert!(is_clearance_clear(&g, 0, 3, 5, 1, 1));
    // the zone is cut at the grid's edge
    assert!(is_clearance_clear(&g, 0, 0, 0, 1, 2));
}

#[test]
fn l_shape_horizontal_first_on_a_free_grid() {
    let g = RoutingGrid::new_bounded(10, 10, &[true], 8);
    let p = try_l_shape_route(&g, node(1, 1), node(4, 3), 1, 0, 0).unwrap();
    assert_eq!(cells(&p), vec![(1, 1), (2, 1), (3, 1), (4, 1), (4, 2), (4, 3)]);
}

#[test]
fn l_shape_runs_from_start_through_the_corner_to_goal() {
    let g = RoutingGrid::new_bounded(10, 10, &[true], 8);
    let p = try_l_shape_route(&g, node(5, 4), node(3, 2), 1, 0, 0).unwrap();
    assert_eq!(cells(&p), vec![(5, 4), (4, 4), (3, 4), (3, 3), (3, 2)]);
    let q = try_l_shape_route(&g, node(5, 0), node(2, 3), 1, 0, 0).unwrap();
    assert_eq!(cells(&q), vec![(5, 0), (4, 0), (3, 0), (2, 0), (2, 1), (2, 2), (2, 3)]);
    // start and goal on one row: a single straight leg
    let r = try_l_shape_route(&g, node(1, 0), node(4, 0), 1, 0, 0).unwrap();
    assert_eq!(cells(&r), vec![(1, 0), (2, 0), (3, 0), (4, 0)]);
}

#[test]
fn l_shape_falls_back_to_vertical_first() {
    let mut g = RoutingGrid::new_bounded(10, 10, &[true], 8);
    // block the horizontal-first corner (goal.col, start.row)
    g.set(0, 4, 1, Cell::Blocked);
    let p = try_l_shape_route(&g, node(1, 1), node(4, 3), 1, 0, 0).unwrap();
    assert_eq!(cells(&p), vec![(1, 1), (1, 2), (1, 3), (2, 3), (3, 3), (4, 3)]);
}

#[test]
fn l_shape_refuses_blocked_legs_far_goals_and_the_same_cell() {
    let mut g = RoutingGrid::new_bounded(100, 100, &[true], 8);
    assert!(try_l_shape_route(&g, node(2, 2), node(2, 2), 1, 0, 0).is_none());
    assert!(try_l_shape_route(&g, node(0, 1), node(40, 30), 1, 0, 0).is_none());
    g.set(0, 2, 1, Cell::Trace(3));
    g.set(0, 1, 2, Cell::Via(3));
    assert!(try_l_shape_route(&g, node(1, 1), node(4, 3), 1, 0, 0).is_none());
    // the same cells are open to net 3 itself
    assert!(try_l_shape_route(&g, node(1, 1), node(4, 3), 3, 0, 0).is_some());
}

#[test]
fn l_shape_clearance_keeps_legs_away_from_other_nets() {
    let mut g = RoutingGrid::new_bounded(10, 10, &[true], 8);
    g.set(0, 3, 0, Cell::Pad(5));
    // the horizontal leg along row 1 passes next to the pad of net 5
    let p = try_l_shape_route(&g, node(1, 1), node(4, 3), 1, 0, 1).unwrap();
    assert_eq!(cells(&p)[0], (1, 1));
    assert_eq!(cells(&p)[1], (1, 2));
    let q = try_l_shape_route(&g, node(1, 1), node(4, 3), 1, 0, 0).unwrap();
    assert_eq!(cells(&q)[1], (2, 1));
}

#[test]
fn edge_layers_preferred_alternate_then_the_rest() {
    // horizontal edges start on the first signal layer, vertical ones on the last
    assert_eq!(edge_layer_order(None, true, &[0, 2, 3, 5], false), vec![0, 5, 2, 3]);
    assert_eq!(edge_layer_order(None, false, &[0, 2, 3, 5], false), vec![5, 0, 2, 3]);
    // a requested layer goes first, then the first signal layer
    assert_eq!(edge_layer_order(Some(3), true, &[0, 2, 3, 5], false), vec![3, 0, 2, 5]);
    // crowded boards only try the preferred layer
    assert_eq!(edge_layer_order(None, true, &[0, 2, 3, 5], true), vec![0]);
    // a single signal layer: layer 0
    assert_eq!(edge_layer_order(None, true, &[4], false), vec![0, 4]);
}

#[test]
fn inner_layer_preference_by_net_name() {
    assert!(prefers_inner_layer("ddr3_dq0"));
    assert!(prefers_inner_layer("USB_DP"));
    assert!(prefers_inner_layer("sys_clk"));
    assert!(!prefers_inner_layer("GPIO1"));
}
