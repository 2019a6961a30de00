use kicad_cdb::grid::{Cell, RoutingGrid};
use kicad_cdb::maze::{bfs_route, Node, VisitCache};
use kicad_cdb::wavefront::{
    decode_net, dilate_grid, encode_cell, encode_signal_layers, plan_wavefront_commit, CommitError, ExportError,
    PathStep,
};

#[test]
fn fresh_grid_signal_layers_free_others_blocked() {
    let g = RoutingGrid::new_bounded(5, 3, &[true, false, true], 10);
    assert_eq!(g.cols(), 5);
    assert_eq!(g.rows(), 3);
    assert_eq!(g.num_layers(), 3);
    assert_eq!(g.get(0, 4, 2), Cell::Free);
    assert_eq!(g.get(1, 0, 0), Cell::Blocked);
    assert_eq!(g.get(2, 1, 1), Cell::Free);
    assert!(g.in_bounds(4, 2));
    assert!(!g.in_bounds(5, 0));
    assert_eq!(g.idx(2, 1), 7);
}

#[test]
fn set_get_unmark() {
    let mut g = RoutingGrid::new_bounded(4, 4, &[true, true], 8);
    g.set(0, 1, 1, Cell::Trace(3));
    g.set(1, 1, 1, Cell::Via(3));
    g.set(0, 2, 2, Cell::Pad(4));
    g.set(1, 3, 3, Cell::Trace(3));
    assert_eq!(g.get(0, 1, 1), Cell::Trace(3));
    g.unmark_net(3);
    assert_eq!(g.get(0, 1, 1), Cell::Free);
    assert_eq!(g.get(1, 1, 1), Cell::Free);
    assert_eq!(g.get(1, 3, 3), Cell::Free);
    assert_eq!(g.get(0, 2, 2), Cell::Pad(4));
}

#[test]
fn congestion_saturates() {
    let mut g = RoutingGrid::new_bounded(2, 2, &[true], 1);
    assert_eq!(g.congestion_at(1, 0), 0);
    g.inc_congestion(1, 0);
    g.inc_congestion(1, 0);
    assert_eq!(g.congestion_at(1, 0), 2);
    assert_eq!(g.congestion_at(0, 0), 0);
}

#[test]
fn cell_encoding_round_trip() {
    assert_eq!(encode_cell(Cell::Free), 0);
    assert_eq!(encode_cell(Cell::Blocked), 1);
    assert_eq!(encode_cell(Cell::Pad(5)), 7);
    assert_eq!(encode_cell(Cell::Trace(5)), 1_000_005);
    assert_eq!(encode_cell(Cell::Via(5)), 2_000_005);
    assert_eq!(decode_net(7), Some(5));
    assert_eq!(decode_net(1_000_005), Some(5));
    assert_eq!(decode_net(2_000_005), Some(5));
    assert_eq!(decode_net(1), None);
    assert_eq!(decode_net(0), None);
}

#[test]
fn export_signal_layers_in_order() {
    let mut g = RoutingGrid::new_bounded(2, 1, &[true, false, true], 4);
    g.set(2, 1, 0, Cell::Pad(2));
    let v = encode_signal_layers(&g, &[2, 0]).unwrap();
    assert_eq!(v, vec![0, 4, 0, 0]);
    assert_eq!(encode_signal_layers(&g, &[]), Err(ExportError::NoSignalLayer));
}

#[test]
fn dilation_spreads_to_free_neighbours() {
    // One layer, 3 x 3, net 7 pad in the middle.
    let mut v = vec![0u32; 9];
    v[4] = 9;
    dilate_grid(&mut v, 3, 3, 1, 1);
    assert_eq!(v, vec![9; 9]);
    let mut w = vec![0u32, 0, 0, 0, 1];
    dilate_grid(&mut w, 5, 1, 1, 2);
    assert_eq!(w, vec![0, 0, 1, 1, 1]);
    let mut z = vec![0u32, 5, 0];
    dilate_grid(&mut z, 3, 1, 1, 0);
    assert_eq!(z, vec![0, 5, 0]);
}

#[test]
fn commit_plan_vias_and_errors() {
    let layers = vec!["F.Cu".to_string(), "B.Cu".to_string()];
    let plan = plan_wavefront_commit(&layers, &[(0, 0, 0), (0, 0, 1), (1, 0, 1)]);
    assert_eq!(plan.error, None);
    assert_eq!(
        plan.steps,
        vec![
            PathStep { from: (0, 0, 0), to: (0, 0, 1), via: false },
            PathStep { from: (0, 0, 1), to: (1, 0, 1), via: true },
        ]
    );
    let plan = plan_wavefront_commit(&layers, &[(0, 0, 0)]);
    assert_eq!(plan.error, Some(CommitError::TooShort));
    let plan = plan_wavefront_commit(&layers, &[(0, 0, 0), (0, 1, 0), (5, 1, 0)]);
    assert_eq!(plan.steps.len(), 1);
    assert_eq!(plan.error, Some(CommitError::LayerOutOfRange(5)));
}

fn is_route(path: &[Node], start: Node, goal: Node) -> bool {
    if path.first() != Some(&start) || path.last() != Some(&goal) {
        return false;
    }
    path.windows(2).all(|w| {
        let (a, b) = (w[0], w[1]);
        let d = a.col.abs_diff(b.col) + a.row.abs_diff(b.row);
        (d == 1 && a.layer == b.layer) || (d == 0 && a.layer != b.layer)
    })
}

#[test]
fn bfs_routes_around_obstacle_and_through_via() {
    let mut g = RoutingGrid::new_bounded(5, 3, &[true, true], 8);
    // Wall on layer 0 at column 2, rows 0..3.
    for r in 0..3 {
        g.set(0, 2, r, Cell::Blocked);
    }
    let per = 15;
    let mut cache = VisitCache::new(2 * per);
    let start = Node { col: 0, row: 1, layer: 0 };
    let goal = Node { col: 4, row: 1, layer: 0 };
    let path = bfs_route(&g, &[0, 1], start, goal, 3, &mut cache).expect("a route via layer 1");
    assert!(is_route(&path, start, goal));
    assert!(path.iter().any(|n| n.layer == 1));
    assert!(path.iter().all(|n| !(n.layer == 0 && n.col == 2)));
    // Only layer 0 available: no route.
    let mut cache = VisitCache::new(per);
    assert!(bfs_route(&g, &[0], start, goal, 3, &mut cache).is_none());
    // Cells of the routed net itself are passable, other nets' cells are not.
    let mut h = RoutingGrid::new_bounded(3, 1, &[true], 8);
    h.set(0, 1, 0, Cell::Trace(3));
    let s = Node { col: 0, row: 0, layer: 0 };
    let t = Node { col: 2, row: 0, layer: 0 };
    let mut cache = VisitCache::new(3);
    assert!(bfs_route(&h, &[0], s, t, 3, &mut cache).is_some());
    let mut cache = VisitCache::new(3);
    assert!(bfs_route(&h, &[0], s, t, 4, &mut cache).is_none());
    assert!(bfs_route(&h, &[], s, t, 3, &mut cache).is_none());
}

#[test]
fn bfs_clears_a_cache_whose_version_is_exhausted() {
    let h = RoutingGrid::new_bounded(3, 1, &[true], 8);
    let s = Node { col: 0, row: 0, layer: 0 };
    let t = Node { col: 2, row: 0, layer: 0 };
    let mut cache = VisitCache::new(3);
    cache.version = u32::MAX;
    let path = bfs_route(&h, &[0], s, t, 3, &mut cache).expect("a free row is routable");
    assert_eq!(path, vec![s, Node { col: 1, row: 0, layer: 0 }, t]);
    assert_eq!(cache.version, 1);
}

#[test]
fn bfs_finds_a_near_goal_on_a_grid_larger_than_its_budget() {
    let g = RoutingGrid::new_bounded(300, 300, &[true, true], 8);
    let mut cache = VisitCache::new(2 * 300 * 300);
    let start = Node { col: 150, row: 150, layer: 0 };
    let goal = Node { col: 153, row: 152, layer: 0 };
    let path = bfs_route(&g, &[0, 1], start, goal, 1, &mut cache).expect("a nearby goal is found");
    assert!(is_route(&path, start, goal));
    assert_eq!(path.len(), 6);
}
