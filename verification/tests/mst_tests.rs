use kicad_cdb::mst::{build_mst_edges, median3};
use kicad_cdb::net_topology::{build_topology_edges, PadRole, TopologyContext};

const MM: i32 = 1_000_000;

fn mm(v: &[(i32, i32)]) -> Vec<(i32, i32)> {
    v.iter().map(|&(x, y)| (x * MM, y * MM)).collect()
}

#[test]
fn two_pins_or_fewer_give_one_edge() {
    assert_eq!(build_mst_edges(&mm(&[(0, 0), (3, 4)])), (vec![(0, 1)], vec![]));
    assert_eq!(build_mst_edges(&[]), (vec![(0, 1)], vec![]));
}

#[test]
fn three_pins_l_shape_stays_a_tree() {
    let (e, p) = build_mst_edges(&mm(&[(0, 0), (10, 0), (0, 10)]));
    assert_eq!(e, vec![(0, 1), (0, 2)]);
    assert!(p.is_empty());
}

#[test]
fn three_pins_spread_use_steiner_star() {
    let (e, p) = build_mst_edges(&mm(&[(0, 0), (10, 10), (20, 0)]));
    assert_eq!(e, vec![(0, 3), (1, 3), (2, 3)]);
    assert_eq!(p, vec![(10 * MM, 0)]);
}

#[test]
fn prim_tree_sorted_by_length() {
    let (e, p) = build_mst_edges(&mm(&[(0, 0), (1, 0), (5, 0), (6, 0)]));
    assert_eq!(e, vec![(0, 1), (2, 3), (1, 2)]);
    assert!(p.is_empty());
    // Ties go to the lowest index.
    let (e, _) = build_mst_edges(&mm(&[(0, 0), (0, 2), (2, 0), (2, 2), (9, 9)]));
    assert_eq!(e, vec![(0, 1), (0, 2), (1, 3), (3, 4)]);
}

#[test]
fn median_of_three() {
    assert_eq!(median3(1, 2, 3), 2);
    assert_eq!(median3(3, 1, 2), 2);
    assert_eq!(median3(2, 3, 1), 2);
    assert_eq!(median3(5, 5, 1), 5);
    assert_eq!(median3(-4, 0, -9), -4);
}

#[test]
fn topology_context_picks_flyby_for_ddr3_nets() {
    let mut ctx = TopologyContext::new();
    ctx.add_net_name(7, "ddr3_a3".to_string());
    ctx.add_net_name(8, "GPIO".to_string());
    for r in [PadRole::Controller, PadRole::Memory, PadRole::Memory, PadRole::Termination] {
        ctx.add_pad_role(7, r);
        ctx.add_pad_role(8, r);
    }
    assert!(ctx.is_ddr3(7));
    assert!(!ctx.is_ddr3(8));
    assert_eq!(ctx.name_for(8), "GPIO");
    assert_eq!(ctx.name_for(99), "");
    assert_eq!(ctx.roles_for(7).map(|r| r.len()), Some(4));
    assert!(ctx.roles_for(99).is_none());
    let pads = mm(&[(0, 0), (15, 0), (5, 0), (16, 0)]);
    let (flyby, sp) = build_topology_edges(&pads, 7, &ctx);
    assert_eq!(flyby, vec![(0, 2), (2, 1), (1, 3)]);
    assert!(sp.is_empty());
    let (tree, _) = build_topology_edges(&pads, 8, &ctx);
    assert_eq!(tree, build_mst_edges(&pads).0);
    // Renaming a net away from DDR3 drops it from the candidates.
    ctx.add_net_name(7, "SIG".to_string());
    assert!(!ctx.is_ddr3(7));
}
