use kicad_cdb::topology::param_reference;
use kicad_cdb::net_topology::{
    analyze_net_topology, build_flyby_edges, classify_footprint_role, derive_visit_order, FootprintInfo, NetTopology,
    PadRole, TopologyKind,
};

const MM: i32 = 1_000_000;

fn fp(lib_id: &str, reference: &str, value: &str, n_pads: usize) -> FootprintInfo {
    FootprintInfo {
        lib_id: lib_id.to_string(),
        reference: reference.to_string(),
        value: value.to_string(),
        pad_count: n_pads,
    }
}

fn roles(spec: &[PadRole]) -> Vec<PadRole> {
    spec.to_vec()
}

fn mm(v: &[(i32, i32)]) -> Vec<(i32, i32)> {
    v.iter().map(|&(x, y)| (x * MM, y * MM)).collect()
}

#[test]
fn test_topology_kind_auto_default() {
    let t = NetTopology { kind: TopologyKind::Auto, visit_order: vec![] };
    assert_eq!(t.kind, TopologyKind::Auto);
    assert!(t.visit_order.is_empty());
}

#[test]
fn test_classify_footprint_role_memory() {
    assert_eq!(classify_footprint_role(&fp("Package_BGA:DDR3-96", "U5", "MT41J128M16", 96)), PadRole::Memory);
    assert_eq!(classify_footprint_role(&fp("Package_BGA:Generic", "U6", "H5TQ2G63BFR", 96)), PadRole::Memory);
}

#[test]
fn test_classify_footprint_role_controller() {
    assert_eq!(classify_footprint_role(&fp("Package_BGA:BGA256_FTG256", "U12", "XC6SLX9", 256)), PadRole::Controller);
    assert_eq!(classify_footprint_role(&fp("Package_BGA:CustomBGA", "U1", "MY-IC", 128)), PadRole::Controller);
}

#[test]
fn test_classify_footprint_role_termination() {
    assert_eq!(classify_footprint_role(&fp("Resistor_SMD:R_0402", "R5", "49.9", 2)), PadRole::Termination);
    assert_eq!(classify_footprint_role(&fp("Resistor_SMD:R_Array", "RN1", "4x49.9", 8)), PadRole::Termination);
}

#[test]
fn test_classify_footprint_role_generic() {
    assert_eq!(classify_footprint_role(&fp("Capacitor_SMD:C_0402", "C7", "100nF", 2)), PadRole::Generic);
    assert_eq!(classify_footprint_role(&fp("Connector:USB-C", "J1", "USB-C", 24)), PadRole::Generic);
}

#[test]
fn test_classify_footprint_role_resistor_takes_priority_over_value_ddr() {
    assert_eq!(classify_footprint_role(&fp("Resistor_SMD:R_0402", "R9", "DDR3_TERM", 2)), PadRole::Termination);
}

#[test]
fn classify_footprint_role_is_case_insensitive() {
    assert_eq!(classify_footprint_role(&fp("fpga:bga", "u3", "x", 10)), PadRole::Controller);
    assert_eq!(classify_footprint_role(&fp("lib:x", "r1", "mt41k", 2)), PadRole::Termination);
    assert_eq!(classify_footprint_role(&fp("lib:x", "U2", "mt41k", 2)), PadRole::Memory);
    assert_eq!(classify_footprint_role(&fp("lib:x", "U2", "x", 99)), PadRole::Generic);
    assert_eq!(classify_footprint_role(&fp("lib:x", "U2", "x", 100)), PadRole::Controller);
}

#[test]
fn test_flyby_basic() {
    let pads = mm(&[(0, 0), (5, 0), (10, 0), (15, 0)]);
    let r = roles(&[PadRole::Controller, PadRole::Memory, PadRole::Memory, PadRole::Termination]);
    let (edges, sp) = build_flyby_edges(&pads, &r).expect("fly-by should apply");
    assert!(sp.is_empty(), "no Steiner points for fly-by");
    assert_eq!(edges, vec![(0, 1), (1, 2), (2, 3)]);
}

#[test]
fn test_flyby_memory_sorted_by_distance() {
    let pads = mm(&[(0, 0), (10, 0), (3, 0)]);
    let r = roles(&[PadRole::Controller, PadRole::Memory, PadRole::Memory]);
    let (edges, _) = build_flyby_edges(&pads, &r).expect("fly-by should apply");
    assert_eq!(edges, vec![(0, 2), (2, 1)]);
}

#[test]
fn test_flyby_no_controller_returns_none() {
    let pads = mm(&[(0, 0), (5, 0), (10, 0)]);
    let r = roles(&[PadRole::Memory, PadRole::Memory, PadRole::Termination]);
    assert!(build_flyby_edges(&pads, &r).is_none());
}

#[test]
fn test_flyby_no_memory_controller_and_termination_only() {
    let pads = mm(&[(0, 0), (8, 0)]);
    let r = roles(&[PadRole::Controller, PadRole::Termination]);
    let (edges, _) = build_flyby_edges(&pads, &r).expect("fly-by should apply");
    assert_eq!(edges, vec![(0, 1)]);
}

#[test]
fn test_flyby_length_mismatch_returns_none() {
    let pads = mm(&[(0, 0), (5, 0)]);
    let r = roles(&[PadRole::Controller]);
    assert!(build_flyby_edges(&pads, &r).is_none());
}

#[test]
fn test_flyby_equal_distance_angle_tiebreak() {
    let pads = mm(&[(0, 0), (5, 0), (0, 5)]);
    let r = roles(&[PadRole::Controller, PadRole::Memory, PadRole::Memory]);
    let (edges, _) = build_flyby_edges(&pads, &r).expect("fly-by should apply");
    assert_eq!(edges, vec![(0, 1), (1, 2)]);
}

#[test]
fn test_analyze_topology_ddr3_addr_is_flyby() {
    let pads = mm(&[(0, 0), (5, 0), (10, 0), (15, 0)]);
    let r = roles(&[PadRole::Controller, PadRole::Memory, PadRole::Memory, PadRole::Termination]);
    let topo = analyze_net_topology("DDR3_A0", &pads, &r);
    assert_eq!(topo.kind, TopologyKind::FlyBy);
    assert_eq!(topo.visit_order, vec![0, 1, 2, 3]);
}

#[test]
fn test_analyze_topology_ddr3_dq_is_auto() {
    let pads = mm(&[(0, 0), (5, 0), (10, 0)]);
    let r = roles(&[PadRole::Controller, PadRole::Memory, PadRole::Memory]);
    let topo = analyze_net_topology("DDR3_DQ0", &pads, &r);
    assert_eq!(topo.kind, TopologyKind::Auto);
    assert!(topo.visit_order.is_empty());
}

#[test]
fn test_analyze_topology_no_memory_role_is_auto() {
    let pads = mm(&[(0, 0), (5, 0), (10, 0)]);
    let r = roles(&[PadRole::Controller, PadRole::Generic, PadRole::Generic]);
    let topo = analyze_net_topology("DDR3_A5", &pads, &r);
    assert_eq!(topo.kind, TopologyKind::Auto);
}

#[test]
fn test_analyze_topology_two_pins_is_auto() {
    let pads = mm(&[(0, 0), (5, 0)]);
    let r = roles(&[PadRole::Controller, PadRole::Memory]);
    let topo = analyze_net_topology("DDR3_A0", &pads, &r);
    assert_eq!(topo.kind, TopologyKind::Auto);
}

#[test]
fn flyby_seed_is_controller_nearest_memory_centroid() {
    // Two controllers; memory centroid at (20, 0) mm: the second controller is nearer.
    let pads = mm(&[(0, 0), (18, 0), (20, 2), (20, -2), (30, 0)]);
    let r = roles(&[PadRole::Controller, PadRole::Controller, PadRole::Memory, PadRole::Memory, PadRole::Termination]);
    let (edges, _) = build_flyby_edges(&pads, &r).unwrap();
    // seed 1, then controller 0, then memory by distance from pad 1 (both 4 mm: the
    // direction (2,-2) has the smaller angle, so pad 3 first), then termination.
    assert_eq!(derive_visit_order(&edges, pads.len()), vec![1, 0, 3, 2, 4]);
}

#[test]
fn flyby_generic_pads_are_skipped_and_order_is_a_chain() {
    let pads = mm(&[(1, 1), (0, 0), (9, 9), (3, 0), (2, 0)]);
    let r = roles(&[PadRole::Generic, PadRole::Controller, PadRole::Termination, PadRole::Memory, PadRole::Memory]);
    let (edges, _) = build_flyby_edges(&pads, &r).unwrap();
    assert_eq!(edges, vec![(1, 4), (4, 3), (3, 2)]);
    let order = derive_visit_order(&edges, pads.len());
    assert_eq!(order, vec![1, 4, 3, 2]);
}

#[test]
fn analyze_topology_lower_case_name_and_short_net() {
    let pads = mm(&[(0, 0), (5, 0), (10, 0), (15, 0)]);
    let r = roles(&[PadRole::Controller, PadRole::Memory, PadRole::Memory, PadRole::Termination]);
    assert_eq!(analyze_net_topology("ddr3_ck_p", &pads, &r).kind, TopologyKind::FlyBy);
    assert_eq!(analyze_net_topology("GPIO1", &pads, &r).kind, TopologyKind::Auto);
    let r2 = roles(&[PadRole::Controller, PadRole::Termination, PadRole::Termination, PadRole::Termination]);
    assert_eq!(analyze_net_topology("DDR3_A1", &pads, &r2).kind, TopologyKind::Auto);
}

#[test]
fn derive_visit_order_of_empty_is_empty() {
    assert!(derive_visit_order(&[], 0).is_empty());
    assert_eq!(derive_visit_order(&[(3, 1), (1, 2)], 4), vec![3, 1, 2]);
}

#[test]
fn param_reference_takes_the_name_after_the_dollar() {
    assert_eq!(param_reference("$vin"), Some("vin".to_string()));
    assert_eq!(param_reference("$"), Some(String::new()));
    assert_eq!(param_reference("vin"), None);
    assert_eq!(param_reference(""), None);
}

#[test]
fn analyze_topology_three_pad_address_net_is_flyby() {
    let pads = mm(&[(0, 0), (5, 0), (10, 0)]);
    let r = roles(&[PadRole::Controller, PadRole::Memory, PadRole::Memory]);
    let topo = analyze_net_topology("DDR3_A0", &pads, &r);
    assert_eq!(topo.kind, TopologyKind::FlyBy);
    assert_eq!(topo.visit_order, vec![0, 1, 2]);
}

#[test]
fn flyby_edges_number_the_non_generic_pads_minus_one() {
    let pads = mm(&[(0, 0), (5, 0), (7, 7), (10, 0), (15, 0), (20, 0)]);
    let r = roles(&[
        PadRole::Controller,
        PadRole::Memory,
        PadRole::Generic,
        PadRole::Memory,
        PadRole::Generic,
        PadRole::Termination,
    ]);
    let (edges, _) = build_flyby_edges(&pads, &r).expect("fly-by should apply");
    assert_eq!(edges.len(), 3);
    assert_eq!(edges, vec![(0, 1), (1, 3), (3, 5)]);
}

#[test]
fn flyby_equally_near_memory_goes_by_angle() {
    let pads = mm(&[(0, 0), (0, 5), (5, 0), (0, -5)]);
    let r = roles(&[PadRole::Controller, PadRole::Memory, PadRole::Memory, PadRole::Memory]);
    let (edges, _) = build_flyby_edges(&pads, &r).expect("fly-by should apply");
    assert_eq!(edges, vec![(0, 3), (3, 2), (2, 1)]);
}

#[test]
fn flyby_seed_is_the_controller_nearest_the_memory() {
    let pads = mm(&[(0, 0), (20, 0), (21, 0), (30, 0)]);
    let r = roles(&[PadRole::Controller, PadRole::Controller, PadRole::Memory, PadRole::Termination]);
    let (edges, _) = build_flyby_edges(&pads, &r).expect("fly-by should apply");
    assert_eq!(edges, vec![(1, 0), (0, 2), (2, 3)]);
}
