use kicad_cdb::bus_groups::identify_bus_groups;
use kicad_cdb::nets::identify_diff_pairs;

fn nets(v: &[(u32, &str)]) -> Vec<(u32, String)> {
    v.iter().map(|&(i, n)| (i, n.to_string())).collect()
}

#[test]
fn diff_pairs_by_suffix() {
    let n = nets(&[
        (1, "USB_DP"),
        (2, "USB_DM"),
        (3, "LVDS_P"),
        (4, "lvds_n"),
        (5, "CLK+"),
        (6, "CLK-"),
        (7, "D+"),
        (8, "x"),
        (9, "D-"),
        (10, "A_POS"),
        (11, "a_neg"),
    ]);
    assert_eq!(identify_diff_pairs(&n), vec![(1, 2), (3, 4), (5, 6), (7, 9), (10, 11)]);
}

#[test]
fn diff_pairs_d_plus_minus_and_unmatched() {
    let n = nets(&[(1, "HOST_D-"), (2, "dev_d+"), (3, "TX_P"), (4, "TX_Q")]);
    assert_eq!(identify_diff_pairs(&n), vec![(1, 2)]);
    assert!(identify_diff_pairs(&[]).is_empty());
    // A net is paired once only.
    let n = nets(&[(1, "S_P"), (2, "S_N"), (3, "s_p"), (4, "T_TRUE"), (5, "T_COMP")]);
    assert_eq!(identify_diff_pairs(&n), vec![(1, 2), (4, 5)]);
}

#[test]
fn bus_groups_by_pattern() {
    let entries: Vec<(String, u32)> = [
        ("DDR3_DQ0", 1),
        ("DDR3_DQ10", 2),
        ("DDR3_DQ9", 3),
        ("DDR3_CK_P", 4),
        ("DDR3_CKE", 5),
        ("DDR3_A0", 6),
        ("DDR3_BA1", 7),
        ("DDR3_WE", 8),
        ("PCIE_TX0_P", 9),
        ("SATA_RX_N", 10),
        ("GPIO", 11),
    ]
    .iter()
    .map(|&(n, i)| (n.to_string(), i))
    .collect();
    let g = identify_bus_groups(&entries);
    let summary: Vec<(String, Vec<u32>, u32, u32, Option<u32>, Option<usize>)> = g
        .iter()
        .map(|b| (b.name.clone(), b.net_ids.clone(), b.priority, b.intra_skew_um, b.inter_skew_um, b.reference_group))
        .collect();
    assert_eq!(
        summary,
        vec![
            ("DQ0-7".to_string(), vec![1, 2], 1, 500, None, None),
            ("DQ8-15".to_string(), vec![3], 1, 500, None, None),
            ("CLK".to_string(), vec![4, 5], 2, 250, None, None),
            ("ADDR".to_string(), vec![6, 7], 3, 1000, Some(2000), Some(2)),
            ("CMD".to_string(), vec![8], 4, 1000, Some(2000), Some(2)),
            ("PCIe_TX".to_string(), vec![9], 1, 250, None, None),
            ("SATA_RX".to_string(), vec![10], 1, 250, Some(1000), Some(5)),
        ]
    );
    assert!(identify_bus_groups(&[]).is_empty());
}

#[test]
fn diff_pairs_never_reuse_a_net() {
    // CLK_N could partner both CLK_P nets; only the first gets it.
    let n = nets(&[(1, "CLK_P"), (2, "CLK_N"), (3, "clk_p"), (4, "USB_D+"), (5, "USB_D-"), (6, "AUX_D-")]);
    let pairs = identify_diff_pairs(&n);
    assert_eq!(pairs, vec![(1, 2), (4, 5)]);
    let mut seen = std::collections::HashSet::new();
    for (a, b) in pairs {
        assert!(seen.insert(a));
        assert!(seen.insert(b));
    }
}

#[test]
fn bus_groups_compare_names_in_upper_case() {
    let entries = vec![("ddr3_ck_p".to_string(), 7u32), ("spi_clk".to_string(), 8u32)];
    let g = identify_bus_groups(&entries);
    let names: Vec<(String, Vec<u32>)> = g.iter().map(|b| (b.name.clone(), b.net_ids.clone())).collect();
    assert_eq!(names, vec![("CLK".to_string(), vec![7]), ("SPI".to_string(), vec![8])]);
}
