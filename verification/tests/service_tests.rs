use kicad_cdb::service::{find_alternatives, find_requested_part, AlternativesError, Component};

fn comp(id: i64, mpn: &str, package: Option<&str>, lifecycle: &str) -> Component {
    Component {
        id: Some(id),
        mpn: mpn.to_string(),
        manufacturer: "ACME".to_string(),
        category_id: 1,
        description: None,
        package: package.map(|s| s.to_string()),
        lifecycle: lifecycle.to_string(),
        datasheet_url: None,
        kicad_symbol: None,
        kicad_footprint: None,
        content_hash: None,
    }
}

fn mpns(v: &[Component]) -> Vec<&str> {
    v.iter().map(|c| c.mpn.as_str()).collect()
}

#[test]
fn requested_part_must_match_exactly() {
    let search_results = vec![comp(1, "LM317T", Some("TO-220"), "active"), comp(2, "LM317", Some("TO-220"), "active")];
    assert_eq!(find_requested_part(&search_results, "LM317"), Some(1));
    assert_eq!(find_requested_part(&search_results, "LM31"), None);
    let r = find_alternatives(&search_results, &[], &[], "LM31", 5);
    assert_eq!(r.err(), Some(AlternativesError::NotFound));
}

#[test]
fn alternatives_filtered_and_ranked() {
    let search_results = vec![comp(2, "LM317", Some("TO-220"), "active")];
    let cands = vec![
        comp(2, "LM317", Some("TO-220"), "active"),
        comp(3, "LM1117", Some("TO-220"), "active"),
        comp(4, "LM350", Some("TO-220"), "obsolete"),
        comp(5, "LM338", Some("TO-220"), "active"),
        comp(6, "AMS1117", Some("SOT-223"), "active"),
        comp(7, "L78", Some("TO-220"), "active"),
    ];
    let sim = vec![100, 10, 90, 50, 99, 50];
    let r = find_alternatives(&search_results, &cands, &sim, "LM317", 10).unwrap();
    assert_eq!(mpns(&r), vec!["LM338", "L78", "LM1117"]);
    let r = find_alternatives(&search_results, &cands, &sim, "LM317", 1).unwrap();
    assert_eq!(mpns(&r), vec!["LM338"]);
    let r = find_alternatives(&search_results, &cands, &sim, "LM317", 0).unwrap();
    assert!(r.is_empty());
}

#[test]
fn requested_part_without_package_accepts_any_package() {
    let search_results = vec![comp(2, "X1", None, "active")];
    let cands = vec![comp(3, "X2", Some("SOT-23"), "active"), comp(4, "X3", None, "active")];
    let r = find_alternatives(&search_results, &cands, &[1, 2], "X1", 5).unwrap();
    assert_eq!(mpns(&r), vec!["X3", "X2"]);
}
