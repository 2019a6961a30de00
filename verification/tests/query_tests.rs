use kicad_cdb::service::{needs_all_components, query_filtered, Component, QueryInputs};

fn comp(id: Option<i64>, mpn: &str, mfg: &str, package: Option<&str>) -> Component {
    Component {
        id,
        mpn: mpn.to_string(),
        manufacturer: mfg.to_string(),
        category_id: 1,
        description: None,
        package: package.map(|s| s.to_string()),
        lifecycle: "active".to_string(),
        datasheet_url: None,
        kicad_symbol: None,
        kicad_footprint: None,
        content_hash: None,
    }
}

fn empty() -> QueryInputs {
    QueryInputs { category: None, search: None, in_stock: None, all: None, manufacturer: None, package: None, param: None, limit: None }
}

fn mpns(v: &[Component]) -> Vec<&str> {
    v.iter().map(|c| c.mpn.as_str()).collect()
}

fn catalogue() -> Vec<Component> {
    vec![
        comp(Some(1), "LM317", "Texas Instruments", Some("TO-220")),
        comp(Some(2), "AMS1117", "Advanced Monolithic", Some("SOT-223")),
        comp(Some(3), "TPS62130", "TEXAS INSTRUMENTS", Some("QFN-16")),
        comp(None, "MYSTERY", "Unknown", None),
    ]
}

#[test]
fn search_then_stock_then_manufacturer() {
    let mut q = empty();
    q.category = Some(catalogue());
    q.search = Some(vec![catalogue()[0].duplicate(), catalogue()[2].duplicate(), catalogue()[3].duplicate()]);
    q.in_stock = Some(vec![catalogue()[2].duplicate(), catalogue()[0].duplicate()]);
    q.manufacturer = Some("texas".to_string());
    assert_eq!(mpns(&query_filtered(q)), vec!["LM317", "TPS62130"]);
}

#[test]
fn manufacturer_only_starts_from_all() {
    assert!(needs_all_components(false, false, false, true, false));
    assert!(!needs_all_components(true, false, false, true, false));
    assert!(!needs_all_components(false, false, false, false, false));
    let mut q = empty();
    q.all = Some(catalogue());
    q.package = Some("SOT-223".to_string());
    assert_eq!(mpns(&query_filtered(q)), vec!["AMS1117"]);
}

#[test]
fn stock_or_param_alone_and_limit() {
    let mut q = empty();
    q.in_stock = Some(catalogue());
    q.limit = Some(2);
    assert_eq!(mpns(&query_filtered(q)), vec!["LM317", "AMS1117"]);
    let mut q = empty();
    q.param = Some(vec![catalogue()[1].duplicate()]);
    assert_eq!(mpns(&query_filtered(q)), vec!["AMS1117"]);
    let mut q = empty();
    q.category = Some(catalogue());
    q.param = Some(vec![catalogue()[1].duplicate(), catalogue()[3].duplicate()]);
    assert_eq!(mpns(&query_filtered(q)), vec!["AMS1117"]);
    assert!(query_filtered(empty()).is_empty());
}
