use kicad_cdb::rules::{find_comparison_op, ComponentDb, DesignRule};

fn rule(id: i64, name: &str, domain: Option<&str>, tags: Option<&str>) -> DesignRule {
    DesignRule {
        id: Some(id),
        name: name.to_string(),
        category_id: None,
        description: None,
        condition_expr: None,
        formula_expr: None,
        check_expr: None,
        parameters: None,
        output_params: None,
        source: None,
        domain: domain.map(|s| s.to_string()),
        tags: tags.map(|s| s.to_string()),
    }
}

fn db() -> ComponentDb {
    ComponentDb::from_design_rules(vec![
        rule(1, "thermal_heatsink_required", Some("thermal"), Some(r#"["thermal","heatsink","requirement"]"#)),
        rule(2, "buck_inductor_selection", Some("power"), Some(r#"["buck","dc-dc"]"#)),
        rule(3, "ldo_dropout_check", Some("power"), Some(r#"["thermal","via","resistance"]"#)),
        rule(4, "Zeta_rule", None, None),
        rule(5, "ändern", Some("power"), None),
    ])
}

fn names(v: &[DesignRule]) -> Vec<&str> {
    v.iter().map(|r| r.name.as_str()).collect()
}

#[test]
fn all_rules_ordered_by_name_bytes() {
    let all = db().get_all_design_rules();
    assert_eq!(
        names(&all),
        vec!["Zeta_rule", "buck_inductor_selection", "ldo_dropout_check", "thermal_heatsink_required", "ändern"]
    );
    assert_eq!(all[0].id, Some(4));
}

#[test]
fn rules_by_domain() {
    let d = db();
    assert_eq!(names(&d.get_rules_by_domain("power")), vec!["buck_inductor_selection", "ldo_dropout_check", "ändern"]);
    assert_eq!(names(&d.get_rules_by_domain("thermal")), vec!["thermal_heatsink_required"]);
    assert!(d.get_rules_by_domain("si").is_empty());
    assert!(d.get_rules_by_domain("").is_empty());
}

#[test]
fn rules_by_tag_element() {
    let d = db();
    assert_eq!(names(&d.get_rules_by_tag("thermal")), vec!["ldo_dropout_check", "thermal_heatsink_required"]);
    assert_eq!(names(&d.get_rules_by_tag("dc-dc")), vec!["buck_inductor_selection"]);
    // a part of a tag, or of the JSON text, is no tag
    assert!(d.get_rules_by_tag("therm").is_empty());
    assert!(d.get_rules_by_tag("").is_empty());
    assert!(d.get_rules_by_tag("\"").is_empty());
}

#[test]
fn empty_table() {
    let d = ComponentDb::from_design_rules(vec![]);
    assert!(d.get_all_design_rules().is_empty());
}

#[test]
fn comparison_operators() {
    assert_eq!(find_comparison_op("L_value >= l_min * 0.8"), Some((8, ">=")));
    assert_eq!(find_comparison_op("dropout >= vdropout_max"), Some((8, ">=")));
    assert_eq!(find_comparison_op("a <= b"), Some((2, "<=")));
    assert_eq!(find_comparison_op("a == b"), Some((2, "==")));
    assert_eq!(find_comparison_op("a != b"), Some((2, "!=")));
    assert_eq!(find_comparison_op("x > 0"), Some((2, ">")));
    assert_eq!(find_comparison_op("x < 0"), Some((2, "<")));
    assert_eq!(find_comparison_op("a < b >= c"), Some((6, ">=")));
    assert_eq!(find_comparison_op("a>"), None);
    assert_eq!(find_comparison_op("a + b"), None);
    assert_eq!(find_comparison_op(""), None);
    // Byte offsets: "θ" takes two bytes.
    assert_eq!(find_comparison_op("θ > 1"), Some((3, ">")));
}
