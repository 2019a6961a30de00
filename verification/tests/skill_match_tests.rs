use kicad_cdb::rules::DesignRule;
use kicad_cdb::skill_match::match_rules;

fn strs(v: &[&str]) -> Vec<String> {
    v.iter().map(|s| s.to_string()).collect()
}

fn buck_rule() -> DesignRule {
    DesignRule {
        id: Some(1),
        name: "buck_inductor_selection".into(),
        category_id: Some(1),
        description: Some("Calculate minimum inductance for buck converter".into()),
        condition_expr: None,
        formula_expr: Some("l_min = (vout * (1 - vout / vin)) / (fsw * ripple_ratio * iout)".into()),
        check_expr: Some("L_value >= l_min * 0.8".into()),
        parameters: Some(r#"["vin", "vout", "iout", "fsw", "ripple_ratio"]"#.into()),
        output_params: Some(r#"["l_min"]"#.into()),
        source: None,
        domain: Some("power".into()),
        tags: Some(r#"["buck", "dc-dc"]"#.into()),
    }
}

fn si_rule() -> DesignRule {
    DesignRule {
        id: Some(2),
        name: "si_microstrip_impedance".into(),
        category_id: None,
        description: Some("Microstrip impedance calculation (IPC-2141A)".into()),
        condition_expr: None,
        formula_expr: None,
        check_expr: None,
        parameters: Some(r#"["epsilon_r", "h", "w", "z_min", "z_max"]"#.into()),
        output_params: Some(r#"["z0"]"#.into()),
        source: None,
        domain: Some("si".into()),
        tags: Some(r#"["signal-integrity", "impedance"]"#.into()),
    }
}

#[test]
fn match_rules_buck_question_counts() {
    let keys = strs(&["vin", "vout", "iout"]);
    let scores = match_rules("5V到3.3V降压电源2A", &[buck_rule()], &keys);
    assert_eq!(scores.len(), 1);
    let s = &scores[0];
    assert_eq!(s.rule_name, "buck_inductor_selection");
    // 降压: 2 + 3 (power domain) + 1.5 (buck tag); 电源: 2 + 3 (power domain)
    assert_eq!(s.keyword_half_points, 23);
    assert_eq!(s.name_hits, 0);
    assert_eq!(s.description_hits, 0);
    assert_eq!(s.covered_params, 3);
    assert_eq!(s.parameter_divisor(), 5);
    assert_eq!(s.fixed_half_points(), 23);
    assert!(s.is_positive());
    assert_eq!(s.matched_keywords, strs(&["电源", "降压"]));
    assert_eq!(s.domain, "power");
    assert_eq!(s.tags, strs(&["buck", "dc-dc"]));
    assert_eq!(s.output_params, strs(&["l_min"]));
}

#[test]
fn match_rules_impedance_question_counts() {
    let scores = match_rules("高速信号走线阻抗控制", &[si_rule()], &[]);
    let s = &scores[0];
    assert_eq!(s.rule_name, "si_microstrip_impedance");
    // 走线 and 阻抗: each 2 + 3 (si domain) + 2 * 1.5 (both tags)
    assert_eq!(s.keyword_half_points, 32);
    assert_eq!(s.matched_keywords, strs(&["走线", "阻抗"]));
    assert_eq!(s.covered_params, 0);
    assert!(s.is_positive());
}

#[test]
fn match_rules_name_parts_and_description_words() {
    let mut rule = buck_rule();
    rule.domain = None;
    rule.tags = None;
    rule.parameters = None;
    let scores = match_rules("Buck inductor for 12V input", &[rule], &[]);
    let s = &scores[0];
    // table: "buck" and "inductor", 2 points each without domain or tags
    assert_eq!(s.keyword_half_points, 8);
    // name parts "buck" and "inductor"; "selection" is not in the question
    assert_eq!(s.name_hits, 2);
    // question words "buck" and "for" occur in the description
    assert_eq!(s.description_hits, 2);
    assert_eq!(s.fixed_half_points(), 14);
    assert_eq!(s.parameter_divisor(), 1);
    assert_eq!(s.matched_keywords, strs(&["buck", "inductor"]));
    assert_eq!(s.domain, "");
    assert!(s.tags.is_empty());
}

#[test]
fn match_rules_unrelated_question_scores_nothing() {
    let scores = match_rules("hello world", &[si_rule(), buck_rule()], &[]);
    assert_eq!(scores.len(), 2);
    assert!(!scores[0].is_positive());
    assert!(!scores[1].is_positive());
    assert!(scores[1].matched_keywords.is_empty());
}

#[test]
fn match_rules_covered_parameters_alone_are_positive() {
    let keys = strs(&["vin"]);
    let scores = match_rules("zzz", &[buck_rule()], &keys);
    assert_eq!(scores[0].fixed_half_points(), 0);
    assert_eq!(scores[0].covered_params, 1);
    assert!(scores[0].is_positive());
}
