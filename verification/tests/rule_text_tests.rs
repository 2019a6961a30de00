use kicad_cdb::composition::generate_summary;
use kicad_cdb::rule_text::{
    check_rule_inputs, check_rule_outputs, formula_statements, missing_names, no_assignment_error, parse_json_array,
    split_assignment, split_candidate, split_chars, split_kv_pairs, tokenize, Token,
};
use kicad_cdb::rules::DesignRule;

fn rule(name: &str, params: Option<&str>, outputs: Option<&str>) -> DesignRule {
    DesignRule {
        id: Some(1),
        name: name.to_string(),
        category_id: None,
        description: None,
        condition_expr: None,
        formula_expr: None,
        check_expr: None,
        parameters: params.map(|s| s.to_string()),
        output_params: outputs.map(|s| s.to_string()),
        source: None,
        domain: None,
        tags: None,
    }
}

fn strs(v: &[&str]) -> Vec<String> {
    v.iter().map(|s| s.to_string()).collect()
}

fn describe(t: &Token) -> String {
    match t {
        Token::Number(s) => format!("n:{s}"),
        Token::Ident(s) => format!("i:{s}"),
        Token::Plus => "+".into(),
        Token::Minus => "-".into(),
        Token::Star => "*".into(),
        Token::Slash => "/".into(),
        Token::LParen => "(".into(),
        Token::RParen => ")".into(),
    }
}

#[test]
fn tokens_of_formula() {
    let r = tokenize("l_min = (vout * (1 - vout / vin))");
    assert_eq!(r.unexpected, Some('='));
    let d: Vec<String> = r.tokens.iter().map(describe).collect();
    assert_eq!(d, vec!["i:l_min"]);
    let r = tokenize("(vout * (1 - vout / vin)) / (fsw * 0.3 * iout) + 2.5e-3");
    assert_eq!(r.unexpected, None);
    let d: Vec<String> = r.tokens.iter().map(describe).collect();
    assert_eq!(
        d,
        vec![
            "(", "i:vout", "*", "(", "n:1", "-", "i:vout", "/", "i:vin", ")", ")", "/", "(", "i:fsw", "*", "n:0.3", "*",
            "i:iout", ")", "+", "n:2.5e-3"
        ]
    );
    let r = tokenize("3-2");
    let d: Vec<String> = r.tokens.iter().map(describe).collect();
    assert_eq!(d, vec!["n:3", "-", "n:2"]);
    let r = tokenize("a $ b");
    assert_eq!(r.unexpected, Some('$'));
    assert_eq!(r.tokens.len(), 1);
    assert!(tokenize("").tokens.is_empty());
}

#[test]
fn splitting_on_separators() {
    let v: Vec<String> = split_chars(&"a,,b,".chars().collect::<Vec<_>>(), ',').iter().map(|c| c.iter().collect()).collect();
    assert_eq!(v, vec!["a", "", "b", ""]);
    assert_eq!(split_chars(&[], ',').len(), 1);
}

#[test]
fn kv_pairs() {
    assert_eq!(
        split_kv_pairs(" vin = 12,vout=3.3,junk,iout=2=3"),
        vec![
            ("vin".to_string(), " 12".to_string()),
            ("vout".to_string(), "3.3".to_string()),
            ("iout".to_string(), "2=3".to_string())
        ]
    );
    assert!(split_kv_pairs("").is_empty());
    assert_eq!(split_candidate(" L_value =4.7e-6"), Some(("L_value".to_string(), "4.7e-6".to_string())));
    assert_eq!(split_candidate("nothing"), None);
}

#[test]
fn formula_parts() {
    assert_eq!(formula_statements(" a = b ; ;c=d;"), strs(&["a = b", "c=d"]));
    assert_eq!(split_assignment(" dropout = vin - vout "), Some(("dropout".to_string(), "vin - vout".to_string())));
    assert_eq!(split_assignment("x == y"), Some(("x".to_string(), "= y".to_string())));
    assert_eq!(split_assignment("no assignment"), None);
    assert_eq!(no_assignment_error("q"), "Formula must contain '=' assignment: q");
}

#[test]
fn rule_contracts() {
    assert_eq!(missing_names(&strs(&["a", "b", "c"]), &strs(&["b"])), strs(&["a", "c"]));
    assert_eq!(parse_json_array(&Some(r#"["vin", "vout"]"#.to_string())), strs(&["vin", "vout"]));
    assert!(parse_json_array(&Some("not json".to_string())).is_empty());
    assert!(parse_json_array(&None).is_empty());
    let r = rule("ldo_dropout_check", Some(r#"["vin","vout","vdropout_max"]"#), Some(r#"["dropout"]"#));
    assert_eq!(check_rule_inputs(&r, &strs(&["vin", "vout", "vdropout_max"])), None);
    assert_eq!(
        check_rule_inputs(&r, &strs(&["vout"])),
        Some("Missing required inputs for 'ldo_dropout_check': vin, vdropout_max".to_string())
    );
    assert_eq!(check_rule_outputs(&r, &strs(&["dropout"])), None);
    assert_eq!(
        check_rule_outputs(&r, &strs(&["x"])),
        Some("Rule 'ldo_dropout_check' declared outputs [\"dropout\"] but formula did not produce: dropout".to_string())
    );
    let open = rule("free", None, Some("garbage"));
    assert_eq!(check_rule_inputs(&open, &[]), None);
    assert_eq!(check_rule_outputs(&open, &[]), None);
}

#[test]
fn summary_lines() {
    let scores = vec![
        ("check_thermal".to_string(), false),
        ("topology_score".to_string(), true),
        ("check_ldo".to_string(), true),
        ("check_x".to_string(), false),
    ];
    assert_eq!(
        generate_summary(&[false, true, false], &scores),
        "2/3 stages executed, 1 checks passed, 2 checks FAILED (check_thermal, check_x)"
    );
    assert_eq!(generate_summary(&[], &[]), "0/0 stages executed");
}
