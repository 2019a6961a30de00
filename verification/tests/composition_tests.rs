use kicad_cdb::composition::{builtin_compositions, resolve_pipeline_name, stage_type_label, suggested_pipeline, StageType};
use kicad_cdb::topology::merge_topology_names;

#[test]
fn builtin_recipes() {
    let b = builtin_compositions();
    assert_eq!(b.len(), 2);
    assert_eq!(b[0].name, "power_tree");
    assert_eq!(b[0].stages.len(), 4);
    assert_eq!(b[0].required_inputs, vec!["vin", "vout", "iout"]);
    assert_eq!(b[0].stages[0].outputs, vec!["topology", "estimated_efficiency"]);
    match &b[0].stages[2].stage_type {
        StageType::Recommend { rule, limit } => {
            assert_eq!(rule, "buck_inductor_selection");
            assert_eq!(*limit, Some(5));
        }
        _ => panic!("third power-tree stage recommends"),
    }
    assert_eq!(b[1].name, "ldo_design");
    assert_eq!(b[1].stages.len(), 3);
    assert_eq!(b[1].goals, vec!["ldo_power_supply"]);
    let labels: Vec<String> = b[0].stages.iter().map(|s| stage_type_label(&s.stage_type)).collect();
    assert_eq!(labels, vec!["suggest", "pipeline", "recommend", "check"]);
}

#[test]
fn pipeline_names() {
    assert_eq!(resolve_pipeline_name("ldo", true, false), "ldo");
    assert_eq!(resolve_pipeline_name("auto", true, true), "buck");
    assert_eq!(resolve_pipeline_name("auto", true, false), "boost");
    assert_eq!(resolve_pipeline_name("", false, false), "buck");
    assert_eq!(suggested_pipeline("boost"), "boost");
    assert_eq!(suggested_pipeline("sepic"), "");
}

#[test]
fn topology_names_merged_sorted_unique() {
    let db = vec!["buck".to_string(), "ldo".to_string()];
    let files = vec!["boost".to_string(), "buck".to_string(), "Zeta".to_string(), "ldo".to_string()];
    assert_eq!(merge_topology_names(&db, &files), vec!["Zeta", "boost", "buck", "ldo"]);
    assert!(merge_topology_names(&[], &[]).is_empty());
    let dup = vec!["a".to_string(), "a".to_string()];
    assert_eq!(merge_topology_names(&dup, &[]), vec!["a"]);
}
