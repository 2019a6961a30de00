//! Composition workflows: multi-stage design recipes (suggest a topology, run a
//! pipeline, recommend parts, check a rule), the built-in recipes, and the pieces of a
//! run that decide by name and by count.
use vstd::prelude::*;
use crate::service::Component;
use crate::text::{
    append_chars, append_str, chars_of, eq_str, seq_starts_with, starts_with, string_from_chars,
    u64_decimal, decimal_digits,
};

verus! {

/// Kind of a stage, with its parameters.
pub enum StageType {
    /// Suggest a power topology.
    Suggest { isolated: bool },
    /// Run a named design pipeline (`auto` or empty: chosen from the suggestion).
    Pipeline { name: String },
    /// Recommend components by a rule's outputs.
    Recommend { rule: String, limit: Option<usize> },
    /// Check a rule.
    Check { rule: String },
}

/// One stage of a composition.
pub struct StageDef {
    pub name: String,
    pub stage_type: StageType,
    pub outputs: Vec<String>,
    pub condition: Option<String>,
}

/// A composition workflow.
pub struct CompositionSpec {
    pub name: String,
    pub description: String,
    pub goals: Vec<String>,
    pub required_inputs: Vec<String>,
    pub stages: Vec<StageDef>,
}

/// Components recommended by one stage for one role.
pub struct StageRecommendation {
    pub stage: String,
    pub role: String,
    pub components: Vec<Component>,
}

/// The texts of a list of strings.
pub open spec fn texts(v: Seq<String>) -> Seq<Seq<char>> {
    v.map_values(|s: String| s@)
}

/// A stage with the given name and outputs and no condition.
pub open spec fn plain_stage(st: StageDef, name: Seq<char>, outputs: Seq<Seq<char>>) -> bool {
    &&& st.name@ == name
    &&& texts(st.outputs@) == outputs
    &&& st.condition is None
}

/// A non-isolated suggestion stage.
pub open spec fn is_suggest(t: StageType) -> bool {
    t matches StageType::Suggest { isolated } && !isolated
}

/// A pipeline stage running `p`.
pub open spec fn is_pipeline(t: StageType, p: Seq<char>) -> bool {
    t matches StageType::Pipeline { name } && name@ == p
}

/// A recommendation stage for rule `r` with limit `l`.
pub open spec fn is_recommend(t: StageType, r: Seq<char>, l: Option<usize>) -> bool {
    t matches StageType::Recommend { rule, limit } && rule@ == r && limit == l
}

/// A check stage for rule `r`.
pub open spec fn is_check(t: StageType, r: Seq<char>) -> bool {
    t matches StageType::Check { rule } && rule@ == r
}

/// The built-in power-tree recipe.
pub open spec fn is_power_tree(c: CompositionSpec) -> bool {
    let st = c.stages@;
    &&& c.name@ == "power_tree"@
    &&& c.description@ == "Power tree design: suggest topology → run pipeline → recommend components → thermal check"@
    &&& texts(c.goals@) == seq!["power_supply_design"@]
    &&& texts(c.required_inputs@) == seq!["vin"@, "vout"@, "iout"@]
    &&& st.len() == 4
    &&& plain_stage(st[0], "suggest"@, seq!["topology"@, "estimated_efficiency"@])
    &&& is_suggest(st[0].stage_type)
    &&& plain_stage(st[1], "pipeline"@, Seq::empty())
    &&& is_pipeline(st[1].stage_type, "buck"@)
    &&& plain_stage(st[2], "recommend_inductor"@, Seq::empty())
    &&& is_recommend(st[2].stage_type, "buck_inductor_selection"@, Some(5usize))
    &&& plain_stage(st[3], "thermal_check"@, Seq::empty())
    &&& is_check(st[3].stage_type, "thermal_dissipation"@)
}

/// The built-in LDO recipe.
pub open spec fn is_ldo_design(c: CompositionSpec) -> bool {
    let st = c.stages@;
    &&& c.name@ == "ldo_design"@
    &&& c.description@ == "LDO regulator design: pipeline → efficiency check → component recommendation"@
    &&& texts(c.goals@) == seq!["ldo_power_supply"@]
    &&& texts(c.required_inputs@) == seq!["vin"@, "vout"@, "iout"@]
    &&& st.len() == 3
    &&& plain_stage(st[0], "suggest"@, Seq::empty())
    &&& is_suggest(st[0].stage_type)
    &&& plain_stage(st[1], "ldo_pipeline"@, Seq::empty())
    &&& is_pipeline(st[1].stage_type, "ldo"@)
    &&& plain_stage(st[2], "thermal_check"@, Seq::empty())
    &&& is_check(st[2].stage_type, "thermal_dissipation"@)
}

fn own(s: &str) -> (r: String)
    ensures
        r@ == s@,
{
    let c = chars_of(s);
    string_from_chars(c.as_slice())
}

fn own_list1(a: &str) -> (r: Vec<String>)
    ensures
        r@.len() == 1,
        r@[0]@ == a@,
        texts(r@) == seq![a@],
{
    let mut v: Vec<String> = Vec::new();
    v.push(own(a));
    proof {
        assert(texts(v@) =~= seq![a@]);
    }
    v
}

fn own_list2(a: &str, b: &str) -> (r: Vec<String>)
    ensures
        r@.len() == 2,
        r@[0]@ == a@,
        r@[1]@ == b@,
        texts(r@) == seq![a@, b@],
{
    let mut v = own_list1(a);
    v.push(own(b));
    proof {
        assert(texts(v@) =~= seq![a@, b@]);
    }
    v
}

fn own_list3(a: &str, b: &str, c: &str) -> (r: Vec<String>)
    ensures
        texts(r@) == seq![a@, b@, c@],
{
    let mut v = own_list2(a, b);
    v.push(own(c));
    proof {
        assert(texts(v@) =~= seq![a@, b@, c@]);
    }
    v
}

fn no_strings() -> (r: Vec<String>)
    ensures
        texts(r@) == Seq::<Seq<char>>::empty(),
{
    let v: Vec<String> = Vec::new();
    proof {
        assert(texts(v@) =~= Seq::<Seq<char>>::empty());
    }
    v
}

fn stage(name: &str, stage_type: StageType, outputs: Vec<String>) -> (r: StageDef)
    ensures
        r.name@ == name@,
        r.stage_type == stage_type,
        r.outputs == outputs,
        r.condition is None,
{
    StageDef { name: own(name), stage_type, outputs, condition: None }
}

/// The built-in composition recipes: `power_tree` (suggest, buck pipeline, inductor
/// recommendation, thermal check) and `ldo_design` (suggest, LDO pipeline, thermal check).
pub fn builtin_compositions() -> (r: Vec<CompositionSpec>)
    ensures
        r@.len() == 2,
        is_power_tree(r@[0]),
        is_ldo_design(r@[1]),
{
    let mut power_stages: Vec<StageDef> = Vec::new();
    power_stages.push(
        stage(
            "suggest",
            StageType::Suggest { isolated: false },
            own_list2("topology", "estimated_efficiency"),
        ),
    );
    power_stages.push(stage("pipeline", StageType::Pipeline { name: own("buck") }, no_strings()));
    power_stages.push(
        stage(
            "recommend_inductor",
            StageType::Recommend { rule: own("buck_inductor_selection"), limit: Some(5) },
            no_strings(),
        ),
    );
    power_stages.push(
        stage("thermal_check", StageType::Check { rule: own("thermal_dissipation") }, no_strings()),
    );
    let power = CompositionSpec {
        name: own("power_tree"),
        description: own(
            "Power tree design: suggest topology → run pipeline → recommend components → thermal check",
        ),
        goals: own_list1("power_supply_design"),
        required_inputs: own_list3("vin", "vout", "iout"),
        stages: power_stages,
    };
    let mut ldo_stages: Vec<StageDef> = Vec::new();
    ldo_stages.push(stage("suggest", StageType::Suggest { isolated: false }, no_strings()));
    ldo_stages.push(stage("ldo_pipeline", StageType::Pipeline { name: own("ldo") }, no_strings()));
    ldo_stages.push(
        stage("thermal_check", StageType::Check { rule: own("thermal_dissipation") }, no_strings()),
    );
    let ldo = CompositionSpec {
        name: own("ldo_design"),
        description: own(
            "LDO regulator design: pipeline → efficiency check → component recommendation",
        ),
        goals: own_list1("ldo_power_supply"),
        required_inputs: own_list3("vin", "vout", "iout"),
        stages: ldo_stages,
    };
    let mut r: Vec<CompositionSpec> = Vec::new();
    r.push(power);
    r.push(ldo);
    r
}

/// The label of a stage kind.
pub open spec fn stage_label_spec(t: StageType) -> Seq<char> {
    match t {
        StageType::Suggest { .. } => "suggest"@,
        StageType::Pipeline { .. } => "pipeline"@,
        StageType::Recommend { .. } => "recommend"@,
        StageType::Check { .. } => "check"@,
    }
}

/// The label of a stage kind, as reported in stage results.
pub fn stage_type_label(st: &StageType) -> (r: String)
    ensures
        r@ == stage_label_spec(*st),
{
    match st {
        StageType::Suggest { .. } => own("suggest"),
        StageType::Pipeline { .. } => own("pipeline"),
        StageType::Recommend { .. } => own("recommend"),
        StageType::Check { .. } => own("check"),
    }
}

/// The pipeline a pipeline stage runs: its own name, unless that is `auto` or empty;
/// then `buck` when no topology has been suggested, else `buck` for a step-down design
/// (input above output) and `boost` otherwise.
pub open spec fn pipeline_name_spec(name: Seq<char>, has_topology: bool, vin_above_vout: bool) -> Seq<char> {
    if name == "auto"@ || name.len() == 0 {
        if has_topology && !vin_above_vout {
            "boost"@
        } else {
            "buck"@
        }
    } else {
        name
    }
}

/// The pipeline a pipeline stage runs; `has_topology` tells whether a suggestion stage
/// recorded a topology and `vin_above_vout` whether the input voltage exceeds the output.
pub fn resolve_pipeline_name(name: &str, has_topology: bool, vin_above_vout: bool) -> (r: String)
    ensures
        r@ == pipeline_name_spec(name@, has_topology, vin_above_vout),
{
    let nc = chars_of(name);
    if eq_str(nc.as_slice(), "auto") || nc.len() == 0 {
        if has_topology && !vin_above_vout {
            own("boost")
        } else {
            own("buck")
        }
    } else {
        string_from_chars(nc.as_slice())
    }
}

/// The pipeline named after a suggested topology: the topology itself when it is one
/// of `buck`, `boost`, `ldo`, `led`, else none (empty).
pub open spec fn suggested_pipeline_spec(topology: Seq<char>) -> Seq<char> {
    if topology == "buck"@ || topology == "boost"@ || topology == "ldo"@ || topology == "led"@ {
        topology
    } else {
        Seq::empty()
    }
}

/// The pipeline named after a suggested topology, or the empty string.
pub fn suggested_pipeline(topology: &str) -> (r: String)
    ensures
        r@ == suggested_pipeline_spec(topology@),
{
    let t = chars_of(topology);
    if eq_str(t.as_slice(), "buck") || eq_str(t.as_slice(), "boost") || eq_str(t.as_slice(), "ldo")
        || eq_str(t.as_slice(), "led") {
        string_from_chars(t.as_slice())
    } else {
        proof {
            assert(Seq::<char>::empty() =~= Seq::<char>::empty());
        }
        let e: Vec<char> = Vec::new();
        string_from_chars(e.as_slice())
    }
}

/// Number of `true` entries.
pub open spec fn count_true(s: Seq<bool>) -> nat
    decreases s.len(),
{
    if s.len() == 0 {
        0
    } else {
        count_true(s.drop_last()) + if s.last() { 1nat } else { 0nat }
    }
}

proof fn lemma_count_true_bound(s: Seq<bool>)
    ensures
        count_true(s) <= s.len(),
    decreases s.len(),
{
    if s.len() > 0 {
        lemma_count_true_bound(s.drop_last());
    }
}

/// The keys of the check scores (`check_...`) whose score passed (`want`) or failed.
pub open spec fn check_keys(scores: Seq<(String, bool)>, want: bool) -> Seq<Seq<char>>
    decreases scores.len(),
{
    if scores.len() == 0 {
        Seq::empty()
    } else {
        let rest = check_keys(scores.drop_last(), want);
        let (k, passed) = scores.last();
        if seq_starts_with(k@, "check_"@) && passed == want {
            rest.push(k@)
        } else {
            rest
        }
    }
}

/// The run summary: `executed/total stages executed`, then the number of passed checks
/// and the number and keys of failed checks, each only when there is one.
pub open spec fn summary_spec(skipped: Seq<bool>, scores: Seq<(String, bool)>) -> Seq<char> {
    let total = skipped.len();
    let executed = (total - count_true(skipped)) as nat;
    let passes = check_keys(scores, true);
    let fails = check_keys(scores, false);
    decimal_digits(executed) + "/"@ + decimal_digits(total) + " stages executed"@
        + (if passes.len() > 0 { ", "@ + decimal_digits(passes.len()) + " checks passed"@ } else { Seq::empty() })
        + (if fails.len() > 0 {
            ", "@ + decimal_digits(fails.len()) + " checks FAILED ("@ + crate::rule_text::join_comma(fails) + ")"@
        } else {
            Seq::empty()
        })
}

/// Keys of the passed (`want`) or failed check scores, in the given order.
fn collect_check_keys(scores: &[(String, bool)], want: bool) -> (r: Vec<String>)
    ensures
        texts(r@) == check_keys(scores@, want),
        r@.len() <= scores@.len(),
{
    let mut r: Vec<String> = Vec::new();
    let mut i: usize = 0;
    while i < scores.len()
        invariant
            i <= scores@.len(),
            r@.len() <= i,
            texts(r@) == check_keys(scores@.take(i as int), want),
        decreases scores@.len() - i,
    {
        let ghost r0 = r@;
        proof {
            assert(scores@.take(i as int + 1).drop_last() =~= scores@.take(i as int));
            assert(scores@.take(i as int + 1).last() == scores@[i as int]);
        }
        let k = chars_of(scores[i].0.as_str());
        if starts_with(k.as_slice(), "check_") && scores[i].1 == want {
            r.push(string_from_chars(k.as_slice()));
            proof {
                assert(texts(r@) =~= texts(r0).push(k@));
            }
        }
        i = i + 1;
    }
    proof {
        assert(scores@.take(scores@.len() as int) =~= scores@);
    }
    r
}

/// The summary line of a composition run. `skipped[i]` tells whether stage `i` was
/// skipped; `scores` are the score keys with whether each passed (score above one half).
pub fn generate_summary(skipped: &[bool], scores: &[(String, bool)]) -> (r: String)
    ensures
        r@ == summary_spec(skipped@, scores@),
{
    let total = skipped.len();
    let mut n_skipped: usize = 0;
    let mut i: usize = 0;
    while i < total
        invariant
            i <= total,
            total == skipped@.len(),
            n_skipped == count_true(skipped@.take(i as int)),
            n_skipped <= i,
        decreases total - i,
    {
        proof {
            assert(skipped@.take(i as int + 1).drop_last() =~= skipped@.take(i as int));
        }
        if skipped[i] {
            n_skipped = n_skipped + 1;
        }
        i = i + 1;
    }
    proof {
        assert(skipped@.take(total as int) =~= skipped@);
    }
    let executed = total - n_skipped;
    let passes = collect_check_keys(scores, true);
    let fails = collect_check_keys(scores, false);
    let mut v = u64_decimal(executed as u64);
    append_str(&mut v, "/");
    let t = u64_decimal(total as u64);
    append_chars(&mut v, t.as_slice());
    append_str(&mut v, " stages executed");
    if passes.len() > 0 {
        append_str(&mut v, ", ");
        let d = u64_decimal(passes.len() as u64);
        append_chars(&mut v, d.as_slice());
        append_str(&mut v, " checks passed");
    }
    if fails.len() > 0 {
        append_str(&mut v, ", ");
        let d = u64_decimal(fails.len() as u64);
        append_chars(&mut v, d.as_slice());
        append_str(&mut v, " checks FAILED (");
        let j = crate::rule_text::join_names(fails.as_slice());
        append_chars(&mut v, j.as_slice());
        append_str(&mut v, ")");
    }
    proof {
        assert(texts(passes@).len() == passes@.len());
        assert(texts(fails@).len() == fails@.len());
        assert(v@ =~= summary_spec(skipped@, scores@));
    }
    string_from_chars(v.as_slice())
}

} // verus!
