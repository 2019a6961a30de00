//! Matching a free-text design question against the design rules. A keyword table
//! points words of a question to a domain and tags; for each rule this module finds
//! the keywords it matches and counts what its match score is made of: keyword points
//! (in half points), parts of its name found in the question, question words found in
//! its description, and its parameters among those read from the question. The score,
//! a fraction, is formed from these counts by the caller, as are the parameter values.
use vstd::prelude::*;
use crate::text::{chars_eq, chars_of, contains, contains_chars, eq_str, seq_contains, string_from_chars, to_lower,
    spec_to_lowercase, is_white_space, is_white_space_char};
use crate::rules::DesignRule;
use crate::rule_text::{split_chars, split_on, parse_json_array, declared_names_spec};
use crate::composition::texts;
use crate::bus_groups::str_texts;
use crate::topology::{merge_topology_names, strictly_sorted, name_texts};
use crate::symgen::opt_string_view;

verus! {

/// A row of the keyword table: the domain and tags its keywords point to.
pub struct KeywordEntry {
    pub domain: Seq<char>,
    pub tags: Seq<Seq<char>>,
    pub keywords: Seq<Seq<char>>,
}

/// The keyword table, in the order rows are scanned.
pub open spec fn keyword_table() -> Seq<KeywordEntry> {
    seq![
        KeywordEntry { domain: "power"@, tags: seq!["buck"@], keywords: seq!["buck"@, "降压"@, "step-down"@, "stepdown"@, "降压转换"@, "buck converter"@] },
        KeywordEntry { domain: "power"@, tags: seq!["boost"@], keywords: seq!["boost"@, "升压"@, "step-up"@, "stepup"@, "升压转换"@, "boost converter"@] },
        KeywordEntry { domain: "power"@, tags: seq!["buck-boost"@], keywords: seq!["buck-boost"@, "升降压"@, "buckboost"@] },
        KeywordEntry { domain: "power"@, tags: seq!["inverting"@], keywords: seq!["inverting"@, "反相"@, "负压"@, "反相输出"@, "inverting converter"@] },
        KeywordEntry { domain: "power"@, tags: seq!["sepic"@], keywords: seq!["sepic"@, "sepic转换"@] },
        KeywordEntry { domain: "power"@, tags: seq!["charge-pump"@], keywords: seq!["charge pump"@, "电荷泵"@, "chargepump"@] },
        KeywordEntry { domain: "power"@, tags: seq!["flyback"@], keywords: seq!["flyback"@, "反激"@, "反激式"@, "隔离电源"@, "隔离转换"@, "flyback converter"@] },
        KeywordEntry { domain: "power"@, tags: seq!["ldo"@], keywords: seq!["ldo"@, "线性稳压"@, "低压差"@, "线性电源"@, "ldo regulator"@, "dropout"@, "压差"@] },
        KeywordEntry { domain: "power"@, tags: seq!["led"@], keywords: seq!["led"@, "发光二极管"@, "限流电阻"@, "led驱动"@] },
        KeywordEntry { domain: "power"@, tags: seq![], keywords: seq!["电源"@, "power supply"@, "dc-dc"@, "dcdc"@, "转换器"@, "converter"@, "regulator"@, "稳压器"@, "开关电源"@, "效率"@, "efficiency"@, "占空比"@, "duty cycle"@] },
        KeywordEntry { domain: "power"@, tags: seq!["capacitor"@, "passive"@], keywords: seq!["电容"@, "capacitor"@, "cap"@, "去耦"@, "滤波电容"@, "输出电容"@, "输入电容"@] },
        KeywordEntry { domain: "power"@, tags: seq!["inductor"@, "passive"@], keywords: seq!["电感"@, "inductor"@, "inductance"@, "饱和电流"@, "纹波电流"@] },
        KeywordEntry { domain: "thermal"@, tags: seq!["thermal"@], keywords: seq!["热"@, "thermal"@, "功耗"@, "power dissipation"@, "结温"@, "junction temperature"@, "散热"@, "温升"@] },
        KeywordEntry { domain: "si"@, tags: seq!["signal-integrity"@, "impedance"@], keywords: seq!["阻抗"@, "impedance"@, "微带"@, "microstrip"@, "带状线"@, "stripline"@, "信号完整性"@, "signal integrity"@, "si"@, "走线"@, "trace"@, "传输线"@, "transmission line"@, "特征阻抗"@] },
        KeywordEntry { domain: "si"@, tags: seq![], keywords: seq!["传播延迟"@, "propagation delay"@, "串扰"@, "crosstalk"@, "next"@, "载流"@, "current capacity"@, "过孔"@, "via"@, "走线电阻"@, "trace resistance"@] },
        KeywordEntry { domain: "emc"@, tags: seq!["emc"@, "filter"@], keywords: seq!["emc"@, "emi"@, "电磁兼容"@, "emc设计"@, "去耦"@, "decoupling"@, "esr"@, "谐振"@, "resonance"@, "滤波器"@, "filter"@, "rc滤波"@, "lc滤波"@, "共模"@, "common mode"@, "choke"@] },
        KeywordEntry { domain: "timing"@, tags: seq!["timing"@, "digital"@], keywords: seq!["时序"@, "timing"@, "建立时间"@, "setup time"@, "保持时间"@, "hold time"@, "时钟"@, "clock"@, "jitter"@, "抖动"@, "spi"@, "uart"@, "波特率"@, "baud rate"@, "频率"@, "frequency"@] }
    ]
}

/// Row `m` of the keyword table, as domain, tags and keywords.
fn keyword_entry(m: usize) -> (r: (&'static str, Vec<&'static str>, Vec<&'static str>))
    requires
        m < 17,
    ensures
        r.0@ == keyword_table()[m as int].domain,
        str_texts(r.1@) == keyword_table()[m as int].tags,
        str_texts(r.2@) == keyword_table()[m as int].keywords,
        r.1@.len() <= 2,
        r.2@.len() <= 16,
{
    let r: (&'static str, Vec<&'static str>, Vec<&'static str>) = if m == 0 {
        ("power", vec!["buck"], vec!["buck", "降压", "step-down", "stepdown", "降压转换", "buck converter"])
    } else if m == 1 {
        ("power", vec!["boost"], vec!["boost", "升压", "step-up", "stepup", "升压转换", "boost converter"])
    } else if m == 2 {
        ("power", vec!["buck-boost"], vec!["buck-boost", "升降压", "buckboost"])
    } else if m == 3 {
        ("power", vec!["inverting"], vec!["inverting", "反相", "负压", "反相输出", "inverting converter"])
    } else if m == 4 {
        ("power", vec!["sepic"], vec!["sepic", "sepic转换"])
    } else if m == 5 {
        ("power", vec!["charge-pump"], vec!["charge pump", "电荷泵", "chargepump"])
    } else if m == 6 {
        ("power", vec!["flyback"], vec!["flyback", "反激", "反激式", "隔离电源", "隔离转换", "flyback converter"])
    } else if m == 7 {
        ("power", vec!["ldo"], vec!["ldo", "线性稳压", "低压差", "线性电源", "ldo regulator", "dropout", "压差"])
    } else if m == 8 {
        ("power", vec!["led"], vec!["led", "发光二极管", "限流电阻", "led驱动"])
    } else if m == 9 {
        ("power", vec![], vec!["电源", "power supply", "dc-dc", "dcdc", "转换器", "converter", "regulator", "稳压器", "开关电源", "效率", "efficiency", "占空比", "duty cycle"])
    } else if m == 10 {
        ("power", vec!["capacitor", "passive"], vec!["电容", "capacitor", "cap", "去耦", "滤波电容", "输出电容", "输入电容"])
    } else if m == 11 {
        ("power", vec!["inductor", "passive"], vec!["电感", "inductor", "inductance", "饱和电流", "纹波电流"])
    } else if m == 12 {
        ("thermal", vec!["thermal"], vec!["热", "thermal", "功耗", "power dissipation", "结温", "junction temperature", "散热", "温升"])
    } else if m == 13 {
        ("si", vec!["signal-integrity", "impedance"], vec!["阻抗", "impedance", "微带", "microstrip", "带状线", "stripline", "信号完整性", "signal integrity", "si", "走线", "trace", "传输线", "transmission line", "特征阻抗"])
    } else if m == 14 {
        ("si", vec![], vec!["传播延迟", "propagation delay", "串扰", "crosstalk", "next", "载流", "current capacity", "过孔", "via", "走线电阻", "trace resistance"])
    } else if m == 15 {
        ("emc", vec!["emc", "filter"], vec!["emc", "emi", "电磁兼容", "emc设计", "去耦", "decoupling", "esr", "谐振", "resonance", "滤波器", "filter", "rc滤波", "lc滤波", "共模", "common mode", "choke"])
    } else {
        ("timing", vec!["timing", "digital"], vec!["时序", "timing", "建立时间", "setup time", "保持时间", "hold time", "时钟", "clock", "jitter", "抖动", "spi", "uart", "波特率", "baud rate", "频率", "frequency"])
    };    proof {
        assert(str_texts(r.1@) =~= keyword_table()[m as int].tags);
        assert(str_texts(r.2@) =~= keyword_table()[m as int].keywords);
    }
    r
}

/// How many of a row's tags the rule carries.
pub open spec fn tag_overlap(etags: Seq<Seq<char>>, rtags: Seq<Seq<char>>) -> nat
    decreases etags.len(),
{
    if etags.len() == 0 {
        0
    } else {
        tag_overlap(etags.drop_last(), rtags) + if rtags.contains(etags.last()) {
            1nat
        } else {
            0nat
        }
    }
}

/// The half points each keyword of row `e` found in the question earns a rule: four,
/// six more when the rule has a domain and it is the row's, and three for each of the
/// row's tags the rule carries.
pub open spec fn keyword_half_points(e: KeywordEntry, domain: Seq<char>, rtags: Seq<Seq<char>>) -> nat {
    4 + (if domain.len() > 0 && domain == e.domain {
        6nat
    } else {
        0nat
    }) + 3 * tag_overlap(e.tags, rtags)
}

/// The keywords that occur in the question `lower`, in order.
pub open spec fn keyword_hits(lower: Seq<char>, kws: Seq<Seq<char>>) -> Seq<Seq<char>>
    decreases kws.len(),
{
    if kws.len() == 0 {
        Seq::empty()
    } else {
        let rest = keyword_hits(lower, kws.drop_last());
        if seq_contains(lower, kws.last()) {
            rest.push(kws.last())
        } else {
            rest
        }
    }
}

/// The half points the rows earn a rule with this domain and these tags.
pub open spec fn table_half_points(lower: Seq<char>, rows: Seq<KeywordEntry>, domain: Seq<char>, rtags: Seq<Seq<char>>) -> nat
    decreases rows.len(),
{
    if rows.len() == 0 {
        0
    } else {
        table_half_points(lower, rows.drop_last(), domain, rtags) + keyword_hits(lower, rows.last().keywords).len()
            * keyword_half_points(rows.last(), domain, rtags)
    }
}

/// The keywords of the rows found in the question, row by row.
pub open spec fn table_hits(lower: Seq<char>, rows: Seq<KeywordEntry>) -> Seq<Seq<char>>
    decreases rows.len(),
{
    if rows.len() == 0 {
        Seq::empty()
    } else {
        table_hits(lower, rows.drop_last()) + keyword_hits(lower, rows.last().keywords)
    }
}

/// The number of bytes of a character in UTF-8.
pub open spec fn char_utf8_len(c: char) -> nat {
    if (c as u32) < 0x80 {
        1
    } else if (c as u32) < 0x800 {
        2
    } else if (c as u32) < 0x10000 {
        3
    } else {
        4
    }
}

/// The number of bytes of a text in UTF-8.
pub open spec fn utf8_len(s: Seq<char>) -> nat
    decreases s.len(),
{
    if s.len() == 0 {
        0
    } else {
        utf8_len(s.drop_last()) + char_utf8_len(s.last())
    }
}

/// The pieces longer than two UTF-8 bytes that occur in `text`, in order.
pub open spec fn long_pieces_in(text: Seq<char>, pieces: Seq<Seq<char>>) -> Seq<Seq<char>>
    decreases pieces.len(),
{
    if pieces.len() == 0 {
        Seq::empty()
    } else {
        let rest = long_pieces_in(text, pieces.drop_last());
        let p = pieces.last();
        if seq_contains(text, p) && utf8_len(p) > 2 {
            rest.push(p)
        } else {
            rest
        }
    }
}

/// The words of a text: its maximal runs of characters that are not white space.
pub open spec fn words_of(s: Seq<char>) -> Seq<Seq<char>>
    decreases s.len(),
{
    if s.len() == 0 {
        Seq::empty()
    } else {
        let w = words_of(s.drop_last());
        let c = s.last();
        if is_white_space(c) {
            w
        } else if s.len() >= 2 && !is_white_space(s[s.len() - 2]) && w.len() > 0 {
            w.drop_last().push(w.last().push(c))
        } else {
            w.push(seq![c])
        }
    }
}

/// How many of `params` are among `keys`.
pub open spec fn covered_count(params: Seq<Seq<char>>, keys: Seq<Seq<char>>) -> nat
    decreases params.len(),
{
    if params.len() == 0 {
        0
    } else {
        covered_count(params.drop_last(), keys) + if keys.contains(params.last()) {
            1nat
        } else {
            0nat
        }
    }
}

/// A rule's domain, empty when it has none.
pub open spec fn rule_domain(rule: DesignRule) -> Seq<char> {
    match rule.domain {
        Some(d) => d@,
        None => Seq::empty(),
    }
}

/// A rule's description, empty when it has none.
pub open spec fn rule_description(rule: DesignRule) -> Seq<char> {
    match rule.description {
        Some(d) => d@,
        None => Seq::empty(),
    }
}

/// The words of the question `lower` longer than two bytes found in the lowercase of
/// the rule's description; none when the rule has no description.
pub open spec fn description_hits(lower: Seq<char>, rule: DesignRule) -> nat {
    match rule.description {
        Some(d) => long_pieces_in(spec_to_lowercase(d@), words_of(lower)).len(),
        None => 0,
    }
}

/// What a rule's match against a question is made of.
pub struct RuleScore {
    pub rule_name: String,
    pub description: String,
    pub domain: String,
    pub tags: Vec<String>,
    pub parameters: Vec<String>,
    pub output_params: Vec<String>,
    /// The table keywords and name parts found in the question, each once, ascending.
    pub matched_keywords: Vec<String>,
    /// The points of the table keywords found in the question, in half points.
    pub keyword_half_points: u64,
    /// The parts of the rule name (split at `_`) longer than two bytes found in the question.
    pub name_hits: usize,
    /// The question's words longer than two bytes found in the rule's description.
    pub description_hits: usize,
    /// The rule's parameters among those read from the question.
    pub covered_params: usize,
}

/// The values a [`RuleScore`] holds, apart from its matched keywords.
pub struct RuleScoreView {
    pub rule_name: Seq<char>,
    pub description: Seq<char>,
    pub domain: Seq<char>,
    pub tags: Seq<Seq<char>>,
    pub parameters: Seq<Seq<char>>,
    pub output_params: Seq<Seq<char>>,
    pub keyword_half_points: nat,
    pub name_hits: nat,
    pub description_hits: nat,
    pub covered_params: nat,
}

impl RuleScore {
    pub open spec fn view_spec(&self) -> RuleScoreView {
        RuleScoreView {
            rule_name: self.rule_name@,
            description: self.description@,
            domain: self.domain@,
            tags: texts(self.tags@),
            parameters: texts(self.parameters@),
            output_params: texts(self.output_params@),
            keyword_half_points: self.keyword_half_points as nat,
            name_hits: self.name_hits as nat,
            description_hits: self.description_hits as nat,
            covered_params: self.covered_params as nat,
        }
    }
}

impl RuleScore {
    /// The points from keywords, name parts and description words, in half points: a
    /// name part earns one point, a description word half a point.
    pub fn fixed_half_points(&self) -> (r: u128)
        ensures
            r == self.keyword_half_points + 2 * self.name_hits + self.description_hits,
    {
        (self.keyword_half_points as u128) + 2 * (self.name_hits as u128) + (self.description_hits as u128)
    }

    /// The number the covered parameters are divided by: the rule's parameter count, at
    /// least one.
    pub fn parameter_divisor(&self) -> (r: usize)
        ensures
            r == (if self.parameters@.len() == 0 { 1 } else { self.parameters@.len() }),
    {
        if self.parameters.len() == 0 {
            1
        } else {
            self.parameters.len()
        }
    }

    /// Whether the score is above zero: some points were earned or some parameter is
    /// covered.
    pub fn is_positive(&self) -> (r: bool)
        ensures
            r == (self.keyword_half_points + 2 * self.name_hits + self.description_hits > 0 || self.covered_params > 0),
    {
        self.keyword_half_points > 0 || self.name_hits > 0 || self.description_hits > 0 || self.covered_params > 0
    }
}

/// The match of `rule` against the lowercased question `lower`, given the names of the
/// parameters read from the question.
pub open spec fn rule_score_spec(lower: Seq<char>, rule: DesignRule, keys: Seq<Seq<char>>) -> RuleScoreView {
    let tags = declared_names_spec(opt_string_view(rule.tags));
    let params = declared_names_spec(opt_string_view(rule.parameters));
    RuleScoreView {
        rule_name: rule.name@,
        description: rule_description(rule),
        domain: rule_domain(rule),
        tags: tags,
        parameters: params,
        output_params: declared_names_spec(opt_string_view(rule.output_params)),
        keyword_half_points: table_half_points(lower, keyword_table(), rule_domain(rule), tags),
        name_hits: long_pieces_in(lower, split_on(rule.name@, '_')).len(),
        description_hits: description_hits(lower, rule),
        covered_params: covered_count(params, keys),
    }
}

/// The keywords a rule matches: every table keyword and every long name part found in
/// the question, each once, in ascending order.
pub open spec fn matched_keywords_of(m: Seq<Seq<char>>, lower: Seq<char>, rule: DesignRule) -> bool {
    &&& strictly_sorted(m)
    &&& m.to_set() == table_hits(lower, keyword_table()).to_set() + long_pieces_in(lower, split_on(rule.name@, '_')).to_set()
}

/// Whether `t` is one of `list`.
pub(crate) fn text_in(list: &[String], t: &[char]) -> (b: bool)
    ensures
        b == texts(list@).contains(t@),
{
    let mut i: usize = 0;
    while i < list.len()
        invariant
            i <= list@.len(),
            forall|j: int| 0 <= j < i ==> list@[j]@ != t@,
        decreases list@.len() - i,
    {
        let c = chars_of(list[i].as_str());
        if chars_eq(c.as_slice(), t) {
            proof {
                assert(texts(list@)[i as int] == t@);
            }
            return true;
        }
        i = i + 1;
    }
    proof {
        assert forall|j: int| 0 <= j < texts(list@).len() implies texts(list@)[j] != t@ by {
            assert(texts(list@)[j] == list@[j]@);
        }
    }
    false
}

/// Whether a text is longer than two bytes in UTF-8.
fn longer_than_two_bytes(s: &[char]) -> (b: bool)
    ensures
        b == (utf8_len(s@) > 2),
{
    let mut total: usize = 0;
    let mut i: usize = 0;
    while i < s.len()
        invariant
            i <= s@.len(),
            total <= 3,
            total == (if utf8_len(s@.take(i as int)) > 3 { 3 } else { utf8_len(s@.take(i as int)) }),
        decreases s@.len() - i,
    {
        let c = s[i] as u32;
        let w: usize = if c < 0x80 {
            1
        } else if c < 0x800 {
            2
        } else if c < 0x10000 {
            3
        } else {
            4
        };
        proof {
            assert(s@.take(i as int + 1).drop_last() =~= s@.take(i as int));
            lemma_utf8_len_grows(s@.take(i as int + 1));
        }
        total = if total + w > 3 {
            3
        } else {
            total + w
        };
        i = i + 1;
    }
    proof {
        assert(s@.take(s@.len() as int) =~= s@);
    }
    total > 2
}

proof fn lemma_utf8_len_grows(s: Seq<char>)
    requires
        s.len() > 0,
    ensures
        utf8_len(s) == utf8_len(s.drop_last()) + char_utf8_len(s.last()),
{
}

/// How many of a row's tags are among the rule's.
fn count_overlap(etags: &Vec<&'static str>, rtags: &[String]) -> (n: usize)
    ensures
        n == tag_overlap(str_texts(etags@), texts(rtags@)),
        n <= etags@.len(),
{
    let mut n: usize = 0;
    let mut i: usize = 0;
    while i < etags.len()
        invariant
            i <= etags@.len(),
            n <= i,
            n == tag_overlap(str_texts(etags@).take(i as int), texts(rtags@)),
        decreases etags@.len() - i,
    {
        let t = chars_of(etags[i]);
        proof {
            assert(str_texts(etags@).take(i as int + 1).drop_last() =~= str_texts(etags@).take(i as int));
            assert(str_texts(etags@).take(i as int + 1).last() == etags@[i as int]@);
        }
        if text_in(rtags, t.as_slice()) {
            n = n + 1;
        }
        i = i + 1;
    }
    proof {
        assert(str_texts(etags@).take(etags@.len() as int) =~= str_texts(etags@));
    }
    n
}

/// Appends the keywords found in the question to `hits`; returns how many there were.
fn row_hits(lower: &[char], kws: &Vec<&'static str>, hits: &mut Vec<String>) -> (count: usize)
    ensures
        texts(final(hits)@) == texts(old(hits)@) + keyword_hits(lower@, str_texts(kws@)),
        count == keyword_hits(lower@, str_texts(kws@)).len(),
        count <= kws@.len(),
{
    let mut count: usize = 0;
    let mut i: usize = 0;
    while i < kws.len()
        invariant
            i <= kws@.len(),
            count <= i,
            count == keyword_hits(lower@, str_texts(kws@).take(i as int)).len(),
            texts(hits@) == texts(old(hits)@) + keyword_hits(lower@, str_texts(kws@).take(i as int)),
        decreases kws@.len() - i,
    {
        let ghost before = hits@;
        proof {
            assert(str_texts(kws@).take(i as int + 1).drop_last() =~= str_texts(kws@).take(i as int));
            assert(str_texts(kws@).take(i as int + 1).last() == kws@[i as int]@);
        }
        if contains(lower, kws[i]) {
            let k = kws[i].to_owned();
            hits.push(k);
            count = count + 1;
            proof {
                assert(texts(hits@) =~= texts(before).push(kws@[i as int]@));
            }
        }
        i = i + 1;
    }
    proof {
        assert(str_texts(kws@).take(kws@.len() as int) =~= str_texts(kws@));
    }
    count
}

/// The half points and the keyword hits of the whole table for a rule with this domain
/// and these tags.
fn table_score(lower: &[char], domain: &[char], rtags: &[String]) -> (r: (u64, Vec<String>))
    ensures
        r.0 == table_half_points(lower@, keyword_table(), domain@, texts(rtags@)),
        texts(r.1@) == table_hits(lower@, keyword_table()),
{
    let mut points: u64 = 0;
    let mut hits: Vec<String> = Vec::new();
    let mut m: usize = 0;
    proof {
        assert(keyword_table().take(0) =~= Seq::<KeywordEntry>::empty());
        assert(texts(hits@) =~= Seq::<Seq<char>>::empty());
    }
    while m < 17
        invariant
            m <= 17,
            keyword_table().len() == 17,
            points <= 256 * m,
            points == table_half_points(lower@, keyword_table().take(m as int), domain@, texts(rtags@)),
            texts(hits@) == table_hits(lower@, keyword_table().take(m as int)),
        decreases 17 - m,
    {
        let row = keyword_entry(m);
        let ghost e = keyword_table()[m as int];
        let ghost before = hits@;
        let n = row_hits(lower, &row.2, &mut hits);
        let overlap = count_overlap(&row.1, rtags);
        let same_domain = domain.len() > 0 && eq_str(domain, row.0);
        let bonus: u64 = 4 + (if same_domain {
            6
        } else {
            0
        }) + 3 * (overlap as u64);
        proof {
            assert(keyword_table().take(m as int + 1).drop_last() =~= keyword_table().take(m as int));
            assert(keyword_table().take(m as int + 1).last() == e);
            assert(bonus == keyword_half_points(e, domain@, texts(rtags@)));
            assert(n * bonus <= 256) by (nonlinear_arith)
                requires
                    n <= 16,
                    bonus <= 16,
            ;
        }
        points = points + (n as u64) * bonus;
        m = m + 1;
    }
    proof {
        assert(keyword_table().take(17) =~= keyword_table());
    }
    (points, hits)
}

/// The views of a list of character vectors.
pub open spec fn piece_texts(v: Seq<Vec<char>>) -> Seq<Seq<char>> {
    v.map_values(|c: Vec<char>| c@)
}

/// The pieces longer than two bytes that occur in `text`.
fn long_pieces(text: &[char], pieces: &Vec<Vec<char>>) -> (r: Vec<String>)
    ensures
        texts(r@) == long_pieces_in(text@, piece_texts(pieces@)),
        r@.len() <= pieces@.len(),
{
    let mut r: Vec<String> = Vec::new();
    let mut i: usize = 0;
    proof {
        assert(texts(r@) =~= long_pieces_in(text@, piece_texts(pieces@).take(0)));
    }
    while i < pieces.len()
        invariant
            i <= pieces@.len(),
            r@.len() <= i,
            texts(r@) == long_pieces_in(text@, piece_texts(pieces@).take(i as int)),
        decreases pieces@.len() - i,
    {
        let ghost before = r@;
        proof {
            assert(piece_texts(pieces@).take(i as int + 1).drop_last() =~= piece_texts(pieces@).take(i as int));
            assert(piece_texts(pieces@).take(i as int + 1).last() == pieces@[i as int]@);
        }
        let p = pieces[i].as_slice();
        if contains_chars(text, p) && longer_than_two_bytes(p) {
            r.push(string_from_chars(p));
            proof {
                assert(texts(r@) =~= texts(before).push(pieces@[i as int]@));
            }
        }
        i = i + 1;
    }
    proof {
        assert(piece_texts(pieces@).take(pieces@.len() as int) =~= piece_texts(pieces@));
    }
    r
}

/// The words of a text.
fn words(s: &[char]) -> (r: Vec<Vec<char>>)
    ensures
        piece_texts(r@) == words_of(s@),
{
    let mut r: Vec<Vec<char>> = Vec::new();
    let mut i: usize = 0;
    proof {
        assert(piece_texts(r@) =~= words_of(s@.take(0)));
    }
    while i < s.len()
        invariant
            i <= s@.len(),
            piece_texts(r@) == words_of(s@.take(i as int)),
        decreases s@.len() - i,
    {
        let c = s[i];
        let ghost t = s@.take(i as int + 1);
        let ghost before = piece_texts(r@);
        proof {
            assert(t.drop_last() =~= s@.take(i as int));
            assert(t.last() == c);
            if i >= 1 {
                assert(t[t.len() - 2] == s@[i - 1]);
            }
        }
        if is_white_space_char(c) {
        } else if i >= 1 && !is_white_space_char(s[i - 1]) && r.len() > 0 {
            let mut w = r.pop().unwrap();
            w.push(c);
            r.push(w);
            proof {
                assert(piece_texts(r@) =~= before.drop_last().push(before.last().push(c)));
            }
        } else {
            let mut w: Vec<char> = Vec::new();
            w.push(c);
            r.push(w);
            proof {
                assert(piece_texts(r@) =~= before.push(seq![c]));
            }
        }
        i = i + 1;
    }
    proof {
        assert(s@.take(s@.len() as int) =~= s@);
    }
    r
}

/// How many of `params` are among `keys`.
fn covered(params: &[String], keys: &[String]) -> (n: usize)
    ensures
        n == covered_count(texts(params@), texts(keys@)),
{
    let mut n: usize = 0;
    let mut i: usize = 0;
    while i < params.len()
        invariant
            i <= params@.len(),
            n <= i,
            n == covered_count(texts(params@).take(i as int), texts(keys@)),
        decreases params@.len() - i,
    {
        proof {
            assert(texts(params@).take(i as int + 1).drop_last() =~= texts(params@).take(i as int));
            assert(texts(params@).take(i as int + 1).last() == params@[i as int]@);
        }
        let p = chars_of(params[i].as_str());
        if text_in(keys, p.as_slice()) {
            n = n + 1;
        }
        i = i + 1;
    }
    proof {
        assert(texts(params@).take(params@.len() as int) =~= texts(params@));
    }
    n
}

/// The text of an optional string, empty when there is none.
fn text_or_empty(o: &Option<String>) -> (r: Vec<char>)
    ensures
        r@ == match *o {
            Some(s) => s@,
            None => Seq::<char>::empty(),
        },
{
    match o {
        Some(s) => chars_of(s.as_str()),
        None => Vec::new(),
    }
}

/// The match of one rule against the lowercased question and its words.
fn score_rule(lower: &[char], query_words: &Vec<Vec<char>>, rule: &DesignRule, keys: &[String]) -> (r: RuleScore)
    requires
        piece_texts(query_words@) == words_of(lower@),
    ensures
        r.view_spec() == rule_score_spec(lower@, *rule, texts(keys@)),
        matched_keywords_of(name_texts(r.matched_keywords@), lower@, *rule),
{
    let domain = text_or_empty(&rule.domain);
    let tags = parse_json_array(&rule.tags);
    let parameters = parse_json_array(&rule.parameters);
    let output_params = parse_json_array(&rule.output_params);
    let (keyword_half_points, table_hit_names) = table_score(lower, domain.as_slice(), tags.as_slice());
    let name = chars_of(rule.name.as_str());
    let parts = split_chars(name.as_slice(), '_');
    let name_parts = long_pieces(lower, &parts);
    let name_hits = name_parts.len();
    let description_hits: usize = match &rule.description {
        Some(d) => {
            let dl = to_lower(d.as_str());
            let dc = chars_of(dl.as_str());
            let found = long_pieces(dc.as_slice(), query_words);
            found.len()
        },
        None => 0,
    };
    let covered_params = covered(parameters.as_slice(), keys);
    let matched_keywords = merge_topology_names(table_hit_names.as_slice(), name_parts.as_slice());
    let description = match &rule.description {
        Some(d) => d.clone(),
        None => String::new(),
    };
    RuleScore {
        rule_name: rule.name.clone(),
        description,
        domain: string_from_chars(domain.as_slice()),
        tags,
        parameters,
        output_params,
        matched_keywords,
        keyword_half_points,
        name_hits,
        description_hits,
        covered_params,
    }
}

/// The match of each rule, in order, against `query`, given the names of the
/// parameters read from the question. The question is compared in lowercase.
pub fn match_rules(query: &str, rules: &[DesignRule], extracted_keys: &[String]) -> (r: Vec<RuleScore>)
    ensures
        r@.len() == rules@.len(),
        forall|i: int| 0 <= i < r@.len() ==> (#[trigger] r@[i]).view_spec() == rule_score_spec(
            spec_to_lowercase(query@),
            rules@[i],
            texts(extracted_keys@),
        ),
        forall|i: int| 0 <= i < r@.len() ==> matched_keywords_of(
            name_texts((#[trigger] r@[i]).matched_keywords@),
            spec_to_lowercase(query@),
            rules@[i],
        ),
{
    let lower_text = to_lower(query);
    let lower = chars_of(lower_text.as_str());
    let query_words = words(lower.as_slice());
    let mut r: Vec<RuleScore> = Vec::new();
    let mut i: usize = 0;
    while i < rules.len()
        invariant
            i <= rules@.len(),
            r@.len() == i,
            lower@ == spec_to_lowercase(query@),
            piece_texts(query_words@) == words_of(lower@),
            forall|j: int| 0 <= j < i ==> (#[trigger] r@[j]).view_spec() == rule_score_spec(lower@, rules@[j], texts(extracted_keys@)),
            forall|j: int| 0 <= j < i ==> matched_keywords_of(name_texts((#[trigger] r@[j]).matched_keywords@), lower@, rules@[j]),
        decreases rules@.len() - i,
    {
        let s = score_rule(lower.as_slice(), &query_words, &rules[i], extracted_keys);
        r.push(s);
        i = i + 1;
    }
    r
}

} // verus!
