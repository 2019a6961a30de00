//! Design rules as stored in the component database: the rule table ordered by name,
//! lookups by domain and by tag, and the comparison-operator scan of check expressions.
use vstd::prelude::*;
use vstd::string::StringSliceAdditionalSpecFns;
use crate::text::{chars_of, contains, seq_contains};
use crate::rule_text::{declared_names_spec, parse_json_array};
use crate::skill_match::text_in;
use crate::symgen::opt_string_view;

verus! {

/// A design rule row.
pub struct DesignRule {
    pub id: Option<i64>,
    pub name: String,
    pub category_id: Option<i64>,
    pub description: Option<String>,
    pub condition_expr: Option<String>,
    pub formula_expr: Option<String>,
    pub check_expr: Option<String>,
    pub parameters: Option<String>,
    pub output_params: Option<String>,
    pub source: Option<String>,
    pub domain: Option<String>,
    pub tags: Option<String>,
}

/// A copy of an optional string.
pub fn copy_opt_string(o: &Option<String>) -> (r: Option<String>)
    ensures
        r == *o,
{
    match o {
        Some(s) => Some(s.clone()),
        None => None,
    }
}

impl DesignRule {
    /// A field-by-field copy of the rule.
    pub fn duplicate(&self) -> (r: DesignRule)
        ensures
            r == *self,
    {
        DesignRule {
            id: self.id,
            name: self.name.clone(),
            category_id: self.category_id,
            description: copy_opt_string(&self.description),
            condition_expr: copy_opt_string(&self.condition_expr),
            formula_expr: copy_opt_string(&self.formula_expr),
            check_expr: copy_opt_string(&self.check_expr),
            parameters: copy_opt_string(&self.parameters),
            output_params: copy_opt_string(&self.output_params),
            source: copy_opt_string(&self.source),
            domain: copy_opt_string(&self.domain),
            tags: copy_opt_string(&self.tags),
        }
    }
}

/// The UTF-8 bytes of a rule's name, by which the table is ordered.
pub open spec fn name_key(r: DesignRule) -> Seq<u8> {
    vstd::utf8::encode_utf8(r.name@)
}

/// Byte-wise lexicographic order (the order of SQLite's BINARY collation).
pub open spec fn bytes_lt(a: Seq<u8>, b: Seq<u8>) -> bool
    decreases a.len(),
{
    if a.len() == 0 {
        b.len() > 0
    } else if b.len() == 0 {
        false
    } else if a[0] != b[0] {
        a[0] < b[0]
    } else {
        bytes_lt(a.drop_first(), b.drop_first())
    }
}

/// `s` with `x` inserted after every leading element whose key is not greater than
/// `x`'s (into a sorted `s`, after all elements of equal or smaller name).
pub open spec fn insert_by_name(s: Seq<DesignRule>, x: DesignRule) -> Seq<DesignRule>
    decreases s.len(),
{
    if s.len() == 0 {
        seq![x]
    } else if bytes_lt(name_key(x), name_key(s[0])) {
        seq![x] + s
    } else {
        seq![s[0]] + insert_by_name(s.drop_first(), x)
    }
}

/// The rows ordered by name, rows of equal name kept in their stored order.
pub open spec fn sorted_by_name(s: Seq<DesignRule>) -> Seq<DesignRule>
    decreases s.len(),
{
    if s.len() == 0 {
        Seq::empty()
    } else {
        insert_by_name(sorted_by_name(s.drop_last()), s.last())
    }
}

/// Whether `a` sorts strictly before `b` byte-wise.
pub fn bytes_less(a: &[u8], b: &[u8]) -> (r: bool)
    ensures
        r == bytes_lt(a@, b@),
{
    let mut i: usize = 0;
    proof {
        assert(a@.skip(0) =~= a@);
        assert(b@.skip(0) =~= b@);
    }
    while i < a.len() && i < b.len() && a[i] == b[i]
        invariant
            i <= a@.len(),
            i <= b@.len(),
            bytes_lt(a@, b@) == bytes_lt(a@.skip(i as int), b@.skip(i as int)),
        decreases a@.len() - i,
    {
        proof {
            assert(a@.skip(i as int).drop_first() =~= a@.skip(i as int + 1));
            assert(b@.skip(i as int).drop_first() =~= b@.skip(i as int + 1));
        }
        i = i + 1;
    }
    if i == a.len() {
        i < b.len()
    } else if i == b.len() {
        false
    } else {
        a[i] < b[i]
    }
}

/// The design-rule table as loaded from the database.
pub struct ComponentDb {
    design_rules: Vec<DesignRule>,
}

impl ComponentDb {
    /// The stored rule rows, in storage order.
    pub closed spec fn rule_rows(&self) -> Seq<DesignRule> {
        self.design_rules@
    }

    /// A table holding the given rows.
    pub fn from_design_rules(rows: Vec<DesignRule>) -> (db: ComponentDb)
        ensures
            db.rule_rows() == rows@,
    {
        ComponentDb { design_rules: rows }
    }

    /// Insert `x` into the sorted `v` as `insert_by_name` does.
    fn insert_sorted(v: &mut Vec<DesignRule>, x: DesignRule)
        ensures
            final(v)@ == insert_by_name(old(v)@, x),
    {
        let ghost v0 = v@;
        let mut pos: usize = 0;
        proof {
            assert(v0.skip(0) =~= v0);
            assert(v0.take(0) + insert_by_name(v0, x) =~= insert_by_name(v0, x));
        }
        while pos < v.len() && !bytes_less(x.name.as_str().as_bytes(), v[pos].name.as_str().as_bytes())
            invariant
                pos <= v@.len(),
                v@ == v0,
                insert_by_name(v0, x) == v0.take(pos as int) + insert_by_name(v0.skip(pos as int), x),
            decreases v@.len() - pos,
        {
            proof {
                let rest = v0.skip(pos as int);
                assert(rest.drop_first() =~= v0.skip(pos as int + 1));
                assert(v0.take(pos as int) + seq![rest[0]] =~= v0.take(pos as int + 1));
                assert(seq![rest[0]] + insert_by_name(rest.drop_first(), x) == insert_by_name(rest, x));
                assert(v0.take(pos as int) + (seq![rest[0]] + insert_by_name(rest.drop_first(), x))
                    =~= v0.take(pos as int + 1) + insert_by_name(v0.skip(pos as int + 1), x));
            }
            pos = pos + 1;
        }
        proof {
            let rest = v0.skip(pos as int);
            if pos < v0.len() {
                assert(insert_by_name(rest, x) == seq![x] + rest);
            } else {
                assert(rest.len() == 0);
            }
            assert(v0.take(pos as int) + insert_by_name(rest, x) =~= v0.take(pos as int) + seq![x] + rest);
        }
        v.insert(pos, x);
        proof {
            assert(v@ =~= v0.take(pos as int) + seq![x] + v0.skip(pos as int));
        }
    }

    /// All design rules, ordered by name (byte-wise, as the database orders text).
    pub fn get_all_design_rules(&self) -> (r: Vec<DesignRule>)
        ensures
            r@ == sorted_by_name(self.rule_rows()),
    {
        let rows = &self.design_rules;
        let mut out: Vec<DesignRule> = Vec::new();
        let mut i: usize = 0;
        while i < rows.len()
            invariant
                i <= rows@.len(),
                rows@ == self.rule_rows(),
                out@ == sorted_by_name(rows@.take(i as int)),
            decreases rows@.len() - i,
        {
            let x = rows[i].duplicate();
            proof {
                assert(rows@.take(i as int + 1).drop_last() =~= rows@.take(i as int));
            }
            Self::insert_sorted(&mut out, x);
            i = i + 1;
        }
        proof {
            assert(rows@.take(rows@.len() as int) =~= rows@);
        }
        out
    }

    /// The design rules whose domain is `domain`, ordered by name.
    pub fn get_rules_by_domain(&self, domain: &str) -> (r: Vec<DesignRule>)
        ensures
            r@ == sorted_by_name(self.rule_rows()).filter(|x: DesignRule| has_domain(x, domain@)),
    {
        let all = self.get_all_design_rules();
        let ghost pred = |x: DesignRule| has_domain(x, domain@);
        let mut out: Vec<DesignRule> = Vec::new();
        let mut i: usize = 0;
        while i < all.len()
            invariant
                i <= all@.len(),
                all@ == sorted_by_name(self.rule_rows()),
                out@ == all@.take(i as int).filter(pred),
                forall|x: DesignRule| #[trigger] pred(x) == has_domain(x, domain@),
            decreases all@.len() - i,
        {
            proof {
                assert(all@.take(i as int + 1).drop_last() =~= all@.take(i as int));
                all@.take(i as int).lemma_filter_push(all@[i as int], pred);
                assert(all@.take(i as int).push(all@[i as int]) =~= all@.take(i as int + 1));
            }
            let keep = match &all[i].domain {
                Some(d) => {
                    let dc = chars_of(d.as_str());
                    let wc = chars_of(domain);
                    crate::text::chars_eq(dc.as_slice(), wc.as_slice())
                },
                None => false,
            };
            assert(keep == pred(all@[i as int]));
            if keep {
                out.push(all[i].duplicate());
            }
            i = i + 1;
        }
        proof {
            assert(all@.take(all@.len() as int) =~= all@);
        }
        out
    }

    /// The design rules tagged `tag` (one of the elements of their JSON tag list),
    /// ordered by name.
    pub fn get_rules_by_tag(&self, tag: &str) -> (r: Vec<DesignRule>)
        ensures
            r@ == sorted_by_name(self.rule_rows()).filter(|x: DesignRule| has_tag(x, tag@)),
    {
        let all = self.get_all_design_rules();
        let ghost pred = |x: DesignRule| has_tag(x, tag@);
        let tag_chars = chars_of(tag);
        let mut out: Vec<DesignRule> = Vec::new();
        let mut i: usize = 0;
        while i < all.len()
            invariant
                i <= all@.len(),
                all@ == sorted_by_name(self.rule_rows()),
                out@ == all@.take(i as int).filter(pred),
                forall|x: DesignRule| #[trigger] pred(x) == has_tag(x, tag@),
                tag_chars@ == tag@,
            decreases all@.len() - i,
        {
            proof {
                all@.take(i as int).lemma_filter_push(all@[i as int], pred);
                assert(all@.take(i as int).push(all@[i as int]) =~= all@.take(i as int + 1));
            }
            let tags = parse_json_array(&all[i].tags);
            let keep = text_in(tags.as_slice(), tag_chars.as_slice());
            assert(keep == pred(all@[i as int]));
            if keep {
                out.push(all[i].duplicate());
            }
            i = i + 1;
        }
        proof {
            assert(all@.take(all@.len() as int) =~= all@);
        }
        out
    }
}

/// The rule's domain is `d`.
pub open spec fn has_domain(x: DesignRule, d: Seq<char>) -> bool {
    match x.domain {
        Some(v) => v@ == d,
        None => false,
    }
}

/// `t` is one of the rule's tags (the elements of its JSON tag list).
pub open spec fn has_tag(x: DesignRule, t: Seq<char>) -> bool {
    declared_names_spec(opt_string_view(x.tags)).contains(t)
}

/// `p` occurs in `h` at byte position `i`.
pub open spec fn bytes_occur_at(h: Seq<u8>, p: Seq<u8>, i: int) -> bool {
    0 <= i && i + p.len() <= h.len() && h.subrange(i, i + p.len()) == p
}

/// The first position at or after `i` where `p` occurs in `h`.
pub open spec fn find_bytes_from(h: Seq<u8>, p: Seq<u8>, i: int) -> Option<int>
    decreases h.len() + 1 - i,
{
    if i < 0 || i + p.len() > h.len() {
        None
    } else if bytes_occur_at(h, p, i) {
        Some(i)
    } else {
        find_bytes_from(h, p, i + 1)
    }
}

/// The text of a comparison operator: 0 `>=`, 1 `<=`, 2 `==`, 3 `!=`, 4 `>`, 5 `<`.
pub open spec fn op_text(k: int) -> Seq<char> {
    if k == 0 {
        ">="@
    } else if k == 1 {
        "<="@
    } else if k == 2 {
        "=="@
    } else if k == 3 {
        "!="@
    } else if k == 4 {
        ">"@
    } else {
        "<"@
    }
}

/// The bytes of a two-character operator.
pub open spec fn op_bytes(k: int) -> Seq<u8> {
    if k == 0 {
        seq![62u8, 61u8]
    } else if k == 1 {
        seq![60u8, 61u8]
    } else if k == 2 {
        seq![61u8, 61u8]
    } else {
        seq![33u8, 61u8]
    }
}

/// First single `>` or `<` at or after byte `i` of the text (bytes `b`, characters
/// `c`) that is not the last byte and whose character at index `i + 1` (counted in
/// characters) is not `=`.
pub open spec fn single_op_from(b: Seq<u8>, c: Seq<char>, i: int) -> Option<(int, int)>
    decreases b.len() + 1 - i,
{
    if i < 0 || i >= b.len() {
        None
    } else if (b[i] == 62u8 || b[i] == 60u8) && i + 1 < b.len() && !(i + 1 < c.len() && c[i + 1] == '=') {
        Some((i, if b[i] == 62u8 { 4int } else { 5int }))
    } else {
        single_op_from(b, c, i + 1)
    }
}

/// The comparison operator of a check expression: the first occurrence of `>=`, else of
/// `<=`, else of `==`, else of `!=`; else the first single `>` or `<`. Positions are
/// byte offsets.
pub open spec fn comparison_op_spec(c: Seq<char>) -> Option<(int, int)> {
    let b = vstd::utf8::encode_utf8(c);
    if find_bytes_from(b, op_bytes(0), 0) is Some {
        Some((find_bytes_from(b, op_bytes(0), 0)->0, 0int))
    } else if find_bytes_from(b, op_bytes(1), 0) is Some {
        Some((find_bytes_from(b, op_bytes(1), 0)->0, 1int))
    } else if find_bytes_from(b, op_bytes(2), 0) is Some {
        Some((find_bytes_from(b, op_bytes(2), 0)->0, 2int))
    } else if find_bytes_from(b, op_bytes(3), 0) is Some {
        Some((find_bytes_from(b, op_bytes(3), 0)->0, 3int))
    } else {
        single_op_from(b, c, 0)
    }
}

/// Whether `p` occurs in `h` at `i`.
fn bytes_match_at(h: &[u8], p: &[u8], i: usize) -> (r: bool)
    ensures
        r == bytes_occur_at(h@, p@, i as int),
{
    if i > h.len() || p.len() > h.len() - i {
        return false;
    }
    let mut k: usize = 0;
    while k < p.len()
        invariant
            k <= p@.len(),
            i <= h.len(),
            p.len() <= h.len() - i,
            forall|j: int| 0 <= j < k ==> h@[i + j] == p@[j],
        decreases p@.len() - k,
    {
        if h[i + k] != p[k] {
            proof {
                assert(h@.subrange(i as int, i + p@.len())[k as int] != p@[k as int]);
            }
            return false;
        }
        k = k + 1;
    }
    proof {
        assert(h@.subrange(i as int, i + p@.len()) =~= p@);
    }
    true
}

/// First position of `p` in `h`.
fn find_bytes(h: &[u8], p: &[u8]) -> (r: Option<usize>)
    ensures
        match find_bytes_from(h@, p@, 0) {
            Some(q) => match r {
                Some(x) => x as int == q,
                None => false,
            },
            None => r is None,
        },
{
    let mut i: usize = 0;
    while i <= h.len()
        invariant
            find_bytes_from(h@, p@, 0) == find_bytes_from(h@, p@, i as int),
        decreases h@.len() + 1 - i,
    {
        if p.len() > h.len() - i {
            return None;
        }
        if bytes_match_at(h, p, i) {
            return Some(i);
        }
        if i == h.len() {
            assert(find_bytes_from(h@, p@, i as int + 1) is None);
            return None;
        }
        i = i + 1;
    }
    None
}

/// Operator and byte position of the comparison in a check expression such as
/// `v_out >= v_min`: two-character operators are looked for first, in the order
/// `>=`, `<=`, `==`, `!=`; then the first lone `>` or `<`.
pub fn find_comparison_op(expr: &str) -> (r: Option<(usize, &'static str)>)
    ensures
        match comparison_op_spec(expr@) {
            Some((p, k)) => match r {
                Some((q, o)) => q == p && o@ == op_text(k),
                None => false,
            },
            None => r is None,
        },
{
    let b = expr.as_bytes();
    let ghost c = expr@;
    let ge: [u8; 2] = [62u8, 61u8];
    let le: [u8; 2] = [60u8, 61u8];
    let eq: [u8; 2] = [61u8, 61u8];
    let ne: [u8; 2] = [33u8, 61u8];
    proof {
        assert(ge@ =~= op_bytes(0));
        assert(le@ =~= op_bytes(1));
        assert(eq@ =~= op_bytes(2));
        assert(ne@ =~= op_bytes(3));
    }
    if let Some(p) = find_bytes(b, ge.as_slice()) {
        return Some((p, ">="));
    }
    if let Some(p) = find_bytes(b, le.as_slice()) {
        return Some((p, "<="));
    }
    if let Some(p) = find_bytes(b, eq.as_slice()) {
        return Some((p, "=="));
    }
    if let Some(p) = find_bytes(b, ne.as_slice()) {
        return Some((p, "!="));
    }
    let n = expr.unicode_len();
    let mut i: usize = 0;
    while i < b.len()
        invariant
            b@ == vstd::utf8::encode_utf8(c),
            c == expr@,
            n == c.len(),
            single_op_from(b@, c, 0) == single_op_from(b@, c, i as int),
            comparison_op_spec(c) == single_op_from(b@, c, 0),
        decreases b@.len() - i,
    {
        let x = b[i];
        if (x == 62 || x == 60) && i + 1 < b.len() {
            let next_is_eq = i + 1 < n && expr.get_char(i + 1) == '=';
            if !next_is_eq {
                if x == 62 {
                    return Some((i, ">"));
                } else {
                    return Some((i, "<"));
                }
            }
        }
        i = i + 1;
    }
    None
}

/// `bytes_lt` is irreflexive, asymmetric and transitive.
pub proof fn lemma_bytes_lt_order(a: Seq<u8>, b: Seq<u8>, c: Seq<u8>)
    ensures
        !bytes_lt(a, a),
        bytes_lt(a, b) ==> !bytes_lt(b, a),
        bytes_lt(a, b) && bytes_lt(b, c) ==> bytes_lt(a, c),
    decreases a.len(),
{
    if a.len() > 0 {
        lemma_bytes_lt_order(a.drop_first(), a.drop_first(), a.drop_first());
    }
    if a.len() > 0 && b.len() > 0 {
        lemma_bytes_lt_order(a.drop_first(), b.drop_first(), b.drop_first());
    }
    if a.len() > 0 && b.len() > 0 && c.len() > 0 {
        lemma_bytes_lt_order(a.drop_first(), b.drop_first(), c.drop_first());
    }
}

/// Rows in nondecreasing name order.
pub open spec fn names_sorted(s: Seq<DesignRule>) -> bool {
    forall|i: int, j: int| 0 <= i < j < s.len() ==> !bytes_lt(name_key(#[trigger] s[j]), name_key(#[trigger] s[i]))
}

/// Inserting into rows sorted by name keeps them sorted and adds exactly the row.
proof fn lemma_insert_by_name(s: Seq<DesignRule>, x: DesignRule)
    requires
        names_sorted(s),
    ensures
        names_sorted(insert_by_name(s, x)),
        insert_by_name(s, x).to_multiset() == s.to_multiset().insert(x),
    decreases s.len(),
{
    broadcast use vstd::seq_lib::group_to_multiset_ensures;
    let r = insert_by_name(s, x);
    if s.len() == 0 {
        assert(r.to_multiset() =~= s.to_multiset().insert(x));
    } else if bytes_lt(name_key(x), name_key(s[0])) {
        assert forall|i: int, j: int| 0 <= i < j < r.len() implies !bytes_lt(name_key(#[trigger] r[j]), name_key(#[trigger] r[i])) by {
            if i == 0 {
                assert(r[j] == s[j - 1]);
                lemma_bytes_lt_order(name_key(s[j - 1]), name_key(x), name_key(s[0]));
                lemma_bytes_lt_order(name_key(x), name_key(s[0]), name_key(s[0]));
                if j - 1 > 0 {
                    assert(!bytes_lt(name_key(s[j - 1]), name_key(s[0])));
                }
            } else {
                assert(r[i] == s[i - 1] && r[j] == s[j - 1]);
            }
        }
        vstd::seq_lib::lemma_multiset_commutative(seq![x], s);
        assert(r.to_multiset() =~= s.to_multiset().insert(x));
    } else {
        let rest = s.drop_first();
        assert forall|i: int, j: int| 0 <= i < j < rest.len() implies !bytes_lt(name_key(#[trigger] rest[j]), name_key(#[trigger] rest[i])) by {
            assert(rest[i] == s[i + 1] && rest[j] == s[j + 1]);
        }
        lemma_insert_by_name(rest, x);
        let t = insert_by_name(rest, x);
        assert forall|i: int, j: int| 0 <= i < j < r.len() implies !bytes_lt(name_key(#[trigger] r[j]), name_key(#[trigger] r[i])) by {
            if i == 0 {
                assert(r[j] == t[j - 1]);
                if t[j - 1] != x {
                    assert(t.to_multiset().count(t[j - 1]) > 0);
                    assert(rest.to_multiset().count(t[j - 1]) > 0);
                    assert(rest.contains(t[j - 1]));
                    let k = choose|k: int| 0 <= k < rest.len() && rest[k] == t[j - 1];
                    assert(rest[k] == s[k + 1]);
                }
            } else {
                assert(r[i] == t[i - 1] && r[j] == t[j - 1]);
            }
        }
        assert(s =~= seq![s[0]] + rest);
        vstd::seq_lib::lemma_multiset_commutative(seq![s[0]], rest);
        vstd::seq_lib::lemma_multiset_commutative(seq![s[0]], t);
        assert(r.to_multiset() =~= s.to_multiset().insert(x));
    }
}

/// The rule table as `get_all_design_rules` returns it holds exactly the stored rows,
/// each as often as stored, in nondecreasing name order.
pub proof fn lemma_sorted_by_name(s: Seq<DesignRule>)
    ensures
        names_sorted(sorted_by_name(s)),
        sorted_by_name(s).to_multiset() == s.to_multiset(),
    decreases s.len(),
{
    broadcast use vstd::seq_lib::group_to_multiset_ensures;
    if s.len() > 0 {
        lemma_sorted_by_name(s.drop_last());
        lemma_insert_by_name(sorted_by_name(s.drop_last()), s.last());
        assert(s.drop_last().push(s.last()) =~= s);
    }
}

} // verus!
