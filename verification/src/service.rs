//! Component records and the ranking of alternatives for a part.
use vstd::prelude::*;
use crate::rules::copy_opt_string;
use crate::text::{chars_of, contains, eq_str, seq_contains, spec_to_lowercase, to_lower};
use crate::symgen::opt_string_view;

verus! {

/// A component record.
pub struct Component {
    pub id: Option<i64>,
    pub mpn: String,
    pub manufacturer: String,
    pub category_id: i64,
    pub description: Option<String>,
    pub package: Option<String>,
    pub lifecycle: String,
    pub datasheet_url: Option<String>,
    pub kicad_symbol: Option<String>,
    pub kicad_footprint: Option<String>,
    pub content_hash: Option<String>,
}

impl Component {
    /// A field-by-field copy of the record.
    pub fn duplicate(&self) -> (r: Component)
        ensures
            r == *self,
    {
        Component {
            id: self.id,
            mpn: self.mpn.clone(),
            manufacturer: self.manufacturer.clone(),
            category_id: self.category_id,
            description: copy_opt_string(&self.description),
            package: copy_opt_string(&self.package),
            lifecycle: self.lifecycle.clone(),
            datasheet_url: copy_opt_string(&self.datasheet_url),
            kicad_symbol: copy_opt_string(&self.kicad_symbol),
            kicad_footprint: copy_opt_string(&self.kicad_footprint),
            content_hash: copy_opt_string(&self.content_hash),
        }
    }
}

/// Why no alternatives could be listed.
#[derive(Debug, Clone, Copy, PartialEq, Eq, Structural)]
pub enum AlternativesError {
    /// No record among the search results has exactly the requested MPN.
    NotFound,
}

/// Index of the first record whose MPN is `mpn`, if any.
pub open spec fn first_with_mpn(s: Seq<Component>, mpn: Seq<char>) -> Option<int>
    decreases s.len(),
{
    if s.len() == 0 {
        None
    } else {
        match first_with_mpn(s.drop_last(), mpn) {
            Some(i) => Some(i),
            None => if s.last().mpn@ == mpn {
                Some(s.len() - 1)
            } else {
                None
            },
        }
    }
}

/// The first search result whose MPN is exactly `mpn`.
pub fn find_requested_part(search_results: &[Component], mpn: &str) -> (r: Option<usize>)
    ensures
        match first_with_mpn(search_results@, mpn@) {
            Some(i) => r == Some(i as usize) && 0 <= i < search_results@.len(),
            None => r is None,
        },
{
    proof {
        lemma_first_with_mpn_bound(search_results@, mpn@);
    }
    let mut i: usize = 0;
    while i < search_results.len()
        invariant
            i <= search_results@.len(),
            first_with_mpn(search_results@.take(i as int), mpn@) is None,
        decreases search_results@.len() - i,
    {
        proof {
            assert(search_results@.take(i as int + 1).drop_last() =~= search_results@.take(i as int));
        }
        let m = chars_of(search_results[i].mpn.as_str());
        if eq_str(m.as_slice(), mpn) {
            proof {
                lemma_first_with_mpn_prefix(search_results@, mpn@, i as int + 1);
            }
            return Some(i);
        }
        i = i + 1;
    }
    proof {
        assert(search_results@.take(search_results@.len() as int) =~= search_results@);
    }
    None
}

/// A first match is an index of the sequence.
pub proof fn lemma_first_with_mpn_bound(s: Seq<Component>, mpn: Seq<char>)
    ensures
        match first_with_mpn(s, mpn) {
            Some(i) => 0 <= i < s.len() && s[i].mpn@ == mpn,
            None => forall|j: int| 0 <= j < s.len() ==> s[j].mpn@ != mpn,
        },
    decreases s.len(),
{
    if s.len() > 0 {
        lemma_first_with_mpn_bound(s.drop_last(), mpn);
        match first_with_mpn(s.drop_last(), mpn) {
            Some(i) => {
                assert(s.drop_last()[i] == s[i]);
            },
            None => {
                assert forall|j: int| 0 <= j < s.len() - 1 implies s[j].mpn@ != mpn by {
                    assert(s.drop_last()[j] == s[j]);
                }
            },
        }
    }
}

/// Where the first match lies within a prefix, it is the first match of the whole.
proof fn lemma_first_with_mpn_prefix(s: Seq<Component>, mpn: Seq<char>, k: int)
    requires
        0 <= k <= s.len(),
        first_with_mpn(s.take(k), mpn) is Some,
    ensures
        first_with_mpn(s, mpn) == first_with_mpn(s.take(k), mpn),
    decreases s.len() - k,
{
    if k < s.len() {
        assert(s.take(k + 1).drop_last() =~= s.take(k));
        lemma_first_with_mpn_prefix(s, mpn, k + 1);
    } else {
        assert(s.take(k) =~= s);
    }
}

/// A candidate is an alternative to `orig`: another MPN, active, and in the same package
/// (any package when the requested part has none recorded).
pub open spec fn is_alternative(c: Component, orig: Component, mpn: Seq<char>) -> bool {
    &&& c.mpn@ != mpn
    &&& c.lifecycle@ == "active"@
    &&& (opt_string_view(c.package) == opt_string_view(orig.package) || orig.package is None)
}

/// The candidates (with their similarity) that are alternatives, in the given order.
pub open spec fn alternative_pairs(cands: Seq<Component>, sim: Seq<u64>, orig: Component, mpn: Seq<char>) -> Seq<(Component, u64)>
    decreases cands.len(),
{
    if cands.len() == 0 || sim.len() == 0 {
        Seq::empty()
    } else {
        let rest = alternative_pairs(cands.drop_last(), sim.drop_last(), orig, mpn);
        if is_alternative(cands.last(), orig, mpn) {
            rest.push((cands.last(), sim.last()))
        } else {
            rest
        }
    }
}

/// `s` with `x` inserted after every leading element whose similarity is not below
/// `x`'s (into a descending `s`, after all elements of equal or higher similarity).
pub open spec fn insert_by_similarity(s: Seq<(Component, u64)>, x: (Component, u64)) -> Seq<(Component, u64)>
    decreases s.len(),
{
    if s.len() == 0 {
        seq![x]
    } else if x.1 > s[0].1 {
        seq![x] + s
    } else {
        seq![s[0]] + insert_by_similarity(s.drop_first(), x)
    }
}

/// The pairs ordered by similarity, highest first, pairs of equal similarity kept in
/// their given order.
pub open spec fn sorted_by_similarity(s: Seq<(Component, u64)>) -> Seq<(Component, u64)>
    decreases s.len(),
{
    if s.len() == 0 {
        Seq::empty()
    } else {
        insert_by_similarity(sorted_by_similarity(s.drop_last()), s.last())
    }
}

/// The ranked alternatives: at most `max` of them, most similar first.
pub open spec fn ranked_alternatives(cands: Seq<Component>, sim: Seq<u64>, orig: Component, mpn: Seq<char>, max: nat) -> Seq<Component> {
    let sorted = sorted_by_similarity(alternative_pairs(cands, sim, orig, mpn));
    let n = if sorted.len() < max { sorted.len() } else { max };
    sorted.take(n as int).map_values(|p: (Component, u64)| p.0)
}

/// Insert `x` into the descending `v` as `insert_by_similarity` does.
fn insert_by_score(v: &mut Vec<(Component, u64)>, x: (Component, u64))
    ensures
        final(v)@ == insert_by_similarity(old(v)@, x),
{
    let ghost v0 = v@;
    let mut pos: usize = 0;
    proof {
        assert(v0.skip(0) =~= v0);
        assert(v0.take(0) + insert_by_similarity(v0, x) =~= insert_by_similarity(v0, x));
    }
    while pos < v.len() && !(x.1 > v[pos].1)
        invariant
            pos <= v@.len(),
            v@ == v0,
            insert_by_similarity(v0, x) == v0.take(pos as int) + insert_by_similarity(v0.skip(pos as int), x),
        decreases v@.len() - pos,
    {
        proof {
            let rest = v0.skip(pos as int);
            assert(rest.drop_first() =~= v0.skip(pos as int + 1));
            assert(v0.take(pos as int) + (seq![rest[0]] + insert_by_similarity(rest.drop_first(), x))
                =~= v0.take(pos as int + 1) + insert_by_similarity(v0.skip(pos as int + 1), x));
        }
        pos = pos + 1;
    }
    proof {
        let rest = v0.skip(pos as int);
        assert(v0.take(pos as int) + insert_by_similarity(rest, x) =~= v0.take(pos as int) + seq![x] + rest);
    }
    v.insert(pos, x);
    proof {
        assert(v@ =~= v0.take(pos as int) + seq![x] + v0.skip(pos as int));
    }
}

/// Alternatives for the part `mpn`: `search_results` are the search results for `mpn`,
/// `candidates` the components of the requested part's category and `similarity[i]` the
/// parameter similarity of `candidates[i]` to the requested part (a larger value is more
/// similar). The alternatives are the candidates with another MPN, active lifecycle and
/// the requested part's package (any package when it has none), ordered by similarity, highest
/// first and stably, and cut to `max_results`. Fails when no search result has the MPN.
pub fn find_alternatives(
    search_results: &[Component],
    candidates: &[Component],
    similarity: &[u64],
    mpn: &str,
    max_results: usize,
) -> (r: Result<Vec<Component>, AlternativesError>)
    requires
        candidates@.len() == similarity@.len(),
    ensures
        match first_with_mpn(search_results@, mpn@) {
            None => r == Err::<Vec<Component>, AlternativesError>(AlternativesError::NotFound),
            Some(k) => r is Ok && r->Ok_0@ == ranked_alternatives(
                candidates@,
                similarity@,
                search_results@[k],
                mpn@,
                max_results as nat,
            ),
        },
{
    let k = match find_requested_part(search_results, mpn) {
        Some(k) => k,
        None => {
            return Err(AlternativesError::NotFound);
        },
    };
    let orig = &search_results[k];
    let ghost pairs = alternative_pairs(candidates@, similarity@, *orig, mpn@);
    let mut sorted: Vec<(Component, u64)> = Vec::new();
    let mut i: usize = 0;
    while i < candidates.len()
        invariant
            i <= candidates@.len(),
            candidates@.len() == similarity@.len(),
            *orig == search_results@[k as int],
            sorted@ == sorted_by_similarity(alternative_pairs(candidates@.take(i as int), similarity@.take(i as int), *orig, mpn@)),
        decreases candidates@.len() - i,
    {
        let c = &candidates[i];
        let mc = chars_of(c.mpn.as_str());
        let lc = chars_of(c.lifecycle.as_str());
        let same_pkg = match (&c.package, &orig.package) {
            (_, None) => true,
            (Some(a), Some(b)) => {
                let ac = chars_of(a.as_str());
                let bc = chars_of(b.as_str());
                crate::text::chars_eq(ac.as_slice(), bc.as_slice())
            },
            (None, Some(_)) => false,
        };
        let keep = !eq_str(mc.as_slice(), mpn) && eq_str(lc.as_slice(), "active") && same_pkg;
        proof {
            let ct = candidates@.take(i as int + 1);
            let st = similarity@.take(i as int + 1);
            assert(ct.drop_last() =~= candidates@.take(i as int));
            assert(st.drop_last() =~= similarity@.take(i as int));
            assert(ct.last() == candidates@[i as int]);
            assert(st.last() == similarity@[i as int]);
            assert(keep == is_alternative(candidates@[i as int], *orig, mpn@));
        }
        let ghost prev = alternative_pairs(candidates@.take(i as int), similarity@.take(i as int), *orig, mpn@);
        let ghost next = alternative_pairs(candidates@.take(i as int + 1), similarity@.take(i as int + 1), *orig, mpn@);
        if keep {
            let pair = (c.duplicate(), similarity[i]);
            proof {
                assert(next == prev.push(pair));
                assert(next.drop_last() =~= prev);
            }
            insert_by_score(&mut sorted, pair);
        } else {
            assert(next == prev);
        }
        i = i + 1;
    }
    proof {
        assert(candidates@.take(candidates@.len() as int) =~= candidates@);
        assert(similarity@.take(similarity@.len() as int) =~= similarity@);
    }
    let n: usize = if sorted.len() < max_results { sorted.len() } else { max_results };
    let mut out: Vec<Component> = Vec::new();
    let mut j: usize = 0;
    while j < n
        invariant
            j <= n <= sorted@.len(),
            out@ == sorted@.take(j as int).map_values(|p: (Component, u64)| p.0),
        decreases n - j,
    {
        out.push(sorted[j].0.duplicate());
        j = j + 1;
        proof {
            assert(out@ =~= sorted@.take(j as int).map_values(|p: (Component, u64)| p.0));
        }
    }
    Ok(out)
}

/// Pairs in nonincreasing similarity.
pub open spec fn similarity_descending(s: Seq<(Component, u64)>) -> bool {
    forall|i: int, j: int| 0 <= i < j < s.len() ==> (#[trigger] s[i]).1 >= (#[trigger] s[j]).1
}

proof fn lemma_insert_by_similarity(s: Seq<(Component, u64)>, x: (Component, u64))
    requires
        similarity_descending(s),
    ensures
        similarity_descending(insert_by_similarity(s, x)),
        insert_by_similarity(s, x).to_multiset() == s.to_multiset().insert(x),
    decreases s.len(),
{
    broadcast use vstd::seq_lib::group_to_multiset_ensures;
    let r = insert_by_similarity(s, x);
    if s.len() == 0 {
        assert(r.to_multiset() =~= s.to_multiset().insert(x));
    } else if x.1 > s[0].1 {
        assert forall|i: int, j: int| 0 <= i < j < r.len() implies (#[trigger] r[i]).1 >= (#[trigger] r[j]).1 by {
            if i == 0 {
                assert(r[j] == s[j - 1]);
            } else {
                assert(r[i] == s[i - 1] && r[j] == s[j - 1]);
            }
        }
        vstd::seq_lib::lemma_multiset_commutative(seq![x], s);
        assert(r.to_multiset() =~= s.to_multiset().insert(x));
    } else {
        let rest = s.drop_first();
        assert forall|i: int, j: int| 0 <= i < j < rest.len() implies (#[trigger] rest[i]).1 >= (#[trigger] rest[j]).1 by {
            assert(rest[i] == s[i + 1] && rest[j] == s[j + 1]);
        }
        lemma_insert_by_similarity(rest, x);
        let t = insert_by_similarity(rest, x);
        assert forall|i: int, j: int| 0 <= i < j < r.len() implies (#[trigger] r[i]).1 >= (#[trigger] r[j]).1 by {
            if i == 0 {
                assert(r[j] == t[j - 1]);
                if t[j - 1] != x {
                    assert(t.to_multiset().count(t[j - 1]) > 0);
                    assert(rest.contains(t[j - 1]));
                    let k = choose|k: int| 0 <= k < rest.len() && rest[k] == t[j - 1];
                    assert(rest[k] == s[k + 1]);
                }
            } else {
                assert(r[i] == t[i - 1] && r[j] == t[j - 1]);
            }
        }
        assert(s =~= seq![s[0]] + rest);
        vstd::seq_lib::lemma_multiset_commutative(seq![s[0]], rest);
        vstd::seq_lib::lemma_multiset_commutative(seq![s[0]], t);
        assert(r.to_multiset() =~= s.to_multiset().insert(x));
    }
}

/// Ranking by similarity keeps every alternative, each once, most similar first.
pub proof fn lemma_sorted_by_similarity(s: Seq<(Component, u64)>)
    ensures
        similarity_descending(sorted_by_similarity(s)),
        sorted_by_similarity(s).to_multiset() == s.to_multiset(),
    decreases s.len(),
{
    broadcast use vstd::seq_lib::group_to_multiset_ensures;
    if s.len() > 0 {
        lemma_sorted_by_similarity(s.drop_last());
        lemma_insert_by_similarity(sorted_by_similarity(s.drop_last()), s.last());
        assert(s.drop_last().push(s.last()) =~= s);
    }
}

/// Every alternative listed has another MPN, is active, and fits the requested part's package.
pub proof fn lemma_alternatives_qualify(cands: Seq<Component>, sim: Seq<u64>, orig: Component, mpn: Seq<char>)
    ensures
        forall|k: int| 0 <= k < alternative_pairs(cands, sim, orig, mpn).len() ==>
            is_alternative(#[trigger] alternative_pairs(cands, sim, orig, mpn)[k].0, orig, mpn),
    decreases cands.len(),
{
    if cands.len() > 0 && sim.len() > 0 {
        lemma_alternatives_qualify(cands.drop_last(), sim.drop_last(), orig, mpn);
        let rest = alternative_pairs(cands.drop_last(), sim.drop_last(), orig, mpn);
        assert forall|k: int| 0 <= k < alternative_pairs(cands, sim, orig, mpn).len() implies
            is_alternative(#[trigger] alternative_pairs(cands, sim, orig, mpn)[k].0, orig, mpn) by {
            if k < rest.len() {
                assert(alternative_pairs(cands, sim, orig, mpn)[k] == rest[k]);
            }
        }
    }
}

/// The ranked list has `min(max, number of alternatives)` entries, each an alternative.
pub proof fn lemma_ranked_alternatives(cands: Seq<Component>, sim: Seq<u64>, orig: Component, mpn: Seq<char>, max: nat)
    ensures
        ranked_alternatives(cands, sim, orig, mpn, max).len() == if alternative_pairs(cands, sim, orig, mpn).len() < max {
            alternative_pairs(cands, sim, orig, mpn).len()
        } else {
            max
        },
        forall|k: int| 0 <= k < ranked_alternatives(cands, sim, orig, mpn, max).len() ==>
            is_alternative(#[trigger] ranked_alternatives(cands, sim, orig, mpn, max)[k], orig, mpn),
{
    broadcast use vstd::seq_lib::group_to_multiset_ensures;
    let pairs = alternative_pairs(cands, sim, orig, mpn);
    let sorted = sorted_by_similarity(pairs);
    lemma_sorted_by_similarity(pairs);
    lemma_alternatives_qualify(cands, sim, orig, mpn);
    assert(sorted.len() == pairs.len()) by {
        assert(sorted.to_multiset().len() == pairs.to_multiset().len());
    }
    let r = ranked_alternatives(cands, sim, orig, mpn, max);
    assert forall|k: int| 0 <= k < r.len() implies is_alternative(#[trigger] r[k], orig, mpn) by {
        let p = sorted[k];
        assert(r[k] == p.0);
        assert(sorted.to_multiset().count(p) > 0);
        assert(pairs.contains(p));
        let j = choose|j: int| 0 <= j < pairs.len() && pairs[j] == p;
        assert(is_alternative(pairs[j].0, orig, mpn));
    }
}

/// The ids of the components that have one.
pub open spec fn ids_of(s: Seq<Component>) -> Set<i64> {
    Set::new(|id: i64| exists|k: int| 0 <= k < s.len() && s[k].id == Some(id))
}

/// The component's id is among `ids`.
pub open spec fn id_in(c: Component, ids: Set<i64>) -> bool {
    match c.id {
        Some(id) => ids.contains(id),
        None => false,
    }
}

/// Narrow `results` to the components also in `other`; when `results` is empty, take
/// `other` instead.
pub open spec fn intersect_or_take(results: Seq<Component>, other: Seq<Component>) -> Seq<Component> {
    if results.len() == 0 {
        other
    } else {
        results.filter(|c: Component| id_in(c, ids_of(other)))
    }
}

/// The search criteria of a component query; each list is what the database gave for
/// the criterion (present exactly when the criterion is).
pub struct QueryInputs {
    /// Components of the requested category.
    pub category: Option<Vec<Component>>,
    /// Components matching the search text.
    pub search: Option<Vec<Component>>,
    /// Components in stock, when only those are wanted.
    pub in_stock: Option<Vec<Component>>,
    /// All components, when the query needs them (see `needs_all_components`).
    pub all: Option<Vec<Component>>,
    /// Manufacturer text, matched case-insensitively as a substring.
    pub manufacturer: Option<String>,
    /// Package, matched exactly.
    pub package: Option<String>,
    /// Components whose parameter lies in the requested range.
    pub param: Option<Vec<Component>>,
    /// Most results to return.
    pub limit: Option<usize>,
}

/// A query with only a manufacturer or package filter starts from all components.
pub open spec fn needs_all_spec(has_search: bool, has_category: bool, in_stock: bool, has_manufacturer: bool, has_package: bool) -> bool {
    !has_search && !has_category && !in_stock && (has_manufacturer || has_package)
}

/// Whether a query must start from all components: it has a manufacturer or package
/// filter and no search text, category or stock filter.
pub fn needs_all_components(has_search: bool, has_category: bool, in_stock: bool, has_manufacturer: bool, has_package: bool) -> (b: bool)
    ensures
        b == needs_all_spec(has_search, has_category, in_stock, has_manufacturer, has_package),
{
    !has_search && !has_category && !in_stock && (has_manufacturer || has_package)
}

/// The lists of a query as values.
pub open spec fn opt_seq(o: Option<Vec<Component>>) -> Option<Seq<Component>> {
    match o {
        Some(v) => Some(v@),
        None => None,
    }
}

/// The components a query returns: the category's components, replaced by the search
/// results when there is a search; narrowed to those in stock (or all in stock when
/// nothing is selected yet); all components when only manufacturer or package filters
/// are given; then filtered by manufacturer (lower-case substring) and package; then
/// narrowed by the parameter range (or taken from it when nothing is selected); then
/// cut to the limit.
pub open spec fn query_spec(q: QueryInputs) -> Seq<Component> {
    let r1 = match opt_seq(q.category) {
        Some(c) => c,
        None => Seq::empty(),
    };
    let r2 = match opt_seq(q.search) {
        Some(s) => s,
        None => r1,
    };
    let r3 = match opt_seq(q.in_stock) {
        Some(st) => intersect_or_take(r2, st),
        None => r2,
    };
    let r4 = if r3.len() == 0 && q.search is None && q.category is None && q.in_stock is None
        && (q.manufacturer is Some || q.package is Some) {
        match opt_seq(q.all) {
            Some(a) => a,
            None => Seq::empty(),
        }
    } else {
        r3
    };
    let r5 = match q.manufacturer {
        Some(m) => r4.filter(|c: Component| seq_contains(spec_to_lowercase(c.manufacturer@), spec_to_lowercase(m@))),
        None => r4,
    };
    let r6 = match q.package {
        Some(p) => r5.filter(|c: Component| opt_string_view(c.package) == Some(p@)),
        None => r5,
    };
    let r7 = match opt_seq(q.param) {
        Some(f) => intersect_or_take(r6, f),
        None => r6,
    };
    match q.limit {
        Some(n) => if r7.len() > n { r7.take(n as int) } else { r7 },
        None => r7,
    }
}

/// A copy of a list of components.
fn copy_components(v: &[Component]) -> (r: Vec<Component>)
    ensures
        r@ == v@,
{
    let mut r: Vec<Component> = Vec::new();
    let mut i: usize = 0;
    while i < v.len()
        invariant
            i <= v@.len(),
            r@ == v@.take(i as int),
        decreases v@.len() - i,
    {
        r.push(v[i].duplicate());
        i = i + 1;
        proof {
            assert(r@ =~= v@.take(i as int));
        }
    }
    proof {
        assert(v@.take(v@.len() as int) =~= v@);
    }
    r
}

/// Whether some component of `other` has the id.
fn has_id(other: &[Component], id: i64) -> (b: bool)
    ensures
        b == ids_of(other@).contains(id),
{
    let mut k: usize = 0;
    while k < other.len()
        invariant
            k <= other@.len(),
            forall|j: int| 0 <= j < k ==> other@[j].id != Some(id),
        decreases other@.len() - k,
    {
        if other[k].id == Some(id) {
            proof {
                assert(other@[k as int].id == Some(id));
            }
            return true;
        }
        k = k + 1;
    }
    false
}

/// `results` narrowed to the components also in `other`, or `other` if it is empty.
fn intersect_or_take_exec(results: Vec<Component>, other: &[Component]) -> (r: Vec<Component>)
    ensures
        r@ == intersect_or_take(results@, other@),
{
    if results.len() == 0 {
        return copy_components(other);
    }
    let ghost pred = |c: Component| id_in(c, ids_of(other@));
    let mut out: Vec<Component> = Vec::new();
    let mut i: usize = 0;
    while i < results.len()
        invariant
            i <= results@.len(),
            forall|c: Component| #[trigger] pred(c) == id_in(c, ids_of(other@)),
            out@ == results@.take(i as int).filter(pred),
        decreases results@.len() - i,
    {
        proof {
            results@.take(i as int).lemma_filter_push(results@[i as int], pred);
            assert(results@.take(i as int).push(results@[i as int]) =~= results@.take(i as int + 1));
        }
        let keep = match results[i].id {
            Some(id) => has_id(other, id),
            None => false,
        };
        if keep {
            out.push(results[i].duplicate());
        }
        i = i + 1;
    }
    proof {
        assert(results@.take(results@.len() as int) =~= results@);
    }
    out
}

/// Run a component query on the lists the database gave for its criteria (see
/// `query_spec`).
pub fn query_filtered(q: QueryInputs) -> (r: Vec<Component>)
    ensures
        r@ == query_spec(q),
{
    let ghost q0 = q;
    let QueryInputs { category, search, in_stock, all, manufacturer, package, param, limit } = q;
    let has_search = search.is_some();
    let has_category = category.is_some();
    let has_stock = in_stock.is_some();
    let mut results: Vec<Component> = match category {
        Some(c) => c,
        None => Vec::new(),
    };
    if let Some(s) = search {
        results = s;
    }
    if let Some(st) = in_stock {
        results = intersect_or_take_exec(results, st.as_slice());
    }
    if results.len() == 0 && needs_all_components(has_search, has_category, has_stock, manufacturer.is_some(), package.is_some()) {
        results = match all {
            Some(a) => a,
            None => Vec::new(),
        };
    }
    if let Some(m) = &manufacturer {
        let ml = to_lower(m.as_str());
        let ghost pred = |c: Component| seq_contains(spec_to_lowercase(c.manufacturer@), spec_to_lowercase(m@));
        let mut out: Vec<Component> = Vec::new();
        let mut i: usize = 0;
        while i < results.len()
            invariant
                i <= results@.len(),
                ml@ == spec_to_lowercase(m@),
                forall|c: Component| #[trigger] pred(c) == seq_contains(spec_to_lowercase(c.manufacturer@), spec_to_lowercase(m@)),
                out@ == results@.take(i as int).filter(pred),
            decreases results@.len() - i,
        {
            proof {
                results@.take(i as int).lemma_filter_push(results@[i as int], pred);
                assert(results@.take(i as int).push(results@[i as int]) =~= results@.take(i as int + 1));
            }
            let cl = to_lower(results[i].manufacturer.as_str());
            let clc = chars_of(cl.as_str());
            if contains(clc.as_slice(), ml.as_str()) {
                out.push(results[i].duplicate());
            }
            i = i + 1;
        }
        proof {
            assert(results@.take(results@.len() as int) =~= results@);
        }
        results = out;
    }
    if let Some(p) = &package {
        let pc = chars_of(p.as_str());
        let ghost pred = |c: Component| opt_string_view(c.package) == Some(p@);
        let mut out: Vec<Component> = Vec::new();
        let mut i: usize = 0;
        while i < results.len()
            invariant
                i <= results@.len(),
                pc@ == p@,
                forall|c: Component| #[trigger] pred(c) == (opt_string_view(c.package) == Some(p@)),
                out@ == results@.take(i as int).filter(pred),
            decreases results@.len() - i,
        {
            proof {
                results@.take(i as int).lemma_filter_push(results@[i as int], pred);
                assert(results@.take(i as int).push(results@[i as int]) =~= results@.take(i as int + 1));
            }
            let keep = match &results[i].package {
                Some(cp) => {
                    let cpc = chars_of(cp.as_str());
                    crate::text::chars_eq(cpc.as_slice(), pc.as_slice())
                },
                None => false,
            };
            if keep {
                out.push(results[i].duplicate());
            }
            i = i + 1;
        }
        proof {
            assert(results@.take(results@.len() as int) =~= results@);
        }
        results = out;
    }
    if let Some(f) = param {
        results = intersect_or_take_exec(results, f.as_slice());
    }
    if let Some(n) = limit {
        results.truncate(n);
    }
    results
}

} // verus!

verus! {

/// With a manufacturer filter and no parameter range, every component a query returns
/// has a manufacturer whose lower-case form contains the lower-cased filter text.
pub proof fn lemma_query_manufacturer_matches(q: QueryInputs, m: String)
    requires
        q.manufacturer == Some(m),
        q.param is None,
    ensures
        forall|i: int|
            0 <= i < query_spec(q).len() ==> seq_contains(
                spec_to_lowercase((#[trigger] query_spec(q)[i]).manufacturer@),
                spec_to_lowercase(m@),
            ),
{
    broadcast use vstd::seq_lib::group_filter_ensures;
    let pred = |c: Component| seq_contains(spec_to_lowercase(c.manufacturer@), spec_to_lowercase(m@));
    let r = query_spec(q);
    assert forall|i: int| 0 <= i < r.len() implies seq_contains(spec_to_lowercase((#[trigger] r[i]).manufacturer@), spec_to_lowercase(m@)) by {
        let r1 = match opt_seq(q.category) {
            Some(c) => c,
            None => Seq::empty(),
        };
        let r2 = match opt_seq(q.search) {
            Some(s) => s,
            None => r1,
        };
        let r3 = match opt_seq(q.in_stock) {
            Some(st) => intersect_or_take(r2, st),
            None => r2,
        };
        let r4 = if r3.len() == 0 && q.search is None && q.category is None && q.in_stock is None
            && (q.manufacturer is Some || q.package is Some) {
            match opt_seq(q.all) {
                Some(a) => a,
                None => Seq::empty(),
            }
        } else {
            r3
        };
        let r5 = r4.filter(pred);
        let r6 = match q.package {
            Some(p) => r5.filter(|c: Component| opt_string_view(c.package) == Some(p@)),
            None => r5,
        };
        assert(r6.len() <= r5.len()) by {
            if q.package is Some {
                r5.lemma_filter_len(|c: Component| opt_string_view(c.package) == Some(q.package->0@));
            }
        }
        let x = r[i];
        assert(r6.contains(x)) by {
            match q.limit {
                Some(n) => {
                    if r6.len() > n {
                        assert(r[i] == r6[i]);
                    } else {
                        assert(r[i] == r6[i]);
                    }
                },
                None => {
                    assert(r[i] == r6[i]);
                },
            }
        }
        assert(r5.contains(x)) by {
            if q.package is Some {
                let p = q.package->0;
                let k = choose|k: int| 0 <= k < r6.len() && r6[k] == x;
                r5.lemma_filter_contains_rev(|c: Component| opt_string_view(c.package) == Some(p@), x);
                let pk = |c: Component| opt_string_view(c.package) == Some(p@);
                assert(r6 == r5.filter(pk));
                assert(r5.filter(pk).contains(x));
            }
        }
        let k = choose|k: int| 0 <= k < r5.len() && r5[k] == x;
        assert(pred(r5[k]));
    }
}

/// A query from all components with only a manufacturer filter keeps exactly the
/// components whose lower-case manufacturer contains the lower-cased filter text.
pub proof fn lemma_query_manufacturer_only(q: QueryInputs, a: Vec<Component>, m: String, c: Component)
    requires
        q.category is None,
        q.search is None,
        q.in_stock is None,
        q.all == Some(a),
        q.manufacturer == Some(m),
        q.package is None,
        q.param is None,
        q.limit is None,
    ensures
        query_spec(q).contains(c) <==> a@.contains(c) && seq_contains(spec_to_lowercase(c.manufacturer@), spec_to_lowercase(m@)),
{
    broadcast use vstd::seq_lib::group_filter_ensures;
    let pred = |c: Component| seq_contains(spec_to_lowercase(c.manufacturer@), spec_to_lowercase(m@));
    assert(query_spec(q) == a@.filter(pred));
    if a@.filter(pred).contains(c) {
        a@.lemma_filter_contains_rev(pred, c);
        let k = choose|k: int| 0 <= k < a@.filter(pred).len() && a@.filter(pred)[k] == c;
        a@.lemma_filter_pred(pred, k);
    }
    if a@.contains(c) && pred(c) {
        let i = choose|i: int| 0 <= i < a@.len() && a@[i] == c;
        a@.lemma_filter_contains(pred, i);
    }
}

/// The manufacturer filter ignores case: two filter texts with the same lower-case form
/// give the same query result.
pub proof fn lemma_query_manufacturer_ignores_case(q: QueryInputs, m1: String, m2: String)
    requires
        q.manufacturer == Some(m1),
        spec_to_lowercase(m1@) == spec_to_lowercase(m2@),
    ensures
        query_spec(q) == query_spec(QueryInputs { manufacturer: Some(m2), ..q }),
{
    let q2 = QueryInputs { manufacturer: Some(m2), ..q };
    let p1 = |c: Component| seq_contains(spec_to_lowercase(c.manufacturer@), spec_to_lowercase(m1@));
    let p2 = |c: Component| seq_contains(spec_to_lowercase(c.manufacturer@), spec_to_lowercase(m2@));
    assert(p1 =~= p2);
}

} // verus!
