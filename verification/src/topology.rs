//! Topology templates: circuit templates that connect component slots by named nets,
//! and the listing of the template names that are available.
use vstd::prelude::*;
use crate::text::{chars_of, chars_eq, string_from_chars};

verus! {

/// A net of a template and the slot pins it joins (`"L1.1"`, ...).
pub struct Connection {
    pub net: String,
    pub pins: Vec<String>,
}

/// Lexicographic order of character sequences by code point (the order of the UTF-8
/// bytes, which is the order `String` sorts by).
pub open spec fn chars_lt(a: Seq<char>, b: Seq<char>) -> bool
    decreases a.len(),
{
    if a.len() == 0 {
        b.len() > 0
    } else if b.len() == 0 {
        false
    } else if a[0] != b[0] {
        (a[0] as u32) < (b[0] as u32)
    } else {
        chars_lt(a.drop_first(), b.drop_first())
    }
}

/// `chars_lt` is a strict total order.
pub proof fn lemma_chars_lt_order(a: Seq<char>, b: Seq<char>, c: Seq<char>)
    ensures
        !chars_lt(a, a),
        chars_lt(a, b) ==> !chars_lt(b, a),
        a != b ==> chars_lt(a, b) || chars_lt(b, a),
        chars_lt(a, b) && chars_lt(b, c) ==> chars_lt(a, c),
    decreases a.len(),
{
    if a.len() > 0 && b.len() > 0 && c.len() > 0 {
        lemma_chars_lt_order(a.drop_first(), b.drop_first(), c.drop_first());
    }
    if a.len() > 0 && b.len() > 0 && a != b && a[0] == b[0] {
        assert(a.drop_first() != b.drop_first()) by {
            if a.drop_first() == b.drop_first() {
                assert(a =~= seq![a[0]] + a.drop_first());
                assert(b =~= seq![b[0]] + b.drop_first());
            }
        }
    }
    if a.len() == 0 && b.len() == 0 {
        assert(a =~= b);
    }
    if a.len() > 0 && b.len() > 0 {
        vstd::utf8::char_u32_cast(a[0], a[0] as u32);
        vstd::utf8::char_u32_cast(b[0], b[0] as u32);
    }

    if a.len() > 0 {
        lemma_chars_lt_order(a.drop_first(), a.drop_first(), a.drop_first());
    }
    if a.len() > 0 && b.len() > 0 {
        lemma_chars_lt_order(a.drop_first(), b.drop_first(), b.drop_first());
    }
}

/// The set of the elements of a one-element sequence.
proof fn lemma_singleton_set(x: Seq<char>)
    ensures
        seq![x].to_set() == set![x],
{
    assert forall|y: Seq<char>| seq![x].to_set().contains(y) <==> set![x].contains(y) by {
        if y == x {
            assert(seq![x][0] == y);
        }
    }
    assert(seq![x].to_set() =~= set![x]);
}

/// Whether `a` sorts strictly before `b`.
pub fn chars_less(a: &[char], b: &[char]) -> (r: bool)
    ensures
        r == chars_lt(a@, b@),
{
    let mut i: usize = 0;
    proof {
        assert(a@.skip(0) =~= a@);
        assert(b@.skip(0) =~= b@);
    }
    while i < a.len() && i < b.len() && a[i] == b[i]
        invariant
            i <= a@.len(),
            i <= b@.len(),
            chars_lt(a@, b@) == chars_lt(a@.skip(i as int), b@.skip(i as int)),
        decreases a@.len() - i,
    {
        proof {
            assert(a@.skip(i as int).drop_first() =~= a@.skip(i as int + 1));
            assert(b@.skip(i as int).drop_first() =~= b@.skip(i as int + 1));
        }
        i = i + 1;
    }
    if i == a.len() {
        i < b.len()
    } else if i == b.len() {
        false
    } else {
        (a[i] as u32) < (b[i] as u32)
    }
}

/// Strictly increasing names (so no name occurs twice).
pub open spec fn strictly_sorted(s: Seq<Seq<char>>) -> bool {
    forall|i: int, j: int| 0 <= i < j < s.len() ==> chars_lt(#[trigger] s[i], #[trigger] s[j])
}

/// The texts of a list of names.
pub open spec fn name_texts(v: Seq<String>) -> Seq<Seq<char>> {
    v.map_values(|s: String| s@)
}

/// Insert `x` into the strictly sorted `v` unless it is there already.
fn insert_name(v: &mut Vec<Vec<char>>, x: &[char])
    requires
        strictly_sorted(old(v)@.map_values(|c: Vec<char>| c@)),
    ensures
        strictly_sorted(final(v)@.map_values(|c: Vec<char>| c@)),
        final(v)@.map_values(|c: Vec<char>| c@).to_set() == old(v)@.map_values(|c: Vec<char>| c@).to_set().insert(x@),
{
    let ghost s0 = v@.map_values(|c: Vec<char>| c@);
    let mut pos: usize = 0;
    while pos < v.len() && chars_less(v[pos].as_slice(), x)
        invariant
            pos <= v@.len(),
            v@.map_values(|c: Vec<char>| c@) == s0,
            strictly_sorted(s0),
            forall|k: int| 0 <= k < pos ==> chars_lt(#[trigger] s0[k], x@),
        decreases v@.len() - pos,
    {
        pos = pos + 1;
    }
    if pos < v.len() && chars_eq(v[pos].as_slice(), x) {
        proof {
            assert(s0.to_set().insert(x@) =~= s0.to_set()) by {
                assert(s0[pos as int] == x@);
                assert(s0.contains(x@));
            }
        }
        return;
    }
    let xv: Vec<char> = vstd::slice::slice_to_vec(x);
    proof {
        if pos < s0.len() {
            lemma_chars_lt_order(x@, s0[pos as int], x@);
            lemma_chars_lt_order(s0[pos as int], x@, x@);
        }
    }
    v.insert(pos, xv);
    proof {
        let s1 = v@.map_values(|c: Vec<char>| c@);
        assert(s1 =~= s0.take(pos as int) + seq![x@] + s0.skip(pos as int));
        assert forall|i: int, j: int| 0 <= i < j < s1.len() implies chars_lt(#[trigger] s1[i], #[trigger] s1[j]) by {
            if j < pos {
            } else if i < pos && j == pos {
            } else if i < pos {
                lemma_chars_lt_order(s1[i], x@, s1[j]);
                assert(s1[j] == s0[j - 1]);
                if j - 1 > pos {
                    lemma_chars_lt_order(x@, s0[pos as int], s0[j - 1]);
                }
            } else if i == pos {
                assert(s1[j] == s0[j - 1]);
                if j - 1 > pos {
                    lemma_chars_lt_order(x@, s0[pos as int], s0[j - 1]);
                }
            } else {
                assert(s1[i] == s0[i - 1]);
                assert(s1[j] == s0[j - 1]);
            }
        }
        assert(s1.to_set() =~= s0.to_set().insert(x@)) by {
            assert forall|y: Seq<char>| s1.to_set().contains(y) <==> s0.to_set().insert(x@).contains(y) by {
                if s1.contains(y) {
                    let k = choose|k: int| 0 <= k < s1.len() && s1[k] == y;
                    if k < pos {
                        assert(s0[k] == y);
                    } else if k > pos {
                        assert(s0[k - 1] == y);
                    }
                }
                if s0.contains(y) {
                    let k = choose|k: int| 0 <= k < s0.len() && s0[k] == y;
                    if k < pos {
                        assert(s1[k] == y);
                    } else {
                        assert(s1[k + 1] == y);
                    }
                }
                if y == x@ {
                    assert(s1[pos as int] == y);
                }
            }
        }
    }
}

/// The template names available from the database and from template files: every name
/// of either list once, in ascending order.
pub fn merge_topology_names(db_names: &[String], file_names: &[String]) -> (r: Vec<String>)
    ensures
        strictly_sorted(name_texts(r@)),
        name_texts(r@).to_set() == name_texts(db_names@).to_set() + name_texts(file_names@).to_set(),
{
    let mut acc: Vec<Vec<char>> = Vec::new();
    proof {
        assert(acc@.map_values(|c: Vec<char>| c@).to_set() =~= Set::<Seq<char>>::empty());
    }
    let mut i: usize = 0;
    while i < db_names.len()
        invariant
            i <= db_names@.len(),
            strictly_sorted(acc@.map_values(|c: Vec<char>| c@)),
            acc@.map_values(|c: Vec<char>| c@).to_set() == name_texts(db_names@.take(i as int)).to_set(),
        decreases db_names@.len() - i,
    {
        let c = chars_of(db_names[i].as_str());
        insert_name(&mut acc, c.as_slice());
        proof {
            assert(name_texts(db_names@.take(i as int + 1)) =~= name_texts(db_names@.take(i as int)).push(db_names@[i as int]@));
            vstd::seq_lib::seq_to_set_distributes_over_add(name_texts(db_names@.take(i as int)), seq![db_names@[i as int]@]);
            lemma_singleton_set(db_names@[i as int]@);
            assert(name_texts(db_names@.take(i as int)).push(db_names@[i as int]@) =~= name_texts(db_names@.take(i as int)) + seq![db_names@[i as int]@]);
        }
        i = i + 1;
    }
    let mut j: usize = 0;
    while j < file_names.len()
        invariant
            j <= file_names@.len(),
            strictly_sorted(acc@.map_values(|c: Vec<char>| c@)),
            acc@.map_values(|c: Vec<char>| c@).to_set() == name_texts(db_names@.take(db_names@.len() as int)).to_set() + name_texts(file_names@.take(j as int)).to_set(),
        decreases file_names@.len() - j,
    {
        let c = chars_of(file_names[j].as_str());
        insert_name(&mut acc, c.as_slice());
        proof {
            assert(name_texts(file_names@.take(j as int + 1)) =~= name_texts(file_names@.take(j as int)) + seq![file_names@[j as int]@]);
            vstd::seq_lib::seq_to_set_distributes_over_add(name_texts(file_names@.take(j as int)), seq![file_names@[j as int]@]);
            lemma_singleton_set(file_names@[j as int]@);
        }
        j = j + 1;
    }
    proof {
        assert(db_names@.take(db_names@.len() as int) =~= db_names@);
        assert(file_names@.take(file_names@.len() as int) =~= file_names@);
    }
    let mut r: Vec<String> = Vec::new();
    let mut k: usize = 0;
    while k < acc.len()
        invariant
            k <= acc@.len(),
            r@.len() == k,
            name_texts(r@) == acc@.map_values(|c: Vec<char>| c@).take(k as int),
        decreases acc@.len() - k,
    {
        let ghost r0 = r@;
        r.push(string_from_chars(acc[k].as_slice()));
        k = k + 1;
        proof {
            let m = acc@.map_values(|c: Vec<char>| c@);
            assert forall|i: int| 0 <= i < k implies #[trigger] name_texts(r@)[i] == m.take(k as int)[i] by {
                if i < k - 1 {
                    assert(r@[i] == r0[i]);
                    assert(name_texts(r0)[i] == m.take(k - 1)[i]);
                }
            }
            assert(name_texts(r@) =~= m.take(k as int));
        }
    }
    proof {
        assert(acc@.map_values(|c: Vec<char>| c@).take(acc@.len() as int) =~= acc@.map_values(|c: Vec<char>| c@));
    }
    r
}

/// The variable a template parameter text refers to: for `"$vin"`, `vin`; `None` for a
/// text that does not start with `$`.
pub fn param_reference(s: &str) -> (r: Option<String>)
    ensures
        match r {
            Some(name) => s@.len() > 0 && s@[0] == '$' && name@ == s@.skip(1),
            None => !(s@.len() > 0 && s@[0] == '$'),
        },
{
    let c = chars_of(s);
    if c.len() > 0 && c[0] == '$' {
        let mut rest: Vec<char> = Vec::new();
        let mut i: usize = 1;
        while i < c.len()
            invariant
                1 <= i <= c@.len(),
                rest@ == c@.subrange(1, i as int),
            decreases c@.len() - i,
        {
            rest.push(c[i]);
            i = i + 1;
        }
        proof {
            assert(c@.subrange(1, c@.len() as int) =~= s@.skip(1));
        }
        Some(string_from_chars(rest.as_slice()))
    } else {
        None
    }
}

} // verus!
