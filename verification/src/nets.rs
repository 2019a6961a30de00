//! Classification of board nets by name: power nets, which the signal router leaves to
//! the plane and zone logic, and high-speed nets, which are routed first.
use vstd::prelude::*;
use std::collections::HashSet;
use crate::text::{contains, ends_with, eq_str, seq_contains, seq_ends_with, spec_to_uppercase, upper_chars};
use vstd::string::StringSliceAdditionalSpecFns;
use vstd::utf8::{encode_utf8, is_char_boundary};

verus! {

broadcast use vstd::std_specs::hash::group_hash_axioms;

/// An upper-case net name that denotes a power net.
pub open spec fn power_name_spec(u: Seq<char>) -> bool {
    ||| u == "GND"@
    ||| seq_contains(u, "VIN"@)
    ||| seq_contains(u, "VCC"@)
    ||| seq_contains(u, "VDD"@)
    ||| seq_contains(u, "VBAT"@)
    ||| seq_contains(u, "VOUT"@)
    ||| seq_contains(u, "5V"@)
    ||| seq_contains(u, "3V3"@)
    ||| seq_contains(u, "12V"@)
    ||| seq_contains(u, "9V"@)
}

/// An upper-case net name whose routes prefer an inner signal layer.
pub open spec fn inner_layer_name_spec(u: Seq<char>) -> bool {
    ||| seq_contains(u, "DDR"@)
    ||| seq_contains(u, "LVDS"@)
    ||| seq_contains(u, "MIPI"@)
    ||| seq_contains(u, "USB"@)
    ||| seq_contains(u, "DQS"@)
    ||| seq_contains(u, "CLK"@)
}

/// Whether a net, by its name in upper case (DDR, LVDS, MIPI, USB, DQS or CLK in it),
/// is routed with a preference for an inner signal layer.
pub fn prefers_inner_layer(name: &str) -> (b: bool)
    ensures
        b == inner_layer_name_spec(spec_to_uppercase(name@)),
{
    let u = upper_chars(name);
    let s = u.as_slice();
    contains(s, "DDR") || contains(s, "LVDS") || contains(s, "MIPI") || contains(s, "USB") || contains(s, "DQS")
        || contains(s, "CLK")
}

/// Whether an upper-case net name denotes a power net.
pub fn power_name_upper(u: &[char]) -> (b: bool)
    ensures
        b == power_name_spec(u@),
{
    eq_str(u, "GND") || contains(u, "VIN") || contains(u, "VCC") || contains(u, "VDD") || contains(
        u,
        "VBAT",
    ) || contains(u, "VOUT") || contains(u, "5V") || contains(u, "3V3") || contains(u, "12V")
        || contains(u, "9V")
}

/// Whether a net name (compared in upper case) denotes a power net.
pub fn power_net_name(name: &str) -> (b: bool)
    ensures
        b == power_name_spec(spec_to_uppercase(name@)),
{
    let u = upper_chars(name);
    power_name_upper(u.as_slice())
}

/// An upper-case net name that denotes a high-speed signal.
pub open spec fn high_speed_name_spec(u: Seq<char>) -> bool {
    ||| seq_contains(u, "DDR"@)
    ||| seq_contains(u, "LVDS"@)
    ||| seq_contains(u, "MIPI"@)
    ||| seq_contains(u, "USB"@)
    ||| seq_contains(u, "SPI"@)
    ||| seq_contains(u, "CLK"@)
    ||| seq_contains(u, "FDATA"@)
    ||| seq_contains(u, "FADDR"@)
    ||| seq_contains(u, "DAC_D"@)
    ||| seq_contains(u, "ADC_"@)
    ||| seq_contains(u, "DATA"@)
    ||| seq_contains(u, "HS_"@)
    ||| seq_contains(u, "PCIE"@)
    ||| seq_contains(u, "PCI_"@)
    ||| seq_contains(u, "SATA"@)
    ||| seq_contains(u, "ETH"@)
    ||| seq_contains(u, "SERDES"@)
    ||| seq_contains(u, "SFP"@)
    ||| seq_contains(u, "XAUI"@)
    ||| seq_contains(u, "AURORA"@)
}

/// Whether an upper-case net name denotes a high-speed signal.
pub fn high_speed_name_upper(u: &[char]) -> (b: bool)
    ensures
        b == high_speed_name_spec(u@),
{
    contains(u, "DDR") || contains(u, "LVDS") || contains(u, "MIPI") || contains(u, "USB")
        || contains(u, "SPI") || contains(u, "CLK") || contains(u, "FDATA") || contains(u, "FADDR")
        || contains(u, "DAC_D") || contains(u, "ADC_") || contains(u, "DATA") || contains(u, "HS_")
        || contains(u, "PCIE") || contains(u, "PCI_") || contains(u, "SATA") || contains(u, "ETH")
        || contains(u, "SERDES") || contains(u, "SFP") || contains(u, "XAUI") || contains(
        u,
        "AURORA",
    )
}

/// The ids of the nets (given as id and name) whose name, in upper case, denotes a
/// high-speed signal.
pub open spec fn high_speed_ids_spec(nets: Seq<(u32, String)>) -> Set<u32> {
    Set::new(|id: u32| exists|i: int| 0 <= i < nets.len() && nets[i].0 == id && high_speed_name_spec(spec_to_uppercase(#[trigger] nets[i].1@)))
}

/// The high-speed nets among the board's nets (id and name): they get priority routing
/// and inner-layer preference.
#[verifier::spinoff_prover]
pub fn identify_high_speed_nets(nets: &[(u32, String)]) -> (hs: HashSet<u32>)
    ensures
        hs@ == high_speed_ids_spec(nets@),
{
    let mut hs: HashSet<u32> = HashSet::new();
    let mut i: usize = 0;
    while i < nets.len()
        invariant
            i <= nets@.len(),
            hs@ == high_speed_ids_spec(nets@.take(i as int)),
        decreases nets@.len() - i,
    {
        let u = upper_chars(nets[i].1.as_str());
        let is_hs = high_speed_name_upper(u.as_slice());
        if is_hs {
            hs.insert(nets[i].0);
        }
        proof {
            let pre = nets@.take(i as int);
            let post = nets@.take(i as int + 1);
            assert forall|id: u32| hs@.contains(id) <==> high_speed_ids_spec(post).contains(id) by {
                if high_speed_ids_spec(pre).contains(id) {
                    let k = choose|k: int| 0 <= k < pre.len() && pre[k].0 == id && high_speed_name_spec(spec_to_uppercase(#[trigger] pre[k].1@));
                    assert(post[k] == pre[k]);
                }
                if high_speed_ids_spec(post).contains(id) {
                    let k = choose|k: int| 0 <= k < post.len() && post[k].0 == id && high_speed_name_spec(spec_to_uppercase(#[trigger] post[k].1@));
                    if k < i {
                        assert(pre[k] == post[k]);
                    }
                }
                if is_hs && id == nets@[i as int].0 {
                    assert(post[i as int] == nets@[i as int]);
                }
            }
            assert(hs@ =~= high_speed_ids_spec(post));
        }
        i = i + 1;
    }
    proof {
        assert(nets@.take(nets@.len() as int) =~= nets@);
    }
    hs
}

/// Pairs found so far and the nets already paired.
pub struct PairState {
    pub pairs: Seq<(u32, u32)>,
    pub paired: Set<u32>,
}

/// The positive suffixes tried, in order: `_P`, `_DP`, `+`, `_POS`, `_TRUE`.
pub open spec fn pos_suffix(k: int) -> Seq<char> {
    if k == 0 {
        "_P"@
    } else if k == 1 {
        "_DP"@
    } else if k == 2 {
        "+"@
    } else if k == 3 {
        "_POS"@
    } else {
        "_TRUE"@
    }
}

/// Byte length of the `k`-th positive suffix.
pub open spec fn pos_len(k: int) -> int {
    if k == 0 {
        2
    } else if k == 1 {
        3
    } else if k == 2 {
        1
    } else if k == 3 {
        4
    } else {
        5
    }
}

/// Bytes of the negative suffix that goes with the `k`-th positive one: `_N`, `_DM`,
/// `-`, `_NEG`, `_COMP`.
pub open spec fn neg_suffix(k: int) -> Seq<u8> {
    if k == 0 {
        seq![95u8, 78u8]
    } else if k == 1 {
        seq![95u8, 68u8, 77u8]
    } else if k == 2 {
        seq![45u8]
    } else if k == 3 {
        seq![95u8, 78u8, 69u8, 71u8]
    } else {
        seq![95u8, 67u8, 79u8, 77u8, 80u8]
    }
}

/// The upper-case name of net `i`.
pub open spec fn upper_name(nets: Seq<(u32, String)>, i: int) -> Seq<char> {
    spec_to_uppercase(nets[i].1@)
}

/// The UTF-8 bytes of the name of net `i`.
pub open spec fn name_bytes(nets: Seq<(u32, String)>, i: int) -> Seq<u8> {
    encode_utf8(nets[i].1@)
}

/// The name the negative net of net `i` has under suffix `k`: net `i`'s name without
/// the suffix's length of bytes, followed by the negative suffix.
pub open spec fn partner_name(nets: Seq<(u32, String)>, i: int, k: int) -> Seq<u8> {
    name_bytes(nets, i).take(name_bytes(nets, i).len() - pos_len(k)) + neg_suffix(k)
}

/// ASCII lower case of a byte.
pub open spec fn ascii_lower(b: u8) -> u8 {
    if 65 <= b <= 90 {
        (b + 32) as u8
    } else {
        b
    }
}

/// Equal bytes up to ASCII case (`eq_ignore_ascii_case`).
pub open spec fn eq_ignore_case(a: Seq<u8>, b: Seq<u8>) -> bool {
    a.len() == b.len() && forall|t: int| 0 <= t < a.len() ==> ascii_lower(#[trigger] a[t]) == ascii_lower(b[t])
}

/// The first net from `j` on, not yet paired, whose name is `target` up to ASCII case.
pub open spec fn find_partner(nets: Seq<(u32, String)>, paired: Set<u32>, target: Seq<u8>, j: int) -> Option<int>
    decreases nets.len() - j,
{
    if j < 0 || j >= nets.len() {
        None
    } else if !paired.contains(nets[j].0) && eq_ignore_case(name_bytes(nets, j), target) {
        Some(j)
    } else {
        find_partner(nets, paired, target, j + 1)
    }
}

/// Try the suffixes from `k` on for net `i`: the first suffix its upper-case name ends
/// with whose negative partner is found pairs it.
pub open spec fn suffix_phase(nets: Seq<(u32, String)>, i: int, k: int, st: PairState) -> PairState
    decreases 5 - k,
{
    if k < 0 || k >= 5 {
        st
    } else if !seq_ends_with(upper_name(nets, i), pos_suffix(k)) {
        suffix_phase(nets, i, k + 1, st)
    } else {
        match find_partner(nets, st.paired, partner_name(nets, i, k), 0) {
            Some(j) => PairState {
                pairs: st.pairs.push((nets[i].0, nets[j].0)),
                paired: st.paired.insert(nets[i].0).insert(nets[j].0),
            },
            None => suffix_phase(nets, i, k + 1, st),
        }
    }
}

/// Nets `i` and `j` are a `D+` / `D-` pair (in either order, by upper-case name).
pub open spec fn dplus_pair(nets: Seq<(u32, String)>, i: int, j: int) -> bool {
    ||| (seq_ends_with(upper_name(nets, i), "D+"@) && seq_ends_with(upper_name(nets, j), "D-"@))
    ||| (seq_ends_with(upper_name(nets, i), "D-"@) && seq_ends_with(upper_name(nets, j), "D+"@))
}

/// Pair net `i` with the first later unpaired net that completes a `D+` / `D-` pair.
pub open spec fn dplus_phase(nets: Seq<(u32, String)>, i: int, j: int, st: PairState) -> PairState
    decreases nets.len() - j,
{
    if j < 0 || j >= nets.len() {
        st
    } else if st.paired.contains(nets[j].0) || !dplus_pair(nets, i, j) {
        dplus_phase(nets, i, j + 1, st)
    } else {
        PairState { pairs: st.pairs.push((nets[i].0, nets[j].0)), paired: st.paired.insert(nets[i].0).insert(nets[j].0) }
    }
}

/// Handle net `i`: skip it when paired, else try the suffixes, then `D+` / `D-`.
pub open spec fn pair_step(nets: Seq<(u32, String)>, i: int, st: PairState) -> PairState {
    if st.paired.contains(nets[i].0) {
        st
    } else {
        let s1 = suffix_phase(nets, i, 0, st);
        if s1.paired.contains(nets[i].0) {
            s1
        } else {
            dplus_phase(nets, i, i + 1, s1)
        }
    }
}

/// The state after handling the first `m` nets.
pub open spec fn pair_run(nets: Seq<(u32, String)>, m: nat) -> PairState
    decreases m,
{
    if m == 0 {
        PairState { pairs: Seq::empty(), paired: Set::empty() }
    } else {
        pair_step(nets, m - 1, pair_run(nets, (m - 1) as nat))
    }
}

/// Slicing off a positive suffix lands on a character boundary of every name that
/// ends with it in upper case (else the cut would fall inside a character).
pub open spec fn suffix_cuts_ok(nets: Seq<(u32, String)>) -> bool {
    forall|i: int, k: int| 0 <= i < nets.len() && 0 <= k < 5 && seq_ends_with(upper_name(nets, i), #[trigger] pos_suffix(k)) ==>
        name_bytes(nets, i).len() >= pos_len(k) && is_char_boundary(#[trigger] name_bytes(nets, i), name_bytes(nets, i).len() - pos_len(k))
}

fn ascii_lower_exec(b: u8) -> (r: u8)
    ensures
        r == ascii_lower(b),
{
    if 65 <= b && b <= 90 {
        b + 32
    } else {
        b
    }
}

/// Whether `a` and `b` are equal up to ASCII case.
fn eq_ignore_case_exec(a: &[u8], b: &[u8]) -> (r: bool)
    ensures
        r == eq_ignore_case(a@, b@),
{
    if a.len() != b.len() {
        return false;
    }
    let mut t: usize = 0;
    while t < a.len()
        invariant
            t <= a@.len(),
            a@.len() == b@.len(),
            forall|q: int| 0 <= q < t ==> ascii_lower(#[trigger] a@[q]) == ascii_lower(b@[q]),
        decreases a@.len() - t,
    {
        if ascii_lower_exec(a[t]) != ascii_lower_exec(b[t]) {
            return false;
        }
        t = t + 1;
    }
    true
}

/// The first unpaired net, from the first on, named `target` up to ASCII case.
fn find_partner_exec(nets: &[(u32, String)], paired: &HashSet<u32>, target: &[u8]) -> (r: Option<usize>)
    ensures
        match find_partner(nets@, paired@, target@, 0) {
            Some(j) => match r {
                Some(x) => x as int == j,
                None => false,
            },
            None => r is None,
        },
        r matches Some(x) ==> x < nets@.len(),
{
    let mut j: usize = 0;
    while j < nets.len()
        invariant
            j <= nets@.len(),
            find_partner(nets@, paired@, target@, 0) == find_partner(nets@, paired@, target@, j as int),
        decreases nets@.len() - j,
    {
        if !paired.contains(&nets[j].0) && eq_ignore_case_exec(nets[j].1.as_str().as_bytes(), target) {
            return Some(j);
        }
        j = j + 1;
    }
    None
}

/// The negative-suffix bytes.
fn neg_suffix_exec(k: usize) -> (v: Vec<u8>)
    requires
        k < 5,
    ensures
        v@ == neg_suffix(k as int),
{
    let v: Vec<u8> = if k == 0 {
        vec![95u8, 78u8]
    } else if k == 1 {
        vec![95u8, 68u8, 77u8]
    } else if k == 2 {
        vec![45u8]
    } else if k == 3 {
        vec![95u8, 78u8, 69u8, 71u8]
    } else {
        vec![95u8, 67u8, 79u8, 77u8, 80u8]
    };
    proof {
        assert(v@ =~= neg_suffix(k as int));
    }
    v
}

/// Whether an upper-case name ends with the `k`-th positive suffix.
fn ends_with_pos(u: &[char], k: usize) -> (b: bool)
    requires
        k < 5,
    ensures
        b == seq_ends_with(u@, pos_suffix(k as int)),
{
    if k == 0 {
        ends_with(u, "_P")
    } else if k == 1 {
        ends_with(u, "_DP")
    } else if k == 2 {
        ends_with(u, "+")
    } else if k == 3 {
        ends_with(u, "_POS")
    } else {
        ends_with(u, "_TRUE")
    }
}

/// Differential pairs among the board's nets (id and name), by naming convention:
/// `X_P`/`X_N`, `X_DP`/`X_DM`, `X+`/`X-`, `X_POS`/`X_NEG`, `X_TRUE`/`X_COMP` (positive
/// suffix in upper case, negative name up to ASCII case), then `..D+`/`..D-` with a
/// later net. Each net is in at most one pair; pairs come positive net first, in the
/// order the positive nets are listed.
pub fn identify_diff_pairs(nets: &[(u32, String)]) -> (r: Vec<(u32, u32)>)
    requires
        suffix_cuts_ok(nets@),
    ensures
        r@ == pair_run(nets@, nets@.len()).pairs,
{
    let mut pairs: Vec<(u32, u32)> = Vec::new();
    let mut paired: HashSet<u32> = HashSet::new();
    let mut i: usize = 0;
    while i < nets.len()
        invariant
            i <= nets@.len(),
            suffix_cuts_ok(nets@),
            pairs@ == pair_run(nets@, i as nat).pairs,
            paired@ == pair_run(nets@, i as nat).paired,
        decreases nets@.len() - i,
    {
        let ghost st = pair_run(nets@, i as nat);
        let id1 = nets[i].0;
        if !paired.contains(&id1) {
            let u1 = upper_chars(nets[i].1.as_str());
            let mut k: usize = 0;
            let mut done = false;
            while k < 5 && !done
                invariant
                    k <= 5,
                    suffix_cuts_ok(nets@),
                    u1@ == upper_name(nets@, i as int),
                    i < nets@.len(),
                    id1 == nets@[i as int].0,
                    !st.paired.contains(id1),
                    !done ==> suffix_phase(nets@, i as int, 0, st) == suffix_phase(nets@, i as int, k as int, (PairState { pairs: pairs@, paired: paired@ })),
                    !done ==> pairs@ == st.pairs && paired@ == st.paired,
                    done ==> suffix_phase(nets@, i as int, 0, st) == (PairState { pairs: pairs@, paired: paired@ }),
                    done ==> paired@.contains(id1),
                decreases 5 - k + (if done { 0int } else { 1int }),
            {
                if ends_with_pos(u1.as_slice(), k) {
                    let name1: &str = nets[i].1.as_str();
                    let b1 = name1.as_bytes();
                    let plen: usize = if k == 0 { 2 } else if k == 1 { 3 } else if k == 2 { 1 } else if k == 3 { 4 } else { 5 };
                    proof {
                        assert(pos_suffix(k as int) == pos_suffix(k as int));
                        assert(b1@ == name_bytes(nets@, i as int));
                    }
                    let (base, _) = name1.split_at(b1.len() - plen);
                    let mut target: Vec<u8> = vstd::slice::slice_to_vec(base.as_bytes());
                    let neg = neg_suffix_exec(k);
                    let ghost t0 = target@;
                    let mut q: usize = 0;
                    while q < neg.len()
                        invariant
                            q <= neg@.len(),
                            target@ == t0 + neg@.take(q as int),
                        decreases neg@.len() - q,
                    {
                        target.push(neg[q]);
                        q = q + 1;
                        proof {
                            assert(target@ =~= t0 + neg@.take(q as int));
                        }
                    }
                    proof {
                        assert(neg@.take(neg@.len() as int) =~= neg@);
                        assert(target@ =~= partner_name(nets@, i as int, k as int));
                    }
                    let ghost before = (PairState { pairs: pairs@, paired: paired@ });
                    match find_partner_exec(nets, &paired, target.as_slice()) {
                        Some(j) => {
                            pairs.push((id1, nets[j].0));
                            paired.insert(id1);
                            paired.insert(nets[j].0);
                            done = true;
                            proof {
                                assert(k < 5);
                                assert(seq_ends_with(upper_name(nets@, i as int), pos_suffix(k as int)));
                                assert(find_partner(nets@, before.paired, partner_name(nets@, i as int, k as int), 0) == Some(j as int));
                                assert(pairs@ == before.pairs.push((nets@[i as int].0, nets@[j as int].0)));
                                assert(paired@ == before.paired.insert(nets@[i as int].0).insert(nets@[j as int].0));
                                assert(suffix_phase(nets@, i as int, k as int, before) == (PairState { pairs: pairs@, paired: paired@ }));
                            }
                        },
                        None => {},
                    }
                }
                if !done {
                    k = k + 1;
                }
            }
            let ghost s1 = suffix_phase(nets@, i as int, 0, st);
            proof {
                if !done {
                    assert(suffix_phase(nets@, i as int, 0, st) == (PairState { pairs: pairs@, paired: paired@ }));
                }
            }
            if !paired.contains(&id1) {
                let mut j: usize = i + 1;
                let mut found = false;
                while j < nets.len() && !found
                    invariant
                        i < j <= nets@.len(),
                        u1@ == upper_name(nets@, i as int),
                        id1 == nets@[i as int].0,
                        !found ==> dplus_phase(nets@, i as int, i as int + 1, s1) == dplus_phase(nets@, i as int, j as int, (PairState { pairs: pairs@, paired: paired@ })),
                        found ==> dplus_phase(nets@, i as int, i as int + 1, s1) == (PairState { pairs: pairs@, paired: paired@ }),
                    decreases nets@.len() - j + (if found { 0int } else { 1int }),
                {
                    let id2 = nets[j].0;
                    if !paired.contains(&id2) {
                        let u2 = upper_chars(nets[j].1.as_str());
                        let is_pair = (ends_with(u1.as_slice(), "D+") && ends_with(u2.as_slice(), "D-")) || (ends_with(
                            u1.as_slice(),
                            "D-",
                        ) && ends_with(u2.as_slice(), "D+"));
                        if is_pair {
                            pairs.push((id1, id2));
                            paired.insert(id1);
                            paired.insert(id2);
                            found = true;
                        }
                    }
                    if !found {
                        j = j + 1;
                    }
                }
            }
        }
        i = i + 1;
        proof {
            assert(pair_run(nets@, i as nat) == pair_step(nets@, i - 1, st));
        }
    }
    pairs
}

/// Every net of a listed pair is marked paired, and no net is in two listed pairs.
pub open spec fn pairs_disjoint(st: PairState) -> bool {
    &&& forall|p: int| 0 <= p < st.pairs.len() ==> st.paired.contains((#[trigger] st.pairs[p]).0) && st.paired.contains(st.pairs[p].1)
    &&& forall|p: int, q: int| 0 <= p < q < st.pairs.len() ==> {
        &&& (#[trigger] st.pairs[p]).0 != (#[trigger] st.pairs[q]).0
        &&& st.pairs[p].0 != st.pairs[q].1
        &&& st.pairs[p].1 != st.pairs[q].0
        &&& st.pairs[p].1 != st.pairs[q].1
    }
}

proof fn lemma_find_partner_unpaired(nets: Seq<(u32, String)>, paired: Set<u32>, target: Seq<u8>, j: int)
    ensures
        find_partner(nets, paired, target, j) matches Some(k) ==> 0 <= k < nets.len() && !paired.contains(nets[k].0),
    decreases nets.len() - j,
{
    if 0 <= j < nets.len() && !(!paired.contains(nets[j].0) && eq_ignore_case(name_bytes(nets, j), target)) {
        lemma_find_partner_unpaired(nets, paired, target, j + 1);
    }
}

proof fn lemma_add_pair(st: PairState, x: u32, y: u32)
    requires
        pairs_disjoint(st),
        !st.paired.contains(x),
        !st.paired.contains(y),
    ensures
        pairs_disjoint(PairState { pairs: st.pairs.push((x, y)), paired: st.paired.insert(x).insert(y) }),
{
    let n = PairState { pairs: st.pairs.push((x, y)), paired: st.paired.insert(x).insert(y) };
    assert forall|p: int, q: int| 0 <= p < q < n.pairs.len() implies {
        &&& (#[trigger] n.pairs[p]).0 != (#[trigger] n.pairs[q]).0
        &&& n.pairs[p].0 != n.pairs[q].1
        &&& n.pairs[p].1 != n.pairs[q].0
        &&& n.pairs[p].1 != n.pairs[q].1
    } by {
        assert(n.pairs[p] == st.pairs[p]);
        if q < st.pairs.len() {
            assert(n.pairs[q] == st.pairs[q]);
        } else {
            assert(st.paired.contains(st.pairs[p].0));
        }
    }
    assert forall|p: int| 0 <= p < n.pairs.len() implies n.paired.contains((#[trigger] n.pairs[p]).0) && n.paired.contains(n.pairs[p].1) by {
        if p < st.pairs.len() {
            assert(n.pairs[p] == st.pairs[p]);
        }
    }
}

proof fn lemma_suffix_phase_disjoint(nets: Seq<(u32, String)>, i: int, k: int, st: PairState)
    requires
        0 <= i < nets.len(),
        pairs_disjoint(st),
        !st.paired.contains(nets[i].0),
    ensures
        pairs_disjoint(suffix_phase(nets, i, k, st)),
        suffix_phase(nets, i, k, st) == st || suffix_phase(nets, i, k, st).paired.contains(nets[i].0),
    decreases 5 - k,
{
    if 0 <= k < 5 {
        if !seq_ends_with(upper_name(nets, i), pos_suffix(k)) {
            lemma_suffix_phase_disjoint(nets, i, k + 1, st);
        } else {
            lemma_find_partner_unpaired(nets, st.paired, partner_name(nets, i, k), 0);
            match find_partner(nets, st.paired, partner_name(nets, i, k), 0) {
                Some(j) => {
                    lemma_add_pair(st, nets[i].0, nets[j].0);
                },
                None => {
                    lemma_suffix_phase_disjoint(nets, i, k + 1, st);
                },
            }
        }
    }
}

proof fn lemma_dplus_phase_disjoint(nets: Seq<(u32, String)>, i: int, j: int, st: PairState)
    requires
        0 <= i < nets.len(),
        pairs_disjoint(st),
        !st.paired.contains(nets[i].0),
    ensures
        pairs_disjoint(dplus_phase(nets, i, j, st)),
    decreases nets.len() - j,
{
    if 0 <= j < nets.len() {
        if st.paired.contains(nets[j].0) || !dplus_pair(nets, i, j) {
            lemma_dplus_phase_disjoint(nets, i, j + 1, st);
        } else {
            lemma_add_pair(st, nets[i].0, nets[j].0);
        }
    }
}

proof fn lemma_pair_run_disjoint(nets: Seq<(u32, String)>, m: nat)
    requires
        m <= nets.len(),
    ensures
        pairs_disjoint(pair_run(nets, m)),
    decreases m,
{
    if m > 0 {
        let i = m - 1;
        let st = pair_run(nets, (m - 1) as nat);
        lemma_pair_run_disjoint(nets, (m - 1) as nat);
        if !st.paired.contains(nets[i].0) {
            lemma_suffix_phase_disjoint(nets, i, 0, st);
            let s1 = suffix_phase(nets, i, 0, st);
            if !s1.paired.contains(nets[i].0) {
                lemma_dplus_phase_disjoint(nets, i, i + 1, s1);
            }
        }
    }
}

/// No net is in two differential pairs: the nets of different pairs are different.
pub proof fn lemma_diff_pairs_disjoint(nets: Seq<(u32, String)>)
    ensures
        ({
            let pairs = pair_run(nets, nets.len()).pairs;
            forall|p: int, q: int| 0 <= p < q < pairs.len() ==> {
                &&& (#[trigger] pairs[p]).0 != (#[trigger] pairs[q]).0
                &&& pairs[p].0 != pairs[q].1
                &&& pairs[p].1 != pairs[q].0
                &&& pairs[p].1 != pairs[q].1
            }
        }),
{
    lemma_pair_run_disjoint(nets, nets.len());
}

} // verus!

verus! {

/// A state with one more pair.
pub open spec fn with_pair(st: PairState, x: u32, y: u32) -> PairState {
    PairState { pairs: st.pairs.push((x, y)), paired: st.paired.insert(x).insert(y) }
}

/// Net id `x` is one end of a listed pair.
pub open spec fn in_pairs(pairs: Seq<(u32, u32)>, x: u32) -> bool {
    exists|p: int| 0 <= p < pairs.len() && ((#[trigger] pairs[p]).0 == x || pairs[p].1 == x)
}

/// Every net marked paired is an end of a listed pair.
pub open spec fn paired_listed(st: PairState) -> bool {
    forall|x: u32| #[trigger] st.paired.contains(x) ==> in_pairs(st.pairs, x)
}

/// `b` keeps the pairs of `a`, in order, and may list more.
pub open spec fn keeps_pairs(a: PairState, b: PairState) -> bool {
    a.pairs.len() <= b.pairs.len() && forall|p: int| 0 <= p < a.pairs.len() ==> #[trigger] b.pairs[p] == a.pairs[p]
}

proof fn lemma_with_pair(st: PairState, x: u32, y: u32)
    requires
        paired_listed(st),
    ensures
        paired_listed(with_pair(st, x, y)),
        keeps_pairs(st, with_pair(st, x, y)),
        in_pairs(with_pair(st, x, y).pairs, x),
{
    let n = with_pair(st, x, y);
    let last = st.pairs.len() as int;
    assert(n.pairs[last] == (x, y));
    assert forall|z: u32| #[trigger] n.paired.contains(z) implies in_pairs(n.pairs, z) by {
        if z != x && z != y {
            assert(st.paired.contains(z));
            let p = choose|p: int| 0 <= p < st.pairs.len() && ((#[trigger] st.pairs[p]).0 == z || st.pairs[p].1 == z);
            assert(n.pairs[p] == st.pairs[p]);
        }
    }
    assert forall|p: int| 0 <= p < st.pairs.len() implies #[trigger] n.pairs[p] == st.pairs[p] by {}
}

proof fn lemma_keeps_in_pairs(a: PairState, b: PairState, x: u32)
    requires
        keeps_pairs(a, b),
        in_pairs(a.pairs, x),
    ensures
        in_pairs(b.pairs, x),
{
    let p = choose|p: int| 0 <= p < a.pairs.len() && ((#[trigger] a.pairs[p]).0 == x || a.pairs[p].1 == x);
    assert(b.pairs[p] == a.pairs[p]);
}

proof fn lemma_keeps_trans(a: PairState, b: PairState, c: PairState)
    requires
        keeps_pairs(a, b),
        keeps_pairs(b, c),
    ensures
        keeps_pairs(a, c),
{
    assert forall|p: int| 0 <= p < a.pairs.len() implies #[trigger] c.pairs[p] == a.pairs[p] by {
        assert(c.pairs[p] == b.pairs[p]);
    }
}

/// A search for a partner from `j` finds one whenever an unpaired net from `j` on has
/// the target name.
proof fn lemma_find_partner_found(nets: Seq<(u32, String)>, paired: Set<u32>, target: Seq<u8>, j: int, w: int)
    requires
        0 <= j <= w < nets.len(),
        !paired.contains(nets[w].0),
        eq_ignore_case(name_bytes(nets, w), target),
    ensures
        find_partner(nets, paired, target, j) is Some,
    decreases w - j,
{
    if !(!paired.contains(nets[j].0) && eq_ignore_case(name_bytes(nets, j), target)) {
        lemma_find_partner_found(nets, paired, target, j + 1, w);
    }
}

/// The suffix phase either changes nothing or adds one pair.
proof fn lemma_suffix_phase_shape(nets: Seq<(u32, String)>, i: int, k: int, st: PairState)
    requires
        0 <= i < nets.len(),
        paired_listed(st),
    ensures
        paired_listed(suffix_phase(nets, i, k, st)),
        keeps_pairs(st, suffix_phase(nets, i, k, st)),
    decreases 5 - k,
{
    if 0 <= k < 5 {
        if !seq_ends_with(upper_name(nets, i), pos_suffix(k)) {
            lemma_suffix_phase_shape(nets, i, k + 1, st);
        } else {
            lemma_find_partner_unpaired(nets, st.paired, partner_name(nets, i, k), 0);
            match find_partner(nets, st.paired, partner_name(nets, i, k), 0) {
                Some(j) => {
                    lemma_with_pair(st, nets[i].0, nets[j].0);
                },
                None => {
                    lemma_suffix_phase_shape(nets, i, k + 1, st);
                },
            }
        }
    } else {
        assert(keeps_pairs(st, st));
    }
}

/// The `D+` / `D-` phase either changes nothing or adds one pair.
proof fn lemma_dplus_phase_shape(nets: Seq<(u32, String)>, i: int, j: int, st: PairState)
    requires
        0 <= i < nets.len(),
        paired_listed(st),
    ensures
        paired_listed(dplus_phase(nets, i, j, st)),
        keeps_pairs(st, dplus_phase(nets, i, j, st)),
    decreases nets.len() - j,
{
    if 0 <= j < nets.len() {
        if st.paired.contains(nets[j].0) || !dplus_pair(nets, i, j) {
            lemma_dplus_phase_shape(nets, i, j + 1, st);
        } else {
            lemma_with_pair(st, nets[i].0, nets[j].0);
        }
    } else {
        assert(keeps_pairs(st, st));
    }
}

/// Each step keeps the listed pairs and lists every net it marks paired.
proof fn lemma_pair_run_shape(nets: Seq<(u32, String)>, m: nat, n: nat)
    requires
        m <= n <= nets.len(),
    ensures
        paired_listed(pair_run(nets, n)),
        keeps_pairs(pair_run(nets, m), pair_run(nets, n)),
    decreases n,
{
    if n == 0 {
        assert(keeps_pairs(pair_run(nets, m), pair_run(nets, n)));
    } else {
        let i = n - 1;
        let st = pair_run(nets, (n - 1) as nat);
        if m == n {
            lemma_pair_run_shape(nets, (n - 1) as nat, (n - 1) as nat);
        } else {
            lemma_pair_run_shape(nets, m, (n - 1) as nat);
        }
        let nx = pair_run(nets, n);
        if st.paired.contains(nets[i].0) {
            assert(nx == st);
            assert(keeps_pairs(st, nx));
        } else {
            lemma_suffix_phase_shape(nets, i, 0, st);
            let s1 = suffix_phase(nets, i, 0, st);
            if !s1.paired.contains(nets[i].0) {
                lemma_dplus_phase_shape(nets, i, i + 1, s1);
                lemma_keeps_trans(st, s1, nx);
            }
        }
        if m < n {
            lemma_keeps_trans(pair_run(nets, m), st, nx);
        } else {
            assert(keeps_pairs(nx, nx));
        }
    }
}

/// Net `i`, unpaired, ends with positive suffix `k`, and net `w` with the matching
/// negative name is unpaired: the suffix phase from `k0 <= k` pairs net `i`.
proof fn lemma_suffix_phase_pairs(nets: Seq<(u32, String)>, i: int, k0: int, k: int, w: int, st: PairState)
    requires
        0 <= i < nets.len(),
        0 <= w < nets.len(),
        0 <= k0 <= k < 5,
        seq_ends_with(upper_name(nets, i), pos_suffix(k)),
        eq_ignore_case(name_bytes(nets, w), partner_name(nets, i, k)),
        !st.paired.contains(nets[w].0),
    ensures
        suffix_phase(nets, i, k0, st).paired.contains(nets[i].0),
    decreases 5 - k0,
{
    if !seq_ends_with(upper_name(nets, i), pos_suffix(k0)) {
        lemma_suffix_phase_pairs(nets, i, k0 + 1, k, w, st);
    } else {
        match find_partner(nets, st.paired, partner_name(nets, i, k0), 0) {
            Some(j) => {},
            None => {
                if k0 == k {
                    lemma_find_partner_found(nets, st.paired, partner_name(nets, i, k), 0, w);
                } else {
                    lemma_suffix_phase_pairs(nets, i, k0 + 1, k, w, st);
                }
            },
        }
    }
}

/// A positive net and its negative partner are never both left out: when net `i`'s
/// upper-case name ends with a positive suffix (`_P`, `_DP`, `+`, `_POS`, `_TRUE`) and
/// net `w`, anywhere in the list, is named like `i` with the matching negative suffix up
/// to ASCII case, then `i` or `w` is in a returned pair.
pub proof fn lemma_diff_pair_partner_found(nets: Seq<(u32, String)>, i: int, w: int, k: int)
    requires
        0 <= i < nets.len(),
        0 <= w < nets.len(),
        0 <= k < 5,
        seq_ends_with(upper_name(nets, i), pos_suffix(k)),
        eq_ignore_case(name_bytes(nets, w), partner_name(nets, i, k)),
    ensures
        in_pairs(pair_run(nets, nets.len()).pairs, nets[i].0) || in_pairs(pair_run(nets, nets.len()).pairs, nets[w].0),
{
    let n = nets.len();
    let st = pair_run(nets, i as nat);
    let nx = pair_run(nets, (i + 1) as nat);
    lemma_pair_run_shape(nets, i as nat, i as nat);
    lemma_pair_run_shape(nets, i as nat, n);
    lemma_pair_run_shape(nets, (i + 1) as nat, n);
    let fin = pair_run(nets, n);
    if st.paired.contains(nets[i].0) {
        lemma_keeps_in_pairs(st, fin, nets[i].0);
    } else if st.paired.contains(nets[w].0) {
        lemma_keeps_in_pairs(st, fin, nets[w].0);
    } else {
        lemma_suffix_phase_pairs(nets, i, 0, k, w, st);
        assert(nx == suffix_phase(nets, i, 0, st));
        assert(nx.paired.contains(nets[i].0));
        lemma_pair_run_shape(nets, (i + 1) as nat, (i + 1) as nat);
        assert(in_pairs(nx.pairs, nets[i].0));
        lemma_keeps_in_pairs(nx, fin, nets[i].0);
    }
}

} // verus!

verus! {

/// Nets `i` and `j` make a differential pair: `i` ends with a positive suffix and `j` is
/// named like it with the matching negative suffix up to ASCII case, or the two end with
/// `D+` and `D-`.
pub open spec fn is_diff_pair(nets: Seq<(u32, String)>, i: int, j: int) -> bool {
    ||| exists|k: int| 0 <= k < 5 && seq_ends_with(upper_name(nets, i), #[trigger] pos_suffix(k)) && eq_ignore_case(
        name_bytes(nets, j),
        partner_name(nets, i, k),
    )
    ||| dplus_pair(nets, i, j)
}

/// Every listed pair is the ids of two nets that make a differential pair.
pub open spec fn pairs_sound(nets: Seq<(u32, String)>, pairs: Seq<(u32, u32)>) -> bool {
    forall|p: int|
        0 <= p < pairs.len() ==> exists|i: int, j: int|
            0 <= i < nets.len() && 0 <= j < nets.len() && nets[i].0 == (#[trigger] pairs[p]).0 && nets[j].0 == pairs[p].1
                && is_diff_pair(nets, i, j)
}

proof fn lemma_sound_push(nets: Seq<(u32, String)>, st: PairState, i: int, j: int)
    requires
        pairs_sound(nets, st.pairs),
        0 <= i < nets.len(),
        0 <= j < nets.len(),
        is_diff_pair(nets, i, j),
    ensures
        pairs_sound(nets, with_pair(st, nets[i].0, nets[j].0).pairs),
{
    let np = with_pair(st, nets[i].0, nets[j].0).pairs;
    assert forall|p: int| 0 <= p < np.len() implies exists|a: int, b: int|
        0 <= a < nets.len() && 0 <= b < nets.len() && nets[a].0 == (#[trigger] np[p]).0 && nets[b].0 == np[p].1
            && is_diff_pair(nets, a, b) by {
        if p < st.pairs.len() {
            assert(np[p] == st.pairs[p]);
        } else {
            assert(np[p] == (nets[i].0, nets[j].0));
        }
    }
}

proof fn lemma_suffix_phase_sound(nets: Seq<(u32, String)>, i: int, k: int, st: PairState)
    requires
        0 <= i < nets.len(),
        pairs_sound(nets, st.pairs),
    ensures
        pairs_sound(nets, suffix_phase(nets, i, k, st).pairs),
    decreases 5 - k,
{
    if 0 <= k < 5 {
        if !seq_ends_with(upper_name(nets, i), pos_suffix(k)) {
            lemma_suffix_phase_sound(nets, i, k + 1, st);
        } else {
            lemma_find_partner_match(nets, st.paired, partner_name(nets, i, k), 0);
            match find_partner(nets, st.paired, partner_name(nets, i, k), 0) {
                Some(j) => {
                    assert(is_diff_pair(nets, i, j));
                    lemma_sound_push(nets, st, i, j);
                },
                None => {
                    lemma_suffix_phase_sound(nets, i, k + 1, st);
                },
            }
        }
    }
}

proof fn lemma_find_partner_match(nets: Seq<(u32, String)>, paired: Set<u32>, target: Seq<u8>, j: int)
    ensures
        find_partner(nets, paired, target, j) matches Some(k) ==> 0 <= k < nets.len() && eq_ignore_case(name_bytes(nets, k), target),
    decreases nets.len() - j,
{
    if 0 <= j < nets.len() && !(!paired.contains(nets[j].0) && eq_ignore_case(name_bytes(nets, j), target)) {
        lemma_find_partner_match(nets, paired, target, j + 1);
    }
}

proof fn lemma_dplus_phase_sound(nets: Seq<(u32, String)>, i: int, j: int, st: PairState)
    requires
        0 <= i < nets.len(),
        pairs_sound(nets, st.pairs),
    ensures
        pairs_sound(nets, dplus_phase(nets, i, j, st).pairs),
    decreases nets.len() - j,
{
    if 0 <= j < nets.len() {
        if st.paired.contains(nets[j].0) || !dplus_pair(nets, i, j) {
            lemma_dplus_phase_sound(nets, i, j + 1, st);
        } else {
            lemma_sound_push(nets, st, i, j);
        }
    }
}

/// Every returned pair is a positive net and its negative partner: the ids of nets `i`
/// and `j` where `i` ends with a positive suffix and `j` is named like `i` with the
/// matching negative suffix (up to ASCII case), or where the names end with `D+` and
/// `D-`.
pub proof fn lemma_diff_pairs_sound(nets: Seq<(u32, String)>, m: nat)
    requires
        m <= nets.len(),
    ensures
        pairs_sound(nets, pair_run(nets, m).pairs),
    decreases m,
{
    if m > 0 {
        let i = m - 1;
        let st = pair_run(nets, (m - 1) as nat);
        lemma_diff_pairs_sound(nets, (m - 1) as nat);
        if !st.paired.contains(nets[i].0) {
            lemma_suffix_phase_sound(nets, i, 0, st);
            let s1 = suffix_phase(nets, i, 0, st);
            if !s1.paired.contains(nets[i].0) {
                lemma_dplus_phase_sound(nets, i, i + 1, s1);
            }
        }
    }
}

} // verus!
