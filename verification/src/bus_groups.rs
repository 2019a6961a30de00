//! Bus groups for coordinated routing: DDR3 byte lanes, clock, address and command,
//! SerDes and LVDS lanes, SPI and parallel data buses, found by net-name patterns, with
//! the length-skew budgets of each group and between groups (in micrometres).
use vstd::prelude::*;
use std::collections::HashSet;
use crate::text::{chars_of, contains, eq_str, seq_contains, spec_to_uppercase, string_from_chars, upper_chars};

verus! {

broadcast use vstd::std_specs::hash::group_hash_axioms;

/// A bus group: its nets, priority, the length skew allowed within it, and, where it
/// is tied to a reference group, the length difference allowed against that group.
pub struct BusGroup {
    pub name: String,
    pub net_ids: Vec<u32>,
    pub priority: u32,
    pub intra_skew_um: u32,
    pub inter_skew_um: Option<u32>,
    pub reference_group: Option<usize>,
}

/// What a bus group is, as values.
pub struct BusGroupView {
    pub name: Seq<char>,
    pub net_ids: Seq<u32>,
    pub priority: u32,
    pub intra_skew_um: u32,
    pub inter_skew_um: Option<u32>,
    pub reference_group: Option<usize>,
}

impl BusGroup {
    pub open spec fn view_spec(&self) -> BusGroupView {
        BusGroupView {
            name: self.name@,
            net_ids: self.net_ids@,
            priority: self.priority,
            intra_skew_um: self.intra_skew_um,
            inter_skew_um: self.inter_skew_um,
            reference_group: self.reference_group,
        }
    }
}

/// The views of a list of groups.
pub open spec fn group_views(g: Seq<BusGroup>) -> Seq<BusGroupView> {
    g.map_values(|x: BusGroup| x.view_spec())
}

/// A group definition: name, priority, skew within the group (µm), name patterns.
pub struct GroupDef {
    pub name: Seq<char>,
    pub priority: u32,
    pub skew_um: u32,
    pub patterns: Seq<Seq<char>>,
}

/// The group definitions, in the order groups are formed.
pub open spec fn group_defs() -> Seq<GroupDef> {
    seq![
        GroupDef { name: "DQS0"@, priority: 0, skew_um: 250, patterns: seq!["DDR3_DQS0"@] },
        GroupDef { name: "DQS1"@, priority: 0, skew_um: 250, patterns: seq!["DDR3_DQS1"@] },
        GroupDef { name: "DQ0-7"@, priority: 1, skew_um: 500, patterns: seq![
            "DDR3_DQ0"@, "DDR3_DQ1"@, "DDR3_DQ2"@, "DDR3_DQ3"@, "DDR3_DQ4"@, "DDR3_DQ5"@, "DDR3_DQ6"@, "DDR3_DQ7"@] },
        GroupDef { name: "DQ8-15"@, priority: 1, skew_um: 500, patterns: seq![
            "DDR3_DQ8"@, "DDR3_DQ9"@, "DDR3_DQ10"@, "DDR3_DQ11"@, "DDR3_DQ12"@, "DDR3_DQ13"@, "DDR3_DQ14"@, "DDR3_DQ15"@] },
        GroupDef { name: "CLK"@, priority: 2, skew_um: 250, patterns: seq!["DDR3_CK"@] },
        GroupDef { name: "ADDR"@, priority: 3, skew_um: 1000, patterns: seq![
            "DDR3_A0"@, "DDR3_A1"@, "DDR3_A2"@, "DDR3_A3"@, "DDR3_A4"@, "DDR3_A5"@, "DDR3_A6"@, "DDR3_A7"@,
            "DDR3_A8"@, "DDR3_A9"@, "DDR3_A10"@, "DDR3_A11"@, "DDR3_A12"@, "DDR3_A13"@, "DDR3_BA0"@,
            "DDR3_BA1"@, "DDR3_BA2"@] },
        GroupDef { name: "CMD"@, priority: 4, skew_um: 1000, patterns: seq![
            "DDR3_CAS"@, "DDR3_RAS"@, "DDR3_WE"@, "DDR3_CKE"@, "DDR3_ODT"@] },
        GroupDef { name: "CTRL"@, priority: 5, skew_um: 1000, patterns: seq!["DDR3_RESET"@] },
        GroupDef { name: "PCIe_TX"@, priority: 1, skew_um: 250, patterns: seq!["PCIE_TX"@, "PCI_TX"@] },
        GroupDef { name: "PCIe_RX"@, priority: 1, skew_um: 250, patterns: seq!["PCIE_RX"@, "PCI_RX"@] },
        GroupDef { name: "SATA_TX"@, priority: 1, skew_um: 250, patterns: seq!["SATA_TX"@] },
        GroupDef { name: "SATA_RX"@, priority: 1, skew_um: 250, patterns: seq!["SATA_RX"@] },
        GroupDef { name: "USB3_TX"@, priority: 1, skew_um: 250, patterns: seq!["USB3_TX"@, "USB_SS_TX"@] },
        GroupDef { name: "USB3_RX"@, priority: 1, skew_um: 250, patterns: seq!["USB3_RX"@, "USB_SS_RX"@] },
        GroupDef { name: "LVDS_CH0"@, priority: 1, skew_um: 250, patterns: seq!["LVDS0"@, "LVDS_0"@] },
        GroupDef { name: "LVDS_CH1"@, priority: 1, skew_um: 250, patterns: seq!["LVDS1"@, "LVDS_1"@] },
        GroupDef { name: "LVDS_CH2"@, priority: 1, skew_um: 250, patterns: seq!["LVDS2"@, "LVDS_2"@] },
        GroupDef { name: "LVDS_CH3"@, priority: 1, skew_um: 250, patterns: seq!["LVDS3"@, "LVDS_3"@] },
        GroupDef { name: "MIPI_DSI"@, priority: 1, skew_um: 250, patterns: seq!["MIPI_DSI"@] },
        GroupDef { name: "MIPI_CSI"@, priority: 1, skew_um: 250, patterns: seq!["MIPI_CSI"@] },
        GroupDef { name: "SPI"@, priority: 5, skew_um: 2000, patterns: seq!["SPI_CLK"@, "SPI_MOSI"@, "SPI_MISO"@, "SPI_CS"@] },
        GroupDef { name: "FDATA"@, priority: 4, skew_um: 1000, patterns: seq!["FDATA"@] },
        GroupDef { name: "FADDR"@, priority: 4, skew_um: 1000, patterns: seq!["FADDR"@] }
    ]
}

/// Collect, for one pattern, the unassigned nets (walking `entries` from `j`) whose
/// name, in upper case, contains it.
pub open spec fn take_pattern(entries: Seq<(String, u32)>, pat: Seq<char>, ids: Seq<u32>, assigned: Set<u32>, j: int) -> (Seq<u32>, Set<u32>)
    decreases entries.len() - j,
{
    if j < 0 || j >= entries.len() {
        (ids, assigned)
    } else if seq_contains(spec_to_uppercase(entries[j].0@), pat) && !assigned.contains(entries[j].1) {
        take_pattern(entries, pat, ids.push(entries[j].1), assigned.insert(entries[j].1), j + 1)
    } else {
        take_pattern(entries, pat, ids, assigned, j + 1)
    }
}

/// Collect the nets of the patterns from `p` on.
pub open spec fn take_patterns(entries: Seq<(String, u32)>, pats: Seq<Seq<char>>, ids: Seq<u32>, assigned: Set<u32>, p: int) -> (Seq<u32>, Set<u32>)
    decreases pats.len() - p,
{
    if p < 0 || p >= pats.len() {
        (ids, assigned)
    } else {
        let r = take_pattern(entries, pats[p], ids, assigned, 0);
        take_patterns(entries, pats, r.0, r.1, p + 1)
    }
}

/// The groups formed from the first `m` definitions, and the nets assigned so far.
pub open spec fn groups_run(entries: Seq<(String, u32)>, m: nat) -> (Seq<BusGroupView>, Set<u32>)
    decreases m,
{
    if m == 0 {
        (Seq::empty(), Set::empty())
    } else {
        let prev = groups_run(entries, (m - 1) as nat);
        let d = group_defs()[m - 1];
        let r = take_patterns(entries, d.patterns, Seq::empty(), prev.1, 0);
        if r.0.len() > 0 {
            (prev.0.push(BusGroupView {
                name: d.name,
                net_ids: r.0,
                priority: d.priority,
                intra_skew_um: d.skew_um,
                inter_skew_um: None,
                reference_group: None,
            }), r.1)
        } else {
            (prev.0, r.1)
        }
    }
}

/// The first group whose name is one of `names`.
pub open spec fn first_named(g: Seq<BusGroupView>, names: Seq<Seq<char>>, i: int) -> Option<int>
    decreases g.len() - i,
{
    if i < 0 || i >= g.len() {
        None
    } else if names.contains(g[i].name) {
        Some(i)
    } else {
        first_named(g, names, i + 1)
    }
}

/// Tie group `g[at]` to reference group `reference` with skew `um`.
pub open spec fn tie(g: Seq<BusGroupView>, at: int, reference: int, um: u32) -> Seq<BusGroupView> {
    g.update(at, BusGroupView { inter_skew_um: Some(um), reference_group: Some(reference as usize), ..g[at] })
}

/// The bus groups with their inter-group ties: address and command match the clock
/// within 2 mm; the first receive lane group matches the first transmit one within 1 mm.
pub open spec fn bus_groups_spec(entries: Seq<(String, u32)>) -> Seq<BusGroupView> {
    let g0 = groups_run(entries, group_defs().len()).0;
    let clk = first_named(g0, seq!["CLK"@], 0);
    let addr = first_named(g0, seq!["ADDR"@], 0);
    let cmd = first_named(g0, seq!["CMD"@], 0);
    let g1 = if clk is Some && addr is Some { tie(g0, addr->0, clk->0, 2000) } else { g0 };
    let g2 = if clk is Some && cmd is Some { tie(g1, cmd->0, clk->0, 2000) } else { g1 };
    let tx = first_named(g2, seq!["PCIe_TX"@, "SATA_TX"@, "USB3_TX"@], 0);
    let rx = first_named(g2, seq!["PCIe_RX"@, "SATA_RX"@, "USB3_RX"@], 0);
    if tx is Some && rx is Some { tie(g2, rx->0, tx->0, 1000) } else { g2 }
}

/// The texts of a list of string slices.
pub open spec fn str_texts(v: Seq<&str>) -> Seq<Seq<char>> {
    v.map_values(|s: &str| s@)
}

/// Definition `m` of the group table, as name, priority, skew and patterns.
fn group_def(m: usize) -> (r: (&'static str, u32, u32, Vec<&'static str>))
    requires
        m < 23,
    ensures
        r.0@ == group_defs()[m as int].name,
        r.1 == group_defs()[m as int].priority,
        r.2 == group_defs()[m as int].skew_um,
        str_texts(r.3@) == group_defs()[m as int].patterns,
{
    let r: (&'static str, u32, u32, Vec<&'static str>) = if m == 0 {
        ("DQS0", 0, 250, vec!["DDR3_DQS0"])
    } else if m == 1 {
        ("DQS1", 0, 250, vec!["DDR3_DQS1"])
    } else if m == 2 {
        ("DQ0-7", 1, 500, vec!["DDR3_DQ0", "DDR3_DQ1", "DDR3_DQ2", "DDR3_DQ3", "DDR3_DQ4", "DDR3_DQ5", "DDR3_DQ6", "DDR3_DQ7"])
    } else if m == 3 {
        ("DQ8-15", 1, 500, vec!["DDR3_DQ8", "DDR3_DQ9", "DDR3_DQ10", "DDR3_DQ11", "DDR3_DQ12", "DDR3_DQ13", "DDR3_DQ14", "DDR3_DQ15"])
    } else if m == 4 {
        ("CLK", 2, 250, vec!["DDR3_CK"])
    } else if m == 5 {
        ("ADDR", 3, 1000, vec!["DDR3_A0", "DDR3_A1", "DDR3_A2", "DDR3_A3", "DDR3_A4", "DDR3_A5", "DDR3_A6", "DDR3_A7", "DDR3_A8", "DDR3_A9", "DDR3_A10", "DDR3_A11", "DDR3_A12", "DDR3_A13", "DDR3_BA0", "DDR3_BA1", "DDR3_BA2"])
    } else if m == 6 {
        ("CMD", 4, 1000, vec!["DDR3_CAS", "DDR3_RAS", "DDR3_WE", "DDR3_CKE", "DDR3_ODT"])
    } else if m == 7 {
        ("CTRL", 5, 1000, vec!["DDR3_RESET"])
    } else if m == 8 {
        ("PCIe_TX", 1, 250, vec!["PCIE_TX", "PCI_TX"])
    } else if m == 9 {
        ("PCIe_RX", 1, 250, vec!["PCIE_RX", "PCI_RX"])
    } else if m == 10 {
        ("SATA_TX", 1, 250, vec!["SATA_TX"])
    } else if m == 11 {
        ("SATA_RX", 1, 250, vec!["SATA_RX"])
    } else if m == 12 {
        ("USB3_TX", 1, 250, vec!["USB3_TX", "USB_SS_TX"])
    } else if m == 13 {
        ("USB3_RX", 1, 250, vec!["USB3_RX", "USB_SS_RX"])
    } else if m == 14 {
        ("LVDS_CH0", 1, 250, vec!["LVDS0", "LVDS_0"])
    } else if m == 15 {
        ("LVDS_CH1", 1, 250, vec!["LVDS1", "LVDS_1"])
    } else if m == 16 {
        ("LVDS_CH2", 1, 250, vec!["LVDS2", "LVDS_2"])
    } else if m == 17 {
        ("LVDS_CH3", 1, 250, vec!["LVDS3", "LVDS_3"])
    } else if m == 18 {
        ("MIPI_DSI", 1, 250, vec!["MIPI_DSI"])
    } else if m == 19 {
        ("MIPI_CSI", 1, 250, vec!["MIPI_CSI"])
    } else if m == 20 {
        ("SPI", 5, 2000, vec!["SPI_CLK", "SPI_MOSI", "SPI_MISO", "SPI_CS"])
    } else if m == 21 {
        ("FDATA", 4, 1000, vec!["FDATA"])
    } else if m == 22 {
        ("FADDR", 4, 1000, vec!["FADDR"])
    } else {
        ("FADDR", 4, 1000, vec!["FADDR"])
    };
    proof {
        assert(str_texts(r.3@) =~= group_defs()[m as int].patterns);
    }
    r
}

/// Walk the entries for one pattern, collecting unassigned matching nets.
fn take_pattern_exec(entries: &[(String, u32)], pat: &str, ids: &mut Vec<u32>, assigned: &mut HashSet<u32>)
    ensures
        (final(ids)@, final(assigned)@) == take_pattern(entries@, pat@, old(ids)@, old(assigned)@, 0),
{
    let mut j: usize = 0;
    while j < entries.len()
        invariant
            j <= entries@.len(),
            take_pattern(entries@, pat@, old(ids)@, old(assigned)@, 0) == take_pattern(entries@, pat@, ids@, assigned@, j as int),
        decreases entries@.len() - j,
    {
        let u = upper_chars(entries[j].0.as_str());
        if contains(u.as_slice(), pat) && !assigned.contains(&entries[j].1) {
            ids.push(entries[j].1);
            assigned.insert(entries[j].1);
        }
        j = j + 1;
    }
}

/// Whether a group named `name` sits at `i`.
fn find_named(g: &Vec<BusGroup>, names: &[&str]) -> (r: Option<usize>)
    ensures
        match first_named(group_views(g@), str_texts(names@), 0) {
            Some(i) => match r {
                Some(x) => x as int == i,
                None => false,
            },
            None => r is None,
        },
        r matches Some(x) ==> x < g@.len(),
{
    let mut i: usize = 0;
    while i < g.len()
        invariant
            i <= g@.len(),
            first_named(group_views(g@), str_texts(names@), 0) == first_named(group_views(g@), str_texts(names@), i as int),
        decreases g@.len() - i,
    {
        let n = chars_of(g[i].name.as_str());
        let mut k: usize = 0;
        let mut hit = false;
        while k < names.len() && !hit
            invariant
                k <= names@.len(),
                !hit ==> forall|q: int| 0 <= q < k ==> names@[q]@ != g@[i as int].name@,
                hit ==> str_texts(names@).contains(g@[i as int].name@),
                n@ == g@[i as int].name@,
            decreases names@.len() - k + (if hit { 0int } else { 1int }),
        {
            if eq_str(n.as_slice(), names[k]) {
                hit = true;
                proof {
                    assert(str_texts(names@)[k as int] == g@[i as int].name@);
                }
            } else {
                k = k + 1;
            }
        }
        proof {
            assert(group_views(g@)[i as int].name == g@[i as int].name@);
            if !hit {
                if str_texts(names@).contains(g@[i as int].name@) {
                    let q = choose|q: int| 0 <= q < str_texts(names@).len() && str_texts(names@)[q] == g@[i as int].name@;
                    assert(names@[q]@ == g@[i as int].name@);
                }
            }
        }
        if hit {
            return Some(i);
        }
        i = i + 1;
    }
    None
}

/// Tie group `at` to group `reference` with skew `um`.
fn tie_exec(g: &mut Vec<BusGroup>, at: usize, reference: usize, um: u32)
    requires
        at < old(g)@.len(),
    ensures
        group_views(final(g)@) == tie(group_views(old(g)@), at as int, reference as int, um),
        final(g)@.len() == old(g)@.len(),
{
    let ghost g0 = g@;
    let mut x = g.remove(at);
    x.inter_skew_um = Some(um);
    x.reference_group = Some(reference);
    g.insert(at, x);
    proof {
        assert(g@ =~= g0.update(at as int, x));
        assert(group_views(g@) =~= tie(group_views(g0), at as int, reference as int, um));
    }
}

/// Bus groups among the board's nets. `entries` are the nets as name and id, one per
/// upper-case name, in the order they are walked; names are compared in upper case.
/// For each group definition in turn, each of its name patterns in turn takes every
/// still unassigned net whose name contains it; a group that takes no net is left out. Address and command groups are then tied
/// to the clock group (2 mm), and the first receive-lane group to the first
/// transmit-lane group (1 mm).
pub fn identify_bus_groups(entries: &[(String, u32)]) -> (r: Vec<BusGroup>)
    ensures
        group_views(r@) == bus_groups_spec(entries@),
{
    let mut groups: Vec<BusGroup> = Vec::new();
    let mut assigned: HashSet<u32> = HashSet::new();
    let mut m: usize = 0;
    while m < 23
        invariant
            m <= 23,
            group_defs().len() == 23,
            (group_views(groups@), assigned@) == groups_run(entries@, m as nat),
        decreases 23 - m,
    {
        let (name, priority, skew, pats) = group_def(m);
        let ghost d = group_defs()[m as int];
        let mut ids: Vec<u32> = Vec::new();
        let ghost a0 = assigned@;
        let mut p: usize = 0;
        proof {
            assert(str_texts(pats@) == d.patterns);
        }
        while p < pats.len()
            invariant
                p <= pats@.len(),
                str_texts(pats@) == d.patterns,
                take_patterns(entries@, d.patterns, Seq::empty(), a0, 0) == take_patterns(entries@, d.patterns, ids@, assigned@, p as int),
            decreases pats@.len() - p,
        {
            proof {
                assert(d.patterns[p as int] == pats@[p as int]@);
            }
            take_pattern_exec(entries, pats[p], &mut ids, &mut assigned);
            p = p + 1;
        }
        let ghost g0 = groups@;
        if ids.len() > 0 {
            let nm = chars_of(name);
            groups.push(BusGroup {
                name: string_from_chars(nm.as_slice()),
                net_ids: ids,
                priority,
                intra_skew_um: skew,
                inter_skew_um: None,
                reference_group: None,
            });
            proof {
                assert(group_views(groups@) =~= group_views(g0).push(groups@[m as int - m as int + g0.len() as int].view_spec()));
            }
        }
        m = m + 1;
    }
    let ghost g0 = group_views(groups@);
    proof {
        assert(group_defs().len() == 23);
        assert(g0 == groups_run(entries@, group_defs().len()).0);
    }
    let clk_names: [&str; 1] = ["CLK"];
    let addr_names: [&str; 1] = ["ADDR"];
    let cmd_names: [&str; 1] = ["CMD"];
    let tx_names: [&str; 3] = ["PCIe_TX", "SATA_TX", "USB3_TX"];
    let rx_names: [&str; 3] = ["PCIe_RX", "SATA_RX", "USB3_RX"];
    proof {
        assert(str_texts(clk_names@) =~= seq!["CLK"@]);
        assert(str_texts(addr_names@) =~= seq!["ADDR"@]);
        assert(str_texts(cmd_names@) =~= seq!["CMD"@]);
        assert(str_texts(tx_names@) =~= seq!["PCIe_TX"@, "SATA_TX"@, "USB3_TX"@]);
        assert(str_texts(rx_names@) =~= seq!["PCIe_RX"@, "SATA_RX"@, "USB3_RX"@]);
    }
    let clk = find_named(&groups, clk_names.as_slice());
    let addr = find_named(&groups, addr_names.as_slice());
    let cmd = find_named(&groups, cmd_names.as_slice());
    if let (Some(ci), Some(ai)) = (clk, addr) {
        tie_exec(&mut groups, ai, ci, 2000);
    }
    let ghost g1 = group_views(groups@);
    proof {
        let c = first_named(g0, seq!["CLK"@], 0);
        let a = first_named(g0, seq!["ADDR"@], 0);
        assert(g1 == (if c is Some && a is Some { tie(g0, a->0, c->0, 2000) } else { g0 }));
    }
    if let (Some(ci), Some(mi)) = (clk, cmd) {
        tie_exec(&mut groups, mi, ci, 2000);
    }
    let ghost g2 = group_views(groups@);
    proof {
        let c = first_named(g0, seq!["CLK"@], 0);
        let d = first_named(g0, seq!["CMD"@], 0);
        assert(g2 == (if c is Some && d is Some { tie(g1, d->0, c->0, 2000) } else { g1 }));
    }
    let tx = find_named(&groups, tx_names.as_slice());
    let rx = find_named(&groups, rx_names.as_slice());
    if let (Some(ti), Some(ri)) = (tx, rx) {
        tie_exec(&mut groups, ri, ti, 1000);
    }
    groups
}

} // verus!

verus! {

/// Net `id` is listed in one of the groups `g`.
pub open spec fn listed(g: Seq<BusGroupView>, id: u32) -> bool {
    exists|i: int| 0 <= i < g.len() && (#[trigger] g[i]).net_ids.contains(id)
}

/// The assigned nets are exactly those listed in `g`.
pub open spec fn assigned_listed(g: Seq<BusGroupView>, a: Set<u32>) -> bool {
    forall|id: u32| #[trigger] a.contains(id) <==> listed(g, id)
}

/// Entry `j` matches pattern `pat`: its upper-case name contains it somewhere.
pub open spec fn entry_matches(entries: Seq<(String, u32)>, j: int, pat: Seq<char>) -> bool {
    seq_contains(spec_to_uppercase(entries[j].0@), pat)
}

/// Walking one pattern: ids only grow by newly assigned nets, and every matching entry
/// from `j` on ends up assigned.
proof fn lemma_take_pattern(entries: Seq<(String, u32)>, pat: Seq<char>, ids: Seq<u32>, assigned: Set<u32>, base: Set<u32>, j: int)
    requires
        0 <= j,
        forall|id: u32| #[trigger] assigned.contains(id) <==> base.contains(id) || ids.contains(id),
    ensures
        ({
            let r = take_pattern(entries, pat, ids, assigned, j);
            &&& forall|id: u32| #[trigger] r.1.contains(id) <==> base.contains(id) || r.0.contains(id)
            &&& forall|id: u32| assigned.contains(id) ==> #[trigger] r.1.contains(id)
            &&& forall|k: int| j <= k < entries.len() && #[trigger] entry_matches(entries, k, pat) ==> r.1.contains(entries[k].1)
        }),
    decreases entries.len() - j,
{
    if j < entries.len() {
        if entry_matches(entries, j, pat) && !assigned.contains(entries[j].1) {
            let ids2 = ids.push(entries[j].1);
            let a2 = assigned.insert(entries[j].1);
            assert forall|id: u32| #[trigger] a2.contains(id) <==> base.contains(id) || ids2.contains(id) by {
                if ids.contains(id) {
                    let q = choose|q: int| 0 <= q < ids.len() && ids[q] == id;
                    assert(ids2[q] == id);
                }
                if ids2.contains(id) && id != entries[j].1 {
                    let q = choose|q: int| 0 <= q < ids2.len() && ids2[q] == id;
                    assert(q < ids.len());
                    assert(ids[q] == id);
                }
                if id == entries[j].1 {
                    assert(ids2[ids.len() as int] == id);
                }
            }
            lemma_take_pattern(entries, pat, ids2, a2, base, j + 1);
            let r = take_pattern(entries, pat, ids, assigned, j);
            assert(r == take_pattern(entries, pat, ids2, a2, j + 1));
            assert(a2.contains(entries[j].1));
            assert(r.1.contains(entries[j].1));
        } else {
            lemma_take_pattern(entries, pat, ids, assigned, base, j + 1);
            let r = take_pattern(entries, pat, ids, assigned, j);
            assert(r == take_pattern(entries, pat, ids, assigned, j + 1));
            if entry_matches(entries, j, pat) {
                assert(assigned.contains(entries[j].1));
                assert(r.1.contains(entries[j].1));
            }
        }
    }
}

/// Walking the patterns from `p` on: as for one pattern, for every one of them.
proof fn lemma_take_patterns(entries: Seq<(String, u32)>, pats: Seq<Seq<char>>, ids: Seq<u32>, assigned: Set<u32>, base: Set<u32>, p: int)
    requires
        0 <= p,
        forall|id: u32| #[trigger] assigned.contains(id) <==> base.contains(id) || ids.contains(id),
    ensures
        ({
            let r = take_patterns(entries, pats, ids, assigned, p);
            &&& forall|id: u32| #[trigger] r.1.contains(id) <==> base.contains(id) || r.0.contains(id)
            &&& forall|id: u32| assigned.contains(id) ==> #[trigger] r.1.contains(id)
            &&& forall|q: int, k: int|
                p <= q < pats.len() && 0 <= k < entries.len() && #[trigger] entry_matches(entries, k, pats[q]) ==> r.1.contains(entries[k].1)
        }),
    decreases pats.len() - p,
{
    if p < pats.len() {
        lemma_take_pattern(entries, pats[p], ids, assigned, base, 0);
        let r = take_pattern(entries, pats[p], ids, assigned, 0);
        lemma_take_patterns(entries, pats, r.0, r.1, base, p + 1);
        let rr = take_patterns(entries, pats, ids, assigned, p);
        assert(rr == take_patterns(entries, pats, r.0, r.1, p + 1));
        assert forall|q: int, k: int|
            p <= q < pats.len() && 0 <= k < entries.len() && #[trigger] entry_matches(entries, k, pats[q]) implies rr.1.contains(entries[k].1) by {
            if q == p {
                assert(r.1.contains(entries[k].1));
            }
        }
    }
}

/// After the first `m` definitions, the assigned nets are those listed, and every net
/// matching a pattern of those definitions is assigned.
proof fn lemma_groups_run_cover(entries: Seq<(String, u32)>, m: nat)
    requires
        m <= group_defs().len(),
    ensures
        assigned_listed(groups_run(entries, m).0, groups_run(entries, m).1),
        forall|d: int, q: int, k: int|
            0 <= d < m && 0 <= q < group_defs()[d].patterns.len() && 0 <= k < entries.len()
                && #[trigger] entry_matches(entries, k, group_defs()[d].patterns[q]) ==> groups_run(entries, m).1.contains(entries[k].1),
    decreases m,
{
    if m == 0 {
        let g = groups_run(entries, m).0;
        assert forall|id: u32| #[trigger] groups_run(entries, m).1.contains(id) <==> listed(g, id) by {}
    } else {
        lemma_groups_run_cover(entries, (m - 1) as nat);
        let prev = groups_run(entries, (m - 1) as nat);
        let d = group_defs()[m - 1];
        lemma_take_patterns(entries, d.patterns, Seq::empty(), prev.1, prev.1, 0);
        let r = take_patterns(entries, d.patterns, Seq::empty(), prev.1, 0);
        let cur = groups_run(entries, m);
        if r.0.len() > 0 {
            let ng = BusGroupView {
                name: d.name,
                net_ids: r.0,
                priority: d.priority,
                intra_skew_um: d.skew_um,
                inter_skew_um: None,
                reference_group: None,
            };
            assert(cur.0 == prev.0.push(ng));
            assert forall|id: u32| #[trigger] cur.1.contains(id) <==> listed(cur.0, id) by {
                if prev.1.contains(id) {
                    let i = choose|i: int| 0 <= i < prev.0.len() && (#[trigger] prev.0[i]).net_ids.contains(id);
                    assert(cur.0[i] == prev.0[i]);
                }
                if r.0.contains(id) {
                    assert(cur.0[prev.0.len() as int] == ng);
                }
                if listed(cur.0, id) {
                    let i = choose|i: int| 0 <= i < cur.0.len() && (#[trigger] cur.0[i]).net_ids.contains(id);
                    if i < prev.0.len() {
                        assert(cur.0[i] == prev.0[i]);
                        assert(listed(prev.0, id));
                    }
                }
            }
        } else {
            assert(cur.0 == prev.0);
            assert forall|id: u32| #[trigger] cur.1.contains(id) <==> listed(cur.0, id) by {
                if r.0.contains(id) {
                    assert(false);
                }
            }
        }
    }
}

/// A tie changes no group's nets.
proof fn lemma_tie_keeps_nets(g: Seq<BusGroupView>, at: int, reference: int, um: u32, id: u32)
    requires
        0 <= at < g.len(),
        listed(g, id),
    ensures
        listed(tie(g, at, reference, um), id),
{
    let i = choose|i: int| 0 <= i < g.len() && (#[trigger] g[i]).net_ids.contains(id);
    assert(tie(g, at, reference, um)[i].net_ids == g[i].net_ids);
}

proof fn lemma_first_named_in(g: Seq<BusGroupView>, names: Seq<Seq<char>>, i: int)
    requires
        0 <= i,
    ensures
        first_named(g, names, i) matches Some(k) ==> 0 <= k < g.len(),
    decreases g.len() - i,
{
    if 0 <= i < g.len() && !names.contains(g[i].name) {
        lemma_first_named_in(g, names, i + 1);
    }
}

/// Every net whose upper-case name contains, at any position, a pattern of any group
/// definition is listed in one of the returned groups.
pub proof fn lemma_bus_groups_cover(entries: Seq<(String, u32)>, k: int, d: int, q: int)
    requires
        0 <= k < entries.len(),
        0 <= d < group_defs().len(),
        0 <= q < group_defs()[d].patterns.len(),
        seq_contains(spec_to_uppercase(entries[k].0@), group_defs()[d].patterns[q]),
    ensures
        listed(bus_groups_spec(entries), entries[k].1),
{
    lemma_groups_run_cover(entries, group_defs().len());
    assert(entry_matches(entries, k, group_defs()[d].patterns[q]));
    let g0 = groups_run(entries, group_defs().len()).0;
    let id = entries[k].1;
    assert(listed(g0, id));
    let clk = first_named(g0, seq!["CLK"@], 0);
    let addr = first_named(g0, seq!["ADDR"@], 0);
    let cmd = first_named(g0, seq!["CMD"@], 0);
    lemma_first_named_in(g0, seq!["ADDR"@], 0);
    lemma_first_named_in(g0, seq!["CMD"@], 0);
    let g1 = if clk is Some && addr is Some { tie(g0, addr->0, clk->0, 2000) } else { g0 };
    if clk is Some && addr is Some {
        lemma_tie_keeps_nets(g0, addr->0, clk->0, 2000, id);
    }
    let g2 = if clk is Some && cmd is Some { tie(g1, cmd->0, clk->0, 2000) } else { g1 };
    if clk is Some && cmd is Some {
        lemma_tie_keeps_nets(g1, cmd->0, clk->0, 2000, id);
    }
    let tx = first_named(g2, seq!["PCIe_TX"@, "SATA_TX"@, "USB3_TX"@], 0);
    let rx = first_named(g2, seq!["PCIe_RX"@, "SATA_RX"@, "USB3_RX"@], 0);
    lemma_first_named_in(g2, seq!["PCIe_RX"@, "SATA_RX"@, "USB3_RX"@], 0);
    if tx is Some && rx is Some {
        lemma_tie_keeps_nets(g2, rx->0, tx->0, 1000, id);
    }
}

} // verus!

verus! {

/// Net `x` is an entry whose upper-case name contains a pattern of a definition named
/// `name`.
pub open spec fn from_def(entries: Seq<(String, u32)>, name: Seq<char>, x: u32) -> bool {
    exists|d: int| 0 <= d < group_defs().len() && group_defs()[d].name == name && #[trigger] from_entry_any(entries, group_defs()[d].patterns, 0, x)
}

/// Every net of group `g` is an entry whose upper-case name contains a pattern of the
/// definition that bears the group's name.
pub open spec fn group_sound(entries: Seq<(String, u32)>, g: BusGroupView) -> bool {
    forall|t: int| 0 <= t < g.net_ids.len() ==> from_def(entries, g.name, #[trigger] g.net_ids[t])
}

/// Net `x` is an entry whose upper-case name contains `pat`.
pub open spec fn from_entry(entries: Seq<(String, u32)>, pat: Seq<char>, x: u32) -> bool {
    exists|jj: int| 0 <= jj < entries.len() && entries[jj].1 == x && #[trigger] entry_matches(entries, jj, pat)
}

/// Net `x` is an entry whose upper-case name contains one of the patterns from `p` on.
pub open spec fn from_entry_any(entries: Seq<(String, u32)>, pats: Seq<Seq<char>>, p: int, x: u32) -> bool {
    exists|q: int| p <= q < pats.len() && #[trigger] from_entry(entries, pats[q], x)
}

proof fn lemma_take_pattern_sound(entries: Seq<(String, u32)>, pat: Seq<char>, ids: Seq<u32>, assigned: Set<u32>, j: int)
    requires
        0 <= j,
    ensures
        ({
            let r = take_pattern(entries, pat, ids, assigned, j);
            &&& r.0.len() >= ids.len()
            &&& forall|t: int| 0 <= t < ids.len() ==> #[trigger] r.0[t] == ids[t]
            &&& forall|t: int| ids.len() <= t < r.0.len() ==> from_entry(entries, pat, #[trigger] r.0[t])
        }),
    decreases entries.len() - j,
{
    if j < entries.len() {
        if entry_matches(entries, j, pat) && !assigned.contains(entries[j].1) {
            let ids2 = ids.push(entries[j].1);
            let a2 = assigned.insert(entries[j].1);
            lemma_take_pattern_sound(entries, pat, ids2, a2, j + 1);
            let r = take_pattern(entries, pat, ids, assigned, j);
            let r2 = take_pattern(entries, pat, ids2, a2, j + 1);
            assert(r == r2);
            assert forall|t: int| 0 <= t < ids.len() implies #[trigger] r.0[t] == ids[t] by {
                assert(r2.0[t] == ids2[t]);
            }
            assert forall|t: int| ids.len() <= t < r.0.len() implies from_entry(entries, pat, #[trigger] r.0[t]) by {
                if t == ids.len() {
                    assert(r2.0[t] == ids2[t]);
                    assert(entries[j].1 == r.0[t] && entry_matches(entries, j, pat));
                } else {
                    assert(from_entry(entries, pat, r2.0[t]));
                }
            }
        } else {
            lemma_take_pattern_sound(entries, pat, ids, assigned, j + 1);
            let r = take_pattern(entries, pat, ids, assigned, j);
            let r2 = take_pattern(entries, pat, ids, assigned, j + 1);
            assert(r == r2);
        }
    }
}

proof fn lemma_take_patterns_sound(entries: Seq<(String, u32)>, pats: Seq<Seq<char>>, ids: Seq<u32>, assigned: Set<u32>, p: int)
    requires
        0 <= p,
    ensures
        ({
            let r = take_patterns(entries, pats, ids, assigned, p);
            &&& r.0.len() >= ids.len()
            &&& forall|t: int| 0 <= t < ids.len() ==> #[trigger] r.0[t] == ids[t]
            &&& forall|t: int| ids.len() <= t < r.0.len() ==> from_entry_any(entries, pats, p, #[trigger] r.0[t])
        }),
    decreases pats.len() - p,
{
    if p < pats.len() {
        lemma_take_pattern_sound(entries, pats[p], ids, assigned, 0);
        let r1 = take_pattern(entries, pats[p], ids, assigned, 0);
        lemma_take_patterns_sound(entries, pats, r1.0, r1.1, p + 1);
        let r = take_patterns(entries, pats, ids, assigned, p);
        let r2 = take_patterns(entries, pats, r1.0, r1.1, p + 1);
        assert(r == r2);
        assert forall|t: int| 0 <= t < ids.len() implies #[trigger] r.0[t] == ids[t] by {
            assert(r2.0[t] == r1.0[t]);
        }
        assert forall|t: int| ids.len() <= t < r.0.len() implies from_entry_any(entries, pats, p, #[trigger] r.0[t]) by {
            if t < r1.0.len() {
                assert(r2.0[t] == r1.0[t]);
                assert(from_entry(entries, pats[p], r1.0[t]));
            } else {
                assert(from_entry_any(entries, pats, p + 1, r2.0[t]));
                let q = choose|q: int| p + 1 <= q < pats.len() && #[trigger] from_entry(entries, pats[q], r2.0[t]);
                assert(from_entry(entries, pats[q], r.0[t]));
            }
        }
    }
}

proof fn lemma_groups_run_sound(entries: Seq<(String, u32)>, m: nat)
    requires
        m <= group_defs().len(),
    ensures
        forall|i: int| 0 <= i < groups_run(entries, m).0.len() ==> group_sound(entries, #[trigger] groups_run(entries, m).0[i]),
    decreases m,
{
    if m > 0 {
        lemma_groups_run_sound(entries, (m - 1) as nat);
        let prev = groups_run(entries, (m - 1) as nat);
        let d = group_defs()[m - 1];
        lemma_take_patterns_sound(entries, d.patterns, Seq::empty(), prev.1, 0);
        let r = take_patterns(entries, d.patterns, Seq::empty(), prev.1, 0);
        let cur = groups_run(entries, m);
        if r.0.len() > 0 {
            let ng = BusGroupView {
                name: d.name,
                net_ids: r.0,
                priority: d.priority,
                intra_skew_um: d.skew_um,
                inter_skew_um: None,
                reference_group: None,
            };
            assert(cur.0 == prev.0.push(ng));
            assert(group_sound(entries, ng)) by {
                assert forall|t: int| 0 <= t < ng.net_ids.len() implies from_def(entries, ng.name, #[trigger] ng.net_ids[t]) by {
                    assert(ng.net_ids[t] == r.0[t]);
                    assert(from_entry_any(entries, d.patterns, 0, r.0[t]));
                    assert(group_defs()[m - 1] == d);
                    assert(from_entry_any(entries, group_defs()[m - 1].patterns, 0, ng.net_ids[t]));
                }
            }
            assert forall|i: int| 0 <= i < cur.0.len() implies group_sound(entries, #[trigger] cur.0[i]) by {
                if i < prev.0.len() {
                    assert(cur.0[i] == prev.0[i]);
                }
            }
        } else {
            assert(cur.0 == prev.0);
        }
    }
}

/// Every net of every returned group is an entry whose upper-case name contains one of
/// the name patterns of the group's definition.
pub proof fn lemma_bus_groups_sound(entries: Seq<(String, u32)>)
    ensures
        forall|i: int| 0 <= i < bus_groups_spec(entries).len() ==> group_sound(entries, #[trigger] bus_groups_spec(entries)[i]),
{
    lemma_groups_run_sound(entries, group_defs().len());
    let g0 = groups_run(entries, group_defs().len()).0;
    let clk = first_named(g0, seq!["CLK"@], 0);
    let addr = first_named(g0, seq!["ADDR"@], 0);
    let cmd = first_named(g0, seq!["CMD"@], 0);
    lemma_first_named_in(g0, seq!["ADDR"@], 0);
    lemma_first_named_in(g0, seq!["CMD"@], 0);
    let g1 = if clk is Some && addr is Some { tie(g0, addr->0, clk->0, 2000) } else { g0 };
    assert forall|i: int| 0 <= i < g1.len() implies group_sound(entries, #[trigger] g1[i]) by {
        assert(g1[i].net_ids == g0[i].net_ids && g1[i].name == g0[i].name);
        assert(group_sound(entries, g0[i]));
        assert forall|t: int| 0 <= t < g1[i].net_ids.len() implies from_def(entries, g1[i].name, #[trigger] g1[i].net_ids[t]) by {
            assert(from_def(entries, g0[i].name, g0[i].net_ids[t]));
        }
    }
    let g2 = if clk is Some && cmd is Some { tie(g1, cmd->0, clk->0, 2000) } else { g1 };
    assert forall|i: int| 0 <= i < g2.len() implies group_sound(entries, #[trigger] g2[i]) by {
        assert(g2[i].net_ids == g1[i].net_ids && g2[i].name == g1[i].name);
        assert(group_sound(entries, g1[i]));
        assert forall|t: int| 0 <= t < g2[i].net_ids.len() implies from_def(entries, g2[i].name, #[trigger] g2[i].net_ids[t]) by {
            assert(from_def(entries, g1[i].name, g1[i].net_ids[t]));
        }
    }
    let tx = first_named(g2, seq!["PCIe_TX"@, "SATA_TX"@, "USB3_TX"@], 0);
    let rx = first_named(g2, seq!["PCIe_RX"@, "SATA_RX"@, "USB3_RX"@], 0);
    lemma_first_named_in(g2, seq!["PCIe_RX"@, "SATA_RX"@, "USB3_RX"@], 0);
    let g3 = bus_groups_spec(entries);
    assert forall|i: int| 0 <= i < g3.len() implies group_sound(entries, #[trigger] g3[i]) by {
        assert(g3[i].net_ids == g2[i].net_ids && g3[i].name == g2[i].name);
        assert(group_sound(entries, g2[i]));
        assert forall|t: int| 0 <= t < g3[i].net_ids.len() implies from_def(entries, g3[i].name, #[trigger] g3[i].net_ids[t]) by {
            assert(from_def(entries, g2[i].name, g2[i].net_ids[t]));
        }
    }
}

} // verus!
