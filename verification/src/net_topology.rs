//! Routing topology of multi-pin nets. Pads of a net are classified by the role of
//! their footprint; DDR3 address, command and clock nets that join a controller to
//! memory devices are routed as a fly-by daisy chain, everything else by the default
//! spanning-tree decomposition. Pad positions are integer nanometres.
use vstd::prelude::*;
use crate::text::{contains, seq_contains, seq_starts_with, spec_to_uppercase, starts_with, upper_chars};
use crate::mst::{build_mst_edges, mst_edges_spec, mst_points_spec};
use std::collections::{HashMap, HashSet};

verus! {

/// Routing topology constraint of a multi-pin net.
#[derive(Debug, Clone, Copy, PartialEq, Eq, Structural)]
pub enum TopologyKind {
    /// Default: spanning-tree / three-pin Steiner decomposition.
    Auto,
    /// Fly-by daisy chain: controller, memory devices in order, termination.
    FlyBy,
    /// Controller to a central junction to the endpoints.
    TBranch,
    /// Strict point-to-point (two pins).
    PointToPoint,
}

/// Role of a pad within a net, from its footprint.
#[derive(Debug, Clone, Copy, PartialEq, Eq, Structural)]
pub enum PadRole {
    /// SoC, FPGA or MCU hosting the memory controller.
    Controller,
    /// SDRAM / DDR DRAM package.
    Memory,
    /// Termination resistor.
    Termination,
    /// Anything else.
    Generic,
}

/// Topology of one net: its kind and, for a fly-by chain, the pad indices in visit order
/// (empty otherwise).
pub struct NetTopology {
    pub kind: TopologyKind,
    pub visit_order: Vec<usize>,
}

/// What the role classifier reads of a footprint.
pub struct FootprintInfo {
    pub lib_id: String,
    pub reference: String,
    pub value: String,
    pub pad_count: usize,
}

/// Role of a footprint from its library id, value and reference in upper case and its
/// pad count. First match wins: an `R` reference is a termination resistor; a DRAM
/// library id or a known DRAM part-number prefix is memory; a controller keyword in the
/// library id, or 100 pads or more, is a controller; anything else is generic.
pub open spec fn role_spec(lib: Seq<char>, value: Seq<char>, refdes: Seq<char>, pad_count: nat) -> PadRole {
    if seq_starts_with(refdes, "R"@) {
        PadRole::Termination
    } else if seq_contains(lib, "SDRAM"@) || seq_contains(lib, "DDR3"@) || seq_contains(lib, "DDR4"@)
        || seq_contains(lib, "DRAM"@) || seq_starts_with(value, "MT41"@) || seq_starts_with(
        value,
        "MT47"@,
    ) || seq_starts_with(value, "H5TQ"@) || seq_starts_with(value, "K4B"@) || seq_starts_with(
        value,
        "IS43"@,
    ) || seq_starts_with(value, "AS4C"@) {
        PadRole::Memory
    } else if seq_contains(lib, "FPGA"@) || seq_contains(lib, "SOC"@) || seq_contains(lib, "MCU"@)
        || seq_contains(lib, "STM32"@) || seq_contains(lib, "CPU"@) || seq_contains(lib, "ZYNQ"@)
        || seq_contains(lib, "CYCLONE"@) || seq_contains(lib, "ARTIX"@) || seq_contains(
        lib,
        "KINTEX"@,
    ) || pad_count >= 100 {
        PadRole::Controller
    } else {
        PadRole::Generic
    }
}

/// Role of a footprint whose library id, value and reference are given in upper case.
pub fn role_from_upper(lib: &[char], value: &[char], refdes: &[char], pad_count: usize) -> (r: PadRole)
    ensures
        r == role_spec(lib@, value@, refdes@, pad_count as nat),
{
    if starts_with(refdes, "R") {
        return PadRole::Termination;
    }
    if contains(lib, "SDRAM") || contains(lib, "DDR3") || contains(lib, "DDR4") || contains(
        lib,
        "DRAM",
    ) || starts_with(value, "MT41") || starts_with(value, "MT47") || starts_with(value, "H5TQ")
        || starts_with(value, "K4B") || starts_with(value, "IS43") || starts_with(value, "AS4C") {
        return PadRole::Memory;
    }
    if contains(lib, "FPGA") || contains(lib, "SOC") || contains(lib, "MCU") || contains(
        lib,
        "STM32",
    ) || contains(lib, "CPU") || contains(lib, "ZYNQ") || contains(lib, "CYCLONE") || contains(
        lib,
        "ARTIX",
    ) || contains(lib, "KINTEX") || pad_count >= 100 {
        return PadRole::Controller;
    }
    PadRole::Generic
}

/// Role of a footprint in high-speed topology, from its library id, reference, value
/// (all compared in upper case) and pad count.
pub fn classify_footprint_role(fp: &FootprintInfo) -> (r: PadRole)
    ensures
        r == role_spec(
            spec_to_uppercase(fp.lib_id@),
            spec_to_uppercase(fp.value@),
            spec_to_uppercase(fp.reference@),
            fp.pad_count as nat,
        ),
{
    let lib = upper_chars(fp.lib_id.as_str());
    let value = upper_chars(fp.value.as_str());
    let refdes = upper_chars(fp.reference.as_str());
    role_from_upper(lib.as_slice(), value.as_slice(), refdes.as_slice(), fp.pad_count)
}

/// A net name in upper case that names a DDR3 address, command or clock signal.
pub open spec fn flyby_name_spec(u: Seq<char>) -> bool {
    ||| seq_contains(u, "DDR3_A"@)
    ||| seq_contains(u, "DDR3_BA"@)
    ||| seq_contains(u, "DDR3_CAS"@)
    ||| seq_contains(u, "DDR3_RAS"@)
    ||| seq_contains(u, "DDR3_WE"@)
    ||| seq_contains(u, "DDR3_CK"@)
    ||| seq_contains(u, "DDR3_CKE"@)
    ||| seq_contains(u, "DDR3_ODT"@)
    ||| seq_contains(u, "DDR3_CS"@)
}

/// Whether an upper-case net name names a DDR3 address, command or clock signal.
pub fn is_flyby_net_name(u: &[char]) -> (b: bool)
    ensures
        b == flyby_name_spec(u@),
{
    contains(u, "DDR3_A") || contains(u, "DDR3_BA") || contains(u, "DDR3_CAS") || contains(
        u,
        "DDR3_RAS",
    ) || contains(u, "DDR3_WE") || contains(u, "DDR3_CK") || contains(u, "DDR3_CKE") || contains(
        u,
        "DDR3_ODT",
    ) || contains(u, "DDR3_CS")
}

/// Indices `i` with `roles[i] == r`, ascending.
pub open spec fn role_indices(roles: Seq<PadRole>, r: PadRole) -> Seq<usize>
    decreases roles.len(),
{
    if roles.len() == 0 {
        Seq::empty()
    } else if roles.last() == r {
        role_indices(roles.drop_last(), r).push((roles.len() - 1) as usize)
    } else {
        role_indices(roles.drop_last(), r)
    }
}

/// Sum of the x coordinates of the pads `idx`.
pub open spec fn sum_x(pads: Seq<(i32, i32)>, idx: Seq<usize>) -> int
    decreases idx.len(),
{
    if idx.len() == 0 {
        0
    } else {
        sum_x(pads, idx.drop_last()) + pads[idx.last() as int].0
    }
}

/// Sum of the y coordinates of the pads `idx`.
pub open spec fn sum_y(pads: Seq<(i32, i32)>, idx: Seq<usize>) -> int
    decreases idx.len(),
{
    if idx.len() == 0 {
        0
    } else {
        sum_y(pads, idx.drop_last()) + pads[idx.last() as int].1
    }
}

/// Absolute value.
pub open spec fn abs(v: int) -> int {
    if v < 0 {
        -v
    } else {
        v
    }
}

/// Manhattan distance of pad `c` from the centroid of the pads `mem`, multiplied by
/// their number (so that it stays an integer).
pub open spec fn centroid_key(pads: Seq<(i32, i32)>, mem: Seq<usize>, c: usize) -> int {
    abs(mem.len() * pads[c as int].0 - sum_x(pads, mem)) + abs(mem.len() * pads[c as int].1 - sum_y(pads, mem))
}

/// The first of the controllers `ctrl` with the least centroid key.
pub open spec fn first_min_ctrl(pads: Seq<(i32, i32)>, mem: Seq<usize>, ctrl: Seq<usize>) -> usize
    decreases ctrl.len(),
{
    if ctrl.len() <= 1 {
        ctrl[0]
    } else {
        let b = first_min_ctrl(pads, mem, ctrl.drop_last());
        if centroid_key(pads, mem, ctrl.last()) < centroid_key(pads, mem, b) {
            ctrl.last()
        } else {
            b
        }
    }
}

/// The controller that starts the chain: the first controller when there is no memory,
/// else the first controller closest to the memory centroid.
pub open spec fn flyby_seed(pads: Seq<(i32, i32)>, roles: Seq<PadRole>) -> usize {
    let ctrl = role_indices(roles, PadRole::Controller);
    let mem = role_indices(roles, PadRole::Memory);
    if mem.len() == 0 {
        ctrl[0]
    } else {
        first_min_ctrl(pads, mem, ctrl)
    }
}

/// Manhattan distance between pads `a` and `s`.
pub open spec fn manhattan(pads: Seq<(i32, i32)>, a: usize, s: usize) -> int {
    abs(pads[a as int].0 - pads[s as int].0) + abs(pads[a as int].1 - pads[s as int].1)
}

/// Half-open angular sector of a direction, in the order of increasing `atan2` angle:
/// 0 below the x axis, 1 along the positive x axis (or zero), 2 above, 3 along the
/// negative x axis.
pub open spec fn angle_class(dx: int, dy: int) -> int {
    if dy < 0 {
        0
    } else if dy == 0 && dx >= 0 {
        1
    } else if dy > 0 {
        2
    } else {
        3
    }
}

/// Direction `a` has a smaller `atan2` angle than direction `b` (counter-clockwise from
/// the negative x axis); within a half plane, `b` lies counter-clockwise of `a`.
pub open spec fn angle_before(ax: int, ay: int, bx: int, by: int) -> bool {
    let ca = angle_class(ax, ay);
    let cb = angle_class(bx, by);
    ca < cb || (ca == cb && (ca == 0 || ca == 2) && ax * by - ay * bx > 0)
}

/// Memory pad `a` is visited before memory pad `b` from the seed `s`: it is closer, or
/// as close and at a smaller angle.
pub open spec fn mem_before(pads: Seq<(i32, i32)>, s: usize, a: usize, b: usize) -> bool {
    let da = manhattan(pads, a, s);
    let db = manhattan(pads, b, s);
    ||| da < db
    ||| (da == db && angle_before(
        pads[a as int].0 - pads[s as int].0,
        pads[a as int].1 - pads[s as int].1,
        pads[b as int].0 - pads[s as int].0,
        pads[b as int].1 - pads[s as int].1,
    ))
}

/// `q` with memory pad `x` inserted before the first pad it is visited before.
pub open spec fn insert_mem(pads: Seq<(i32, i32)>, s: usize, q: Seq<usize>, x: usize) -> Seq<usize>
    decreases q.len(),
{
    if q.len() == 0 {
        seq![x]
    } else if mem_before(pads, s, x, q[0]) {
        seq![x] + q
    } else {
        seq![q[0]] + insert_mem(pads, s, q.drop_first(), x)
    }
}

/// Memory pads in visit order: by distance from the seed, then angle, pads that
/// compare equal kept in index order.
pub open spec fn sort_mem(pads: Seq<(i32, i32)>, s: usize, mem: Seq<usize>) -> Seq<usize>
    decreases mem.len(),
{
    if mem.len() == 0 {
        Seq::empty()
    } else {
        insert_mem(pads, s, sort_mem(pads, s, mem.drop_last()), mem.last())
    }
}

/// `q` without the value `v`.
pub open spec fn without(q: Seq<usize>, v: usize) -> Seq<usize>
    decreases q.len(),
{
    if q.len() == 0 {
        Seq::empty()
    } else if q.last() == v {
        without(q.drop_last(), v)
    } else {
        without(q.drop_last(), v).push(q.last())
    }
}

/// The fly-by visit order: the seed controller, the other controllers, the memory
/// pads in visit order, then the termination pads.
pub open spec fn flyby_order(pads: Seq<(i32, i32)>, roles: Seq<PadRole>) -> Seq<usize> {
    let seed = flyby_seed(pads, roles);
    seq![seed] + without(role_indices(roles, PadRole::Controller), seed) + sort_mem(
        pads,
        seed,
        role_indices(roles, PadRole::Memory),
    ) + role_indices(roles, PadRole::Termination)
}

/// Edges joining consecutive entries of a visit order.
pub open spec fn chain_edges(o: Seq<usize>) -> Seq<(usize, usize)> {
    if o.len() == 0 {
        Seq::empty()
    } else {
        Seq::new((o.len() - 1) as nat, |i: int| (o[i], o[i + 1]))
    }
}

/// A fly-by chain can be built: one role per pad, at least two pads, a controller, and
/// a memory or termination pad.
pub open spec fn flyby_applicable(pads: Seq<(i32, i32)>, roles: Seq<PadRole>) -> bool {
    &&& pads.len() == roles.len()
    &&& pads.len() >= 2
    &&& role_indices(roles, PadRole::Controller).len() > 0
    &&& (role_indices(roles, PadRole::Memory).len() > 0 || role_indices(roles, PadRole::Termination).len() > 0)
}

/// Every index that `role_indices` lists is a pad with that role, listed in strictly
/// ascending order, and every pad with that role is listed.
pub proof fn lemma_role_indices(roles: Seq<PadRole>, r: PadRole)
    requires
        roles.len() <= usize::MAX,
    ensures
        role_indices(roles, r).len() <= roles.len(),
        forall|j: int| 0 <= j < role_indices(roles, r).len() ==> (#[trigger] role_indices(roles, r)[j]) < roles.len()
            && roles[role_indices(roles, r)[j] as int] == r,
        forall|j: int, k: int| 0 <= j < k < role_indices(roles, r).len() ==> #[trigger] role_indices(roles, r)[j] < #[trigger] role_indices(roles, r)[k],
        forall|i: int| 0 <= i < roles.len() && roles[i] == r ==> role_indices(roles, r).contains(i as usize),
    decreases roles.len(),
{
    if roles.len() > 0 {
        let d = roles.drop_last();
        lemma_role_indices(d, r);
        let q = role_indices(d, r);
        let full = role_indices(roles, r);
        assert forall|j: int| 0 <= j < q.len() implies roles[q[j] as int] == r by {
            assert(roles[q[j] as int] == d[q[j] as int]);
        }
        if roles.last() == r {
            assert(full == q.push((roles.len() - 1) as usize));
            assert forall|j: int, k: int| 0 <= j < k < full.len() implies #[trigger] full[j] < #[trigger] full[k] by {
                if k < q.len() {
                    assert(full[j] == q[j] && full[k] == q[k]);
                } else {
                    assert(full[j] == q[j]);
                }
            }
        } else {
            assert(full == q);
        }
        assert forall|i: int| 0 <= i < roles.len() && roles[i] == r implies full.contains(i as usize) by {
            if i < roles.len() - 1 {
                assert(d[i] == roles[i]);
                assert(q.contains(i as usize));
                let j = choose|j: int| 0 <= j < q.len() && q[j] == i as usize;
                assert(full[j] == q[j]);
            } else {
                assert(full[full.len() - 1] == i as usize);
            }
        }
    }
}

/// Indices of the pads with role `r`.
fn collect_role(roles: &[PadRole], r: PadRole) -> (v: Vec<usize>)
    ensures
        v@ == role_indices(roles@, r),
{
    let mut v: Vec<usize> = Vec::new();
    let mut i: usize = 0;
    while i < roles.len()
        invariant
            i <= roles@.len(),
            v@ == role_indices(roles@.take(i as int), r),
        decreases roles@.len() - i,
    {
        proof {
            assert(roles@.take(i as int + 1).drop_last() =~= roles@.take(i as int));
        }
        if roles[i] == r {
            v.push(i);
        }
        i = i + 1;
    }
    proof {
        assert(roles@.take(roles@.len() as int) =~= roles@);
    }
    v
}

/// Sums of the coordinates of the pads `mem`.
fn coordinate_sums(pads: &[(i32, i32)], mem: &[usize]) -> (r: (i128, i128))
    requires
        forall|j: int| 0 <= j < mem@.len() ==> (#[trigger] mem@[j]) < pads@.len(),
    ensures
        r.0 == sum_x(pads@, mem@),
        r.1 == sum_y(pads@, mem@),
        abs(r.0 as int) <= mem@.len() * 0x8000_0000,
        abs(r.1 as int) <= mem@.len() * 0x8000_0000,
{
    let mut sx: i128 = 0;
    let mut sy: i128 = 0;
    let mut k: usize = 0;
    while k < mem.len()
        invariant
            k <= mem@.len(),
            forall|j: int| 0 <= j < mem@.len() ==> (#[trigger] mem@[j]) < pads@.len(),
            sx == sum_x(pads@, mem@.take(k as int)),
            sy == sum_y(pads@, mem@.take(k as int)),
            abs(sx as int) <= k * 0x8000_0000,
            abs(sy as int) <= k * 0x8000_0000,
        decreases mem@.len() - k,
    {
        proof {
            assert(mem@.take(k as int + 1).drop_last() =~= mem@.take(k as int));
        }
        let (x, y) = pads[mem[k]];
        sx = sx + x as i128;
        sy = sy + y as i128;
        k = k + 1;
    }
    proof {
        assert(mem@.take(mem@.len() as int) =~= mem@);
    }
    (sx, sy)
}

/// `|a|` for a value far from the ends of the range.
fn abs_i128(a: i128) -> (r: i128)
    requires
        a > i128::MIN,
    ensures
        r == abs(a as int),
{
    if a < 0 {
        -a
    } else {
        a
    }
}

/// Centroid key of controller `c` (scaled by the number of memory pads `n`).
fn centroid_key_exec(pads: &[(i32, i32)], mem: &[usize], c: usize, sx: i128, sy: i128) -> (k: i128)
    requires
        c < pads@.len(),
        sx == sum_x(pads@, mem@),
        sy == sum_y(pads@, mem@),
        abs(sx as int) <= mem@.len() * 0x8000_0000,
        abs(sy as int) <= mem@.len() * 0x8000_0000,
    ensures
        k == centroid_key(pads@, mem@, c),
{
    let n: i128 = mem.len() as i128;
    let (x, y) = pads[c];
    let ghost nn = mem@.len() as int;
    proof {
        assert(abs(nn * (x as int)) <= nn * 0x8000_0000) by (nonlinear_arith)
            requires
                0 <= nn,
                -0x8000_0000 <= x as int <= 0x8000_0000,
        {
        }
        assert(abs(nn * (y as int)) <= nn * 0x8000_0000) by (nonlinear_arith)
            requires
                0 <= nn,
                -0x8000_0000 <= y as int <= 0x8000_0000,
        {
        }
        assert(nn <= usize::MAX);
    }
    let a = n * (x as i128) - sx;
    let b = n * (y as i128) - sy;
    abs_i128(a) + abs_i128(b)
}

/// The first controller with the least centroid key.
fn first_min_controller(pads: &[(i32, i32)], mem: &[usize], ctrl: &[usize]) -> (best: usize)
    requires
        ctrl@.len() > 0,
        forall|j: int| 0 <= j < mem@.len() ==> (#[trigger] mem@[j]) < pads@.len(),
        forall|j: int| 0 <= j < ctrl@.len() ==> (#[trigger] ctrl@[j]) < pads@.len(),
    ensures
        best == first_min_ctrl(pads@, mem@, ctrl@),
{
    let (sx, sy) = coordinate_sums(pads, mem);
    let mut best: usize = ctrl[0];
    let mut best_key: i128 = centroid_key_exec(pads, mem, ctrl[0], sx, sy);
    let mut j: usize = 1;
    proof {
        assert(ctrl@.take(1) =~= seq![ctrl@[0]]);
    }
    while j < ctrl.len()
        invariant
            1 <= j <= ctrl@.len(),
            forall|i: int| 0 <= i < ctrl@.len() ==> (#[trigger] ctrl@[i]) < pads@.len(),
            sx == sum_x(pads@, mem@),
            sy == sum_y(pads@, mem@),
            abs(sx as int) <= mem@.len() * 0x8000_0000,
            abs(sy as int) <= mem@.len() * 0x8000_0000,
            best == first_min_ctrl(pads@, mem@, ctrl@.take(j as int)),
            best < pads@.len(),
            best_key == centroid_key(pads@, mem@, best),
        decreases ctrl@.len() - j,
    {
        proof {
            assert(ctrl@.take(j as int + 1).drop_last() =~= ctrl@.take(j as int));
        }
        let k = centroid_key_exec(pads, mem, ctrl[j], sx, sy);
        if k < best_key {
            best = ctrl[j];
            best_key = k;
        }
        j = j + 1;
    }
    proof {
        assert(ctrl@.take(ctrl@.len() as int) =~= ctrl@);
    }
    best
}

/// Whether memory pad `a` is visited before memory pad `b` from the seed `s`.
fn mem_before_exec(pads: &[(i32, i32)], s: usize, a: usize, b: usize) -> (r: bool)
    requires
        s < pads@.len(),
        a < pads@.len(),
        b < pads@.len(),
    ensures
        r == mem_before(pads@, s, a, b),
{
    let ax: i64 = pads[a].0 as i64 - pads[s].0 as i64;
    let ay: i64 = pads[a].1 as i64 - pads[s].1 as i64;
    let bx: i64 = pads[b].0 as i64 - pads[s].0 as i64;
    let by: i64 = pads[b].1 as i64 - pads[s].1 as i64;
    let da: i64 = (if ax < 0 { -ax } else { ax }) + (if ay < 0 { -ay } else { ay });
    let db: i64 = (if bx < 0 { -bx } else { bx }) + (if by < 0 { -by } else { by });
    if da < db {
        return true;
    }
    if da > db {
        return false;
    }
    let ca: u8 = if ay < 0 { 0 } else if ay == 0 && ax >= 0 { 1 } else if ay > 0 { 2 } else { 3 };
    let cb: u8 = if by < 0 { 0 } else if by == 0 && bx >= 0 { 1 } else if by > 0 { 2 } else { 3 };
    if ca != cb {
        return ca < cb;
    }
    if ca == 1 || ca == 3 {
        return false;
    }
    proof {
        assert(-0x1_0000_0000 <= ax <= 0x1_0000_0000);
        assert(-0x1_0000_0000 <= by <= 0x1_0000_0000);
        assert(abs((ax as int) * (by as int)) <= 0x1_0000_0000 * 0x1_0000_0000) by (nonlinear_arith)
            requires
                -0x1_0000_0000 <= ax <= 0x1_0000_0000,
                -0x1_0000_0000 <= by <= 0x1_0000_0000,
        {
        }
        assert(abs((ay as int) * (bx as int)) <= 0x1_0000_0000 * 0x1_0000_0000) by (nonlinear_arith)
            requires
                -0x1_0000_0000 <= ay <= 0x1_0000_0000,
                -0x1_0000_0000 <= bx <= 0x1_0000_0000,
        {
        }
    }
    let cross: i128 = (ax as i128) * (by as i128) - (ay as i128) * (bx as i128);
    cross > 0
}

/// Insert memory pad `x` into `q` as `insert_mem` does.
fn insert_mem_exec(pads: &[(i32, i32)], s: usize, q: &mut Vec<usize>, x: usize)
    requires
        s < pads@.len(),
        x < pads@.len(),
        forall|j: int| 0 <= j < old(q)@.len() ==> (#[trigger] old(q)@[j]) < pads@.len(),
    ensures
        final(q)@ == insert_mem(pads@, s, old(q)@, x),
{
    let ghost q0 = q@;
    let mut pos: usize = 0;
    proof {
        assert(q0.skip(0) =~= q0);
        assert(q0.take(0) + insert_mem(pads@, s, q0, x) =~= insert_mem(pads@, s, q0, x));
    }
    while pos < q.len() && !mem_before_exec(pads, s, x, q[pos])
        invariant
            pos <= q@.len(),
            q@ == q0,
            s < pads@.len(),
            x < pads@.len(),
            forall|j: int| 0 <= j < q0.len() ==> (#[trigger] q0[j]) < pads@.len(),
            insert_mem(pads@, s, q0, x) == q0.take(pos as int) + insert_mem(pads@, s, q0.skip(pos as int), x),
        decreases q@.len() - pos,
    {
        proof {
            let rest = q0.skip(pos as int);
            assert(rest.drop_first() =~= q0.skip(pos as int + 1));
            assert(q0.take(pos as int) + (seq![rest[0]] + insert_mem(pads@, s, rest.drop_first(), x))
                =~= q0.take(pos as int + 1) + insert_mem(pads@, s, q0.skip(pos as int + 1), x));
        }
        pos = pos + 1;
    }
    proof {
        let rest = q0.skip(pos as int);
        assert(q0.take(pos as int) + insert_mem(pads@, s, rest, x) =~= q0.take(pos as int) + seq![x] + rest);
    }
    q.insert(pos, x);
    proof {
        assert(q@ =~= q0.take(pos as int) + seq![x] + q0.skip(pos as int));
    }
}

/// Every pad that `insert_mem` or `sort_mem` places comes from its input.
proof fn lemma_sort_mem_elems(pads: Seq<(i32, i32)>, s: usize, mem: Seq<usize>)
    ensures
        sort_mem(pads, s, mem).len() == mem.len(),
        forall|j: int| 0 <= j < mem.len() ==> mem.contains(#[trigger] sort_mem(pads, s, mem)[j]),
    decreases mem.len(),
{
    if mem.len() > 0 {
        let d = mem.drop_last();
        lemma_sort_mem_elems(pads, s, d);
        lemma_insert_mem_elems(pads, s, sort_mem(pads, s, d), mem.last());
        assert forall|j: int| 0 <= j < mem.len() implies mem.contains(#[trigger] sort_mem(pads, s, mem)[j]) by {
            let y = sort_mem(pads, s, mem)[j];
            if y == mem.last() {
                assert(mem[mem.len() - 1] == y);
            } else {
                let k = choose|k: int| 0 <= k < d.len() && sort_mem(pads, s, d)[k] == y;
                assert(d.contains(y));
                let i = choose|i: int| 0 <= i < d.len() && d[i] == y;
                assert(mem[i] == y);
            }
        }
    }
}

/// `insert_mem` adds exactly the one pad.
proof fn lemma_insert_mem_elems(pads: Seq<(i32, i32)>, s: usize, q: Seq<usize>, x: usize)
    ensures
        insert_mem(pads, s, q, x).len() == q.len() + 1,
        forall|j: int| 0 <= j < q.len() + 1 ==> (#[trigger] insert_mem(pads, s, q, x)[j] == x || q.contains(insert_mem(pads, s, q, x)[j])),
        insert_mem(pads, s, q, x).to_multiset() == q.to_multiset().insert(x),
    decreases q.len(),
{
    broadcast use vstd::seq_lib::group_to_multiset_ensures;
    if q.len() > 0 && !mem_before(pads, s, x, q[0]) {
        let r = q.drop_first();
        lemma_insert_mem_elems(pads, s, r, x);
        assert forall|j: int| 0 <= j < q.len() + 1 implies (#[trigger] insert_mem(pads, s, q, x)[j] == x || q.contains(insert_mem(pads, s, q, x)[j])) by {
            if j == 0 {
                assert(q[0] == insert_mem(pads, s, q, x)[j]);
            } else {
                let y = insert_mem(pads, s, q, x)[j];
                assert(y == insert_mem(pads, s, r, x)[j - 1]);
                if y != x {
                    let k = choose|k: int| 0 <= k < r.len() && r[k] == y;
                    assert(q[k + 1] == y);
                }
            }
        }
        assert(q =~= seq![q[0]] + r);
        vstd::seq_lib::lemma_multiset_commutative(seq![q[0]], r);
        vstd::seq_lib::lemma_multiset_commutative(seq![q[0]], insert_mem(pads, s, r, x));
        assert(insert_mem(pads, s, q, x).to_multiset() =~= q.to_multiset().insert(x));
    } else if q.len() > 0 {
        assert forall|j: int| 0 <= j < q.len() + 1 implies (#[trigger] insert_mem(pads, s, q, x)[j] == x || q.contains(insert_mem(pads, s, q, x)[j])) by {
            if j > 0 {
                assert(q[j - 1] == insert_mem(pads, s, q, x)[j]);
            }
        }
        vstd::seq_lib::lemma_multiset_commutative(seq![x], q);
        assert(insert_mem(pads, s, q, x).to_multiset() =~= q.to_multiset().insert(x));
    } else {
        assert(insert_mem(pads, s, q, x).to_multiset() =~= q.to_multiset().insert(x));
    }
}

/// Memory pads in visit order.
fn sort_mem_exec(pads: &[(i32, i32)], s: usize, mem: &[usize]) -> (q: Vec<usize>)
    requires
        s < pads@.len(),
        forall|j: int| 0 <= j < mem@.len() ==> (#[trigger] mem@[j]) < pads@.len(),
    ensures
        q@ == sort_mem(pads@, s, mem@),
{
    let mut q: Vec<usize> = Vec::new();
    let mut i: usize = 0;
    while i < mem.len()
        invariant
            i <= mem@.len(),
            s < pads@.len(),
            forall|j: int| 0 <= j < mem@.len() ==> (#[trigger] mem@[j]) < pads@.len(),
            q@ == sort_mem(pads@, s, mem@.take(i as int)),
        decreases mem@.len() - i,
    {
        proof {
            assert(mem@.take(i as int + 1).drop_last() =~= mem@.take(i as int));
            lemma_sort_mem_elems(pads@, s, mem@.take(i as int));
            assert forall|j: int| 0 <= j < q@.len() implies (#[trigger] q@[j]) < pads@.len() by {
                assert(mem@.take(i as int).contains(q@[j]));
                let k = choose|k: int| 0 <= k < i && mem@.take(i as int)[k] == q@[j];
                assert(mem@[k] == q@[j]);
            }
        }
        insert_mem_exec(pads, s, &mut q, mem[i]);
        i = i + 1;
    }
    proof {
        assert(mem@.take(mem@.len() as int) =~= mem@);
    }
    q
}

/// `q` without the value `v`.
fn without_exec(q: &[usize], v: usize) -> (r: Vec<usize>)
    ensures
        r@ == without(q@, v),
{
    let mut r: Vec<usize> = Vec::new();
    let mut i: usize = 0;
    while i < q.len()
        invariant
            i <= q@.len(),
            r@ == without(q@.take(i as int), v),
        decreases q@.len() - i,
    {
        proof {
            assert(q@.take(i as int + 1).drop_last() =~= q@.take(i as int));
        }
        if q[i] != v {
            r.push(q[i]);
        }
        i = i + 1;
    }
    proof {
        assert(q@.take(q@.len() as int) =~= q@);
    }
    r
}

/// Edges joining consecutive entries of `o`.
fn chain_edges_exec(o: &[usize]) -> (e: Vec<(usize, usize)>)
    ensures
        e@ == chain_edges(o@),
{
    let mut e: Vec<(usize, usize)> = Vec::new();
    if o.len() == 0 {
        return e;
    }
    let mut k: usize = 0;
    while k < o.len() - 1
        invariant
            o@.len() >= 1,
            k + 1 <= o@.len(),
            e@ == chain_edges(o@).take(k as int),
        decreases o@.len() - k,
    {
        e.push((o[k], o[k + 1]));
        k = k + 1;
        proof {
            assert(e@ =~= chain_edges(o@).take(k as int));
        }
    }
    proof {
        assert(chain_edges(o@).take(k as int) =~= chain_edges(o@));
    }
    e
}

/// Fly-by daisy chain of a net. The seed controller (the first controller when there is
/// no memory pad, else the first one closest to the memory pads' centroid) starts the
/// chain; the other controllers follow, then the memory pads by Manhattan distance from
/// the seed (ties by angle, then index), then the termination pads. The edges join
/// consecutive pads; there are no Steiner points. `None` when the pad and role counts
/// differ, there are fewer than two pads, no controller, or neither memory nor
/// termination.
pub fn build_flyby_edges(pads: &[(i32, i32)], roles: &[PadRole]) -> (r: Option<(Vec<(usize, usize)>, Vec<(i32, i32)>)>)
    ensures
        match r {
            Some(res) => flyby_applicable(pads@, roles@) && res.0@ == chain_edges(flyby_order(pads@, roles@)) && res.1@.len() == 0,
            None => !flyby_applicable(pads@, roles@),
        },
{
    if pads.len() != roles.len() || pads.len() < 2 {
        return None;
    }
    let ctrl = collect_role(roles, PadRole::Controller);
    let mem = collect_role(roles, PadRole::Memory);
    let term = collect_role(roles, PadRole::Termination);
    if ctrl.len() == 0 || (mem.len() == 0 && term.len() == 0) {
        return None;
    }
    proof {
        lemma_role_indices(roles@, PadRole::Controller);
        lemma_role_indices(roles@, PadRole::Memory);
        lemma_role_indices(roles@, PadRole::Termination);
    }
    let seed: usize = if mem.len() == 0 {
        ctrl[0]
    } else {
        first_min_controller(pads, mem.as_slice(), ctrl.as_slice())
    };
    proof {
        if mem@.len() > 0 {
            lemma_first_min_in(pads@, mem@, ctrl@);
        }
    }
    let mut order: Vec<usize> = Vec::new();
    order.push(seed);
    let others = without_exec(ctrl.as_slice(), seed);
    let sorted = sort_mem_exec(pads, seed, mem.as_slice());
    crate::text::append_usize(&mut order, others.as_slice());
    crate::text::append_usize(&mut order, sorted.as_slice());
    crate::text::append_usize(&mut order, term.as_slice());
    proof {
        assert(order@ =~= flyby_order(pads@, roles@));
    }
    let edges = chain_edges_exec(order.as_slice());
    Some((edges, Vec::new()))
}

/// The controller that `first_min_ctrl` picks is one of the controllers.
proof fn lemma_first_min_in(pads: Seq<(i32, i32)>, mem: Seq<usize>, ctrl: Seq<usize>)
    requires
        ctrl.len() > 0,
    ensures
        ctrl.contains(first_min_ctrl(pads, mem, ctrl)),
    decreases ctrl.len(),
{
    if ctrl.len() == 1 {
        assert(ctrl[0] == first_min_ctrl(pads, mem, ctrl));
    } else {
        lemma_first_min_in(pads, mem, ctrl.drop_last());
        let b = first_min_ctrl(pads, mem, ctrl.drop_last());
        if first_min_ctrl(pads, mem, ctrl) == b {
            let k = choose|k: int| 0 <= k < ctrl.len() - 1 && ctrl.drop_last()[k] == b;
            assert(ctrl[k] == b);
        } else {
            assert(ctrl[ctrl.len() - 1] == first_min_ctrl(pads, mem, ctrl));
        }
    }
}

/// The pad sequence an edge list walks: the first edge's start, then each edge's end.
pub open spec fn visit_of(edges: Seq<(usize, usize)>) -> Seq<usize> {
    if edges.len() == 0 {
        Seq::empty()
    } else {
        seq![edges[0].0] + edges.map_values(|e: (usize, usize)| e.1)
    }
}

/// The linear visit order implied by an edge list that forms a simple path.
pub fn derive_visit_order(edges: &[(usize, usize)], n_pads: usize) -> (order: Vec<usize>)
    ensures
        order@ == visit_of(edges@),
{
    let mut order: Vec<usize> = Vec::new();
    if edges.len() == 0 {
        return order;
    }
    order.push(edges[0].0);
    let mut k: usize = 0;
    while k < edges.len()
        invariant
            k <= edges@.len(),
            edges@.len() > 0,
            order@ == seq![edges@[0].0] + edges@.map_values(|e: (usize, usize)| e.1).take(k as int),
        decreases edges@.len() - k,
    {
        order.push(edges[k].1);
        k = k + 1;
        proof {
            assert(order@ =~= seq![edges@[0].0] + edges@.map_values(|e: (usize, usize)| e.1).take(k as int));
        }
    }
    proof {
        assert(edges@.map_values(|e: (usize, usize)| e.1).take(k as int) =~= edges@.map_values(|e: (usize, usize)| e.1));
    }
    order
}

/// Walking the edges of a chain gives the chain back.
pub proof fn lemma_visit_of_chain(o: Seq<usize>)
    requires
        o.len() >= 2,
    ensures
        visit_of(chain_edges(o)) == o,
{
    let e = chain_edges(o);
    assert(visit_of(e) =~= o) by {
        assert forall|i: int| 0 <= i < o.len() implies visit_of(e)[i] == o[i] by {
            if i > 0 {
                assert(e.map_values(|x: (usize, usize)| x.1)[i - 1] == e[i - 1].1);
            }
        }
    }
}

/// A net is routed fly-by: its upper-case name is a DDR3 address, command or clock
/// name, it has three pads or more with one role each, and it has a controller and a
/// memory pad.
pub open spec fn is_flyby_net(upper: Seq<char>, pads: Seq<(i32, i32)>, roles: Seq<PadRole>) -> bool {
    &&& flyby_name_spec(upper)
    &&& pads.len() >= 3
    &&& roles.len() == pads.len()
    &&& role_indices(roles, PadRole::Controller).len() > 0
    &&& role_indices(roles, PadRole::Memory).len() > 0
}

/// Whether some role is `r`.
fn has_role(roles: &[PadRole], r: PadRole) -> (b: bool)
    ensures
        b == (role_indices(roles@, r).len() > 0),
{
    let v = collect_role(roles, r);
    v.len() > 0
}

/// Topology of a net whose name is given in upper case: fly-by with the chain's visit
/// order when `is_flyby_net` holds, else `Auto` with no visit order.
pub fn analyze_net_topology_upper(upper: &[char], pads: &[(i32, i32)], roles: &[PadRole]) -> (t: NetTopology)
    ensures
        is_flyby_net(upper@, pads@, roles@) ==> t.kind == TopologyKind::FlyBy && t.visit_order@ == flyby_order(pads@, roles@),
        !is_flyby_net(upper@, pads@, roles@) ==> t.kind == TopologyKind::Auto && t.visit_order@.len() == 0,
{
    if !is_flyby_net_name(upper) || pads.len() < 3 || roles.len() != pads.len() {
        return NetTopology { kind: TopologyKind::Auto, visit_order: Vec::new() };
    }
    if !has_role(roles, PadRole::Controller) || !has_role(roles, PadRole::Memory) {
        return NetTopology { kind: TopologyKind::Auto, visit_order: Vec::new() };
    }
    match build_flyby_edges(pads, roles) {
        Some((edges, _)) => {
            let visit_order = derive_visit_order(edges.as_slice(), pads.len());
            proof {
                let o = flyby_order(pads@, roles@);
                assert(o.len() >= 2);
                lemma_visit_of_chain(o);
            }
            NetTopology { kind: TopologyKind::FlyBy, visit_order }
        },
        None => NetTopology { kind: TopologyKind::Auto, visit_order: Vec::new() },
    }
}

/// Topology of a net from its name (compared in upper case), pad positions and pad
/// roles: fly-by for DDR3 address, command and clock nets with three pads or more that
/// join a controller to memory, else `Auto`.
pub fn analyze_net_topology(net_name: &str, pads: &[(i32, i32)], roles: &[PadRole]) -> (t: NetTopology)
    ensures
        is_flyby_net(spec_to_uppercase(net_name@), pads@, roles@) ==> t.kind == TopologyKind::FlyBy
            && t.visit_order@ == flyby_order(pads@, roles@),
        !is_flyby_net(spec_to_uppercase(net_name@), pads@, roles@) ==> t.kind == TopologyKind::Auto
            && t.visit_order@.len() == 0,
{
    let u = upper_chars(net_name);
    analyze_net_topology_upper(u.as_slice(), pads, roles)
}

/// `without` keeps exactly the other values, and keeps a sequence free of duplicates.
proof fn lemma_without(q: Seq<usize>, v: usize)
    ensures
        forall|x: usize|
            #![trigger without(q, v).contains(x)]
            #![trigger q.contains(x)]
            without(q, v).contains(x) <==> (q.contains(x) && x != v),
        q.no_duplicates() ==> without(q, v).no_duplicates(),
    decreases q.len(),
{
    if q.len() > 0 {
        let d = q.drop_last();
        lemma_without(d, v);
        let w = without(d, v);
        assert forall|x: usize| without(q, v).contains(x) <==> (q.contains(x) && x != v) by {
            if q.contains(x) && x != v {
                let k = choose|k: int| 0 <= k < q.len() && q[k] == x;
                if k < q.len() - 1 {
                    assert(d[k] == x);
                    assert(w.contains(x));
                    let j = choose|j: int| 0 <= j < w.len() && w[j] == x;
                    if q.last() != v {
                        assert(without(q, v)[j] == x);
                    }
                } else {
                    assert(without(q, v)[without(q, v).len() - 1] == x);
                }
            }
            if without(q, v).contains(x) {
                let j = choose|j: int| 0 <= j < without(q, v).len() && without(q, v)[j] == x;
                if q.last() != v && j == w.len() {
                    assert(q[q.len() - 1] == x);
                } else {
                    assert(w[j] == x);
                    assert(w.contains(x));
                    assert(d.contains(x));
                    let k = choose|k: int| 0 <= k < d.len() && d[k] == x;
                    assert(d[k] == q[k]);
                }
            }
        }
        if q.no_duplicates() {
            assert(d.no_duplicates()) by {
                assert forall|i: int, j: int| 0 <= i < d.len() && 0 <= j < d.len() && i != j implies d[i] != d[j] by {
                    assert(d[i] == q[i] && d[j] == q[j]);
                }
            }
            if q.last() != v {
                assert(!w.contains(q.last())) by {
                    if w.contains(q.last()) {
                        let k = choose|k: int| 0 <= k < d.len() && d[k] == q.last();
                        assert(q[k] == q[q.len() - 1]);
                    }
                }
                assert forall|i: int, j: int| 0 <= i < w.len() + 1 && 0 <= j < w.len() + 1 && i != j implies without(q, v)[i] != without(q, v)[j] by {
                    if i == w.len() {
                        assert(without(q, v)[j] == w[j]);
                        assert(w.contains(w[j]));
                    } else if j == w.len() {
                        assert(without(q, v)[i] == w[i]);
                        assert(w.contains(w[i]));
                    } else {
                        assert(without(q, v)[i] == w[i] && without(q, v)[j] == w[j]);
                    }
                }
            }
        }
    }
}

/// `sort_mem` rearranges its input: the same pads, each as often.
proof fn lemma_sort_mem_multiset(pads: Seq<(i32, i32)>, s: usize, mem: Seq<usize>)
    ensures
        sort_mem(pads, s, mem).to_multiset() == mem.to_multiset(),
    decreases mem.len(),
{
    broadcast use vstd::seq_lib::group_to_multiset_ensures;
    if mem.len() > 0 {
        let d = mem.drop_last();
        lemma_sort_mem_multiset(pads, s, d);
        lemma_insert_mem_elems(pads, s, sort_mem(pads, s, d), mem.last());
        assert(d.push(mem.last()) =~= mem);
    }
}

/// A strictly ascending sequence has no duplicates.
proof fn lemma_ascending_no_dup(q: Seq<usize>)
    requires
        forall|j: int, k: int| 0 <= j < k < q.len() ==> #[trigger] q[j] < #[trigger] q[k],
    ensures
        q.no_duplicates(),
{
    assert forall|i: int, j: int| 0 <= i < q.len() && 0 <= j < q.len() && i != j implies q[i] != q[j] by {
        if i < j {
            assert(q[i] < q[j]);
        } else {
            assert(q[j] < q[i]);
        }
    }
}

/// The fly-by chain starts at a controller and visits every controller, memory and
/// termination pad exactly once, and no other pad.
pub proof fn lemma_flyby_visits_each_pad_once(pads: Seq<(i32, i32)>, roles: Seq<PadRole>)
    requires
        flyby_applicable(pads, roles),
        roles.len() <= usize::MAX,
    ensures
        flyby_order(pads, roles).no_duplicates(),
        roles[flyby_order(pads, roles)[0] as int] == PadRole::Controller,
        forall|k: int| 0 <= k < flyby_order(pads, roles).len() ==> (#[trigger] flyby_order(pads, roles)[k]) < roles.len(),
        forall|i: int| 0 <= i < roles.len() ==> (flyby_order(pads, roles).contains(i as usize) <==> roles[i] != PadRole::Generic),
{
    broadcast use vstd::seq_lib::group_to_multiset_ensures;
    let ctrl = role_indices(roles, PadRole::Controller);
    let mem = role_indices(roles, PadRole::Memory);
    let term = role_indices(roles, PadRole::Termination);
    lemma_role_indices(roles, PadRole::Controller);
    lemma_role_indices(roles, PadRole::Memory);
    lemma_role_indices(roles, PadRole::Termination);
    let seed = flyby_seed(pads, roles);
    if mem.len() > 0 {
        lemma_first_min_in(pads, mem, ctrl);
    } else {
        assert(ctrl.contains(ctrl[0]));
    }
    assert(ctrl.contains(seed));
    let sk = choose|k: int| 0 <= k < ctrl.len() && ctrl[k] == seed;
    assert(roles[seed as int] == PadRole::Controller);
    lemma_ascending_no_dup(ctrl);
    lemma_ascending_no_dup(mem);
    lemma_ascending_no_dup(term);
    lemma_without(ctrl, seed);
    let others = without(ctrl, seed);
    let sorted = sort_mem(pads, seed, mem);
    lemma_sort_mem_multiset(pads, seed, mem);
    mem.lemma_multiset_has_no_duplicates();
    sorted.lemma_multiset_has_no_duplicates_conv();
    assert forall|x: usize| sorted.contains(x) <==> mem.contains(x) by {
        assert(sorted.to_multiset().count(x) == mem.to_multiset().count(x));
    }
    let head = seq![seed];
    let a = head + others;
    let b = a + sorted;
    let o = b + term;
    assert(o =~= flyby_order(pads, roles));
    // Roles of the parts.
    assert forall|k: int| 0 <= k < others.len() implies roles[others[k] as int] == PadRole::Controller && others[k] != seed && others[k] < roles.len() by {
        assert(others.contains(others[k]));
        let j = choose|j: int| 0 <= j < ctrl.len() && ctrl[j] == others[k];
    }
    assert forall|k: int| 0 <= k < sorted.len() implies roles[sorted[k] as int] == PadRole::Memory && sorted[k] < roles.len() by {
        assert(sorted.contains(sorted[k]));
        let j = choose|j: int| 0 <= j < mem.len() && mem[j] == sorted[k];
    }
    // No duplicates.
    assert(head.no_duplicates());
    vstd::seq_lib::lemma_no_dup_in_concat(head, others);
    assert forall|i: int, j: int| 0 <= i < a.len() && 0 <= j < sorted.len() implies a[i] != sorted[j] by {
        if i == 0 {
            assert(a[i] == seed);
        } else {
            assert(a[i] == others[i - 1]);
        }
    }
    vstd::seq_lib::lemma_no_dup_in_concat(a, sorted);
    assert forall|i: int, j: int| 0 <= i < b.len() && 0 <= j < term.len() implies b[i] != term[j] by {
        if i == 0 {
            assert(b[i] == seed);
        } else if i < a.len() {
            assert(b[i] == others[i - 1]);
        } else {
            assert(b[i] == sorted[i - a.len()]);
        }
    }
    vstd::seq_lib::lemma_no_dup_in_concat(b, term);
    // Every element is a pad index.
    assert forall|k: int| 0 <= k < o.len() implies (#[trigger] o[k]) < roles.len() by {
        if k == 0 {
        } else if k < a.len() {
            assert(o[k] == others[k - 1]);
        } else if k < b.len() {
            assert(o[k] == sorted[k - a.len()]);
        } else {
            assert(o[k] == term[k - b.len()]);
        }
    }
    // Exactly the non-generic pads.
    assert forall|i: int| 0 <= i < roles.len() implies (o.contains(i as usize) <==> roles[i] != PadRole::Generic) by {
        if o.contains(i as usize) {
            let k = choose|k: int| 0 <= k < o.len() && o[k] == i as usize;
            if k == 0 {
            } else if k < a.len() {
                assert(o[k] == others[k - 1]);
            } else if k < b.len() {
                assert(o[k] == sorted[k - a.len()]);
            } else {
                assert(o[k] == term[k - b.len()]);
                assert(roles[term[k - b.len()] as int] == PadRole::Termination);
            }
        }
        if roles[i] == PadRole::Controller {
            assert(ctrl.contains(i as usize));
            if i as usize == seed {
                assert(o[0] == i as usize);
            } else {
                assert(others.contains(i as usize));
                let k = choose|k: int| 0 <= k < others.len() && others[k] == i as usize;
                assert(o[k + 1] == i as usize);
            }
        } else if roles[i] == PadRole::Memory {
            assert(mem.contains(i as usize));
            assert(sorted.contains(i as usize));
            let k = choose|k: int| 0 <= k < sorted.len() && sorted[k] == i as usize;
            assert(o[a.len() + k] == i as usize);
        } else if roles[i] == PadRole::Termination {
            assert(term.contains(i as usize));
            let k = choose|k: int| 0 <= k < term.len() && term[k] == i as usize;
            assert(o[b.len() + k] == i as usize);
        }
    }
}

/// The pads of a net that are not generic.
pub open spec fn non_generic_pads(roles: Seq<PadRole>) -> Set<usize> {
    Set::new(|i: usize| (i as int) < roles.len() && roles[i as int] != PadRole::Generic)
}

/// How many pads of a net are not generic.
pub open spec fn non_generic_count(roles: Seq<PadRole>) -> nat
    decreases roles.len(),
{
    if roles.len() == 0 {
        0
    } else {
        non_generic_count(roles.drop_last()) + if roles.last() != PadRole::Generic { 1nat } else { 0nat }
    }
}

/// `non_generic_count` counts `non_generic_pads`.
proof fn lemma_non_generic_count(roles: Seq<PadRole>)
    requires
        roles.len() <= usize::MAX,
    ensures
        non_generic_pads(roles).finite(),
        non_generic_pads(roles).len() == non_generic_count(roles),
    decreases roles.len(),
{
    if roles.len() == 0 {
        assert(non_generic_pads(roles) =~= Set::empty());
    } else {
        let d = roles.drop_last();
        lemma_non_generic_count(d);
        let n = (roles.len() - 1) as usize;
        assert(!non_generic_pads(d).contains(n));
        if roles.last() != PadRole::Generic {
            assert(non_generic_pads(roles) =~= non_generic_pads(d).insert(n));
        } else {
            assert(non_generic_pads(roles) =~= non_generic_pads(d));
        }
    }
}

/// A fly-by chain joins every non-generic pad of the net once, so it has one edge fewer
/// than the net has non-generic pads.
pub proof fn lemma_flyby_edge_count(pads: Seq<(i32, i32)>, roles: Seq<PadRole>)
    requires
        flyby_applicable(pads, roles),
        roles.len() <= usize::MAX,
    ensures
        chain_edges(flyby_order(pads, roles)).len() + 1 == non_generic_count(roles),
{
    lemma_flyby_visits_each_pad_once(pads, roles);
    lemma_non_generic_count(roles);
    let o = flyby_order(pads, roles);
    o.unique_seq_to_set();
    assert forall|x: usize| o.to_set().contains(x) <==> non_generic_pads(roles).contains(x) by {
        if o.contains(x) {
            let k = choose|k: int| 0 <= k < o.len() && o[k] == x;
            assert(o[k] < roles.len());
            assert(x as int as usize == x);
        }
    }
    assert(o.to_set() =~= non_generic_pads(roles));
    assert(o.len() >= 1);
}

/// `first_min_ctrl` picks a controller with the least centroid key, and every controller
/// listed before it has a greater key.
proof fn lemma_first_min_ctrl(pads: Seq<(i32, i32)>, mem: Seq<usize>, ctrl: Seq<usize>)
    requires
        ctrl.len() > 0,
    ensures
        exists|i: int|
            0 <= i < ctrl.len() && ctrl[i] == first_min_ctrl(pads, mem, ctrl) && (forall|k: int|
                0 <= k < i ==> centroid_key(pads, mem, #[trigger] ctrl[k]) > centroid_key(pads, mem, first_min_ctrl(pads, mem, ctrl))),
        forall|k: int|
            0 <= k < ctrl.len() ==> centroid_key(pads, mem, first_min_ctrl(pads, mem, ctrl)) <= centroid_key(pads, mem, #[trigger] ctrl[k]),
    decreases ctrl.len(),
{
    let r = first_min_ctrl(pads, mem, ctrl);
    if ctrl.len() == 1 {
        assert(ctrl[0] == r);
    } else {
        let d = ctrl.drop_last();
        lemma_first_min_ctrl(pads, mem, d);
        let b = first_min_ctrl(pads, mem, d);
        let i = choose|i: int|
            0 <= i < d.len() && d[i] == b && (forall|k: int| 0 <= k < i ==> centroid_key(pads, mem, #[trigger] d[k]) > centroid_key(pads, mem, b));
        if centroid_key(pads, mem, ctrl.last()) < centroid_key(pads, mem, b) {
            assert(r == ctrl.last());
            assert forall|k: int| 0 <= k < ctrl.len() - 1 implies centroid_key(pads, mem, #[trigger] ctrl[k]) > centroid_key(pads, mem, r) by {
                assert(ctrl[k] == d[k]);
            }
            assert(ctrl[ctrl.len() - 1] == r);
        } else {
            assert(r == b);
            assert forall|k: int| 0 <= k < i implies centroid_key(pads, mem, #[trigger] ctrl[k]) > centroid_key(pads, mem, r) by {
                assert(ctrl[k] == d[k]);
            }
            assert(ctrl[i] == r);
            assert forall|k: int| 0 <= k < ctrl.len() implies centroid_key(pads, mem, r) <= centroid_key(pads, mem, #[trigger] ctrl[k]) by {
                if k < ctrl.len() - 1 {
                    assert(ctrl[k] == d[k]);
                }
            }
        }
    }
}

/// `without` keeps a strictly ascending sequence strictly ascending.
proof fn lemma_without_ascending(q: Seq<usize>, v: usize)
    requires
        forall|j: int, k: int| 0 <= j < k < q.len() ==> #[trigger] q[j] < #[trigger] q[k],
    ensures
        forall|j: int, k: int| 0 <= j < k < without(q, v).len() ==> #[trigger] without(q, v)[j] < #[trigger] without(q, v)[k],
    decreases q.len(),
{
    if q.len() > 0 {
        let d = q.drop_last();
        lemma_without_ascending(d, v);
        lemma_without(d, v);
        let w = without(d, v);
        if q.last() != v {
            let w2 = w.push(q.last());
            assert(without(q, v) == w2);
            assert forall|j: int, k: int| 0 <= j < k < w2.len() implies #[trigger] w2[j] < #[trigger] w2[k] by {
                if k == w2.len() - 1 {
                    assert(w.contains(w[j]));
                    assert(d.contains(w[j]));
                    let m = choose|m: int| 0 <= m < d.len() && d[m] == w[j];
                    assert(q[m] < q[q.len() - 1]);
                } else {
                    assert(w2[j] == w[j] && w2[k] == w[k]);
                }
            }
        }
    }
}

/// The fly-by chain starts at a controller closest to the memory centroid (the lowest
/// index among equally close ones), or at the first controller when there is no
/// memory; the other controllers follow in index order.
pub proof fn lemma_flyby_seed_and_controllers(pads: Seq<(i32, i32)>, roles: Seq<PadRole>)
    requires
        flyby_applicable(pads, roles),
        roles.len() <= usize::MAX,
    ensures
        ({
            let o = flyby_order(pads, roles);
            let ctrl = role_indices(roles, PadRole::Controller);
            let mem = role_indices(roles, PadRole::Memory);
            let c: int = 1 + without(ctrl, o[0]).len() as int;
            &&& roles[o[0] as int] == PadRole::Controller
            &&& mem.len() == 0 ==> forall|i: int| 0 <= i < o[0] ==> roles[i] != PadRole::Controller
            &&& mem.len() > 0 ==> forall|i: int|
                0 <= i < roles.len() && roles[i] == PadRole::Controller ==> centroid_key(pads, mem, o[0]) <= centroid_key(
                    pads,
                    mem,
                    i as usize,
                ) && (i < o[0] ==> centroid_key(pads, mem, o[0]) < centroid_key(pads, mem, i as usize))
            &&& forall|a: int, b: int| 1 <= a < b < c ==> #[trigger] o[a] < #[trigger] o[b]
            &&& forall|a: int| 1 <= a < c ==> roles[#[trigger] o[a] as int] == PadRole::Controller
        }),
{
    lemma_flyby_visits_each_pad_once(pads, roles);
    let o = flyby_order(pads, roles);
    let ctrl = role_indices(roles, PadRole::Controller);
    let mem = role_indices(roles, PadRole::Memory);
    lemma_role_indices(roles, PadRole::Controller);
    let seed = flyby_seed(pads, roles);
    assert(o[0] == seed);
    let others = without(ctrl, seed);
    lemma_without(ctrl, seed);
    lemma_without_ascending(ctrl, seed);
    let c: int = 1 + others.len() as int;
    assert forall|a: int| 1 <= a < c implies #[trigger] o[a] == others[a - 1] by {}
    assert forall|a: int, b: int| 1 <= a < b < c implies #[trigger] o[a] < #[trigger] o[b] by {
        assert(o[a] == others[a - 1] && o[b] == others[b - 1]);
    }
    assert forall|a: int| 1 <= a < c implies roles[#[trigger] o[a] as int] == PadRole::Controller by {
        assert(o[a] == others[a - 1]);
        assert(others.contains(others[a - 1]));
        let j = choose|j: int| 0 <= j < ctrl.len() && ctrl[j] == others[a - 1];
    }
    if mem.len() == 0 {
        assert forall|i: int| 0 <= i < o[0] implies roles[i] != PadRole::Controller by {
            if roles[i] == PadRole::Controller {
                assert(ctrl.contains(i as usize));
                let j = choose|j: int| 0 <= j < ctrl.len() && ctrl[j] == i as usize;
                if j > 0 {
                    assert(ctrl[0] < ctrl[j]);
                }
            }
        }
    } else {
        lemma_first_min_ctrl(pads, mem, ctrl);
        let si = choose|si: int|
            0 <= si < ctrl.len() && ctrl[si] == seed && (forall|k: int|
                0 <= k < si ==> centroid_key(pads, mem, #[trigger] ctrl[k]) > centroid_key(pads, mem, seed));
        assert forall|i: int| 0 <= i < roles.len() && roles[i] == PadRole::Controller implies centroid_key(pads, mem, o[0])
            <= centroid_key(pads, mem, i as usize) && (i < o[0] ==> centroid_key(pads, mem, o[0]) < centroid_key(pads, mem, i as usize)) by {
            assert(ctrl.contains(i as usize));
            let j = choose|j: int| 0 <= j < ctrl.len() && ctrl[j] == i as usize;
            assert(centroid_key(pads, mem, seed) <= centroid_key(pads, mem, ctrl[j]));
            if i < o[0] {
                if j >= si {
                    if j > si {
                        assert(ctrl[si] < ctrl[j]);
                    }
                }
                assert(j < si);
                assert(centroid_key(pads, mem, ctrl[j]) > centroid_key(pads, mem, seed));
            }
        }
    }
}

/// Two directions strictly in the same open half plane turn the same way: if `b` is
/// counter-clockwise of `a` and `c` of `b`, then `c` is of `a`.
proof fn lemma_cross_transitive(ax: int, ay: int, bx: int, by: int, cx: int, cy: int)
    requires
        (ay > 0 && by > 0 && cy > 0) || (ay < 0 && by < 0 && cy < 0),
        ax * by - ay * bx > 0,
        bx * cy - by * cx > 0,
    ensures
        ax * cy - ay * cx > 0,
{
    assert((ax * by - ay * bx) * cy + (bx * cy - by * cx) * ay == by * (ax * cy - ay * cx)) by (nonlinear_arith);
    if ay > 0 {
        assert((ax * by - ay * bx) * cy > 0) by (nonlinear_arith)
            requires
                ax * by - ay * bx > 0,
                cy > 0,
        ;
        assert((bx * cy - by * cx) * ay > 0) by (nonlinear_arith)
            requires
                bx * cy - by * cx > 0,
                ay > 0,
        ;
        assert(ax * cy - ay * cx > 0) by (nonlinear_arith)
            requires
                by * (ax * cy - ay * cx) > 0,
                by > 0,
        ;
    } else {
        assert((ax * by - ay * bx) * cy < 0) by (nonlinear_arith)
            requires
                ax * by - ay * bx > 0,
                cy < 0,
        ;
        assert((bx * cy - by * cx) * ay < 0) by (nonlinear_arith)
            requires
                bx * cy - by * cx > 0,
                ay < 0,
        ;
        assert(ax * cy - ay * cx > 0) by (nonlinear_arith)
            requires
                by * (ax * cy - ay * cx) < 0,
                by < 0,
        ;
    }
}

/// "Visited before" among memory pads is irreflexive and transitive.
proof fn lemma_mem_before_order(pads: Seq<(i32, i32)>, s: usize, a: usize, b: usize, c: usize)
    ensures
        !mem_before(pads, s, a, a),
        mem_before(pads, s, a, b) && mem_before(pads, s, b, c) ==> mem_before(pads, s, a, c),
{
    let ax = pads[a as int].0 - pads[s as int].0;
    let ay = pads[a as int].1 - pads[s as int].1;
    let bx = pads[b as int].0 - pads[s as int].0;
    let by = pads[b as int].1 - pads[s as int].1;
    let cx = pads[c as int].0 - pads[s as int].0;
    let cy = pads[c as int].1 - pads[s as int].1;
    assert(ax * ay - ay * ax == 0) by (nonlinear_arith);
    if mem_before(pads, s, a, b) && mem_before(pads, s, b, c) {
        if angle_class(ax, ay) == angle_class(bx, by) && angle_class(bx, by) == angle_class(cx, cy)
            && angle_before(ax, ay, bx, by) && angle_before(bx, by, cx, cy) {
            lemma_cross_transitive(ax, ay, bx, by, cx, cy);
        }
    }
}

/// No memory pad in `q` comes after one it is visited before.
pub open spec fn mem_sorted(pads: Seq<(i32, i32)>, s: usize, q: Seq<usize>) -> bool {
    forall|a: int, b: int| 0 <= a < b < q.len() ==> !mem_before(pads, s, #[trigger] q[b], #[trigger] q[a])
}

/// Inserting a memory pad keeps the visit order.
proof fn lemma_insert_mem_sorted(pads: Seq<(i32, i32)>, s: usize, q: Seq<usize>, x: usize)
    requires
        mem_sorted(pads, s, q),
    ensures
        mem_sorted(pads, s, insert_mem(pads, s, q, x)),
    decreases q.len(),
{
    let r = insert_mem(pads, s, q, x);
    lemma_insert_mem_elems(pads, s, q, x);
    if q.len() == 0 {
    } else if mem_before(pads, s, x, q[0]) {
        assert forall|a: int, b: int| 0 <= a < b < r.len() implies !mem_before(pads, s, #[trigger] r[b], #[trigger] r[a]) by {
            assert(r[b] == q[b - 1]);
            if a == 0 {
                assert(r[0] == x);
                lemma_mem_before_order(pads, s, q[b - 1], x, q[0]);
                lemma_mem_before_order(pads, s, q[0], x, q[0]);
            } else {
                assert(r[a] == q[a - 1]);
            }
        }
    } else {
        let rest = q.drop_first();
        assert forall|a: int, b: int| 0 <= a < b < rest.len() implies !mem_before(pads, s, #[trigger] rest[b], #[trigger] rest[a]) by {
            assert(rest[a] == q[a + 1] && rest[b] == q[b + 1]);
        }
        lemma_insert_mem_sorted(pads, s, rest, x);
        lemma_insert_mem_elems(pads, s, rest, x);
        let t = insert_mem(pads, s, rest, x);
        assert forall|a: int, b: int| 0 <= a < b < r.len() implies !mem_before(pads, s, #[trigger] r[b], #[trigger] r[a]) by {
            if a == 0 {
                assert(r[0] == q[0]);
                assert(r[b] == t[b - 1]);
                if t[b - 1] != x {
                    assert(rest.contains(t[b - 1]));
                    let k = choose|k: int| 0 <= k < rest.len() && rest[k] == t[b - 1];
                    assert(rest[k] == q[k + 1]);
                }
            } else {
                assert(r[a] == t[a - 1] && r[b] == t[b - 1]);
            }
        }
    }
}

/// `sort_mem` puts the memory pads in visit order.
proof fn lemma_sort_mem_sorted(pads: Seq<(i32, i32)>, s: usize, mem: Seq<usize>)
    ensures
        mem_sorted(pads, s, sort_mem(pads, s, mem)),
    decreases mem.len(),
{
    if mem.len() > 0 {
        lemma_sort_mem_sorted(pads, s, mem.drop_last());
        lemma_insert_mem_sorted(pads, s, sort_mem(pads, s, mem.drop_last()), mem.last());
    }
}

/// In the fly-by chain no memory pad comes after one that it is visited before: nearer
/// pads (Manhattan distance from the seed) first, equally near ones by angle.
pub proof fn lemma_flyby_memory_order(pads: Seq<(i32, i32)>, roles: Seq<PadRole>)
    ensures
        ({
            let o = flyby_order(pads, roles);
            let seed = flyby_seed(pads, roles);
            let c: int = 1 + without(role_indices(roles, PadRole::Controller), seed).len() as int;
            let m: int = role_indices(roles, PadRole::Memory).len() as int;
            forall|a: int, b: int| c <= a < b < c + m ==> !mem_before(pads, seed, #[trigger] o[b], #[trigger] o[a])
        }),
{
    let o = flyby_order(pads, roles);
    let seed = flyby_seed(pads, roles);
    let others = without(role_indices(roles, PadRole::Controller), seed);
    let mem = role_indices(roles, PadRole::Memory);
    let sorted = sort_mem(pads, seed, mem);
    let t = role_indices(roles, PadRole::Termination);
    let c: int = 1 + others.len() as int;
    let m: int = mem.len() as int;
    lemma_sort_mem_elems(pads, seed, mem);
    lemma_sort_mem_sorted(pads, seed, mem);
    assert(o =~= seq![seed] + others + sorted + t);
    assert forall|a: int, b: int| c <= a < b < c + m implies !mem_before(pads, seed, #[trigger] o[b], #[trigger] o[a]) by {
        assert(o[a] == sorted[a - c]);
        assert(o[b] == sorted[b - c]);
    }
}

/// Memory pads sorted by `sort_mem` are in nondecreasing Manhattan distance from the seed.
pub proof fn lemma_sort_mem_by_distance(pads: Seq<(i32, i32)>, s: usize, mem: Seq<usize>)
    ensures
        forall|a: int, b: int| 0 <= a < b < sort_mem(pads, s, mem).len() ==>
            manhattan(pads, #[trigger] sort_mem(pads, s, mem)[a], s) <= manhattan(pads, #[trigger] sort_mem(pads, s, mem)[b], s),
    decreases mem.len(),
{
    if mem.len() > 0 {
        lemma_sort_mem_by_distance(pads, s, mem.drop_last());
        lemma_insert_mem_by_distance(pads, s, sort_mem(pads, s, mem.drop_last()), mem.last());
    }
}

/// Inserting into a sequence in nondecreasing distance keeps it so.
proof fn lemma_insert_mem_by_distance(pads: Seq<(i32, i32)>, s: usize, q: Seq<usize>, x: usize)
    requires
        forall|a: int, b: int| 0 <= a < b < q.len() ==> manhattan(pads, #[trigger] q[a], s) <= manhattan(pads, #[trigger] q[b], s),
    ensures
        forall|a: int, b: int| 0 <= a < b < insert_mem(pads, s, q, x).len() ==>
            manhattan(pads, #[trigger] insert_mem(pads, s, q, x)[a], s) <= manhattan(pads, #[trigger] insert_mem(pads, s, q, x)[b], s),
    decreases q.len(),
{
    let r = insert_mem(pads, s, q, x);
    lemma_insert_mem_elems(pads, s, q, x);
    if q.len() == 0 {
    } else if mem_before(pads, s, x, q[0]) {
        assert forall|a: int, b: int| 0 <= a < b < r.len() implies manhattan(pads, #[trigger] r[a], s) <= manhattan(pads, #[trigger] r[b], s) by {
            if a == 0 {
                assert(r[b] == q[b - 1]);
                if b - 1 > 0 {
                    assert(manhattan(pads, q[0], s) <= manhattan(pads, q[b - 1], s));
                }
            } else {
                assert(r[a] == q[a - 1] && r[b] == q[b - 1]);
            }
        }
    } else {
        let rest = q.drop_first();
        assert forall|a: int, b: int| 0 <= a < b < rest.len() implies manhattan(pads, #[trigger] rest[a], s) <= manhattan(pads, #[trigger] rest[b], s) by {
            assert(rest[a] == q[a + 1] && rest[b] == q[b + 1]);
        }
        lemma_insert_mem_by_distance(pads, s, rest, x);
        lemma_insert_mem_elems(pads, s, rest, x);
        let t = insert_mem(pads, s, rest, x);
        assert forall|a: int, b: int| 0 <= a < b < r.len() implies manhattan(pads, #[trigger] r[a], s) <= manhattan(pads, #[trigger] r[b], s) by {
            if a == 0 {
                assert(r[0] == q[0]);
                assert(r[b] == t[b - 1]);
                if t[b - 1] != x {
                    assert(rest.contains(t[b - 1]));
                    let k = choose|k: int| 0 <= k < rest.len() && rest[k] == t[b - 1];
                    assert(rest[k] == q[k + 1]);
                }
            } else {
                assert(r[a] == t[a - 1] && r[b] == t[b - 1]);
            }
        }
    }
}

broadcast use vstd::std_specs::hash::group_hash_axioms;

/// Topology data of the nets of a board: the roles of each net's pads (in the order of
/// its pad positions), each net's name, and the nets whose name mentions DDR3.
pub struct TopologyContext {
    pub roles_by_net: HashMap<u32, Vec<PadRole>>,
    pub net_name_by_id: HashMap<u32, String>,
    pub ddr3_net_ids: HashSet<u32>,
}

/// A net name in upper case that mentions DDR3 (a fly-by candidate).
pub open spec fn ddr3_name_spec(u: Seq<char>) -> bool {
    seq_contains(u, "DDR3"@)
}

/// The roles of a net's pads, if the context has them.
pub open spec fn roles_of(ctx: TopologyContext, net_id: u32) -> Option<Seq<PadRole>> {
    if ctx.roles_by_net@.contains_key(net_id) {
        Some(ctx.roles_by_net@[net_id]@)
    } else {
        None
    }
}

/// The name of a net, or the empty name if the context has none.
pub open spec fn name_of(ctx: TopologyContext, net_id: u32) -> Seq<char> {
    if ctx.net_name_by_id@.contains_key(net_id) {
        ctx.net_name_by_id@[net_id]@
    } else {
        Seq::empty()
    }
}

impl TopologyContext {
    /// A context with no nets.
    pub fn new() -> (c: TopologyContext)
        ensures
            c.roles_by_net@ == Map::<u32, Vec<PadRole>>::empty(),
            c.net_name_by_id@ == Map::<u32, String>::empty(),
            c.ddr3_net_ids@ == Set::<u32>::empty(),
    {
        TopologyContext { roles_by_net: HashMap::new(), net_name_by_id: HashMap::new(), ddr3_net_ids: HashSet::new() }
    }

    /// Record a net's name; the net is a fly-by candidate when its name, in upper case,
    /// mentions DDR3.
    pub fn add_net_name(&mut self, net_id: u32, name: String)
        ensures
            final(self).net_name_by_id@ == old(self).net_name_by_id@.insert(net_id, name),
            final(self).roles_by_net@ == old(self).roles_by_net@,
            final(self).ddr3_net_ids@ == if ddr3_name_spec(spec_to_uppercase(name@)) {
                old(self).ddr3_net_ids@.insert(net_id)
            } else {
                old(self).ddr3_net_ids@.remove(net_id)
            },
    {
        let u = upper_chars(name.as_str());
        if contains(u.as_slice(), "DDR3") {
            self.ddr3_net_ids.insert(net_id);
        } else {
            self.ddr3_net_ids.remove(&net_id);
        }
        self.net_name_by_id.insert(net_id, name);
    }

    /// Append the role of the next pad of a net.
    pub fn add_pad_role(&mut self, net_id: u32, role: PadRole)
        ensures
            final(self).roles_by_net@.contains_key(net_id),
            final(self).roles_by_net@[net_id]@ == (if old(self).roles_by_net@.contains_key(net_id) {
                old(self).roles_by_net@[net_id]@
            } else {
                Seq::<PadRole>::empty()
            }).push(role),
            forall|k: u32| k != net_id ==> #[trigger] final(self).roles_by_net@.contains_key(k) == old(self).roles_by_net@.contains_key(k),
            forall|k: u32| k != net_id && old(self).roles_by_net@.contains_key(k) ==> #[trigger] final(self).roles_by_net@[k] == old(self).roles_by_net@[k],
            final(self).net_name_by_id@ == old(self).net_name_by_id@,
            final(self).ddr3_net_ids@ == old(self).ddr3_net_ids@,
    {
        let mut v: Vec<PadRole> = match self.roles_by_net.remove(&net_id) {
            Some(v) => v,
            None => Vec::new(),
        };
        v.push(role);
        self.roles_by_net.insert(net_id, v);
    }

    /// The roles of a net's pads, or `None` when the net has no role information.
    pub fn roles_for(&self, net_id: u32) -> (r: Option<&[PadRole]>)
        ensures
            match r {
                Some(s) => roles_of(*self, net_id) == Some(s@),
                None => roles_of(*self, net_id) is None,
            },
    {
        match self.roles_by_net.get(&net_id) {
            Some(v) => Some(v.as_slice()),
            None => None,
        }
    }

    /// The name of a net, or the empty string when it is unknown.
    pub fn name_for(&self, net_id: u32) -> (r: &str)
        ensures
            r@ == name_of(*self, net_id),
    {
        match self.net_name_by_id.get(&net_id) {
            Some(s) => s.as_str(),
            None => {
                proof {
                    reveal_strlit("");
                    assert(""@ =~= Seq::<char>::empty());
                }
                ""
            },
        }
    }

    /// Whether a net is a fly-by candidate (its name mentions DDR3).
    pub fn is_ddr3(&self, net_id: u32) -> (b: bool)
        ensures
            b == self.ddr3_net_ids@.contains(net_id),
    {
        self.ddr3_net_ids.contains(&net_id)
    }
}

/// The two-pin connections of a net in a context: the fly-by chain when the net is a
/// fly-by candidate whose pads all have roles and `is_flyby_net` holds for its upper-case
/// name (`upper`), else the spanning-tree decomposition.
pub open spec fn topology_edges_spec(ctx: TopologyContext, upper: Seq<char>, pads: Seq<(i32, i32)>, net_id: u32) -> (Seq<(usize, usize)>, Seq<(i32, i32)>) {
    if ctx.ddr3_net_ids@.contains(net_id) && roles_of(ctx, net_id) is Some
        && roles_of(ctx, net_id)->0.len() == pads.len()
        && is_flyby_net(upper, pads, roles_of(ctx, net_id)->0) {
        (chain_edges(flyby_order(pads, roles_of(ctx, net_id)->0)), Seq::empty())
    } else {
        (mst_edges_spec(pads), mst_points_spec(pads))
    }
}

/// Two-pin connections of a net: fly-by for DDR3 address, command and clock nets that
/// qualify, else the spanning tree (or three-pin Steiner star).
pub fn build_topology_edges(pads: &[(i32, i32)], net_id: u32, topo: &TopologyContext) -> (r: (Vec<(usize, usize)>, Vec<(i32, i32)>))
    ensures
        (r.0@, r.1@) == topology_edges_spec(*topo, spec_to_uppercase(name_of(*topo, net_id)), pads@, net_id),
{
    if !topo.is_ddr3(net_id) {
        return build_mst_edges(pads);
    }
    if let Some(roles) = topo.roles_for(net_id) {
        if roles.len() == pads.len() {
            let net_name = topo.name_for(net_id);
            let t = analyze_net_topology(net_name, pads, roles);
            if t.kind == TopologyKind::FlyBy {
                if let Some(edges_sp) = build_flyby_edges(pads, roles) {
                    return edges_sp;
                }
            }
        }
    }
    build_mst_edges(pads)
}

/// Shape of the fly-by chain: it starts at the seed controller, the memory pads follow
/// the other controllers in nondecreasing Manhattan distance from that controller, and
/// the termination pads close the chain in index order.
pub proof fn lemma_flyby_chain_shape(pads: Seq<(i32, i32)>, roles: Seq<PadRole>)
    ensures
        ({
            let o = flyby_order(pads, roles);
            let seed = flyby_seed(pads, roles);
            let c: int = 1 + without(role_indices(roles, PadRole::Controller), seed).len() as int;
            let m: int = role_indices(roles, PadRole::Memory).len() as int;
            let t = role_indices(roles, PadRole::Termination);
            &&& o[0] == seed
            &&& o.len() == c + m + t.len()
            &&& forall|a: int, b: int| c <= a < b < c + m ==> manhattan(pads, #[trigger] o[a], o[0]) <= manhattan(pads, #[trigger] o[b], o[0])
            &&& o.subrange(c + m, o.len() as int) == t
        }),
{
    let o = flyby_order(pads, roles);
    let seed = flyby_seed(pads, roles);
    let others = without(role_indices(roles, PadRole::Controller), seed);
    let mem = role_indices(roles, PadRole::Memory);
    let sorted = sort_mem(pads, seed, mem);
    let t = role_indices(roles, PadRole::Termination);
    let c: int = 1 + others.len() as int;
    lemma_sort_mem_elems(pads, seed, mem);
    lemma_sort_mem_by_distance(pads, seed, mem);
    let m: int = mem.len() as int;
    assert(o =~= seq![seed] + others + sorted + t);
    assert forall|a: int, b: int| c <= a < b < c + m implies manhattan(pads, #[trigger] o[a], o[0]) <= manhattan(pads, #[trigger] o[b], o[0]) by {
        assert(o[a] == sorted[a - c]);
        assert(o[b] == sorted[b - c]);
    }
    assert(o.subrange(c + m, o.len() as int) =~= t);
}

} // verus!
