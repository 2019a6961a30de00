//! Export of the routing grid to the flat `u32` encoding consumed by the external
//! wavefront router, clearance dilation of that encoding, and the plan for writing a
//! grid path found by the wavefront router back onto the board.
use vstd::prelude::*;
use crate::grid::{Cell, RoutingGrid, cell_net, lemma_layer_offset_bound};

verus! {

/// Offset of trace cells in the flat encoding.
pub const TRACE_BASE: u32 = 1_000_000;

/// Offset of via cells in the flat encoding.
pub const VIA_BASE: u32 = 2_000_000;

/// Flat encoding of a cell: 0 = free, 1 = blocked, 2+n = pad of net n,
/// 1_000_000+n = trace of net n, 2_000_000+n = via of net n.
pub open spec fn spec_encode_cell(c: Cell) -> int {
    match c {
        Cell::Free => 0,
        Cell::Blocked => 1,
        Cell::Pad(n) => 2 + n,
        Cell::Trace(n) => 1_000_000 + n,
        Cell::Via(n) => 2_000_000 + n,
    }
}

/// The encoding of the cell fits in a `u32`.
pub open spec fn cell_encodable(c: Cell) -> bool {
    spec_encode_cell(c) <= u32::MAX
}

/// Encode one cell.
pub fn encode_cell(c: Cell) -> (v: u32)
    requires
        cell_encodable(c),
    ensures
        v == spec_encode_cell(c),
{
    match c {
        Cell::Free => 0,
        Cell::Blocked => 1,
        Cell::Pad(n) => 2 + n,
        Cell::Trace(n) => TRACE_BASE + n,
        Cell::Via(n) => VIA_BASE + n,
    }
}

/// The net of an encoded cell (none for free and blocked cells).
pub open spec fn spec_decode_net(v: u32) -> Option<u32> {
    if v >= 2_000_000 {
        Some((v - 2_000_000) as u32)
    } else if v >= 1_000_000 {
        Some((v - 1_000_000) as u32)
    } else if v >= 2 {
        Some((v - 2) as u32)
    } else {
        None
    }
}

/// The net of an encoded cell (none for free and blocked cells).
pub fn decode_net(v: u32) -> (n: Option<u32>)
    ensures
        n == spec_decode_net(v),
{
    if v >= VIA_BASE {
        Some(v - VIA_BASE)
    } else if v >= TRACE_BASE {
        Some(v - TRACE_BASE)
    } else if v >= 2 {
        Some(v - 2)
    } else {
        None
    }
}

/// Decoding an encoded cell gives back its net, as long as the net id is small enough
/// that the pad, trace and via ranges of the encoding do not overlap.
pub proof fn lemma_decode_encode(c: Cell)
    requires
        cell_encodable(c),
        c matches Cell::Pad(n) ==> n < 999_998,
        c matches Cell::Trace(n) ==> n < 1_000_000,
    ensures
        spec_decode_net(spec_encode_cell(c) as u32) == cell_net(c),
{
}

/// Error of the grid export.
#[derive(Debug, PartialEq, Eq, Structural)]
pub enum ExportError {
    /// The board's layer configuration has no signal layer.
    NoSignalLayer,
}

/// Encode the signal layers of the grid, layer by layer in the given order:
/// entry `s * per_layer + i` encodes cell `i` of layer `signal_layers[s]`.
pub fn encode_signal_layers(grid: &RoutingGrid, signal_layers: &[usize]) -> (res: Result<
    Vec<u32>,
    ExportError,
>)
    requires
        grid.wf(),
        forall|s: int| 0 <= s < signal_layers@.len() ==> #[trigger] signal_layers@[s] < grid.spec_num_layers(),
        signal_layers@.len() * grid.per_layer() <= usize::MAX,
        forall|f: int| 0 <= f < grid.cells().len() ==> cell_encodable(#[trigger] grid.cells()[f]),
    ensures
        res is Err <==> signal_layers@.len() == 0,
        res matches Err(e) ==> e == ExportError::NoSignalLayer,
        res matches Ok(v) ==> {
            &&& v@.len() == signal_layers@.len() * grid.per_layer()
            &&& forall|s: int, i: int|
                0 <= s < signal_layers@.len() && 0 <= i < grid.per_layer() ==> #[trigger] v@[s
                    * grid.per_layer() + i] == spec_encode_cell(
                    grid.cells()[signal_layers@[s] * grid.per_layer() + i],
                )
        },
{
    if signal_layers.len() == 0 {
        return Err(ExportError::NoSignalLayer);
    }
    proof {
        grid.lemma_wf_len();
    }
    let per_layer = grid.per_layer_len();
    let mut out: Vec<u32> = Vec::new();
    let mut s: usize = 0;
    while s < signal_layers.len()
        invariant
            s <= signal_layers@.len(),
            grid.wf(),
            per_layer == grid.per_layer(),
            grid.cells().len() == grid.spec_num_layers() * grid.per_layer(),
            grid.spec_num_layers() * grid.per_layer() <= usize::MAX,
            signal_layers@.len() * grid.per_layer() <= usize::MAX,
            forall|t: int| 0 <= t < signal_layers@.len() ==> #[trigger] signal_layers@[t] < grid.spec_num_layers(),
            forall|f: int| 0 <= f < grid.cells().len() ==> cell_encodable(#[trigger] grid.cells()[f]),
            out@.len() == s * per_layer,
            forall|t: int, i: int|
                0 <= t < s && 0 <= i < per_layer ==> #[trigger] out@[t * per_layer + i]
                    == spec_encode_cell(grid.cells()[signal_layers@[t] * per_layer + i]),
        decreases signal_layers@.len() - s,
    {
        let l = signal_layers[s];
        let mut i: usize = 0;
        while i < per_layer
            invariant
                i <= per_layer,
                s < signal_layers@.len(),
                l == signal_layers@[s as int],
                l < grid.spec_num_layers(),
                grid.wf(),
                per_layer == grid.per_layer(),
                grid.cells().len() == grid.spec_num_layers() * grid.per_layer(),
                grid.spec_num_layers() * grid.per_layer() <= usize::MAX,
                signal_layers@.len() * grid.per_layer() <= usize::MAX,
                forall|f: int| 0 <= f < grid.cells().len() ==> cell_encodable(#[trigger] grid.cells()[f]),
                out@.len() == s * per_layer + i,
                forall|t: int, j: int|
                    0 <= t < s && 0 <= j < per_layer ==> #[trigger] out@[t * per_layer + j]
                        == spec_encode_cell(grid.cells()[signal_layers@[t] * per_layer + j]),
                forall|j: int|
                    0 <= j < i ==> #[trigger] out@[s * per_layer + j] == spec_encode_cell(
                        grid.cells()[l * per_layer + j],
                    ),
            decreases per_layer - i,
        {
            proof {
                lemma_layer_offset_bound(l as int, i as int, grid.spec_num_layers() as int, per_layer as int);
            }
            let c = grid.cell_by_flat(l * per_layer + i);
            let v = encode_cell(c);
            let ghost before = out@;
            out.push(v);
            proof {
                assert forall|t: int, j: int|
                    0 <= t < s && 0 <= j < per_layer implies #[trigger] out@[t * per_layer + j]
                        == spec_encode_cell(grid.cells()[signal_layers@[t] * per_layer + j]) by {
                    lemma_layer_offset_bound(t, j, s as int, per_layer as int);
                    assert(out@[t * per_layer + j] == before[t * per_layer + j]);
                }
            }
            i = i + 1;
        }
        proof {
            assert forall|t: int, j: int|
                0 <= t < s + 1 && 0 <= j < per_layer implies #[trigger] out@[t * per_layer + j]
                    == spec_encode_cell(grid.cells()[signal_layers@[t] * per_layer + j]) by {
                if t == s {
                } else {
                }
            }
            assert(s * per_layer + per_layer == (s + 1) * per_layer) by (nonlinear_arith);
        }
        s = s + 1;
    }
    Ok(out)
}


/// Neighbour offsets `(row delta, column delta)` in the order dilation scans them.
pub open spec fn neigh(k: int) -> (int, int) {
    if k == 0 {
        (0, 1)
    } else if k == 1 {
        (0, -1)
    } else if k == 2 {
        (1, 0)
    } else if k == 3 {
        (-1, 0)
    } else if k == 4 {
        (1, 1)
    } else if k == 5 {
        (1, -1)
    } else if k == 6 {
        (-1, 1)
    } else {
        (-1, -1)
    }
}

/// Value of the `k`-th neighbour of `(l, r, c)` within the same layer (0 outside the grid).
pub open spec fn neighbour_value(g: Seq<u32>, cols: int, rows: int, l: int, r: int, c: int, k: int) -> u32 {
    let rr = r + neigh(k).0;
    let cc = c + neigh(k).1;
    if rr < 0 || cc < 0 || rr >= rows || cc >= cols {
        0
    } else {
        g[l * (rows * cols) + rr * cols + cc]
    }
}

/// The first non-zero neighbour value, scanning neighbours `k..8` in order (0 if none).
pub open spec fn first_occupied_neighbour(g: Seq<u32>, cols: int, rows: int, l: int, r: int, c: int, k: int) -> u32
    decreases 8 - k,
{
    if k >= 8 {
        0
    } else if neighbour_value(g, cols, rows, l, r, c, k) != 0 {
        neighbour_value(g, cols, rows, l, r, c, k)
    } else {
        first_occupied_neighbour(g, cols, rows, l, r, c, k + 1)
    }
}

/// One dilation round: every zero cell takes the value of its first non-zero
/// 8-neighbour on the same layer; non-zero cells keep their value.
pub open spec fn dilate_once(g: Seq<u32>, cols: int, rows: int) -> Seq<u32> {
    Seq::new(
        g.len(),
        |idx: int|
            if g[idx] != 0 {
                g[idx]
            } else {
                first_occupied_neighbour(
                    g,
                    cols,
                    rows,
                    idx / (rows * cols),
                    (idx % (rows * cols)) / cols,
                    (idx % (rows * cols)) % cols,
                    0,
                )
            },
    )
}

/// `rounds` dilation rounds.
pub open spec fn dilate(g: Seq<u32>, cols: int, rows: int, rounds: nat) -> Seq<u32>
    decreases rounds,
{
    if rounds == 0 {
        g
    } else {
        dilate_once(dilate(g, cols, rows, (rounds - 1) as nat), cols, rows)
    }
}

fn neigh_offset(k: usize) -> (d: (i64, i64))
    requires
        k < 8,
    ensures
        d.0 == neigh(k as int).0,
        d.1 == neigh(k as int).1,
{
    if k == 0 {
        (0, 1)
    } else if k == 1 {
        (0, -1)
    } else if k == 2 {
        (1, 0)
    } else if k == 3 {
        (-1, 0)
    } else if k == 4 {
        (1, 1)
    } else if k == 5 {
        (1, -1)
    } else if k == 6 {
        (-1, 1)
    } else {
        (-1, -1)
    }
}

proof fn lemma_decompose(idx: int, per: int, cols: int)
    requires
        0 <= idx,
        cols > 0,
        per > 0,
        per % cols == 0,
    ensures
        idx == (idx / per) * per + ((idx % per) / cols) * cols + (idx % per) % cols,
        0 <= (idx % per) / cols < per / cols,
        0 <= (idx % per) % cols < cols,
{
    vstd::arithmetic::div_mod::lemma_fundamental_div_mod(idx, per);
    vstd::arithmetic::div_mod::lemma_fundamental_div_mod(idx % per, cols);
    vstd::arithmetic::div_mod::lemma_mod_bound(idx, per);
    vstd::arithmetic::div_mod::lemma_mod_bound(idx % per, cols);
    vstd::arithmetic::div_mod::lemma_fundamental_div_mod(per, cols);
    assert((idx % per) / cols < per / cols) by (nonlinear_arith)
        requires
            (idx % per) == cols * ((idx % per) / cols) + (idx % per) % cols,
            per == cols * (per / cols),
            0 <= (idx % per) % cols,
            idx % per < per,
            cols > 0,
    ;
    assert(0 <= (idx % per) / cols) by (nonlinear_arith)
        requires
            0 <= idx % per,
            cols > 0,
    ;
}

/// First non-zero neighbour of cell `(l, r, c)` in `snap`, scanning the 8 neighbours in order.
fn first_occupied(snap: &Vec<u32>, cols: usize, rows: usize, l: usize, r: usize, c: usize) -> (v: u32)
    requires
        rows <= i64::MAX,
        cols <= i64::MAX,
        rows * cols <= usize::MAX,
        snap@.len() >= (l + 1) * (rows * cols),
        l * (rows * cols) + rows * cols <= usize::MAX,
        r < rows,
        c < cols,
    ensures
        v == first_occupied_neighbour(snap@, cols as int, rows as int, l as int, r as int, c as int, 0),
{
    let per = rows * cols;
    let mut k: usize = 0;
    while k < 8
        invariant
            k <= 8,
            rows <= i64::MAX,
            cols <= i64::MAX,
            per == rows * cols,
            snap@.len() >= (l + 1) * per,
            l * per + per <= usize::MAX,
            r < rows,
            c < cols,
            forall|j: int|
                0 <= j < k ==> #[trigger] neighbour_value(snap@, cols as int, rows as int, l as int, r as int, c as int, j) == 0,
        decreases 8 - k,
    {
        let (dr, dc) = neigh_offset(k);
        let rr = r as i64 + dr;
        let cc = c as i64 + dc;
        if !(rr < 0 || cc < 0 || rr >= rows as i64 || cc >= cols as i64) {
            let (rru, ccu) = (rr as usize, cc as usize);
            proof {
                crate::grid::lemma_flat_index_bound(0, rru as int, ccu as int, 1, rows as int, cols as int);
                assert((l + 1) * per == l * per + per) by (nonlinear_arith);
            }
            let v = snap[l * per + (rru * cols + ccu)];
            if v != 0 {
                proof {
                    assert forall|j: int| 0 <= j <= k implies #[trigger] first_occupied_neighbour(
                        snap@, cols as int, rows as int, l as int, r as int, c as int, j,
                    ) == v by {
                        lemma_first_occupied_skip(snap@, cols as int, rows as int, l as int, r as int, c as int, j, k as int);
                    }
                }
                return v;
            }
        }
        k = k + 1;
    }
    proof {
        lemma_first_occupied_none(snap@, cols as int, rows as int, l as int, r as int, c as int, 0);
    }
    0
}

proof fn lemma_first_occupied_skip(g: Seq<u32>, cols: int, rows: int, l: int, r: int, c: int, j: int, k: int)
    requires
        0 <= j <= k < 8,
        forall|i: int| 0 <= i < k ==> #[trigger] neighbour_value(g, cols, rows, l, r, c, i) == 0,
        neighbour_value(g, cols, rows, l, r, c, k) != 0,
    ensures
        first_occupied_neighbour(g, cols, rows, l, r, c, j) == neighbour_value(g, cols, rows, l, r, c, k),
    decreases k - j,
{
    if j < k {
        lemma_first_occupied_skip(g, cols, rows, l, r, c, j + 1, k);
    }
}

proof fn lemma_first_occupied_none(g: Seq<u32>, cols: int, rows: int, l: int, r: int, c: int, j: int)
    requires
        0 <= j <= 8,
        forall|i: int| 0 <= i < 8 ==> #[trigger] neighbour_value(g, cols, rows, l, r, c, i) == 0,
    ensures
        first_occupied_neighbour(g, cols, rows, l, r, c, j) == 0,
    decreases 8 - j,
{
    if j < 8 {
        lemma_first_occupied_none(g, cols, rows, l, r, c, j + 1);
    }
}

/// Clearance dilation of an encoded grid: `rounds` rounds in which every free cell
/// takes the value (net identity, or blocked) of its first occupied 8-neighbour on the
/// same layer, each round reading a snapshot of the previous one.
pub fn dilate_grid(grid_u32: &mut Vec<u32>, cols: usize, rows: usize, n_layers: usize, rounds: usize)
    requires
        old(grid_u32)@.len() == n_layers * (rows * cols),
        rows * cols <= usize::MAX,
        rows <= i64::MAX,
        cols <= i64::MAX,
    ensures
        final(grid_u32)@ == dilate(old(grid_u32)@, cols as int, rows as int, rounds as nat),
{
    let ghost orig = grid_u32@;
    let mut round: usize = 0;
    while round < rounds
        invariant
            round <= rounds,
            grid_u32@.len() == n_layers * (rows * cols),
            rows * cols <= usize::MAX,
            rows <= i64::MAX,
            cols <= i64::MAX,
            grid_u32@ == dilate(orig, cols as int, rows as int, round as nat),
        decreases rounds - round,
    {
        let snap = grid_u32.clone();
        let total = grid_u32.len();
        let per = rows * cols;
        let mut idx: usize = 0;
        while idx < total
            invariant
                idx <= total,
                total == grid_u32@.len(),
                total == n_layers * per,
                per == rows * cols,
                per <= usize::MAX,
                rows <= i64::MAX,
                cols <= i64::MAX,
                snap@ == dilate(orig, cols as int, rows as int, round as nat),
                snap@.len() == total,
                forall|j: int| 0 <= j < idx ==> #[trigger] grid_u32@[j] == dilate_once(snap@, cols as int, rows as int)[j],
                forall|j: int| idx <= j < total ==> #[trigger] grid_u32@[j] == snap@[j],
            decreases total - idx,
        {
            proof {
                assert(per > 0 && cols > 0) by (nonlinear_arith)
                    requires
                        idx < total,
                        total == n_layers * per,
                        per == rows * cols,
                ;
                vstd::arithmetic::div_mod::lemma_mod_multiples_basic(rows as int, cols as int);
                lemma_decompose(idx as int, per as int, cols as int);
            }
            if snap[idx] == 0 {
                let l = idx / per;
                let rem = idx % per;
                let r = rem / cols;
                let c = rem % cols;
                proof {
                    vstd::arithmetic::div_mod::lemma_fundamental_div_mod(idx as int, per as int);
                    assert((per as int) / (cols as int) == rows as int) by (nonlinear_arith)
                        requires per == rows * cols, cols > 0;
                    assert(l * per + per <= total) by (nonlinear_arith)
                        requires
                            idx < total,
                            total == n_layers * per,
                            idx == per * l + (idx % per),
                            0 <= idx % per < per,
                    ;
                    assert((l + 1) * per == l * per + per) by (nonlinear_arith);
                }
                let src = first_occupied(&snap, cols, rows, l, r, c);
                grid_u32.set(idx, src);
            }
            idx = idx + 1;
        }
        proof {
            assert(grid_u32@ =~= dilate_once(snap@, cols as int, rows as int));
        }
        round = round + 1;
    }
}

/// Dilation never changes an occupied cell.
pub proof fn lemma_dilate_keeps_occupied(g: Seq<u32>, cols: int, rows: int, rounds: nat, idx: int)
    requires
        0 <= idx < g.len(),
        g[idx] != 0,
    ensures
        dilate(g, cols, rows, rounds).len() == g.len(),
        dilate(g, cols, rows, rounds)[idx] == g[idx],
    decreases rounds,
{
    if rounds > 0 {
        lemma_dilate_keeps_occupied(g, cols, rows, (rounds - 1) as nat, idx);
    }
}

/// After one dilation round, a free cell with an occupied 8-neighbour is occupied.
pub proof fn lemma_dilate_grows(g: Seq<u32>, cols: int, rows: int, l: int, r: int, c: int, k: int)
    requires
        cols > 0,
        rows > 0,
        0 <= l,
        0 <= r < rows,
        0 <= c < cols,
        0 <= l * (rows * cols) + r * cols + c < g.len(),
        0 <= k < 8,
        neighbour_value(g, cols, rows, l, r, c, k) != 0,
    ensures
        dilate_once(g, cols, rows)[l * (rows * cols) + r * cols + c] != 0,
{
    let idx = l * (rows * cols) + r * cols + c;
    let per = rows * cols;
    assert(0 <= r * cols + c < per) by (nonlinear_arith)
        requires 0 <= r < rows, 0 <= c < cols, per == rows * cols;
    vstd::arithmetic::div_mod::lemma_fundamental_div_mod_converse(idx, per, l, r * cols + c);
    vstd::arithmetic::div_mod::lemma_fundamental_div_mod_converse(r * cols + c, cols, r, c);
    if g[idx] == 0 {
        lemma_first_occupied_nonzero(g, cols, rows, l, r, c, 0, k);
    }
}

proof fn lemma_first_occupied_nonzero(g: Seq<u32>, cols: int, rows: int, l: int, r: int, c: int, j: int, k: int)
    requires
        0 <= j <= k < 8,
        neighbour_value(g, cols, rows, l, r, c, k) != 0,
    ensures
        first_occupied_neighbour(g, cols, rows, l, r, c, j) != 0,
    decreases k - j,
{
    if j < k && neighbour_value(g, cols, rows, l, r, c, j) == 0 {
        lemma_first_occupied_nonzero(g, cols, rows, l, r, c, j + 1, k);
    }
}


/// One segment of a committed wavefront path, between two grid points
/// `(layer, row, col)`; `via` marks a layer change at the `to` end.
#[derive(Clone, Copy, Debug, PartialEq, Eq)]
pub struct PathStep {
    pub from: (usize, usize, usize),
    pub to: (usize, usize, usize),
    pub via: bool,
}

/// Why a wavefront path cannot be (completely) committed.
#[derive(Clone, Copy, Debug, PartialEq, Eq, Structural)]
pub enum CommitError {
    /// The path has fewer than two points.
    TooShort,
    /// A point names a layer the export does not have.
    LayerOutOfRange(usize),
}

/// The segments to write, in path order, and the error that stopped the walk, if any.
/// Segments before the error are written all the same.
pub struct CommitPlan {
    pub steps: Vec<PathStep>,
    pub error: Option<CommitError>,
}

/// Both ends of the `i`-th pair of points name an exported layer.
pub open spec fn pair_ok(path: Seq<(usize, usize, usize)>, n_layers: int, i: int) -> bool {
    path[i].0 < n_layers && path[i + 1].0 < n_layers
}

/// The names of the exported layers.
pub open spec fn layer_names(layers: Seq<String>) -> Seq<Seq<char>> {
    layers.map_values(|s: String| s@)
}

/// The step committed for the `i`-th pair of points.
pub open spec fn step_of(path: Seq<(usize, usize, usize)>, layers: Seq<Seq<char>>, i: int) -> PathStep {
    PathStep { from: path[i], to: path[i + 1], via: layers[path[i].0 as int] != layers[path[i + 1].0 as int] }
}

/// Plan the write-back of a wavefront path: one segment per consecutive pair of points,
/// with a via where the two points lie on layers of different names. The walk stops at
/// the first pair that names a layer outside `layers`.
pub fn plan_wavefront_commit(layers: &[String], path: &[(usize, usize, usize)]) -> (plan: CommitPlan)
    ensures
        path@.len() < 2 ==> plan.steps@.len() == 0 && plan.error == Some(CommitError::TooShort),
        path@.len() >= 2 ==> plan.steps@.len() <= path@.len() - 1,
        forall|i: int| 0 <= i < plan.steps@.len() ==> #[trigger] pair_ok(path@, layers@.len() as int, i),
        forall|i: int|
            0 <= i < plan.steps@.len() ==> #[trigger] plan.steps@[i] == step_of(path@, layer_names(layers@), i),
        path@.len() >= 2 && plan.error is None ==> plan.steps@.len() == path@.len() - 1,
        path@.len() >= 2 && (forall|i: int| 0 <= i < path@.len() ==> (#[trigger] path@[i]).0 < layers@.len())
            ==> plan.error is None && plan.steps@.len() == path@.len() - 1,
        path@.len() >= 2 && plan.error is Some ==> plan.steps@.len() < path@.len() - 1 && !pair_ok(
            path@,
            layers@.len() as int,
            plan.steps@.len() as int,
        ),
        path@.len() >= 2 && plan.error is Some ==> plan.error == Some(
            CommitError::LayerOutOfRange(
                if path@[plan.steps@.len() as int].0 >= layers@.len() {
                    path@[plan.steps@.len() as int].0
                } else {
                    path@[plan.steps@.len() as int + 1].0
                },
            ),
        ),
{
    let mut steps: Vec<PathStep> = Vec::new();
    if path.len() < 2 {
        return CommitPlan { steps, error: Some(CommitError::TooShort) };
    }
    let ghost names = layer_names(layers@);
    let mut i: usize = 0;
    while i < path.len() - 1
        invariant
            path@.len() >= 2,
            i <= path@.len() - 1,
            names == layer_names(layers@),
            steps@.len() == i,
            forall|j: int| 0 <= j < i ==> #[trigger] pair_ok(path@, layers@.len() as int, j),
            forall|j: int| 0 <= j < i ==> #[trigger] steps@[j] == step_of(path@, names, j),
        decreases path@.len() - i,
    {
        let p0 = path[i];
        let p1 = path[i + 1];
        if p0.0 >= layers.len() {
            return CommitPlan { steps, error: Some(CommitError::LayerOutOfRange(p0.0)) };
        }
        if p1.0 >= layers.len() {
            return CommitPlan { steps, error: Some(CommitError::LayerOutOfRange(p1.0)) };
        }
        let via = !(layers[p0.0] == layers[p1.0]);
        steps.push(PathStep { from: p0, to: p1, via });
        proof {
            assert(names[p0.0 as int] == layers@[p0.0 as int]@);
            assert(steps@[i as int] == step_of(path@, names, i as int));
            assert(pair_ok(path@, layers@.len() as int, i as int));
        }
        i = i + 1;
    }
    CommitPlan { steps, error: None }
}

} // verus!
