//! Pattern routing on one layer of the routing grid: the clearance test around a cell
//! and the two-leg L-shaped route (horizontal then vertical, or vertical then
//! horizontal) tried before any search. The clearance is given in whole cells.
use vstd::prelude::*;
use crate::grid::{Cell, RoutingGrid};
use crate::maze::Node;

verus! {

/// Largest value of an `i32`.
pub open spec fn i32_max() -> int {
    0x7fff_ffff
}

/// A cell a route of `net` may pass: not blocked and not held by another net (net 0
/// is no net).
pub open spec fn open_to(c: Cell, net: u32) -> bool {
    match c {
        Cell::Free => true,
        Cell::Blocked => false,
        Cell::Pad(m) => m == net || m == 0,
        Cell::Trace(m) => m == net || m == 0,
        Cell::Via(m) => m == net || m == 0,
    }
}

/// The neighbour at offset `(dc, dr)` of `(col, row)` does not stop a route: it is the
/// centre itself, lies off the grid, or is open to the net.
pub open spec fn zone_cell_ok(g: &RoutingGrid, layer: int, col: int, row: int, net: u32, dc: int, dr: int) -> bool {
    ||| (dc == 0 && dr == 0)
    ||| col + dc < 0
    ||| row + dr < 0
    ||| !(col + dc < g.spec_cols() && row + dr < g.spec_rows())
    ||| open_to(g.cell_at(layer, col + dc, row + dr), net)
}

/// Every cell within `e` cells (in both directions) of `(col, row)`, other than the
/// centre, that lies on the grid is open to the net.
pub open spec fn zone_clear(g: &RoutingGrid, layer: int, col: int, row: int, net: u32, e: int) -> bool {
    forall|dc: int, dr: int| -e <= dc <= e && -e <= dr <= e ==> #[trigger] zone_cell_ok(g, layer, col, row, net, dc, dr)
}

/// Whether the clearance zone of `expansion` cells around `(col, row)` on `layer` is
/// free of obstacles and of other nets' cells (the centre is not tested).
pub fn is_clearance_clear(grid: &RoutingGrid, layer: usize, col: usize, row: usize, net_id: u32, expansion: usize) -> (b: bool)
    requires
        grid.wf(),
        layer < grid.spec_num_layers(),
        col + expansion <= i32_max(),
        row + expansion <= i32_max(),
    ensures
        b == zone_clear(grid, layer as int, col as int, row as int, net_id, expansion as int),
{
    let e = expansion as i64;
    let mut dc: i64 = -e;
    while dc <= e
        invariant
            grid.wf(),
            layer < grid.spec_num_layers(),
            e == expansion,
            col + expansion <= i32_max(),
            row + expansion <= i32_max(),
            -e <= dc <= e + 1,
            forall|a: int, b: int| -e <= a < dc && -e <= b <= e ==> #[trigger] zone_cell_ok(grid, layer as int, col as int, row as int, net_id, a, b),
        decreases e + 1 - dc,
    {
        let mut dr: i64 = -e;
        while dr <= e
            invariant
                grid.wf(),
                layer < grid.spec_num_layers(),
                e == expansion,
                col + expansion <= i32_max(),
                row + expansion <= i32_max(),
                -e <= dc <= e,
                -e <= dr <= e + 1,
                forall|a: int, b: int| -e <= a < dc && -e <= b <= e ==> #[trigger] zone_cell_ok(grid, layer as int, col as int, row as int, net_id, a, b),
                forall|b: int| -e <= b < dr ==> #[trigger] zone_cell_ok(grid, layer as int, col as int, row as int, net_id, dc as int, b),
            decreases e + 1 - dr,
        {
            if !(dc == 0 && dr == 0) {
                let nc = col as i64 + dc;
                let nr = row as i64 + dr;
                if nc >= 0 && nr >= 0 {
                    let ncu = nc as usize;
                    let nru = nr as usize;
                    if grid.in_bounds(ncu, nru) {
                        let c = grid.get(layer, ncu, nru);
                        let open = match c {
                            Cell::Free => true,
                            Cell::Blocked => false,
                            Cell::Pad(m) => m == net_id || m == 0,
                            Cell::Trace(m) => m == net_id || m == 0,
                            Cell::Via(m) => m == net_id || m == 0,
                        };
                        if !open {
                            proof {
                                assert(!zone_cell_ok(grid, layer as int, col as int, row as int, net_id, dc as int, dr as int));
                            }
                            return false;
                        }
                    }
                }
            }
            assert(zone_cell_ok(grid, layer as int, col as int, row as int, net_id, dc as int, dr as int));
            dr = dr + 1;
        }
        dc = dc + 1;
    }
    true
}

/// A cell a leg of a pattern route may run through: on the grid, open to the net, with
/// a clear zone of `e` cells around it.
pub open spec fn cell_clear(g: &RoutingGrid, layer: int, col: int, row: int, net: u32, e: int) -> bool {
    &&& 0 <= col < g.spec_cols()
    &&& 0 <= row < g.spec_rows()
    &&& open_to(g.cell_at(layer, col, row), net)
    &&& zone_clear(g, layer, col, row, net, e)
}

/// The cell at position `c` of a straight leg through `fixed` (a row when the leg is
/// horizontal, a column otherwise).
pub open spec fn leg_cell_clear(g: &RoutingGrid, layer: int, c: int, fixed: int, horizontal: bool, net: u32, e: int) -> bool {
    if horizontal {
        cell_clear(g, layer, c, fixed, net, e)
    } else {
        cell_clear(g, layer, fixed, c, net, e)
    }
}

/// Every cell of the straight leg from `c1` to `c2` (either way) is clear.
pub open spec fn leg_clear(g: &RoutingGrid, layer: int, c1: int, c2: int, fixed: int, horizontal: bool, net: u32, e: int) -> bool {
    let lo = if c1 <= c2 { c1 } else { c2 };
    let hi = if c1 <= c2 { c2 } else { c1 };
    forall|c: int| lo <= c <= hi ==> #[trigger] leg_cell_clear(g, layer, c, fixed, horizontal, net, e)
}

/// A corner cell of an L-shape: on the grid, free or a pad of the net (or of no net).
pub open spec fn corner_ok(g: &RoutingGrid, layer: int, col: int, row: int, net: u32) -> bool {
    &&& 0 <= col < g.spec_cols()
    &&& 0 <= row < g.spec_rows()
    &&& match g.cell_at(layer, col, row) {
        Cell::Free => true,
        Cell::Pad(m) => m == net || m == 0,
        _ => false,
    }
}

/// Whether the leg from `c1` to `c2` through `fixed` is clear.
fn leg_clear_exec(grid: &RoutingGrid, layer: usize, c1: usize, c2: usize, fixed: usize, horizontal: bool, net_id: u32, expansion: usize) -> (b: bool)
    requires
        grid.wf(),
        layer < grid.spec_num_layers(),
        grid.spec_cols() + expansion <= i32_max(),
        grid.spec_rows() + expansion <= i32_max(),
        c1 <= i32_max(),
        c2 <= i32_max(),
    ensures
        b == leg_clear(grid, layer as int, c1 as int, c2 as int, fixed as int, horizontal, net_id, expansion as int),
{
    let lo = if c1 <= c2 {
        c1
    } else {
        c2
    };
    let hi = if c1 <= c2 {
        c2
    } else {
        c1
    };
    let mut c = lo;
    while c <= hi
        invariant
            grid.wf(),
            layer < grid.spec_num_layers(),
            grid.spec_cols() + expansion <= i32_max(),
            grid.spec_rows() + expansion <= i32_max(),
            lo <= c <= hi + 1,
            hi <= i32_max(),
            lo == (if c1 <= c2 { c1 } else { c2 }),
            hi == (if c1 <= c2 { c2 } else { c1 }),
            forall|k: int| lo <= k < c ==> #[trigger] leg_cell_clear(grid, layer as int, k, fixed as int, horizontal, net_id, expansion as int),
        decreases hi + 1 - c,
    {
        let (col, row) = if horizontal {
            (c, fixed)
        } else {
            (fixed, c)
        };
        if !grid.in_bounds(col, row) {
            proof {
                assert(!leg_cell_clear(grid, layer as int, c as int, fixed as int, horizontal, net_id, expansion as int));
            }
            return false;
        }
        let cell = grid.get(layer, col, row);
        let open = match cell {
            Cell::Free => true,
            Cell::Blocked => false,
            Cell::Pad(m) => m == net_id || m == 0,
            Cell::Trace(m) => m == net_id || m == 0,
            Cell::Via(m) => m == net_id || m == 0,
        };
        if !open {
            proof {
                assert(!leg_cell_clear(grid, layer as int, c as int, fixed as int, horizontal, net_id, expansion as int));
            }
            return false;
        }
        if !is_clearance_clear(grid, layer, col, row, net_id, expansion) {
            proof {
                assert(!leg_cell_clear(grid, layer as int, c as int, fixed as int, horizontal, net_id, expansion as int));
            }
            return false;
        }
        c = c + 1;
    }
    true
}

/// Whether the corner cell of an L-shape is usable.
fn corner_ok_exec(grid: &RoutingGrid, layer: usize, col: usize, row: usize, net_id: u32) -> (b: bool)
    requires
        grid.wf(),
        layer < grid.spec_num_layers(),
    ensures
        b == corner_ok(grid, layer as int, col as int, row as int, net_id),
{
    if !grid.in_bounds(col, row) {
        return false;
    }
    match grid.get(layer, col, row) {
        Cell::Free => true,
        Cell::Pad(m) => m == net_id || m == 0,
        _ => false,
    }
}

/// The position `k` steps from `from` towards `to`.
pub open spec fn toward(from: int, to: int, k: int) -> int {
    if from <= to {
        from + k
    } else {
        from - k
    }
}

/// The number of unit steps between `a` and `b`.
pub open spec fn span(a: int, b: int) -> int {
    if a <= b {
        b - a
    } else {
        a - b
    }
}

/// The node at position `v` of a straight leg through `fixed` (a row when the leg is
/// horizontal, a column otherwise).
pub open spec fn leg_node(v: int, fixed: int, horizontal: bool, layer: int) -> Node {
    if horizontal {
        Node { col: v as usize, row: fixed as usize, layer: layer as usize }
    } else {
        Node { col: fixed as usize, row: v as usize, layer: layer as usize }
    }
}

/// The nodes of a straight leg from `from` to `to` through `fixed`, in walking order,
/// without its first node when `skip_first`.
pub open spec fn leg_nodes(from: int, to: int, fixed: int, horizontal: bool, layer: int, skip_first: bool) -> Seq<Node> {
    let s: int = if skip_first { 1 } else { 0 };
    Seq::new((span(from, to) + 1 - s) as nat, |k: int| leg_node(toward(from, to, k + s), fixed, horizontal, layer))
}

/// The route over the corner `(goal.col, start.row)`: from the start along its row to
/// the corner, then along the goal's column to the goal.
pub open spec fn horizontal_first(start: Node, goal: Node, layer: int) -> Seq<Node> {
    leg_nodes(start.col as int, goal.col as int, start.row as int, true, layer, false) + leg_nodes(
        start.row as int,
        goal.row as int,
        goal.col as int,
        false,
        layer,
        true,
    )
}

/// The route over the corner `(start.col, goal.row)`: from the start along its column
/// to the corner, then along the goal's row to the goal.
pub open spec fn vertical_first(start: Node, goal: Node, layer: int) -> Seq<Node> {
    leg_nodes(start.row as int, goal.row as int, start.col as int, false, layer, false) + leg_nodes(
        start.col as int,
        goal.col as int,
        goal.row as int,
        true,
        layer,
        true,
    )
}

/// Whether the horizontal-first shape is taken.
pub open spec fn horizontal_first_ok(g: &RoutingGrid, start: Node, goal: Node, net: u32, layer: int, e: int) -> bool {
    &&& corner_ok(g, layer, goal.col as int, start.row as int, net)
    &&& leg_clear(g, layer, start.col as int, goal.col as int, start.row as int, true, net, e)
    &&& leg_clear(g, layer, start.row as int, goal.row as int, goal.col as int, false, net, e)
}

/// Whether the vertical-first shape is usable.
pub open spec fn vertical_first_ok(g: &RoutingGrid, start: Node, goal: Node, net: u32, layer: int, e: int) -> bool {
    &&& corner_ok(g, layer, start.col as int, goal.row as int, net)
    &&& leg_clear(g, layer, start.row as int, goal.row as int, start.col as int, false, net, e)
    &&& leg_clear(g, layer, start.col as int, goal.col as int, goal.row as int, true, net, e)
}

/// The distance in cells along rows plus along columns.
pub open spec fn cell_distance(a: Node, b: Node) -> int {
    (if a.col >= b.col { a.col - b.col } else { b.col - a.col }) + (if a.row >= b.row { a.row - b.row } else {
        b.row - a.row
    })
}

/// The L-shaped route from `start` to `goal` on `layer`: none when they coincide or lie
/// more than 60 cells apart; otherwise horizontal-first when its corner and legs are
/// clear, else vertical-first when those are, else none.
pub open spec fn l_shape_spec(g: &RoutingGrid, start: Node, goal: Node, net: u32, layer: int, e: int) -> Option<Seq<Node>> {
    if start.col == goal.col && start.row == goal.row {
        None
    } else if cell_distance(start, goal) > 60 {
        None
    } else if horizontal_first_ok(g, start, goal, net, layer, e) {
        Some(horizontal_first(start, goal, layer))
    } else if vertical_first_ok(g, start, goal, net, layer, e) {
        Some(vertical_first(start, goal, layer))
    } else {
        None
    }
}

/// Append the nodes of a straight leg from `from` to `to` through `fixed` to `path`,
/// without its first node when `skip_first`.
fn push_leg(from: usize, to: usize, fixed: usize, horizontal: bool, layer: usize, skip_first: bool, path: &mut Vec<Node>)
    requires
        from <= i32_max(),
        to <= i32_max(),
    ensures
        final(path)@ == old(path)@ + leg_nodes(from as int, to as int, fixed as int, horizontal, layer as int, skip_first),
{
    let ghost leg = leg_nodes(from as int, to as int, fixed as int, horizontal, layer as int, skip_first);
    let ghost p0 = path@;
    let n: usize = if from <= to {
        to - from
    } else {
        from - to
    };
    let s: usize = if skip_first {
        1
    } else {
        0
    };
    let mut k: usize = s;
    proof {
        assert(path@ =~= p0 + leg.take(0));
    }
    while k <= n
        invariant
            s <= k <= n + 1,
            n == span(from as int, to as int),
            s == (if skip_first { 1int } else { 0int }),
            n <= i32_max(),
            from <= i32_max(),
            to <= i32_max(),
            leg == leg_nodes(from as int, to as int, fixed as int, horizontal, layer as int, skip_first),
            leg.len() == n + 1 - s,
            path@ == p0 + leg.take(k - s),
        decreases n + 1 - k,
    {
        let v: usize = if from <= to {
            from + k
        } else {
            from - k
        };
        let node = if horizontal {
            Node { col: v, row: fixed, layer }
        } else {
            Node { col: fixed, row: v, layer }
        };
        path.push(node);
        proof {
            assert(leg[k - s] == node);
            assert(leg.take(k - s + 1) =~= leg.take(k - s).push(node));
        }
        k = k + 1;
    }
    proof {
        assert(leg.take(n + 1 - s) =~= leg);
    }
}

/// L-shape pattern routing on one layer: a two-segment route from `start` through a
/// corner to `goal`, horizontal then vertical over the corner `(goal.col, start.row)`,
/// else vertical then horizontal over `(start.col, goal.row)`. A shape is taken only
/// when its corner is free (or a pad of the net) and every cell of both legs, with its
/// clearance zone of `expansion` cells, is open to the net. Start and goal must differ
/// and lie at most 60 cells apart.
pub fn try_l_shape_route(
    grid: &RoutingGrid,
    start: Node,
    goal: Node,
    net_id: u32,
    layer: usize,
    expansion: usize,
) -> (r: Option<Vec<Node>>)
    requires
        grid.wf(),
        layer < grid.spec_num_layers(),
        grid.spec_cols() + expansion <= i32_max(),
        grid.spec_rows() + expansion <= i32_max(),
        start.col <= i32_max(),
        start.row <= i32_max(),
        goal.col <= i32_max(),
        goal.row <= i32_max(),
    ensures
        match l_shape_spec(grid, start, goal, net_id, layer as int, expansion as int) {
            Some(p) => r matches Some(v) && v@ == p,
            None => r is None,
        },
{
    if start.col == goal.col && start.row == goal.row {
        return None;
    }
    let dx = if start.col >= goal.col {
        start.col - goal.col
    } else {
        goal.col - start.col
    };
    let dy = if start.row >= goal.row {
        start.row - goal.row
    } else {
        goal.row - start.row
    };
    if dx + dy > 60 {
        return None;
    }
    if corner_ok_exec(grid, layer, goal.col, start.row, net_id) {
        let h_clear = leg_clear_exec(grid, layer, start.col, goal.col, start.row, true, net_id, expansion);
        let v_clear = leg_clear_exec(grid, layer, start.row, goal.row, goal.col, false, net_id, expansion);
        if h_clear && v_clear {
            let mut path: Vec<Node> = Vec::new();
            push_leg(start.col, goal.col, start.row, true, layer, false, &mut path);
            push_leg(start.row, goal.row, goal.col, false, layer, true, &mut path);
            proof {
                assert(path@ =~= horizontal_first(start, goal, layer as int));
            }
            return Some(path);
        }
    }
    if corner_ok_exec(grid, layer, start.col, goal.row, net_id) {
        let v_clear = leg_clear_exec(grid, layer, start.row, goal.row, start.col, false, net_id, expansion);
        let h_clear = leg_clear_exec(grid, layer, start.col, goal.col, goal.row, true, net_id, expansion);
        if v_clear && h_clear {
            let mut path: Vec<Node> = Vec::new();
            push_leg(start.row, goal.row, start.col, false, layer, false, &mut path);
            push_leg(start.col, goal.col, goal.row, true, layer, true, &mut path);
            proof {
                assert(path@ =~= vertical_first(start, goal, layer as int));
            }
            return Some(path);
        }
    }
    None
}

/// Two nodes one cell apart on the same layer, along a row or a column.
pub open spec fn unit_step(a: Node, b: Node) -> bool {
    &&& a.layer == b.layer
    &&& span(a.col as int, b.col as int) + span(a.row as int, b.row as int) == 1
}

/// Facts about the nodes of a straight leg.
proof fn lemma_leg(from: int, to: int, fixed: int, horizontal: bool, layer: int, skip_first: bool, g: &RoutingGrid, net: u32, e: int)
    requires
        0 <= from,
        0 <= to,
        0 <= fixed,
        0 <= layer,
        from <= usize::MAX,
        to <= usize::MAX,
        fixed <= usize::MAX,
        layer <= usize::MAX,
    ensures
        ({
            let l = leg_nodes(from, to, fixed, horizontal, layer, skip_first);
            let s: int = if skip_first { 1 } else { 0 };
            &&& forall|i: int| 0 <= i < l.len() ==> #[trigger] l[i] == leg_node(toward(from, to, i + s), fixed, horizontal, layer)
            &&& forall|i: int| 0 <= i < l.len() - 1 ==> unit_step(#[trigger] l[i], l[i + 1])
            &&& leg_clear(g, layer, from, to, fixed, horizontal, net, e) ==> forall|i: int|
                #![trigger l[i]]
                0 <= i < l.len() ==> leg_cell_clear(g, layer, toward(from, to, i + s), fixed, horizontal, net, e)
        }),
{
    let l = leg_nodes(from, to, fixed, horizontal, layer, skip_first);
    let s: int = if skip_first { 1 } else { 0 };
    assert forall|i: int| 0 <= i < l.len() - 1 implies unit_step(#[trigger] l[i], l[i + 1]) by {
        assert(l[i] == leg_node(toward(from, to, i + s), fixed, horizontal, layer));
        assert(l[i + 1] == leg_node(toward(from, to, i + 1 + s), fixed, horizontal, layer));
    }
    if leg_clear(g, layer, from, to, fixed, horizontal, net, e) {
        assert forall|i: int| #![trigger l[i]] 0 <= i < l.len() implies leg_cell_clear(g, layer, toward(from, to, i + s), fixed, horizontal, net, e) by {
            let c = toward(from, to, i + s);
            let lo = if from <= to { from } else { to };
            let hi = if from <= to { to } else { from };
            assert(lo <= c <= hi);
        }
    }
}

/// An L-shaped route starts at the start and ends at the goal, every step moves one cell
/// along a row or a column of its layer, and every node is a clear cell of that layer
/// (on the grid, open to the net, with a clear zone).
pub proof fn lemma_l_shape_route_is_clear(g: &RoutingGrid, start: Node, goal: Node, net: u32, layer: usize, e: int)
    ensures
        match l_shape_spec(g, start, goal, net, layer as int, e) {
            Some(p) => {
                &&& p.len() >= 2
                &&& p[0] == Node { col: start.col, row: start.row, layer }
                &&& p.last() == Node { col: goal.col, row: goal.row, layer }
                &&& forall|i: int| 0 <= i < p.len() - 1 ==> unit_step(#[trigger] p[i], p[i + 1])
                &&& forall|i: int|
                    0 <= i < p.len() ==> (#[trigger] p[i]).layer == layer && cell_clear(
                        g,
                        layer as int,
                        p[i].col as int,
                        p[i].row as int,
                        net,
                        e,
                    )
            },
            None => true,
        },
{
    let l = layer as int;
    if l_shape_spec(g, start, goal, net, l, e) is Some {
        let horizontal = horizontal_first_ok(g, start, goal, net, l, e);
        let (f1, t1, x1, f2, t2, x2): (int, int, int, int, int, int) = if horizontal {
            (start.col as int, goal.col as int, start.row as int, start.row as int, goal.row as int, goal.col as int)
        } else {
            (start.row as int, goal.row as int, start.col as int, start.col as int, goal.col as int, goal.row as int)
        };
        let a = leg_nodes(f1, t1, x1, horizontal, l, false);
        let b = leg_nodes(f2, t2, x2, !horizontal, l, true);
        let p = a + b;
        assert(p == (if horizontal { horizontal_first(start, goal, l) } else { vertical_first(start, goal, l) }));
        lemma_leg(f1, t1, x1, horizontal, l, false, g, net, e);
        lemma_leg(f2, t2, x2, !horizontal, l, true, g, net, e);
        assert(a.len() == span(f1, t1) + 1);
        assert(b.len() == span(f2, t2));
        assert(p[0] == a[0]);
        assert(a[0] == Node { col: start.col, row: start.row, layer });
        if b.len() > 0 {
            assert(p.last() == b[b.len() - 1]);
        } else {
            assert(p.last() == a[a.len() - 1]);
        }
        assert(p.last() == Node { col: goal.col, row: goal.row, layer });
        assert(p.len() >= 2);
        assert forall|i: int| 0 <= i < p.len() - 1 implies unit_step(#[trigger] p[i], p[i + 1]) by {
            if i < a.len() - 1 {
                assert(p[i] == a[i]);
                assert(p[i + 1] == a[i + 1]);
            } else if i == a.len() - 1 {
                assert(p[i] == a[i]);
                assert(p[i + 1] == b[0]);
            } else {
                assert(p[i] == b[i - a.len()]);
                assert(p[i + 1] == b[i - a.len() + 1]);
            }
        }
        assert forall|i: int| 0 <= i < p.len() implies (#[trigger] p[i]).layer == layer && cell_clear(
            g,
            l,
            p[i].col as int,
            p[i].row as int,
            net,
            e,
        ) by {
            if i < a.len() {
                assert(p[i] == a[i]);
                assert(leg_cell_clear(g, l, toward(f1, t1, i), x1, horizontal, net, e));
            } else {
                assert(p[i] == b[i - a.len()]);
                assert(leg_cell_clear(g, l, toward(f2, t2, i - a.len() + 1), x2, !horizontal, net, e));
            }
        }
    }
}

/// The layer an edge is tried on first: the requested one, else with two or more signal
/// layers the first for a mostly horizontal edge and the last otherwise, else layer 0.
pub open spec fn preferred_layer_spec(requested: Option<usize>, horizontal: bool, sl: Seq<usize>) -> usize {
    match requested {
        Some(p) => p,
        None => if sl.len() >= 2 {
            if horizontal {
                sl[0]
            } else {
                sl.last()
            }
        } else {
            0
        },
    }
}

/// The layer tried second: the last signal layer when the preferred one is the first,
/// else the first; layer 0 with fewer than two signal layers.
pub open spec fn alternate_layer_spec(preferred: usize, sl: Seq<usize>) -> usize {
    if sl.len() >= 2 && preferred == sl[0] {
        sl.last()
    } else if sl.len() >= 2 {
        sl[0]
    } else {
        0
    }
}

/// `acc` followed by the signal layers other than `preferred` and `alternate`, each
/// once, in signal-layer order.
pub open spec fn with_remaining_layers(acc: Seq<usize>, sl: Seq<usize>, preferred: usize, alternate: usize) -> Seq<usize>
    decreases sl.len(),
{
    if sl.len() == 0 {
        acc
    } else {
        let a = with_remaining_layers(acc, sl.drop_last(), preferred, alternate);
        let l = sl.last();
        if l != preferred && l != alternate && !a.contains(l) {
            a.push(l)
        } else {
            a
        }
    }
}

/// The layers an edge of a net is tried on, in order: only the preferred one when the
/// board is too crowded for alternatives; else the preferred, the alternate, then the
/// remaining signal layers.
pub open spec fn edge_layers_spec(requested: Option<usize>, horizontal: bool, sl: Seq<usize>, crowded: bool) -> Seq<usize> {
    let p = preferred_layer_spec(requested, horizontal, sl);
    let a = alternate_layer_spec(p, sl);
    if crowded {
        seq![p]
    } else {
        with_remaining_layers(if a != p { seq![p, a] } else { seq![p] }, sl, p, a)
    }
}

/// The layers to try for one edge of a net: `requested` is the net's preferred layer if
/// it has one, `horizontal` whether the edge runs at least as far across as up and down,
/// `crowded` whether the board has too many footprints to try alternatives.
pub fn edge_layer_order(requested: Option<usize>, horizontal: bool, signal_layers: &[usize], crowded: bool) -> (r: Vec<usize>)
    ensures
        r@ == edge_layers_spec(requested, horizontal, signal_layers@, crowded),
{
    let n = signal_layers.len();
    let preferred = match requested {
        Some(p) => p,
        None => if n >= 2 {
            if horizontal {
                signal_layers[0]
            } else {
                signal_layers[n - 1]
            }
        } else {
            0
        },
    };
    let alternate = if n >= 2 && preferred == signal_layers[0] {
        signal_layers[n - 1]
    } else if n >= 2 {
        signal_layers[0]
    } else {
        0
    };
    let mut layers: Vec<usize> = Vec::new();
    layers.push(preferred);
    if crowded {
        proof {
            assert(layers@ =~= seq![preferred]);
        }
        return layers;
    }
    if alternate != preferred {
        layers.push(alternate);
    }
    let ghost base = layers@;
    proof {
        assert(base =~= (if alternate != preferred { seq![preferred, alternate] } else { seq![preferred] }));
        assert(signal_layers@.take(0) =~= Seq::<usize>::empty());
    }
    let mut i: usize = 0;
    while i < n
        invariant
            i <= n,
            n == signal_layers@.len(),
            layers@ == with_remaining_layers(base, signal_layers@.take(i as int), preferred, alternate),
        decreases n - i,
    {
        let l = signal_layers[i];
        proof {
            assert(signal_layers@.take(i as int + 1).drop_last() =~= signal_layers@.take(i as int));
            assert(signal_layers@.take(i as int + 1).last() == l);
        }
        if l != preferred && l != alternate && !vec_contains(&layers, l) {
            layers.push(l);
        }
        i = i + 1;
    }
    proof {
        assert(signal_layers@.take(n as int) =~= signal_layers@);
    }
    layers
}

/// Whether `x` is in `v`.
fn vec_contains(v: &Vec<usize>, x: usize) -> (b: bool)
    ensures
        b == v@.contains(x),
{
    let mut k: usize = 0;
    while k < v.len()
        invariant
            k <= v@.len(),
            forall|j: int| 0 <= j < k ==> v@[j] != x,
        decreases v@.len() - k,
    {
        if v[k] == x {
            return true;
        }
        k = k + 1;
    }
    false
}

} // verus!
