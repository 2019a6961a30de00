//! Breadth-first maze routing on the signal layers of the routing grid: the fallback
//! used when cost-driven search fails. It only avoids physical obstacles and cells of
//! other nets, moving one cell at a time on a layer or switching layers in place.
use vstd::prelude::*;
use crate::grid::{Cell, RoutingGrid, lemma_flat_index_bound};

verus! {

/// Iteration limit of one breadth-first search.
pub const BFS_MAX_ITERS: usize = 30_000;

/// A grid position on a copper layer.
#[derive(Clone, Copy, PartialEq, Eq, Debug, Structural)]
pub struct Node {
    pub col: usize,
    pub row: usize,
    pub layer: usize,
}

/// Visit stamps reused across searches: an entry counts as visited in the current
/// search when its stamp equals `version`, so a new search only bumps `version`.
pub struct VisitCache {
    pub g_version: Vec<u32>,
    pub came_from: Vec<u32>,
    pub cf_version: Vec<u32>,
    pub version: u32,
}

impl VisitCache {
    /// The three arrays have one entry per search cell and no stamp is newer than `version`.
    pub open spec fn wf(&self) -> bool {
        &&& self.came_from@.len() == self.g_version@.len()
        &&& self.cf_version@.len() == self.g_version@.len()
        &&& forall|i: int|
            0 <= i < self.g_version@.len() ==> #[trigger] self.g_version@[i] <= self.version
                && self.cf_version@[i] <= self.version
    }

    /// A cache for `total` search cells, with nothing visited.
    pub fn new(total: usize) -> (c: Self)
        ensures
            c.wf(),
            c.g_version@.len() == total,
            c.version == 1,
    {
        let mut g_version: Vec<u32> = Vec::new();
        let mut came_from: Vec<u32> = Vec::new();
        let mut cf_version: Vec<u32> = Vec::new();
        let mut i: usize = 0;
        while i < total
            invariant
                i <= total,
                g_version@.len() == i,
                came_from@.len() == i,
                cf_version@.len() == i,
                forall|j: int| 0 <= j < i ==> #[trigger] g_version@[j] == 0 && cf_version@[j] == 0,
            decreases total - i,
        {
            g_version.push(0);
            came_from.push(u32::MAX);
            cf_version.push(0);
            i = i + 1;
        }
        VisitCache { g_version, came_from, cf_version, version: 1 }
    }

    /// Clear every stamp and restart the version at 0, so that counting up again
    /// cannot meet a stale stamp.
    pub fn reset(&mut self)
        requires
            old(self).wf(),
        ensures
            final(self).wf(),
            final(self).version == 0,
            final(self).g_version@.len() == old(self).g_version@.len(),
    {
        let n = self.g_version.len();
        let mut i: usize = 0;
        while i < n
            invariant
                i <= n,
                n == self.g_version@.len(),
                self.came_from@.len() == n,
                self.cf_version@.len() == n,
                forall|j: int| 0 <= j < i ==> #[trigger] self.g_version@[j] == 0 && self.cf_version@[j] == 0,
            decreases n - i,
        {
            self.g_version.set(i, 0);
            self.cf_version.set(i, 0);
            i = i + 1;
        }
        self.version = 0;
    }
}

/// Index of the last occurrence of `layer` in the signal layer list (0 if absent).
pub open spec fn last_occ(sl: Seq<usize>, layer: int) -> int
    decreases sl.len(),
{
    if sl.len() == 0 {
        0
    } else if sl.last() == layer {
        sl.len() - 1
    } else {
        last_occ(sl.drop_last(), layer)
    }
}

pub proof fn lemma_last_occ(sl: Seq<usize>, layer: usize)
    ensures
        0 <= last_occ(sl, layer as int),
        sl.len() > 0 ==> last_occ(sl, layer as int) < sl.len(),
        sl.contains(layer) ==> sl[last_occ(sl, layer as int)] == layer,
    decreases sl.len(),
{
    if sl.len() > 0 && sl.last() != layer {
        lemma_last_occ(sl.drop_last(), layer);
        if sl.contains(layer) {
            let i = choose|i: int| 0 <= i < sl.len() && sl[i] == layer;
            assert(i < sl.len() - 1);
            assert(sl.drop_last()[i] == layer);
        }
    }
}

/// A node inside the grid on one of the signal layers.
pub open spec fn node_ok(g: &RoutingGrid, sl: Seq<usize>, n: Node) -> bool {
    &&& n.col < g.spec_cols()
    &&& n.row < g.spec_rows()
    &&& sl.contains(n.layer)
}

/// Position of a node in the search arrays: signal-layer slot, then row, then column.
pub open spec fn node_flat(sl: Seq<usize>, rows: int, cols: int, n: Node) -> int {
    (last_occ(sl, n.layer as int) * rows + n.row) * cols + n.col
}

/// Packed parent link: column in bits 0..12, row in bits 12..24, slot in bits 24..32.
pub open spec fn pack_bits(col: u32, row: u32, slot: u32) -> u32 {
    col | (row << 12u32) | (slot << 24u32)
}

/// The node a packed parent link names.
pub open spec fn unpack(sl: Seq<usize>, p: u32) -> Node {
    let slot = ((p >> 24u32) & 0xFFu32) as int;
    Node {
        col: (p & 0xFFFu32) as usize,
        row: ((p >> 12u32) & 0xFFFu32) as usize,
        layer: if slot < sl.len() {
            sl[slot]
        } else {
            sl[0]
        },
    }
}

/// The packed link of a node.
pub open spec fn pack(sl: Seq<usize>, n: Node) -> u32 {
    pack_bits(n.col as u32, n.row as u32, last_occ(sl, n.layer as int) as u32)
}

proof fn lemma_pack_bits(col: u32, row: u32, slot: u32)
    requires
        col < 4096,
        row < 4096,
        slot < 256,
    ensures
        pack_bits(col, row, slot) & 0xFFFu32 == col,
        (pack_bits(col, row, slot) >> 12u32) & 0xFFFu32 == row,
        (pack_bits(col, row, slot) >> 24u32) & 0xFFu32 == slot,
{
    assert((col | (row << 12u32) | (slot << 24u32)) & 0xFFFu32 == col) by (bit_vector)
        requires
            col < 4096,
            row < 4096,
            slot < 256,
    ;
    assert(((col | (row << 12u32) | (slot << 24u32)) >> 12u32) & 0xFFFu32 == row) by (bit_vector)
        requires
            col < 4096,
            row < 4096,
            slot < 256,
    ;
    assert(((col | (row << 12u32) | (slot << 24u32)) >> 24u32) & 0xFFu32 == slot) by (bit_vector)
        requires
            col < 4096,
            row < 4096,
            slot < 256,
    ;
}

/// Unpacking the link of a node gives the node back.
proof fn lemma_unpack_pack(g: &RoutingGrid, sl: Seq<usize>, n: Node)
    requires
        node_ok(g, sl, n),
        g.spec_cols() <= 4096,
        g.spec_rows() <= 4096,
        sl.len() <= 256,
    ensures
        unpack(sl, pack(sl, n)) == n,
{
    lemma_last_occ(sl, n.layer);
    lemma_pack_bits(n.col as u32, n.row as u32, last_occ(sl, n.layer as int) as u32);
}

/// Two nodes inside the grid with the same search position are the same node.
proof fn lemma_node_flat_injective(g: &RoutingGrid, sl: Seq<usize>, a: Node, b: Node)
    requires
        node_ok(g, sl, a),
        node_ok(g, sl, b),
        node_flat(sl, g.spec_rows() as int, g.spec_cols() as int, a) == node_flat(
            sl,
            g.spec_rows() as int,
            g.spec_cols() as int,
            b,
        ),
    ensures
        a == b,
{
    let rows = g.spec_rows() as int;
    let cols = g.spec_cols() as int;
    lemma_last_occ(sl, a.layer);
    lemma_last_occ(sl, b.layer);
    let sa = last_occ(sl, a.layer as int);
    let sb = last_occ(sl, b.layer as int);
    let fa = node_flat(sl, rows, cols, a);
    vstd::arithmetic::div_mod::lemma_fundamental_div_mod_converse(fa, cols, sa * rows + a.row, a.col as int);
    vstd::arithmetic::div_mod::lemma_fundamental_div_mod_converse(fa, cols, sb * rows + b.row, b.col as int);
    vstd::arithmetic::div_mod::lemma_fundamental_div_mod_converse(sa * rows + a.row, rows, sa, a.row as int);
    vstd::arithmetic::div_mod::lemma_fundamental_div_mod_converse(sb * rows + b.row, rows, sb, b.row as int);
}

/// Search position bound.
proof fn lemma_node_flat_bound(g: &RoutingGrid, sl: Seq<usize>, n: Node)
    requires
        node_ok(g, sl, n),
    ensures
        0 <= node_flat(sl, g.spec_rows() as int, g.spec_cols() as int, n) < sl.len() * (
        g.spec_rows() * g.spec_cols()),
{
    lemma_last_occ(sl, n.layer);
    let s = last_occ(sl, n.layer as int);
    lemma_flat_index_bound(
        s,
        n.row as int,
        n.col as int,
        sl.len() as int,
        g.spec_rows() as int,
        g.spec_cols() as int,
    );
}

/// A node a route of net `net` may enter: not blocked and not owned by another net
/// (net 0 counts as unowned).
pub open spec fn passable(g: &RoutingGrid, net: u32, n: Node) -> bool {
    match g.cell_at(n.layer as int, n.col as int, n.row as int) {
        Cell::Blocked => false,
        Cell::Pad(m) => m == net || m == 0,
        Cell::Trace(m) => m == net || m == 0,
        Cell::Via(m) => m == net || m == 0,
        Cell::Free => true,
    }
}

/// One move of the search: a unit step on the same layer, or a layer change in place.
pub open spec fn adjacent(a: Node, b: Node) -> bool {
    ||| (a.layer == b.layer && a.col == b.col && (a.row + 1 == b.row || b.row + 1 == a.row))
    ||| (a.layer == b.layer && a.row == b.row && (a.col + 1 == b.col || b.col + 1 == a.col))
    ||| (a.col == b.col && a.row == b.row && a.layer != b.layer)
}

/// One step of a returned route.
pub open spec fn step_ok(g: &RoutingGrid, net: u32, a: Node, b: Node) -> bool {
    a == b || (adjacent(a, b) && passable(g, net, b))
}

/// A route from `start` to `goal` through grid nodes on signal layers, every step a
/// move of the search into a node the net may enter.
pub open spec fn valid_route(
    g: &RoutingGrid,
    sl: Seq<usize>,
    net: u32,
    path: Seq<Node>,
    start: Node,
    goal: Node,
) -> bool {
    &&& path.len() >= 1
    &&& path[0] == start
    &&& path.last() == goal
    &&& forall|i: int| 0 <= i < path.len() ==> node_ok(g, sl, #[trigger] path[i])
    &&& forall|i: int| 0 <= i < path.len() - 1 ==> step_ok(g, net, #[trigger] path[i], path[i + 1])
}

/// Facts about one visited search position `f`.
pub open spec fn visited_ok(
    g: &RoutingGrid,
    sl: Seq<usize>,
    net: u32,
    c: &VisitCache,
    start: Node,
    nodes: Map<int, Node>,
    depth: Map<int, nat>,
    f: int,
) -> bool {
    let rows = g.spec_rows() as int;
    let cols = g.spec_cols() as int;
    let p = unpack(sl, c.came_from@[f]);
    let pf = node_flat(sl, rows, cols, p);
    &&& c.cf_version@[f] == c.version
    &&& pack(sl, p) == c.came_from@[f]
    &&& nodes.contains_key(f)
    &&& depth.contains_key(f)
    &&& node_ok(g, sl, nodes[f])
    &&& node_flat(sl, rows, cols, nodes[f]) == f
    &&& node_ok(g, sl, p)
    &&& c.g_version@[pf] == c.version
    &&& nodes.contains_key(pf)
    &&& depth.contains_key(pf)
    &&& nodes[pf] == p
    &&& ((f == node_flat(sl, rows, cols, start) && p == start) || (f != node_flat(sl, rows, cols, start)
        && adjacent(p, nodes[f]) && passable(g, net, nodes[f]) && depth[f] == depth[pf] + 1))
}

/// The search tree recorded in the cache.
pub open spec fn search_inv(
    g: &RoutingGrid,
    sl: Seq<usize>,
    net: u32,
    c: &VisitCache,
    start: Node,
    nodes: Map<int, Node>,
    depth: Map<int, nat>,
) -> bool {
    let si = node_flat(sl, g.spec_rows() as int, g.spec_cols() as int, start);
    &&& c.wf()
    &&& c.g_version@.len() >= sl.len() * (g.spec_rows() * g.spec_cols())
    &&& c.g_version@[si] == c.version
    &&& c.came_from@[si] == pack(sl, start)
    &&& nodes.contains_key(si)
    &&& nodes[si] == start
    &&& depth.contains_key(si)
    &&& depth[si] == 0
    &&& forall|f: int|
        0 <= f < c.g_version@.len() && #[trigger] c.g_version@[f] == c.version ==> visited_ok(
            g,
            sl,
            net,
            c,
            start,
            nodes,
            depth,
            f,
        )
}

/// Search position of a node on this grid.
pub open spec fn pos(g: &RoutingGrid, sl: Seq<usize>, n: Node) -> int {
    node_flat(sl, g.spec_rows() as int, g.spec_cols() as int, n)
}

/// Every grid node a route of `net` may enter in one move from `n` is visited.
pub open spec fn neighbours_visited(g: &RoutingGrid, sl: Seq<usize>, net: u32, c: &VisitCache, n: Node) -> bool {
    forall|m: Node|
        node_ok(g, sl, m) && adjacent(n, m) && passable(g, net, m) ==> #[trigger] c.g_version@[pos(g, sl, m)]
            == c.version
}

/// `q1` is `q0` followed by entries that were not visited under the marks `g0` and
/// that are at different positions.
pub open spec fn pushed_fresh(g: &RoutingGrid, sl: Seq<usize>, g0: Seq<u32>, ver: u32, q0: Seq<Node>, q1: Seq<Node>) -> bool {
    &&& q1.len() >= q0.len()
    &&& q1.take(q0.len() as int) == q0
    &&& forall|k: int| q0.len() <= k < q1.len() ==> g0[pos(g, sl, #[trigger] q1[k])] != ver
    &&& forall|k1: int, k2: int|
        q0.len() <= k1 < k2 < q1.len() ==> pos(g, sl, #[trigger] q1[k1]) != pos(g, sl, #[trigger] q1[k2])
}

/// The visit marks `g1` keep every mark of `g0`, and each new mark is the position of
/// an entry of `q1` from `from` on.
pub open spec fn marks_grew(g: &RoutingGrid, sl: Seq<usize>, g0: Seq<u32>, g1: Seq<u32>, ver: u32, from: int, q1: Seq<Node>) -> bool {
    &&& g1.len() == g0.len()
    &&& forall|f: int| 0 <= f < g0.len() && g0[f] == ver ==> #[trigger] g1[f] == ver
    &&& forall|f: int|
        0 <= f < g1.len() && #[trigger] g1[f] == ver && g0[f] != ver ==> exists|k: int|
            from <= k < q1.len() && pos(g, sl, #[trigger] q1[k]) == f
}

/// `m` is the neighbour of `cur` in direction `d` on its layer: right, left, down, up.
pub open spec fn nbr_in_dir(cur: Node, d: int, m: Node) -> bool {
    &&& m.layer == cur.layer
    &&& {
        ||| (d == 0 && m.row == cur.row && m.col == cur.col + 1)
        ||| (d == 1 && m.row == cur.row && m.col + 1 == cur.col)
        ||| (d == 2 && m.col == cur.col && m.row == cur.row + 1)
        ||| (d == 3 && m.col == cur.col && m.row + 1 == cur.row)
    }
}

/// `m` is `cur` moved to signal layer slot `t`, another layer.
pub open spec fn layer_nbr(cur: Node, sl: Seq<usize>, t: int, m: Node) -> bool {
    m.col == cur.col && m.row == cur.row && m.layer == sl[t] && m.layer != cur.layer
}

/// Slot of a layer in the lookup table (0 for layers beyond it).
fn slot_in(tbl: &Vec<usize>, layer: usize) -> (s: usize)
    ensures
        s == if layer < tbl@.len() {
            tbl@[layer as int]
        } else {
            0
        },
{
    if layer < tbl.len() {
        tbl[layer]
    } else {
        0
    }
}

/// The lookup table maps every layer up to the largest signal layer to its last slot.
pub open spec fn tbl_ok(tbl: Seq<usize>, sl: Seq<usize>) -> bool {
    &&& forall|s: int| 0 <= s < sl.len() ==> #[trigger] sl[s] < tbl.len()
    &&& forall|l: int| 0 <= l < tbl.len() ==> #[trigger] tbl[l] == last_occ(sl, l)
}

fn flat_of(tbl: &Vec<usize>, sl: &[usize], rows: usize, cols: usize, n: Node) -> (f: usize)
    requires
        tbl_ok(tbl@, sl@),
        sl@.contains(n.layer),
        n.row < rows,
        n.col < cols,
        sl@.len() * (rows * cols) <= usize::MAX,
    ensures
        f == node_flat(sl@, rows as int, cols as int, n),
        f < sl@.len() * (rows * cols),
{
    proof {
        lemma_last_occ(sl@, n.layer);
        let i = choose|i: int| 0 <= i < sl@.len() && sl@[i] == n.layer;
        assert(sl@[i] < tbl@.len());
        lemma_flat_index_bound(
            last_occ(sl@, n.layer as int),
            n.row as int,
            n.col as int,
            sl@.len() as int,
            rows as int,
            cols as int,
        );
    }
    let s = slot_in(tbl, n.layer);
    proof {
        let a = s * rows + n.row;
        assert(a <= a * cols) by (nonlinear_arith)
            requires
                0 <= a,
                cols >= 1,
        ;
    }
    (s * rows + n.row) * cols + n.col
}

fn pack_of(tbl: &Vec<usize>, sl: &[usize], n: Node) -> (p: u32)
    requires
        tbl_ok(tbl@, sl@),
        sl@.contains(n.layer),
        n.row < 4096,
        n.col < 4096,
        sl@.len() <= 256,
    ensures
        p == pack(sl@, n),
{
    proof {
        lemma_last_occ(sl@, n.layer);
        let i = choose|i: int| 0 <= i < sl@.len() && sl@[i] == n.layer;
        assert(sl@[i] < tbl@.len());
    }
    let s = slot_in(tbl, n.layer);
    (n.col as u32) | ((n.row as u32) << 12u32) | ((s as u32) << 24u32)
}

fn unpack_of(sl: &[usize], p: u32) -> (n: Node)
    requires
        sl@.len() > 0,
    ensures
        n == unpack(sl@, p),
{
    let col = (p & 0xFFF) as usize;
    let row = ((p >> 12u32) & 0xFFF) as usize;
    let slot = ((p >> 24u32) & 0xFF) as usize;
    let layer = if slot < sl.len() {
        sl[slot]
    } else {
        sl[0]
    };
    Node { col, row, layer }
}

/// Whether a route of `net` may enter the cell (blocked cells and cells owned by another
/// nonzero net are refused).
fn enterable(grid: &RoutingGrid, net: u32, n: Node) -> (b: bool)
    requires
        grid.wf(),
        grid.in_range(n.layer as int, n.col as int, n.row as int),
    ensures
        b == passable(grid, net, n),
{
    match grid.get(n.layer, n.col, n.row) {
        Cell::Blocked => false,
        Cell::Trace(m) => !(m != net && m != 0),
        Cell::Via(m) => !(m != net && m != 0),
        Cell::Pad(m) => !(m != net && m != 0),
        Cell::Free => true,
    }
}


/// Mark search position `ni` visited with parent link `parent`.
fn mark_visited(cache: &mut VisitCache, ni: usize, parent: u32)
    requires
        old(cache).wf(),
        ni < old(cache).g_version@.len(),
    ensures
        final(cache).wf(),
        final(cache).version == old(cache).version,
        final(cache).g_version@ == old(cache).g_version@.update(ni as int, old(cache).version),
        final(cache).came_from@ == old(cache).came_from@.update(ni as int, parent),
        final(cache).cf_version@ == old(cache).cf_version@.update(ni as int, old(cache).version),
{
    let ver = cache.version;
    cache.g_version.set(ni, ver);
    cache.came_from.set(ni, parent);
    cache.cf_version.set(ni, ver);
}

/// Every queued node is a visited grid node recorded in the search tree.
pub open spec fn queue_ok(
    g: &RoutingGrid,
    sl: Seq<usize>,
    c: &VisitCache,
    nodes: Map<int, Node>,
    q: Seq<Node>,
) -> bool {
    forall|k: int|
        0 <= k < q.len() ==> node_ok(g, sl, #[trigger] q[k]) && c.g_version@[node_flat(
            sl,
            g.spec_rows() as int,
            g.spec_cols() as int,
            q[k],
        )] == c.version && nodes.contains_key(
            node_flat(sl, g.spec_rows() as int, g.spec_cols() as int, q[k]),
        ) && nodes[node_flat(sl, g.spec_rows() as int, g.spec_cols() as int, q[k])] == q[k]
}

/// Facts shared by the search loops.
pub open spec fn search_frame(g: &RoutingGrid, sl: Seq<usize>, tbl: Seq<usize>, start: Node) -> bool {
    &&& sl.len() > 0
    &&& sl.len() <= 256
    &&& g.wf()
    &&& g.spec_cols() <= 4096
    &&& g.spec_rows() <= 4096
    &&& forall|t: int| 0 <= t < sl.len() ==> #[trigger] sl[t] < g.spec_num_layers()
    &&& sl.len() * (g.spec_rows() * g.spec_cols()) <= usize::MAX
    &&& tbl_ok(tbl, sl)
    &&& node_ok(g, sl, start)
}

/// Layer -> slot table: entry `l` is the last slot holding layer `l`.
fn build_slot_table(signal_layers: &[usize], num_layers: usize) -> (tbl: Vec<usize>)
    requires
        signal_layers@.len() > 0,
        forall|t: int| 0 <= t < signal_layers@.len() ==> #[trigger] signal_layers@[t] < num_layers,
    ensures
        tbl_ok(tbl@, signal_layers@),
{
    let ghost sl = signal_layers@;
    let mut max_layer: usize = signal_layers[0];
    let mut s: usize = 1;
    while s < signal_layers.len()
        invariant
            1 <= s <= sl.len(),
            sl == signal_layers@,
            forall|t: int| 0 <= t < s ==> #[trigger] sl[t] <= max_layer,
            max_layer < num_layers,
            forall|t: int| 0 <= t < sl.len() ==> #[trigger] sl[t] < num_layers,
        decreases sl.len() - s,
    {
        if signal_layers[s] > max_layer {
            max_layer = signal_layers[s];
        }
        s = s + 1;
    }
    let mut tbl: Vec<usize> = Vec::new();
    let mut l: usize = 0;
    while l <= max_layer
        invariant
            l <= max_layer + 1,
            max_layer < num_layers,
            tbl@.len() == l,
            forall|t: int| 0 <= t < l ==> #[trigger] tbl@[t] == 0,
        decreases max_layer + 1 - l,
    {
        tbl.push(0);
        l = l + 1;
    }
    let mut s: usize = 0;
    while s < signal_layers.len()
        invariant
            s <= sl.len(),
            sl == signal_layers@,
            tbl@.len() == max_layer + 1,
            forall|t: int| 0 <= t < sl.len() ==> #[trigger] sl[t] <= max_layer,
            forall|ll: int| 0 <= ll < tbl@.len() ==> #[trigger] tbl@[ll] == last_occ(sl.take(s as int), ll),
        decreases sl.len() - s,
    {
        let ghost old_tbl = tbl@;
        tbl.set(signal_layers[s], s);
        proof {
            assert forall|ll: int| 0 <= ll < tbl@.len() implies #[trigger] tbl@[ll] == last_occ(
                sl.take(s + 1),
                ll,
            ) by {
                assert(sl.take(s + 1).drop_last() =~= sl.take(s as int));
                if ll != sl[s as int] {
                    assert(tbl@[ll] == old_tbl[ll]);
                }
            }
        }
        s = s + 1;
    }
    proof {
        assert(sl.take(sl.len() as int) =~= sl);
    }
    tbl
}

/// Record a newly reached neighbour `nb` (search position `ni`) of the expanded node
/// `current`, keeping the search tree invariant.
fn visit(
    grid: &RoutingGrid,
    signal_layers: &[usize],
    cache: &mut VisitCache,
    net_id: u32,
    start: Node,
    current: Node,
    nb: Node,
    ni: usize,
    cur_packed: u32,
    Ghost(nodes): Ghost<Map<int, Node>>,
    Ghost(depth): Ghost<Map<int, nat>>,
)
    requires
        grid.wf(),
        signal_layers@.len() > 0,
        search_inv(grid, signal_layers@, net_id, old(cache), start, nodes, depth),
        node_ok(grid, signal_layers@, start),
        node_ok(grid, signal_layers@, current),
        node_ok(grid, signal_layers@, nb),
        ni == node_flat(signal_layers@, grid.spec_rows() as int, grid.spec_cols() as int, nb),
        ni < old(cache).g_version@.len(),
        old(cache).g_version@[ni as int] != old(cache).version,
        old(cache).g_version@[node_flat(
            signal_layers@,
            grid.spec_rows() as int,
            grid.spec_cols() as int,
            current,
        )] == old(cache).version,
        nodes.contains_key(
            node_flat(signal_layers@, grid.spec_rows() as int, grid.spec_cols() as int, current),
        ),
        nodes[node_flat(signal_layers@, grid.spec_rows() as int, grid.spec_cols() as int, current)]
            == current,
        unpack(signal_layers@, cur_packed) == current,
        cur_packed == pack(signal_layers@, current),
        adjacent(current, nb),
        passable(grid, net_id, nb),
    ensures
        final(cache).version == old(cache).version,
        final(cache).g_version@.len() == old(cache).g_version@.len(),
        final(cache).g_version@ == old(cache).g_version@.update(ni as int, old(cache).version),
        search_inv(
            grid,
            signal_layers@,
            net_id,
            final(cache),
            start,
            nodes.insert(ni as int, nb),
            depth.insert(
                ni as int,
                depth[node_flat(
                    signal_layers@,
                    grid.spec_rows() as int,
                    grid.spec_cols() as int,
                    current,
                )] + 1,
            ),
        ),
{
    let ghost sl = signal_layers@;
    let ghost rows = grid.spec_rows() as int;
    let ghost cols = grid.spec_cols() as int;
    let ghost pre = *cache;
    let ghost cf = node_flat(sl, rows, cols, current);
    let ghost nodes2 = nodes.insert(ni as int, nb);
    let ghost depth2 = depth.insert(ni as int, depth[cf] + 1);
    let ghost si = node_flat(sl, rows, cols, start);
    proof {
        lemma_node_flat_bound(grid, sl, current);
        lemma_node_flat_bound(grid, sl, start);
    }
    mark_visited(cache, ni, cur_packed);
    proof {
        assert(ni != si);
        assert(ni != cf);
        assert(cache.g_version@[cf] == cache.version);
        assert forall|f: int|
            0 <= f < cache.g_version@.len() && #[trigger] cache.g_version@[f] == cache.version implies visited_ok(
            grid,
            sl,
            net_id,
            cache,
            start,
            nodes2,
            depth2,
            f,
        ) by {
            if f == ni {
                assert(cache.came_from@[f] == cur_packed);
            } else {
                assert(cache.g_version@[f] == pre.g_version@[f]);
                assert(visited_ok(grid, sl, net_id, &pre, start, nodes, depth, f));
                let p = unpack(sl, pre.came_from@[f]);
                let pf = node_flat(sl, rows, cols, p);
                lemma_node_flat_bound(grid, sl, p);
                assert(cache.came_from@[f] == pre.came_from@[f]);
                assert(pre.g_version@[pf] == pre.version);
                assert(pf != ni);
                assert(cache.g_version@[pf] == cache.version);
            }
        }
    }
}

/// Pushing an unvisited node and marking it keeps the queue growth and the mark growth
/// bookkeeping of an expansion.
proof fn lemma_push_fresh(g: &RoutingGrid, sl: Seq<usize>, g0: Seq<u32>, ver: u32, q0: Seq<Node>, g1: Seq<u32>, q1: Seq<Node>, nb: Node)
    requires
        pushed_fresh(g, sl, g0, ver, q0, q1),
        marks_grew(g, sl, g0, g1, ver, q0.len() as int, q1),
        0 <= pos(g, sl, nb) < g1.len(),
        g1[pos(g, sl, nb)] != ver,
        forall|k: int| 0 <= k < q1.len() ==> g1[pos(g, sl, #[trigger] q1[k])] == ver,
    ensures
        pushed_fresh(g, sl, g0, ver, q0, q1.push(nb)),
        marks_grew(g, sl, g0, g1.update(pos(g, sl, nb), ver), ver, q0.len() as int, q1.push(nb)),
{
    let q2 = q1.push(nb);
    let ni = pos(g, sl, nb);
    let g2 = g1.update(ni, ver);
    assert(q2.take(q0.len() as int) =~= q1.take(q0.len() as int));
    assert(g0[ni] != ver);
    assert forall|k: int| q0.len() <= k < q2.len() implies g0[pos(g, sl, #[trigger] q2[k])] != ver by {
        if k < q1.len() {
            assert(q2[k] == q1[k]);
        }
    }
    assert forall|k1: int, k2: int| q0.len() <= k1 < k2 < q2.len() implies pos(g, sl, #[trigger] q2[k1]) != pos(
        g,
        sl,
        #[trigger] q2[k2],
    ) by {
        assert(q2[k1] == q1[k1]);
        if k2 < q1.len() {
            assert(q2[k2] == q1[k2]);
        } else {
            assert(g1[pos(g, sl, q1[k1])] == ver);
        }
    }
    assert forall|f: int| 0 <= f < g2.len() && #[trigger] g2[f] == ver && g0[f] != ver implies exists|k: int|
        q0.len() <= k < q2.len() && pos(g, sl, #[trigger] q2[k]) == f by {
        if f == ni {
            assert(q2[q1.len() as int] == nb);
            assert(pos(g, sl, q2[q1.len() as int]) == f);
        } else {
            assert(g1[f] == ver);
            let k = choose|k: int| q0.len() <= k < q1.len() && pos(g, sl, #[trigger] q1[k]) == f;
            assert(q2[k] == q1[k]);
        }
    }
}

/// Expand `current`: queue every neighbour (4 directions on its layer, then every other
/// signal layer in place) that is not yet visited and that the net may enter.
fn expand(
    grid: &RoutingGrid,
    signal_layers: &[usize],
    tbl: &Vec<usize>,
    cache: &mut VisitCache,
    queue: &mut std::collections::VecDeque<Node>,
    net_id: u32,
    start: Node,
    current: Node,
    Ghost(nodes): Ghost<Map<int, Node>>,
    Ghost(depth): Ghost<Map<int, nat>>,
) -> (res: (Ghost<Map<int, Node>>, Ghost<Map<int, nat>>))
    requires
        search_frame(grid, signal_layers@, tbl@, start),
        search_inv(grid, signal_layers@, net_id, old(cache), start, nodes, depth),
        queue_ok(grid, signal_layers@, old(cache), nodes, old(queue)@),
        node_ok(grid, signal_layers@, current),
        old(cache).g_version@[node_flat(
            signal_layers@,
            grid.spec_rows() as int,
            grid.spec_cols() as int,
            current,
        )] == old(cache).version,
        nodes.contains_key(
            node_flat(signal_layers@, grid.spec_rows() as int, grid.spec_cols() as int, current),
        ),
        nodes[node_flat(signal_layers@, grid.spec_rows() as int, grid.spec_cols() as int, current)]
            == current,
    ensures
        final(cache).version == old(cache).version,
        final(cache).g_version@.len() == old(cache).g_version@.len(),
        search_inv(grid, signal_layers@, net_id, final(cache), start, res.0@, res.1@),
        queue_ok(grid, signal_layers@, final(cache), res.0@, final(queue)@),
        pushed_fresh(grid, signal_layers@, old(cache).g_version@, old(cache).version, old(queue)@, final(queue)@),
        marks_grew(grid, signal_layers@, old(cache).g_version@, final(cache).g_version@, old(cache).version, old(queue)@.len() as int, final(queue)@),
        neighbours_visited(grid, signal_layers@, net_id, final(cache), current),
        res.0@.contains_key(pos(grid, signal_layers@, current)),
        res.0@[pos(grid, signal_layers@, current)] == current,
        forall|f: int|
            0 <= f < old(cache).g_version@.len() && old(cache).g_version@[f] == old(cache).version
                ==> #[trigger] res.1@[f] == depth[f],
        forall|k: int|
            old(queue)@.len() <= k < final(queue)@.len() ==> res.1@[pos(grid, signal_layers@, #[trigger] final(queue)@[k])]
                == depth[pos(grid, signal_layers@, current)] + 1,
{
    let ghost sl = signal_layers@;
    let ghost q0 = queue@;
    let ghost g0 = cache.g_version@;
    let rows = grid.rows();
    let cols = grid.cols();
    let ghost mut nodes = nodes;
    let ghost d0 = depth;
    let ghost mut depth = depth;
    let ver = cache.version;
    let cur_packed = pack_of(tbl, signal_layers, current);
    proof {
        lemma_unpack_pack(grid, sl, current);
        grid.lemma_wf_len();
    }
    let layer = current.layer;
    let c = current.col;
    let r = current.row;
    proof {
        assert(queue@.take(q0.len() as int) =~= q0);
    }
    let mut d: usize = 0;
    while d < 4
        invariant
            sl == signal_layers@,
            search_frame(grid, sl, tbl@, start),
            rows == grid.spec_rows(),
            cols == grid.spec_cols(),
            node_ok(grid, sl, current),
            current.layer == layer && current.col == c && current.row == r,
            unpack(sl, cur_packed) == current,
            cur_packed == pack(sl, current),
            cache.g_version@[node_flat(sl, rows as int, cols as int, current)] == ver,
            nodes.contains_key(node_flat(sl, rows as int, cols as int, current)),
            nodes[node_flat(sl, rows as int, cols as int, current)] == current,
            cache.version == ver,
            cache.g_version@.len() == old(cache).g_version@.len(),
            search_inv(grid, sl, net_id, cache, start, nodes, depth),
            queue_ok(grid, sl, cache, nodes, queue@),
            d <= 4,
            q0 == old(queue)@,
            g0 == old(cache).g_version@,
            ver == old(cache).version,
            pushed_fresh(grid, sl, g0, ver, q0, queue@),
            marks_grew(grid, sl, g0, cache.g_version@, ver, q0.len() as int, queue@),
            g0[node_flat(sl, rows as int, cols as int, current)] == ver,
            forall|f: int| 0 <= f < g0.len() && g0[f] == ver ==> #[trigger] depth[f] == d0[f],
            forall|k: int|
                q0.len() <= k < queue@.len() ==> depth[pos(grid, sl, #[trigger] queue@[k])] == d0[pos(grid, sl, current)] + 1,
            forall|m: Node, dd: int|
                0 <= dd < d && #[trigger] nbr_in_dir(current, dd, m) && node_ok(grid, sl, m) && passable(grid, net_id, m)
                    ==> cache.g_version@[pos(grid, sl, m)] == ver,
        decreases 4 - d,
    {
        let (dc, dr): (i32, i32) = if d == 0 {
            (1, 0)
        } else if d == 1 {
            (-1, 0)
        } else if d == 2 {
            (0, 1)
        } else {
            (0, -1)
        };
        let ghost dcur = d as int;
        let ghost g_entry = cache.g_version@;
        d = d + 1;
        let nc = c as i32 + dc;
        let nr = r as i32 + dr;
        let ghost mut visited_nb = false;
        if nc >= 0 && nr >= 0 && (nc as usize) < cols && (nr as usize) < rows {
            let nb = Node { col: nc as usize, row: nr as usize, layer };
            let ni = flat_of(tbl, signal_layers, rows, cols, nb);
            if cache.g_version[ni] != ver && grid.in_bounds(nb.col, nb.row) && enterable(grid, net_id, nb) {
                let ghost g_before = cache.g_version@;
                let ghost q_before = queue@;
                let ghost d_before = depth;
                let (Ghost(n2), Ghost(d2)) = step_into(
                    grid,
                    signal_layers,
                    cache,
                    queue,
                    net_id,
                    start,
                    current,
                    nb,
                    ni,
                    cur_packed,
                    Ghost(nodes),
                    Ghost(depth),
                );
                proof {
                    nodes = n2;
                    depth = d2;
                    lemma_node_flat_bound(grid, sl, current);
                    lemma_push_fresh(grid, sl, g0, ver, q0, g_before, q_before, nb);
                    assert(g0[pos(grid, sl, current)] == ver);
                    assert(0 <= pos(grid, sl, current) < g0.len());
                    assert(d_before[pos(grid, sl, current)] == d0[pos(grid, sl, current)]);
                    assert forall|k: int| q0.len() <= k < queue@.len() implies depth[pos(grid, sl, #[trigger] queue@[k])]
                        == d0[pos(grid, sl, current)] + 1 by {
                        if k < q_before.len() {
                            assert(queue@[k] == q_before[k]);
                            lemma_node_flat_bound(grid, sl, q_before[k]);
                            assert(g_before[pos(grid, sl, q_before[k])] == ver);
                        }
                    }
                }
            }
            proof {
                visited_nb = true;
                assert(cache.g_version@[pos(grid, sl, nb)] == ver || !passable(grid, net_id, nb));
            }
        }
        proof {
            assert forall|f: int| 0 <= f < g_entry.len() && g_entry[f] == ver implies #[trigger] cache.g_version@[f] == ver by {}
            assert forall|m: Node, dd: int|
                0 <= dd < d && #[trigger] nbr_in_dir(current, dd, m) && node_ok(grid, sl, m) && passable(grid, net_id, m)
                    implies cache.g_version@[pos(grid, sl, m)] == ver by {
                lemma_node_flat_bound(grid, sl, m);
                if dd < dcur {
                    assert(g_entry[pos(grid, sl, m)] == ver);
                } else {
                    assert(m.col == (c as i32 + dc) as usize && m.row == (r as i32 + dr) as usize);
                    assert(visited_nb);
                    assert(m == Node { col: nc as usize, row: nr as usize, layer });
                }
            }
        }
    }
    let mut s: usize = 0;
    while s < signal_layers.len()
        invariant
            sl == signal_layers@,
            search_frame(grid, sl, tbl@, start),
            s <= sl.len(),
            rows == grid.spec_rows(),
            cols == grid.spec_cols(),
            node_ok(grid, sl, current),
            current.layer == layer && current.col == c && current.row == r,
            unpack(sl, cur_packed) == current,
            cur_packed == pack(sl, current),
            cache.g_version@[node_flat(sl, rows as int, cols as int, current)] == ver,
            nodes.contains_key(node_flat(sl, rows as int, cols as int, current)),
            nodes[node_flat(sl, rows as int, cols as int, current)] == current,
            cache.version == ver,
            cache.g_version@.len() == old(cache).g_version@.len(),
            search_inv(grid, sl, net_id, cache, start, nodes, depth),
            queue_ok(grid, sl, cache, nodes, queue@),
            q0 == old(queue)@,
            g0 == old(cache).g_version@,
            ver == old(cache).version,
            pushed_fresh(grid, sl, g0, ver, q0, queue@),
            marks_grew(grid, sl, g0, cache.g_version@, ver, q0.len() as int, queue@),
            g0[node_flat(sl, rows as int, cols as int, current)] == ver,
            forall|f: int| 0 <= f < g0.len() && g0[f] == ver ==> #[trigger] depth[f] == d0[f],
            forall|k: int|
                q0.len() <= k < queue@.len() ==> depth[pos(grid, sl, #[trigger] queue@[k])] == d0[pos(grid, sl, current)] + 1,
            forall|m: Node, dd: int|
                0 <= dd < 4 && #[trigger] nbr_in_dir(current, dd, m) && node_ok(grid, sl, m) && passable(grid, net_id, m)
                    ==> cache.g_version@[pos(grid, sl, m)] == ver,
            forall|m: Node, t: int|
                0 <= t < s && #[trigger] layer_nbr(current, sl, t, m) && node_ok(grid, sl, m) && passable(grid, net_id, m)
                    ==> cache.g_version@[pos(grid, sl, m)] == ver,
        decreases sl.len() - s,
    {
        let other_layer = signal_layers[s];
        let ghost tcur = s as int;
        let ghost g_entry = cache.g_version@;
        s = s + 1;
        if other_layer != layer {
            let nb = Node { col: c, row: r, layer: other_layer };
            proof {
                assert(sl[s - 1] == other_layer);
                assert(node_ok(grid, sl, nb));
            }
            let ni = flat_of(tbl, signal_layers, rows, cols, nb);
            if cache.g_version[ni] != ver && enterable(grid, net_id, nb) {
                let ghost g_before = cache.g_version@;
                let ghost q_before = queue@;
                let ghost d_before = depth;
                let (Ghost(n2), Ghost(d2)) = step_into(
                    grid,
                    signal_layers,
                    cache,
                    queue,
                    net_id,
                    start,
                    current,
                    nb,
                    ni,
                    cur_packed,
                    Ghost(nodes),
                    Ghost(depth),
                );
                proof {
                    nodes = n2;
                    depth = d2;
                    lemma_node_flat_bound(grid, sl, current);
                    lemma_push_fresh(grid, sl, g0, ver, q0, g_before, q_before, nb);
                    assert(g0[pos(grid, sl, current)] == ver);
                    assert(0 <= pos(grid, sl, current) < g0.len());
                    assert(d_before[pos(grid, sl, current)] == d0[pos(grid, sl, current)]);
                    assert forall|k: int| q0.len() <= k < queue@.len() implies depth[pos(grid, sl, #[trigger] queue@[k])]
                        == d0[pos(grid, sl, current)] + 1 by {
                        if k < q_before.len() {
                            assert(queue@[k] == q_before[k]);
                            lemma_node_flat_bound(grid, sl, q_before[k]);
                            assert(g_before[pos(grid, sl, q_before[k])] == ver);
                        }
                    }
                }
            }
            proof {
                assert(cache.g_version@[pos(grid, sl, nb)] == ver || !passable(grid, net_id, nb));
            }
        }
        proof {
            assert forall|f: int| 0 <= f < g_entry.len() && g_entry[f] == ver implies #[trigger] cache.g_version@[f] == ver by {}
            assert forall|m: Node, dd: int|
                0 <= dd < 4 && #[trigger] nbr_in_dir(current, dd, m) && node_ok(grid, sl, m) && passable(grid, net_id, m)
                    implies cache.g_version@[pos(grid, sl, m)] == ver by {
                lemma_node_flat_bound(grid, sl, m);
                assert(g_entry[pos(grid, sl, m)] == ver);
            }
            assert forall|m: Node, t: int|
                0 <= t < s && #[trigger] layer_nbr(current, sl, t, m) && node_ok(grid, sl, m) && passable(grid, net_id, m)
                    implies cache.g_version@[pos(grid, sl, m)] == ver by {
                lemma_node_flat_bound(grid, sl, m);
                if t < tcur {
                    assert(g_entry[pos(grid, sl, m)] == ver);
                } else {
                    assert(m == Node { col: c, row: r, layer: other_layer });
                }
            }
        }
    }
    proof {
        assert forall|m: Node| node_ok(grid, sl, m) && adjacent(current, m) && passable(grid, net_id, m) implies #[trigger] cache.g_version@[pos(grid, sl, m)] == ver by {
            if m.layer == current.layer {
                if m.row == current.row && m.col == current.col + 1 {
                    assert(nbr_in_dir(current, 0, m));
                } else if m.row == current.row && m.col + 1 == current.col {
                    assert(nbr_in_dir(current, 1, m));
                } else if m.col == current.col && m.row == current.row + 1 {
                    assert(nbr_in_dir(current, 2, m));
                } else {
                    assert(nbr_in_dir(current, 3, m));
                }
            } else {
                let t = choose|t: int| 0 <= t < sl.len() && sl[t] == m.layer;
                assert(layer_nbr(current, sl, t, m));
            }
        }
    }
    (Ghost(nodes), Ghost(depth))
}

/// Visit neighbour `nb` of `current` and queue it.
fn step_into(
    grid: &RoutingGrid,
    signal_layers: &[usize],
    cache: &mut VisitCache,
    queue: &mut std::collections::VecDeque<Node>,
    net_id: u32,
    start: Node,
    current: Node,
    nb: Node,
    ni: usize,
    cur_packed: u32,
    Ghost(nodes): Ghost<Map<int, Node>>,
    Ghost(depth): Ghost<Map<int, nat>>,
) -> (res: (Ghost<Map<int, Node>>, Ghost<Map<int, nat>>))
    requires
        grid.wf(),
        signal_layers@.len() > 0,
        search_inv(grid, signal_layers@, net_id, old(cache), start, nodes, depth),
        queue_ok(grid, signal_layers@, old(cache), nodes, old(queue)@),
        node_ok(grid, signal_layers@, start),
        node_ok(grid, signal_layers@, current),
        node_ok(grid, signal_layers@, nb),
        ni == node_flat(signal_layers@, grid.spec_rows() as int, grid.spec_cols() as int, nb),
        ni < old(cache).g_version@.len(),
        old(cache).g_version@[ni as int] != old(cache).version,
        old(cache).g_version@[node_flat(
            signal_layers@,
            grid.spec_rows() as int,
            grid.spec_cols() as int,
            current,
        )] == old(cache).version,
        nodes.contains_key(
            node_flat(signal_layers@, grid.spec_rows() as int, grid.spec_cols() as int, current),
        ),
        nodes[node_flat(signal_layers@, grid.spec_rows() as int, grid.spec_cols() as int, current)]
            == current,
        unpack(signal_layers@, cur_packed) == current,
        cur_packed == pack(signal_layers@, current),
        passable(grid, net_id, nb),
        (nb.layer == current.layer && nb.row == current.row && (nb.col == current.col + 1
            || nb.col + 1 == current.col)) || (nb.layer == current.layer && nb.col == current.col && (
        nb.row == current.row + 1 || nb.row + 1 == current.row)) || (nb.col == current.col && nb.row
            == current.row && nb.layer != current.layer),
    ensures
        final(cache).version == old(cache).version,
        final(cache).g_version@.len() == old(cache).g_version@.len(),
        search_inv(grid, signal_layers@, net_id, final(cache), start, res.0@, res.1@),
        queue_ok(grid, signal_layers@, final(cache), res.0@, final(queue)@),
        forall|f: int|
            0 <= f < old(cache).g_version@.len() && old(cache).g_version@[f] == old(cache).version
                ==> #[trigger] final(cache).g_version@[f] == old(cache).version,
        res.0@.contains_key(
            node_flat(signal_layers@, grid.spec_rows() as int, grid.spec_cols() as int, current),
        ),
        res.0@[node_flat(signal_layers@, grid.spec_rows() as int, grid.spec_cols() as int, current)]
            == current,
        final(queue)@ == old(queue)@.push(nb),
        final(cache).g_version@ == old(cache).g_version@.update(ni as int, old(cache).version),
        res.1@ == depth.insert(
            ni as int,
            depth[node_flat(signal_layers@, grid.spec_rows() as int, grid.spec_cols() as int, current)] + 1,
        ),
{
    let ghost sl = signal_layers@;
    let ghost rows = grid.spec_rows() as int;
    let ghost cols = grid.spec_cols() as int;
    let ghost pre = *cache;
    let ghost cf = node_flat(sl, rows, cols, current);
    proof {
        assert(adjacent(current, nb));
    }
    visit(grid, signal_layers, cache, net_id, start, current, nb, ni, cur_packed, Ghost(nodes), Ghost(depth));
    let ghost nodes2 = nodes.insert(ni as int, nb);
    let ghost depth2 = depth.insert(ni as int, depth[cf] + 1);
    let ghost q_before = queue@;
    queue.push_back(nb);
    proof {
        assert forall|k: int| 0 <= k < queue@.len() implies node_ok(grid, sl, #[trigger] queue@[k])
            && cache.g_version@[node_flat(sl, rows, cols, queue@[k])] == cache.version
            && nodes2.contains_key(node_flat(sl, rows, cols, queue@[k]))
            && nodes2[node_flat(sl, rows, cols, queue@[k])] == queue@[k] by {
            if k < q_before.len() {
                assert(queue@[k] == q_before[k]);
                let qf = node_flat(sl, rows, cols, q_before[k]);
                lemma_node_flat_bound(grid, sl, q_before[k]);
                assert(pre.g_version@[qf] == pre.version);
                assert(qf != ni);
            }
        }
        lemma_node_flat_bound(grid, sl, current);
        assert(cf != ni);
    }
    (Ghost(nodes2), Ghost(depth2))
}

/// The expanded positions `exp` are closed: each is a grid node's position other than
/// the goal's, and every node a route may enter in one move from it is visited.
pub open spec fn closed_expansion(g: &RoutingGrid, sl: Seq<usize>, net: u32, c: &VisitCache, exp: Set<int>, goal_f: int) -> bool {
    forall|n: Node|
        node_ok(g, sl, n) && #[trigger] exp.contains(pos(g, sl, n)) ==> pos(g, sl, n) != goal_f
            && neighbours_visited(g, sl, net, c, n)
}

/// Along a route from the visited start, where every visited position is expanded and
/// expansions are closed, every node of the route is visited.
proof fn lemma_route_visited(g: &RoutingGrid, sl: Seq<usize>, net: u32, c: &VisitCache, exp: Set<int>, start: Node, goal: Node, p: Seq<Node>, i: int)
    requires
        g.wf(),
        c.g_version@.len() >= sl.len() * (g.spec_rows() * g.spec_cols()),
        c.g_version@[pos(g, sl, start)] == c.version,
        closed_expansion(g, sl, net, c, exp, pos(g, sl, goal)),
        forall|f: int| 0 <= f < c.g_version@.len() && #[trigger] c.g_version@[f] == c.version ==> exp.contains(f),
        valid_route(g, sl, net, p, start, goal),
        0 <= i < p.len(),
    ensures
        c.g_version@[pos(g, sl, p[i])] == c.version,
    decreases i,
{
    if i > 0 {
        lemma_route_visited(g, sl, net, c, exp, start, goal, p, i - 1);
        lemma_node_flat_bound(g, sl, p[i - 1]);
        lemma_node_flat_bound(g, sl, p[i]);
        assert(exp.contains(pos(g, sl, p[i - 1])));
        assert(node_ok(g, sl, p[i - 1]));
        assert(neighbours_visited(g, sl, net, c, p[i - 1]));
        assert(step_ok(g, net, p[i - 1], p[i]));
        assert(node_ok(g, sl, p[i]));
    }
}

/// When every visited position has been expanded and expansion never met the goal,
/// no route from `start` reaches the goal.
proof fn lemma_no_route(g: &RoutingGrid, sl: Seq<usize>, net: u32, c: &VisitCache, exp: Set<int>, start: Node, goal: Node)
    requires
        g.wf(),
        node_ok(g, sl, start),
        node_ok(g, sl, goal),
        c.g_version@.len() >= sl.len() * (g.spec_rows() * g.spec_cols()),
        c.g_version@[pos(g, sl, start)] == c.version,
        closed_expansion(g, sl, net, c, exp, pos(g, sl, goal)),
        forall|f: int| 0 <= f < c.g_version@.len() && #[trigger] c.g_version@[f] == c.version ==> exp.contains(f),
    ensures
        forall|p: Seq<Node>| !valid_route(g, sl, net, p, start, goal),
{
    assert forall|p: Seq<Node>| !valid_route(g, sl, net, p, start, goal) by {
        if valid_route(g, sl, net, p, start, goal) {
            lemma_route_visited(g, sl, net, c, exp, start, goal, p, p.len() - 1);
            lemma_node_flat_bound(g, sl, goal);
            assert(p[p.len() - 1] == goal);
            assert(exp.contains(pos(g, sl, goal)));
        }
    }
}

/// `n` can be reached from `start` by a route of at most `k` moves.
pub open spec fn reachable_within(g: &RoutingGrid, sl: Seq<usize>, net: u32, start: Node, n: Node, k: nat) -> bool {
    exists|p: Seq<Node>| #[trigger] valid_route(g, sl, net, p, start, n) && p.len() <= k + 1
}

/// The search positions of the nodes that can be reached from `start` in at most `k`
/// moves.
pub open spec fn positions_within(g: &RoutingGrid, sl: Seq<usize>, net: u32, start: Node, k: nat) -> Set<int> {
    Set::new(
        |f: int|
            exists|n: Node| node_ok(g, sl, n) && pos(g, sl, n) == f && #[trigger] reachable_within(g, sl, net, start, n, k),
    )
}

/// Along the queue of a breadth-first search the depths never decrease and stay within
/// one of the front's.
pub open spec fn queue_layered(g: &RoutingGrid, sl: Seq<usize>, depth: Map<int, nat>, q: Seq<Node>) -> bool {
    &&& forall|k1: int, k2: int|
        0 <= k1 < k2 < q.len() ==> depth[pos(g, sl, #[trigger] q[k1])] <= depth[pos(g, sl, #[trigger] q[k2])]
    &&& forall|k: int| 0 <= k < q.len() ==> depth[pos(g, sl, #[trigger] q[k])] <= depth[pos(g, sl, q[0])] + 1
}

/// The layers a breadth-first search has finished when the front of its queue has depth
/// `front`: no expanded position is deeper; every node reachable in fewer moves than
/// `front` is expanded, at a depth no greater than that number of moves; and every node
/// a route may enter from an expanded node is at most one deeper than it.
pub open spec fn layers_done(g: &RoutingGrid, sl: Seq<usize>, net: u32, start: Node, depth: Map<int, nat>, exp: Set<int>, front: nat) -> bool {
    &&& forall|f: int| #[trigger] exp.contains(f) ==> depth[f] <= front
    &&& forall|n: Node, j: nat|
        j < front && node_ok(g, sl, n) && #[trigger] reachable_within(g, sl, net, start, n, j) ==> exp.contains(pos(g, sl, n))
            && depth[pos(g, sl, n)] <= j
    &&& forall|m: Node, n: Node|
        node_ok(g, sl, m) && exp.contains(pos(g, sl, m)) && node_ok(g, sl, n) && #[trigger] adjacent(m, n) && passable(g, net, n)
            ==> depth[pos(g, sl, n)] <= depth[pos(g, sl, m)] + 1
}

/// Every visited position is the position of a node reached from `start` in as many
/// moves as its recorded depth.
proof fn lemma_visited_reachable(
    g: &RoutingGrid,
    sl: Seq<usize>,
    net: u32,
    c: &VisitCache,
    start: Node,
    nodes: Map<int, Node>,
    depth: Map<int, nat>,
    f: int,
)
    requires
        g.wf(),
        node_ok(g, sl, start),
        search_inv(g, sl, net, c, start, nodes, depth),
        0 <= f < c.g_version@.len(),
        c.g_version@[f] == c.version,
    ensures
        node_ok(g, sl, nodes[f]),
        pos(g, sl, nodes[f]) == f,
        reachable_within(g, sl, net, start, nodes[f], depth[f]),
    decreases depth[f],
{
    let rows = g.spec_rows() as int;
    let cols = g.spec_cols() as int;
    let si = node_flat(sl, rows, cols, start);
    assert(visited_ok(g, sl, net, c, start, nodes, depth, f));
    if f == si {
        let r = seq![start];
        assert(valid_route(g, sl, net, r, start, nodes[f]));
    } else {
        let p = unpack(sl, c.came_from@[f]);
        let pf = node_flat(sl, rows, cols, p);
        lemma_node_flat_bound(g, sl, p);
        lemma_visited_reachable(g, sl, net, c, start, nodes, depth, pf);
        let q = choose|q: Seq<Node>| #[trigger] valid_route(g, sl, net, q, start, nodes[pf]) && q.len() <= depth[pf] + 1;
        let r = q.push(nodes[f]);
        assert(r[r.len() - 2] == p);
        assert forall|i: int| 0 <= i < r.len() - 1 implies step_ok(g, net, #[trigger] r[i], r[i + 1]) by {
            if i < r.len() - 2 {
                assert(r[i] == q[i] && r[i + 1] == q[i + 1]);
            }
        }
        assert forall|i: int| 0 <= i < r.len() implies node_ok(g, sl, #[trigger] r[i]) by {
            if i < r.len() - 1 {
                assert(r[i] == q[i]);
            }
        }
        assert(valid_route(g, sl, net, r, start, nodes[f]));
    }
}

/// One expansion keeps the breadth-first layering: `cur`, the front of `q_entry` at
/// depth `d_old[pos(cur)]`, joins the expanded positions and its new neighbours are
/// queued one deeper.
proof fn lemma_layers_step(
    g: &RoutingGrid,
    sl: Seq<usize>,
    net: u32,
    start: Node,
    c_pre: &VisitCache,
    nodes_pre: Map<int, Node>,
    g1: Seq<u32>,
    d_old: Map<int, nat>,
    d_new: Map<int, nat>,
    exp: Set<int>,
    cur: Node,
    q_entry: Seq<Node>,
    q1: Seq<Node>,
)
    requires
        g.wf(),
        node_ok(g, sl, start),
        search_inv(g, sl, net, c_pre, start, nodes_pre, d_old),
        q_entry.len() > 0,
        q_entry[0] == cur,
        forall|k: int| 0 <= k < q_entry.len() ==> node_ok(g, sl, #[trigger] q_entry[k]) && c_pre.g_version@[pos(g, sl, q_entry[k])] == c_pre.version,
        queue_layered(g, sl, d_old, q_entry),
        layers_done(g, sl, net, start, d_old, exp, d_old[pos(g, sl, cur)]),
        forall|n: Node| node_ok(g, sl, n) && #[trigger] exp.contains(pos(g, sl, n)) ==> neighbours_visited(g, sl, net, c_pre, n),
        forall|f: int| #[trigger] exp.contains(f) ==> 0 <= f < c_pre.g_version@.len() && c_pre.g_version@[f] == c_pre.version,
        forall|f: int|
            0 <= f < c_pre.g_version@.len() && #[trigger] c_pre.g_version@[f] == c_pre.version ==> exp.contains(f) || exists|k: int|
                0 <= k < q_entry.len() && pos(g, sl, q_entry[k]) == f,
        g1.len() == c_pre.g_version@.len(),
        marks_grew(g, sl, c_pre.g_version@, g1, c_pre.version, q_entry.len() - 1, q1),
        q1.len() >= q_entry.len() - 1,
        q1.take(q_entry.len() - 1) == q_entry.subrange(1, q_entry.len() as int),
        forall|f: int| 0 <= f < c_pre.g_version@.len() && c_pre.g_version@[f] == c_pre.version ==> #[trigger] d_new[f] == d_old[f],
        forall|k: int| q_entry.len() - 1 <= k < q1.len() ==> d_new[pos(g, sl, #[trigger] q1[k])] == d_old[pos(g, sl, cur)] + 1,
        forall|m: Node| node_ok(g, sl, m) && adjacent(cur, m) && passable(g, net, m) ==> #[trigger] g1[pos(g, sl, m)] == c_pre.version,
        forall|f: int|
            0 <= f < g1.len() && #[trigger] g1[f] == c_pre.version ==> exp.insert(pos(g, sl, cur)).contains(f) || exists|k: int|
                0 <= k < q1.len() && pos(g, sl, q1[k]) == f,
        forall|k: int| 0 <= k < q1.len() ==> node_ok(g, sl, #[trigger] q1[k]) && g1[pos(g, sl, q1[k])] == c_pre.version,
        c_pre.g_version@.len() >= sl.len() * (g.spec_rows() * g.spec_cols()),
    ensures
        q1.len() > 0 ==> queue_layered(g, sl, d_new, q1) && layers_done(
            g,
            sl,
            net,
            start,
            d_new,
            exp.insert(pos(g, sl, cur)),
            d_new[pos(g, sl, q1[0])],
        ),
{
    let ver = c_pre.version;
    let gp = c_pre.g_version@;
    let cf = pos(g, sl, cur);
    let dd = d_old[cf];
    let n0 = (q_entry.len() - 1) as int;
    let exp2 = exp.insert(cf);
    lemma_node_flat_bound(g, sl, cur);
    assert(gp[cf] == ver);
    assert(d_new[cf] == dd);
    // Old queue entries keep their depths.
    assert forall|k: int| 0 <= k < n0 implies #[trigger] q1[k] == q_entry[k + 1] && d_new[pos(g, sl, q1[k])] == d_old[pos(g, sl, q_entry[k + 1])] by {
        assert(q1.take(n0)[k] == q_entry.subrange(1, q_entry.len() as int)[k]);
        lemma_node_flat_bound(g, sl, q_entry[k + 1]);
        assert(gp[pos(g, sl, q_entry[k + 1])] == ver);
    }
    if q1.len() > 0 {
        let front = d_new[pos(g, sl, q1[0])];
        // Depths along the new queue.
        assert forall|k: int| 0 <= k < q1.len() implies dd <= #[trigger] d_new[pos(g, sl, q1[k])] && d_new[pos(g, sl, q1[k])] <= dd + 1 by {
            if k < n0 {
                assert(q1[k] == q_entry[k + 1]);
                assert(d_old[pos(g, sl, q_entry[0])] <= d_old[pos(g, sl, q_entry[k + 1])]);
                assert(d_old[pos(g, sl, q_entry[k + 1])] <= d_old[pos(g, sl, q_entry[0])] + 1);
            }
        }
        assert(dd <= front <= dd + 1);
        assert forall|k1: int, k2: int| 0 <= k1 < k2 < q1.len() implies d_new[pos(g, sl, #[trigger] q1[k1])] <= d_new[pos(g, sl, #[trigger] q1[k2])] by {
            if k2 < n0 {
                assert(q1[k1] == q_entry[k1 + 1]);
                assert(q1[k2] == q_entry[k2 + 1]);
                assert(d_old[pos(g, sl, q_entry[k1 + 1])] <= d_old[pos(g, sl, q_entry[k2 + 1])]);
            } else {
                assert(d_new[pos(g, sl, q1[k2])] == dd + 1);
                assert(d_new[pos(g, sl, q1[k1])] <= dd + 1);
            }
        }
        assert forall|k: int| 0 <= k < q1.len() implies d_new[pos(g, sl, #[trigger] q1[k])] <= d_new[pos(g, sl, q1[0])] + 1 by {
            assert(d_new[pos(g, sl, q1[k])] <= dd + 1);
        }
        // Expanded positions are no deeper than the front.
        assert forall|f: int| #[trigger] exp2.contains(f) implies d_new[f] <= front by {
            if f != cf {
                assert(exp.contains(f));
                assert(d_new[f] == d_old[f]);
            }
        }
        // Neighbours of expanded nodes are at most one deeper.
        assert forall|m: Node, n: Node|
            node_ok(g, sl, m) && exp2.contains(pos(g, sl, m)) && node_ok(g, sl, n) && #[trigger] adjacent(m, n) && passable(g, net, n)
                implies d_new[pos(g, sl, n)] <= d_new[pos(g, sl, m)] + 1 by {
            lemma_node_flat_bound(g, sl, m);
            lemma_node_flat_bound(g, sl, n);
            if pos(g, sl, m) == cf {
                lemma_node_flat_injective(g, sl, m, cur);
                let nf = pos(g, sl, n);
                assert(g1[nf] == ver);
                if gp[nf] == ver {
                    assert(d_new[nf] == d_old[nf]);
                    if exp.contains(nf) {
                    } else {
                        let k = choose|k: int| 0 <= k < q_entry.len() && pos(g, sl, q_entry[k]) == nf;
                        assert(d_old[pos(g, sl, q_entry[k])] <= d_old[pos(g, sl, q_entry[0])] + 1);
                    }
                } else {
                    let k = choose|k: int| n0 <= k < q1.len() && pos(g, sl, #[trigger] q1[k]) == nf;
                    assert(d_new[pos(g, sl, q1[k])] == dd + 1);
                }
            } else {
                assert(exp.contains(pos(g, sl, m)));
                assert(neighbours_visited(g, sl, net, c_pre, m));
                assert(gp[pos(g, sl, n)] == ver);
                assert(d_old[pos(g, sl, n)] <= d_old[pos(g, sl, m)] + 1);
            }
        }
        // Every node reachable in fewer moves than the new front is expanded, no deeper.
        assert forall|n: Node, j: nat|
            j < front && node_ok(g, sl, n) && #[trigger] reachable_within(g, sl, net, start, n, j) implies exp2.contains(pos(g, sl, n))
                && d_new[pos(g, sl, n)] <= j by {
            lemma_node_flat_bound(g, sl, n);
            if j < dd {
                assert(exp.contains(pos(g, sl, n)) && d_old[pos(g, sl, n)] <= j);
            } else {
                assert(j == dd);
                let p = choose|p: Seq<Node>| #[trigger] valid_route(g, sl, net, p, start, n) && p.len() <= j + 1;
                if p.len() < j + 1 {
                    assert(reachable_within(g, sl, net, start, n, (j - 1) as nat));
                    assert(exp.contains(pos(g, sl, n)) && d_old[pos(g, sl, n)] <= j - 1);
                } else if j == 0 {
                    assert(p.len() == 1);
                    assert(n == start);
                    let si = pos(g, sl, start);
                    assert(visited_ok(g, sl, net, c_pre, start, nodes_pre, d_old, cf));
                    assert(cf == si);
                } else {
                    let m = p[j - 1];
                    let pm = p.take(j as int);
                    assert(pm.last() == m);
                    assert forall|i: int| 0 <= i < pm.len() - 1 implies step_ok(g, net, #[trigger] pm[i], pm[i + 1]) by {
                        assert(pm[i] == p[i] && pm[i + 1] == p[i + 1]);
                    }
                    assert forall|i: int| 0 <= i < pm.len() implies node_ok(g, sl, #[trigger] pm[i]) by {
                        assert(pm[i] == p[i]);
                    }
                    assert(valid_route(g, sl, net, pm, start, m));
                    assert(reachable_within(g, sl, net, start, m, (j - 1) as nat));
                    assert(node_ok(g, sl, m));
                    assert(exp.contains(pos(g, sl, m)) && d_old[pos(g, sl, m)] <= j - 1);
                    assert(p[j as int] == n);
                    assert(step_ok(g, net, p[j - 1], p[j as int]));
                    if m == n {
                    } else {
                        assert(adjacent(m, n) && passable(g, net, n));
                        assert(neighbours_visited(g, sl, net, c_pre, m));
                        let nf = pos(g, sl, n);
                        assert(gp[nf] == ver);
                        assert(d_old[nf] <= d_old[pos(g, sl, m)] + 1);
                        assert(d_new[nf] <= j);
                        assert(g1[nf] == ver);
                        if !exp2.contains(nf) {
                            let k = choose|k: int| 0 <= k < q1.len() && pos(g, sl, q1[k]) == nf;
                            assert(d_new[pos(g, sl, q1[k])] >= front);
                        }
                    }
                }
            }
        }
    }
}

/// When the search gives up, `cur` at the front of the queue and the expanded positions
/// `exp` are more than `BFS_MAX_ITERS` positions, each reachable in no more moves than
/// any route to the goal has; so every such route leaves more than `BFS_MAX_ITERS`
/// positions within its length.
proof fn lemma_search_exhausted(
    g: &RoutingGrid,
    sl: Seq<usize>,
    net: u32,
    c: &VisitCache,
    start: Node,
    goal: Node,
    nodes: Map<int, Node>,
    depth: Map<int, nat>,
    exp: Set<int>,
    cur: Node,
    total: int,
)
    requires
        g.wf(),
        node_ok(g, sl, start),
        node_ok(g, sl, goal),
        node_ok(g, sl, cur),
        total == sl.len() * (g.spec_rows() * g.spec_cols()),
        search_inv(g, sl, net, c, start, nodes, depth),
        c.g_version@[pos(g, sl, cur)] == c.version,
        exp.finite(),
        exp.len() == BFS_MAX_ITERS,
        !exp.contains(pos(g, sl, cur)),
        forall|f: int| #[trigger] exp.contains(f) ==> 0 <= f < total && c.g_version@[f] == c.version,
        closed_expansion(g, sl, net, c, exp, pos(g, sl, goal)),
        layers_done(g, sl, net, start, depth, exp, depth[pos(g, sl, cur)]),
    ensures
        forall|k: nat|
            reachable_within(g, sl, net, start, goal, k) ==> positions_within(g, sl, net, start, k).len() > BFS_MAX_ITERS,
{
    let cf = pos(g, sl, cur);
    let e2 = exp.insert(cf);
    lemma_node_flat_bound(g, sl, cur);
    vstd::set_lib::lemma_int_range(0, total);
    let range = vstd::set_lib::set_int_range(0, total);
    assert forall|k: nat| reachable_within(g, sl, net, start, goal, k) implies positions_within(g, sl, net, start, k).len()
        > BFS_MAX_ITERS by {
        if k < depth[cf] {
            assert(exp.contains(pos(g, sl, goal)));
            assert(pos(g, sl, goal) != pos(g, sl, goal));
        }
        let pw = positions_within(g, sl, net, start, k);
        assert forall|f: int| #[trigger] pw.contains(f) implies range.contains(f) by {
            let n = choose|n: Node| node_ok(g, sl, n) && pos(g, sl, n) == f && #[trigger] reachable_within(g, sl, net, start, n, k);
            lemma_node_flat_bound(g, sl, n);
        }
        vstd::set_lib::lemma_len_subset(pw, range);
        assert forall|f: int| #[trigger] e2.contains(f) implies pw.contains(f) by {
            lemma_visited_reachable(g, sl, net, c, start, nodes, depth, f);
            let n = nodes[f];
            assert(depth[f] <= k);
            let p = choose|p: Seq<Node>| #[trigger] valid_route(g, sl, net, p, start, n) && p.len() <= depth[f] + 1;
            assert(valid_route(g, sl, net, p, start, n) && p.len() <= k + 1);
            assert(reachable_within(g, sl, net, start, n, k));
        }
        vstd::set_lib::lemma_len_subset(e2, pw);
        assert(e2.len() == exp.len() + 1);
    }
}

/// Breadth-first route of `net_id` from `start` to `goal` over the signal layers:
/// unit steps on a layer (4 directions) and layer changes in place, into cells that are
/// not blocked and not owned by another nonzero net. Gives up after
/// `BFS_MAX_ITERS` expansions. A returned route starts at `start`, ends at `goal`
/// and consists of such moves, and when the two differ no route has fewer nodes; none is returned only when no such route exists, or when
/// for every route to the goal more than `BFS_MAX_ITERS` positions can be reached from
/// `start` in no more moves than that route has. A cache whose version has reached
/// `u32::MAX` is cleared first.
pub fn bfs_route(
    grid: &RoutingGrid,
    signal_layers: &[usize],
    start: Node,
    goal: Node,
    net_id: u32,
    cache: &mut VisitCache,
) -> (res: Option<Vec<Node>>)
    requires
        grid.wf(),
        grid.spec_cols() <= 4096,
        grid.spec_rows() <= 4096,
        signal_layers@.len() <= 256,
        forall|s: int|
            0 <= s < signal_layers@.len() ==> #[trigger] signal_layers@[s] < grid.spec_num_layers(),
        signal_layers@.len() > 0 ==> node_ok(grid, signal_layers@, start) && node_ok(
            grid,
            signal_layers@,
            goal,
        ),
        old(cache).wf(),
        old(cache).g_version@.len() >= signal_layers@.len() * grid.per_layer(),
    ensures
        final(cache).wf(),
        final(cache).g_version@.len() == old(cache).g_version@.len(),
        signal_layers@.len() == 0 ==> res is None,
        res matches Some(path) ==> valid_route(grid, signal_layers@, net_id, path@, start, goal),
        res matches Some(path) ==> start != goal ==> forall|p: Seq<Node>|
            #[trigger] valid_route(grid, signal_layers@, net_id, p, start, goal) ==> path@.len() <= p.len(),
        res is None ==> (forall|p: Seq<Node>| !valid_route(grid, signal_layers@, net_id, p, start, goal)) || (forall|k: nat|
            reachable_within(grid, signal_layers@, net_id, start, goal, k) ==> positions_within(
                grid,
                signal_layers@,
                net_id,
                start,
                k,
            ).len() > BFS_MAX_ITERS),
{
    if signal_layers.len() == 0 {
        return None;
    }
    let ghost sl = signal_layers@;
    let rows = grid.rows();
    let cols = grid.cols();
    proof {
        grid.lemma_wf_len();
        lemma_node_flat_bound(grid, sl, start);
        lemma_node_flat_bound(grid, sl, goal);
    }
    let _cache_len = cache.g_version.len();
    if cache.version == u32::MAX {
        cache.reset();
    }
    let ghost fresh = *cache;
    cache.version = cache.version + 1;
    let ver = cache.version;
    let tbl = build_slot_table(signal_layers, grid.num_layers());

    let si = flat_of(&tbl, signal_layers, rows, cols, start);
    let start_packed = pack_of(&tbl, signal_layers, start);
    proof {
        lemma_unpack_pack(grid, sl, start);
    }
    let ghost old_cache = *cache;
    mark_visited(cache, si, start_packed);
    let ghost nodes: Map<int, Node> = Map::empty().insert(si as int, start);
    let ghost depth: Map<int, nat> = Map::empty().insert(si as int, 0);
    proof {
        assert forall|f: int|
            0 <= f < cache.g_version@.len() && #[trigger] cache.g_version@[f] == cache.version implies visited_ok(
            grid,
            sl,
            net_id,
            cache,
            start,
            nodes,
            depth,
            f,
        ) by {
            if f != si {
                assert(cache.g_version@[f] == old_cache.g_version@[f]);
            }
        }
        assert(cache.came_from@[si as int] == start_packed);
    }

    let mut queue: std::collections::VecDeque<Node> = std::collections::VecDeque::new();
    queue.push_back(start);
    let goal_flat = flat_of(&tbl, signal_layers, rows, cols, goal);
    let mut iters: usize = 0;
    let ghost mut exp: Set<int> = Set::empty();
    let ghost total: int = sl.len() * (rows * cols);
    proof {
        assert forall|f: int| 0 <= f < cache.g_version@.len() && #[trigger] cache.g_version@[f] == ver implies exp.contains(
            f,
        ) || exists|k: int| 0 <= k < queue@.len() && pos(grid, sl, queue@[k]) == f by {
            if f != si {
                assert(cache.g_version@[f] == fresh.g_version@[f]);
            } else {
                assert(pos(grid, sl, queue@[0]) == f);
            }
        }
    }

    loop
        invariant
            sl == signal_layers@,
            search_frame(grid, sl, tbl@, start),
            rows == grid.spec_rows(),
            cols == grid.spec_cols(),
            node_ok(grid, sl, goal),
            goal_flat == node_flat(sl, rows as int, cols as int, goal),
            start_packed == pack(sl, start),
            si == node_flat(sl, rows as int, cols as int, start),
            cache.version == ver,
            cache.g_version@.len() == old(cache).g_version@.len(),
            search_inv(grid, sl, net_id, cache, start, nodes, depth),
            queue_ok(grid, sl, cache, nodes, queue@),
            iters <= BFS_MAX_ITERS,
            total == sl.len() * (grid.spec_rows() * grid.spec_cols()),
            exp.finite(),
            exp.len() == iters,
            forall|f: int| #[trigger] exp.contains(f) ==> 0 <= f < total && cache.g_version@[f] == ver,
            closed_expansion(grid, sl, net_id, cache, exp, goal_flat as int),
            forall|f: int|
                0 <= f < cache.g_version@.len() && #[trigger] cache.g_version@[f] == ver ==> exp.contains(f) || exists|k: int|
                    0 <= k < queue@.len() && pos(grid, sl, queue@[k]) == f,
            forall|k: int| 0 <= k < queue@.len() ==> !exp.contains(pos(grid, sl, #[trigger] queue@[k])),
            forall|k1: int, k2: int|
                0 <= k1 < k2 < queue@.len() ==> pos(grid, sl, #[trigger] queue@[k1]) != pos(grid, sl, #[trigger] queue@[k2]),
            queue@.len() > 0 ==> queue_layered(grid, sl, depth, queue@) && layers_done(
                grid,
                sl,
                net_id,
                start,
                depth,
                exp,
                depth[pos(grid, sl, queue@[0])],
            ),
        ensures
            final(cache).wf(),
            final(cache).g_version@.len() == old(cache).g_version@.len(),
            forall|p: Seq<Node>| !valid_route(grid, sl, net_id, p, start, goal),
        decreases BFS_MAX_ITERS - iters,
    {
        let ghost q_entry = queue@;
        let current = match queue.pop_front() {
            Some(n) => n,
            None => {
                proof {
                    assert forall|f: int| 0 <= f < cache.g_version@.len() && #[trigger] cache.g_version@[f] == cache.version implies exp.contains(f) by {}
                    lemma_no_route(grid, sl, net_id, cache, exp, start, goal);
                }
                break;
            },
        };
        let ghost cf = pos(grid, sl, current);
        proof {
            assert(q_entry[0] == current);
            lemma_node_flat_bound(grid, sl, current);
            assert(!exp.contains(cf));
        }
        iters = iters + 1;
        if iters > BFS_MAX_ITERS {
            proof {
                lemma_search_exhausted(grid, sl, net_id, cache, start, goal, nodes, depth, exp, current, total);
            }
            return None;
        }
        let cur_flat = flat_of(&tbl, signal_layers, rows, cols, current);
        if cur_flat == goal_flat {
            proof {
                lemma_node_flat_injective(grid, sl, current, goal);
            }
            let path = reconstruct(
                grid,
                signal_layers,
                &tbl,
                cache,
                net_id,
                start,
                start_packed,
                current,
                Ghost(nodes),
                Ghost(depth),
            );
            proof {
                assert forall|p: Seq<Node>| start != goal && #[trigger] valid_route(grid, sl, net_id, p, start, goal) implies path@.len()
                    <= p.len() by {
                    let k = (p.len() - 1) as nat;
                    assert(reachable_within(grid, sl, net_id, start, goal, k));
                    if k < depth[cf] {
                        assert(exp.contains(pos(grid, sl, goal)));
                        assert(pos(grid, sl, goal) != goal_flat as int);
                    }
                }
            }
            return Some(path);
        }
        let ghost g_pre = cache.g_version@;
        let ghost q_pre = queue@;
        let ghost c_pre = *cache;
        let ghost nodes_pre = nodes;
        let ghost d_pre = depth;
        let ghost exp_pre = exp;
        let (Ghost(n2), Ghost(d2)) = expand(
            grid,
            signal_layers,
            &tbl,
            cache,
            &mut queue,
            net_id,
            start,
            current,
            Ghost(nodes),
            Ghost(depth),
        );
        proof {
            nodes = n2;
            depth = d2;
            lemma_node_flat_bound(grid, sl, current);
            lemma_expansion_step(grid, sl, net_id, ver, exp, current, goal_flat as int, total, g_pre, cache, q_entry, q_pre, queue@, nodes);
            lemma_layers_step(grid, sl, net_id, start, &c_pre, nodes_pre, cache.g_version@, d_pre, depth, exp_pre, current, q_entry, queue@);
            exp = exp.insert(cf);
        }
    }
    None
}

/// One expansion of the breadth-first search keeps the bookkeeping of expanded
/// positions: `current`, popped from the front of `q_entry`, joins them.
proof fn lemma_expansion_step(
    g: &RoutingGrid,
    sl: Seq<usize>,
    net: u32,
    ver: u32,
    exp: Set<int>,
    current: Node,
    goal_f: int,
    total: int,
    g_pre: Seq<u32>,
    c: &VisitCache,
    q_entry: Seq<Node>,
    q_pre: Seq<Node>,
    q_post: Seq<Node>,
    nodes: Map<int, Node>,
)
    requires
        g.wf(),
        total == sl.len() * (g.spec_rows() * g.spec_cols()),
        c.version == ver,
        g_pre.len() == c.g_version@.len(),
        c.g_version@.len() >= total,
        node_ok(g, sl, current),
        q_entry.len() > 0,
        q_entry[0] == current,
        q_pre == q_entry.subrange(1, q_entry.len() as int),
        pos(g, sl, current) != goal_f,
        exp.finite(),
        !exp.contains(pos(g, sl, current)),
        forall|f: int| #[trigger] exp.contains(f) ==> 0 <= f < total && g_pre[f] == ver,
        forall|n: Node|
            node_ok(g, sl, n) && #[trigger] exp.contains(pos(g, sl, n)) ==> pos(g, sl, n) != goal_f
                && (forall|m: Node|
                node_ok(g, sl, m) && adjacent(n, m) && passable(g, net, m) ==> #[trigger] g_pre[pos(g, sl, m)] == ver),
        forall|f: int|
            0 <= f < g_pre.len() && #[trigger] g_pre[f] == ver ==> exp.contains(f) || exists|k: int|
                0 <= k < q_entry.len() && pos(g, sl, q_entry[k]) == f,
        forall|k: int| 0 <= k < q_entry.len() ==> !exp.contains(pos(g, sl, #[trigger] q_entry[k])),
        forall|k1: int, k2: int|
            0 <= k1 < k2 < q_entry.len() ==> pos(g, sl, #[trigger] q_entry[k1]) != pos(g, sl, #[trigger] q_entry[k2]),
        forall|k: int| 0 <= k < q_entry.len() ==> node_ok(g, sl, #[trigger] q_entry[k]) && g_pre[pos(g, sl, q_entry[k])] == ver,
        pushed_fresh(g, sl, g_pre, ver, q_pre, q_post),
        marks_grew(g, sl, g_pre, c.g_version@, ver, q_pre.len() as int, q_post),
        neighbours_visited(g, sl, net, c, current),
    ensures
        exp.insert(pos(g, sl, current)).finite(),
        exp.insert(pos(g, sl, current)).len() == exp.len() + 1,
        forall|f: int| #[trigger] exp.insert(pos(g, sl, current)).contains(f) ==> 0 <= f < total && c.g_version@[f] == ver,
        closed_expansion(g, sl, net, c, exp.insert(pos(g, sl, current)), goal_f),
        forall|f: int|
            0 <= f < c.g_version@.len() && #[trigger] c.g_version@[f] == ver ==> exp.insert(pos(g, sl, current)).contains(f)
                || exists|k: int| 0 <= k < q_post.len() && pos(g, sl, q_post[k]) == f,
        forall|k: int| 0 <= k < q_post.len() ==> !exp.insert(pos(g, sl, current)).contains(pos(g, sl, #[trigger] q_post[k])),
        forall|k1: int, k2: int|
            0 <= k1 < k2 < q_post.len() ==> pos(g, sl, #[trigger] q_post[k1]) != pos(g, sl, #[trigger] q_post[k2]),
{
    let cf = pos(g, sl, current);
    let e2 = exp.insert(cf);
    lemma_node_flat_bound(g, sl, current);
    assert forall|f: int| #[trigger] e2.contains(f) implies 0 <= f < total && c.g_version@[f] == ver by {
        if f != cf {
            assert(g_pre[f] == ver);
        } else {
            assert(g_pre[cf] == ver);
        }
    }
    assert forall|n: Node| node_ok(g, sl, n) && #[trigger] e2.contains(pos(g, sl, n)) implies pos(g, sl, n) != goal_f
        && neighbours_visited(g, sl, net, c, n) by {
        if pos(g, sl, n) == cf {
            lemma_node_flat_injective(g, sl, n, current);
        } else {
            assert forall|m: Node| node_ok(g, sl, m) && adjacent(n, m) && passable(g, net, m) implies #[trigger] c.g_version@[pos(
                g,
                sl,
                m,
            )] == c.version by {
                lemma_node_flat_bound(g, sl, m);
                assert(g_pre[pos(g, sl, m)] == ver);
            }
        }
    }
    assert forall|f: int| 0 <= f < c.g_version@.len() && #[trigger] c.g_version@[f] == ver implies e2.contains(f) || exists|k: int|
        0 <= k < q_post.len() && pos(g, sl, q_post[k]) == f by {
        if g_pre[f] == ver {
            if !exp.contains(f) {
                let k = choose|k: int| 0 <= k < q_entry.len() && pos(g, sl, q_entry[k]) == f;
                if k > 0 {
                    assert(q_pre[k - 1] == q_entry[k]);
                    assert(q_post.take(q_pre.len() as int) == q_pre);
                    assert(q_post[k - 1] == q_pre[k - 1]);
                }
            }
        } else {
            let k = choose|k: int| q_pre.len() <= k < q_post.len() && pos(g, sl, #[trigger] q_post[k]) == f;
        }
    }
    assert forall|k: int| 0 <= k < q_post.len() implies !e2.contains(pos(g, sl, #[trigger] q_post[k])) by {
        if k < q_pre.len() {
            assert(q_post.take(q_pre.len() as int) == q_pre);
            assert(q_post[k] == q_pre[k]);
            assert(q_pre[k] == q_entry[k + 1]);
        } else {
            assert(g_pre[pos(g, sl, q_post[k])] != ver);
        }
    }
    assert forall|k1: int, k2: int| 0 <= k1 < k2 < q_post.len() implies pos(g, sl, #[trigger] q_post[k1]) != pos(
        g,
        sl,
        #[trigger] q_post[k2],
    ) by {
        assert(q_post.take(q_pre.len() as int) == q_pre);
        if k2 < q_pre.len() {
            assert(q_post[k1] == q_pre[k1]);
            assert(q_post[k2] == q_pre[k2]);
            assert(q_pre[k1] == q_entry[k1 + 1]);
            assert(q_pre[k2] == q_entry[k2 + 1]);
        } else if k1 < q_pre.len() {
            assert(q_post[k1] == q_pre[k1]);
            assert(q_pre[k1] == q_entry[k1 + 1]);
            assert(g_pre[pos(g, sl, q_entry[k1 + 1])] == ver);
            assert(g_pre[pos(g, sl, q_post[k2])] != ver);
        }
    }
}

/// Follow the parent links from `current` back to `start` and return the route in
/// forward order.
fn reconstruct(
    grid: &RoutingGrid,
    signal_layers: &[usize],
    tbl: &Vec<usize>,
    cache: &VisitCache,
    net_id: u32,
    start: Node,
    start_packed: u32,
    current: Node,
    Ghost(nodes): Ghost<Map<int, Node>>,
    Ghost(depth): Ghost<Map<int, nat>>,
) -> (path: Vec<Node>)
    requires
        search_frame(grid, signal_layers@, tbl@, start),
        search_inv(grid, signal_layers@, net_id, cache, start, nodes, depth),
        node_ok(grid, signal_layers@, current),
        start_packed == pack(signal_layers@, start),
        cache.came_from@[node_flat(
            signal_layers@,
            grid.spec_rows() as int,
            grid.spec_cols() as int,
            start,
        )] == start_packed,
        cache.g_version@[node_flat(
            signal_layers@,
            grid.spec_rows() as int,
            grid.spec_cols() as int,
            current,
        )] == cache.version,
        nodes[node_flat(signal_layers@, grid.spec_rows() as int, grid.spec_cols() as int, current)]
            == current,
    ensures
        valid_route(grid, signal_layers@, net_id, path@, start, current),
        current != start ==> path@.len() == depth[node_flat(
            signal_layers@,
            grid.spec_rows() as int,
            grid.spec_cols() as int,
            current,
        )] + 1,
{
    let ghost sl = signal_layers@;
    let ghost dcur = depth[node_flat(sl, grid.spec_rows() as int, grid.spec_cols() as int, current)];
    let rows = grid.rows();
    let cols = grid.cols();
    let ver = cache.version;
    proof {
        lemma_unpack_pack(grid, sl, start);
    }
    let mut rev: Vec<Node> = Vec::new();
    let mut node = current;
    loop
        invariant_except_break
            node_ok(grid, sl, node),
            cache.g_version@[node_flat(sl, rows as int, cols as int, node)] == ver,
            nodes[node_flat(sl, rows as int, cols as int, node)] == node,
            rev@.len() > 0 ==> step_ok(grid, net_id, node, rev@.last()),
            rev@.len() == 0 ==> node == current,
            rev@.len() + depth[node_flat(sl, rows as int, cols as int, node)] == dcur,
            rev@.len() > 0 ==> node != start,
        invariant
            sl == signal_layers@,
            search_frame(grid, sl, tbl@, start),
            rows == grid.spec_rows(),
            cols == grid.spec_cols(),
            ver == cache.version,
            search_inv(grid, sl, net_id, cache, start, nodes, depth),
            start_packed == pack(sl, start),
            unpack(sl, start_packed) == start,
            cache.came_from@[node_flat(sl, rows as int, cols as int, start)] == start_packed,
            rev@.len() > 0 ==> rev@[0] == current,
            forall|k: int| 0 <= k < rev@.len() ==> node_ok(grid, sl, #[trigger] rev@[k]),
            forall|k: int|
                0 <= k < rev@.len() - 1 ==> step_ok(grid, net_id, #[trigger] rev@[k + 1], rev@[k]),
        ensures
            rev@.len() >= 1,
            rev@[0] == current,
            rev@.last() == start,
            current != start ==> rev@.len() == dcur + 1,
        decreases depth[node_flat(sl, rows as int, cols as int, node)],
    {
        let ghost before = rev@;
        rev.push(node);
        proof {
            assert forall|k: int| 0 <= k < rev@.len() - 1 implies step_ok(
                grid,
                net_id,
                #[trigger] rev@[k + 1],
                rev@[k],
            ) by {
                if k + 1 < before.len() {
                    assert(rev@[k + 1] == before[k + 1]);
                    assert(rev@[k] == before[k]);
                }
            }
            assert forall|k: int| 0 <= k < rev@.len() implies node_ok(grid, sl, #[trigger] rev@[k]) by {
                if k < before.len() {
                    assert(rev@[k] == before[k]);
                }
            }
        }
        let ni = flat_of(tbl, signal_layers, rows, cols, node);
        proof {
            lemma_node_flat_bound(grid, sl, node);
            assert(visited_ok(grid, sl, net_id, cache, start, nodes, depth, ni as int));
        }
        if cache.cf_version[ni] != ver {
            break;
        }
        let parent_packed = cache.came_from[ni];
        let si = flat_of(tbl, signal_layers, rows, cols, start);
        if parent_packed == start_packed {
            let ghost before2 = rev@;
            let sn = unpack_of(signal_layers, parent_packed);
            rev.push(sn);
            proof {
                if ni != si {
                    assert(adjacent(start, node) && passable(grid, net_id, node));
                    lemma_node_flat_bound(grid, sl, start);
                    assert(visited_ok(grid, sl, net_id, cache, start, nodes, depth, si as int));
                } else {
                    lemma_node_flat_injective(grid, sl, node, start);
                }
                assert forall|k: int| 0 <= k < rev@.len() - 1 implies step_ok(
                    grid,
                    net_id,
                    #[trigger] rev@[k + 1],
                    rev@[k],
                ) by {
                    if k + 1 < before2.len() {
                        assert(rev@[k + 1] == before2[k + 1]);
                        assert(rev@[k] == before2[k]);
                    }
                }
                assert forall|k: int| 0 <= k < rev@.len() implies node_ok(grid, sl, #[trigger] rev@[k]) by {
                    if k < before2.len() {
                        assert(rev@[k] == before2[k]);
                    }
                }
            }
            break;
        }
        proof {
            assert(ni != si);
            if unpack(sl, parent_packed) == start {
                assert(pack(sl, unpack(sl, parent_packed)) == parent_packed);
            }
        }
        node = unpack_of(signal_layers, parent_packed);
    }
    let n = rev.len();
    let mut path: Vec<Node> = Vec::new();
    let mut i: usize = 0;
    while i < n
        invariant
            i <= n,
            n == rev@.len(),
            path@.len() == i,
            forall|k: int| 0 <= k < i ==> #[trigger] path@[k] == rev@[n - 1 - k],
        decreases n - i,
    {
        path.push(rev[n - 1 - i]);
        i = i + 1;
    }
    proof {
        assert forall|k: int| 0 <= k < path@.len() - 1 implies step_ok(
            grid,
            net_id,
            #[trigger] path@[k],
            path@[k + 1],
        ) by {
            assert(path@[k] == rev@[(n - 1 - k - 1) + 1]);
            assert(path@[k + 1] == rev@[n - 1 - k - 1]);
        }
        assert forall|k: int| 0 <= k < path@.len() implies node_ok(grid, sl, #[trigger] path@[k]) by {
            assert(path@[k] == rev@[n - 1 - k]);
        }
    }
    path
}

} // verus!
