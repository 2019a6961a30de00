//! The layered routing grid: cell occupancy per copper layer, per-cell congestion
//! counters, and a per-net index of the cells each net occupies.
//!
//! World coordinates (origin and resolution in millimetres) are kept by the caller;
//! the grid itself only knows integer columns, rows and layers.
use vstd::prelude::*;

verus! {

/// Occupancy of one grid cell on one layer.
#[derive(Clone, Copy, PartialEq, Eq, Debug, Structural)]
pub enum Cell {
    Free,
    Blocked,
    /// A pad of the given net.
    Pad(u32),
    /// A (clearance-inflated) trace of the given net.
    Trace(u32),
    /// A (clearance-inflated) via of the given net.
    Via(u32),
}

/// The net a cell belongs to, if any.
pub open spec fn cell_net(c: Cell) -> Option<u32> {
    match c {
        Cell::Pad(n) => Some(n),
        Cell::Trace(n) => Some(n),
        Cell::Via(n) => Some(n),
        _ => None,
    }
}

/// `layer * rows * cols + row * cols + col` stays below `layers * rows * cols`.
pub proof fn lemma_flat_index_bound(layer: int, row: int, col: int, layers: int, rows: int, cols: int)
    requires
        0 <= layer < layers,
        0 <= row < rows,
        0 <= col < cols,
    ensures
        0 <= row * cols + col < rows * cols,
        0 <= layer * (rows * cols) + row * cols + col < layers * (rows * cols),
        layer * (rows * cols) + row * cols + col == (layer * rows + row) * cols + col,
{
    assert(0 <= row * cols + col < rows * cols) by (nonlinear_arith)
        requires
            0 <= row < rows,
            0 <= col < cols,
    ;
    assert(0 <= layer * (rows * cols) + row * cols + col < layers * (rows * cols)) by (nonlinear_arith)
        requires
            0 <= layer < layers,
            0 <= row * cols + col < rows * cols,
    ;
    assert(layer * (rows * cols) + row * cols + col == (layer * rows + row) * cols + col)
        by (nonlinear_arith);
}

/// `layer * per + i` stays below `layers * per`.
pub proof fn lemma_layer_offset_bound(layer: int, i: int, layers: int, per: int)
    requires
        0 <= layer < layers,
        0 <= i < per,
    ensures
        0 <= layer * per + i < layers * per,
{
    assert(0 <= layer * per + i < layers * per) by (nonlinear_arith)
        requires
            0 <= layer < layers,
            0 <= i < per,
    ;
}

/// The integer state of the router's grid.
pub struct RoutingGrid {
    cols: usize,
    rows: usize,
    num_layers: usize,
    /// `layer_data[layer * rows * cols + row * cols + col]`.
    layer_data: Vec<Cell>,
    congestion: Vec<u16>,
    /// `net_cells[n]` lists `(layer, row * cols + col)` of every cell ever set to net `n`.
    net_cells: Vec<Vec<(usize, usize)>>,
}

impl RoutingGrid {
    pub closed spec fn spec_cols(&self) -> nat {
        self.cols as nat
    }

    pub closed spec fn spec_rows(&self) -> nat {
        self.rows as nat
    }

    pub closed spec fn spec_num_layers(&self) -> nat {
        self.num_layers as nat
    }

    /// Number of cells on one layer.
    pub open spec fn per_layer(&self) -> int {
        (self.spec_rows() * self.spec_cols()) as int
    }

    /// All cells, layer-major then row-major.
    pub closed spec fn cells(&self) -> Seq<Cell> {
        self.layer_data@
    }

    /// Flat position of a cell.
    pub open spec fn flat(&self, layer: int, col: int, row: int) -> int {
        layer * self.per_layer() + row * self.spec_cols() + col
    }

    /// The cell at `(layer, col, row)`.
    pub open spec fn cell_at(&self, layer: int, col: int, row: int) -> Cell {
        self.cells()[self.flat(layer, col, row)]
    }

    /// Congestion counters, row-major.
    pub closed spec fn congestion_view(&self) -> Seq<u16> {
        self.congestion@
    }

    /// Number of nets whose cells are indexed.
    pub closed spec fn tracked_nets(&self) -> nat {
        self.net_cells@.len()
    }

    pub open spec fn in_range(&self, layer: int, col: int, row: int) -> bool {
        0 <= layer < self.spec_num_layers() && 0 <= col < self.spec_cols() && 0 <= row
            < self.spec_rows()
    }

    closed spec fn entry_flat(&self, e: (usize, usize)) -> int {
        e.0 * (self.rows * self.cols) + e.1
    }

    /// Well-formedness: storage sizes agree with the dimensions, and every cell that
    /// holds a tracked net is listed in that net's index.
    pub closed spec fn wf(&self) -> bool {
        &&& self.layer_data@.len() == self.num_layers * (self.rows * self.cols)
        &&& self.congestion@.len() == self.rows * self.cols
        &&& self.rows * self.cols <= usize::MAX
        &&& self.num_layers * (self.rows * self.cols) <= usize::MAX
        &&& forall|n: int, k: int|
            0 <= n < self.net_cells@.len() && 0 <= k < self.net_cells@[n]@.len() ==> {
                &&& (#[trigger] self.net_cells@[n]@[k]).0 < self.num_layers
                &&& self.net_cells@[n]@[k].1 < self.rows * self.cols
            }
        &&& forall|f: int|
            #![trigger self.layer_data@[f]]
            0 <= f < self.layer_data@.len() && cell_net(self.layer_data@[f]) is Some && (cell_net(
                self.layer_data@[f],
            )->0 as int) < self.net_cells@.len() ==> exists|k: int|
                0 <= k < self.net_cells@[cell_net(self.layer_data@[f])->0 as int]@.len()
                    && self.entry_flat(
                    #[trigger] self.net_cells@[cell_net(self.layer_data@[f])->0 as int]@[k],
                ) == f
    }

    pub proof fn lemma_wf_len(&self)
        requires
            self.wf(),
        ensures
            self.cells().len() == self.spec_num_layers() * self.per_layer(),
            self.congestion_view().len() == self.per_layer(),
            self.per_layer() <= usize::MAX,
            self.spec_num_layers() * self.per_layer() <= usize::MAX,
            self.spec_num_layers() <= usize::MAX,
            self.spec_rows() <= usize::MAX,
            self.spec_cols() <= usize::MAX,
    {
        assert(self.layer_data@.len() == self.num_layers * (self.rows * self.cols));
    }

    /// A fresh grid: every cell of a signal layer is free, every cell of any other
    /// layer is blocked; congestion is zero and no net occupies any cell.
    pub fn new_bounded(cols: usize, rows: usize, layer_is_signal: &[bool], max_net_id: usize) -> (g: Self)
        requires
            cols * rows <= usize::MAX,
            layer_is_signal@.len() * (cols * rows) <= usize::MAX,
            max_net_id < usize::MAX,
        ensures
            g.wf(),
            g.spec_cols() == cols,
            g.spec_rows() == rows,
            g.spec_num_layers() == layer_is_signal@.len(),
            g.tracked_nets() == max_net_id + 1,
            forall|l: int, c: int, r: int|
                g.in_range(l, c, r) ==> #[trigger] g.cell_at(l, c, r) == if layer_is_signal@[l] {
                    Cell::Free
                } else {
                    Cell::Blocked
                },
            forall|i: int| 0 <= i < g.per_layer() ==> #[trigger] g.congestion_view()[i] == 0,
    {
        proof {
            assert(cols * rows == rows * cols) by (nonlinear_arith);
            assert(0 <= cols * rows) by (nonlinear_arith);
        }
        let total = rows * cols;
        let num_layers = layer_is_signal.len();
        let mut layer_data: Vec<Cell> = Vec::new();
        let mut l: usize = 0;
        while l < num_layers
            invariant
                l <= num_layers,
                num_layers == layer_is_signal@.len(),
                num_layers * total <= usize::MAX,
                total == rows * cols,
                layer_data@.len() == l * total,
                forall|f: int|
                    0 <= f < layer_data@.len() ==> #[trigger] layer_data@[f] == if layer_is_signal@[f
                        / (total as int)] {
                        Cell::Free
                    } else {
                        Cell::Blocked
                    },
            decreases num_layers - l,
        {
            let fill = if layer_is_signal[l] {
                Cell::Free
            } else {
                Cell::Blocked
            };
            proof {
                assert((l + 1) * total <= num_layers * total) by (nonlinear_arith)
                    requires
                        l + 1 <= num_layers,
                        0 <= total,
                ;
                assert(l * total + total == (l + 1) * total) by (nonlinear_arith);
            }
            let mut i: usize = 0;
            while i < total
                invariant
                    i <= total,
                    l < num_layers,
                    num_layers == layer_is_signal@.len(),
                    (l + 1) * total <= num_layers * total,
                    num_layers * total <= usize::MAX,
                    l * total + total == (l + 1) * total,
                    fill == if layer_is_signal@[l as int] {
                        Cell::Free
                    } else {
                        Cell::Blocked
                    },
                    layer_data@.len() == l * total + i,
                    forall|f: int|
                        0 <= f < layer_data@.len() ==> #[trigger] layer_data@[f] == if layer_is_signal@[f
                            / (total as int)] {
                            Cell::Free
                        } else {
                            Cell::Blocked
                        },
                decreases total - i,
            {
                proof {
                    let f = l * total + i;
                    assert(f / (total as int) == l) by (nonlinear_arith)
                        requires
                            f == l * total + i,
                            0 <= i < total,
                            0 <= l,
                    ;
                }
                layer_data.push(fill);
                i = i + 1;
            }
            l = l + 1;
        }
        let mut congestion: Vec<u16> = Vec::new();
        let mut j: usize = 0;
        while j < total
            invariant
                j <= total,
                congestion@.len() == j,
                forall|i: int| 0 <= i < j ==> #[trigger] congestion@[i] == 0,
            decreases total - j,
        {
            congestion.push(0);
            j = j + 1;
        }
        let mut net_cells: Vec<Vec<(usize, usize)>> = Vec::new();
        let mut k: usize = 0;
        while k <= max_net_id
            invariant
                k <= max_net_id + 1,
                max_net_id < usize::MAX,
                net_cells@.len() == k,
                forall|n: int| 0 <= n < k ==> (#[trigger] net_cells@[n])@.len() == 0,
            decreases max_net_id + 1 - k,
        {
            net_cells.push(Vec::new());
            k = k + 1;
        }
        let g = RoutingGrid { cols, rows, num_layers, layer_data, congestion, net_cells };
        proof {
            assert forall|l: int, c: int, r: int| g.in_range(l, c, r) implies #[trigger] g.cell_at(
                l,
                c,
                r,
            ) == if layer_is_signal@[l] {
                Cell::Free
            } else {
                Cell::Blocked
            } by {
                lemma_flat_index_bound(l, r, c, num_layers as int, rows as int, cols as int);
                let f = g.flat(l, c, r);
                assert(f / (total as int) == l) by (nonlinear_arith)
                    requires
                        f == l * total + (r * cols + c),
                        0 <= r * cols + c < total,
                        0 <= l,
                ;
            }
            assert forall|f: int|
                #![trigger g.layer_data@[f]]
                0 <= f < g.layer_data@.len() implies cell_net(g.layer_data@[f]) is None by {
                assert(layer_data@[f] == Cell::Free || layer_data@[f] == Cell::Blocked);
            }
        }
        g
    }

    /// Row-major index of `(col, row)` within one layer.
    pub fn idx(&self, col: usize, row: usize) -> (i: usize)
        requires
            self.wf(),
            col < self.spec_cols(),
            row < self.spec_rows(),
        ensures
            i == row * self.spec_cols() + col,
            i < self.per_layer(),
            i < self.congestion_view().len(),
    {
        proof {
            lemma_flat_index_bound(0, row as int, col as int, 1, self.rows as int, self.cols as int);
            assert(self.congestion@.len() == self.rows * self.cols);
        }
        row * self.cols + col
    }

    /// Number of cells on one layer.
    pub fn per_layer_len(&self) -> (n: usize)
        requires
            self.wf(),
        ensures
            n == self.per_layer(),
    {
        self.rows * self.cols
    }

    pub fn in_bounds(&self, col: usize, row: usize) -> (b: bool)
        ensures
            b == (col < self.spec_cols() && row < self.spec_rows()),
    {
        col < self.cols && row < self.rows
    }

    pub fn cols(&self) -> (c: usize)
        ensures
            c == self.spec_cols(),
    {
        self.cols
    }

    pub fn rows(&self) -> (r: usize)
        ensures
            r == self.spec_rows(),
    {
        self.rows
    }

    pub fn num_layers(&self) -> (n: usize)
        ensures
            n == self.spec_num_layers(),
    {
        self.num_layers
    }

    /// Increment the congestion counter of a cell, saturating at `u16::MAX`.
    pub fn inc_congestion(&mut self, col: usize, row: usize)
        requires
            old(self).wf(),
            col < old(self).spec_cols(),
            row < old(self).spec_rows(),
        ensures
            final(self).wf(),
            final(self).cells() == old(self).cells(),
            final(self).spec_cols() == old(self).spec_cols(),
            final(self).spec_rows() == old(self).spec_rows(),
            final(self).spec_num_layers() == old(self).spec_num_layers(),
            final(self).tracked_nets() == old(self).tracked_nets(),
            final(self).congestion_view() == old(self).congestion_view().update(
                row * old(self).spec_cols() + col,
                old(self).congestion_view()[row * old(self).spec_cols() + col].saturating_add(1),
            ),
    {
        let i = self.idx(col, row);
        let v = self.congestion[i].saturating_add(1);
        self.congestion.set(i, v);
    }

    /// Congestion counter of a cell.
    pub fn congestion_at(&self, col: usize, row: usize) -> (v: u16)
        requires
            self.wf(),
            col < self.spec_cols(),
            row < self.spec_rows(),
        ensures
            v == self.congestion_view()[row * self.spec_cols() + col],
    {
        let i = self.idx(col, row);
        self.congestion[i]
    }

    /// The cell at a flat position (`layer * rows * cols + row * cols + col`).
    pub fn cell_by_flat(&self, f: usize) -> (c: Cell)
        requires
            f < self.cells().len(),
        ensures
            c == self.cells()[f as int],
    {
        self.layer_data[f]
    }

    /// The cell at `(layer, col, row)`.
    pub fn get(&self, layer: usize, col: usize, row: usize) -> (c: Cell)
        requires
            self.wf(),
            self.in_range(layer as int, col as int, row as int),
        ensures
            c == self.cell_at(layer as int, col as int, row as int),
    {
        proof {
            lemma_flat_index_bound(
                layer as int,
                row as int,
                col as int,
                self.num_layers as int,
                self.rows as int,
                self.cols as int,
            );
        }
        let flat = layer * (self.rows * self.cols) + (row * self.cols + col);
        self.layer_data[flat]
    }

    /// Write a cell; a cell that holds a tracked net is recorded in that net's index.
    pub fn set(&mut self, layer: usize, col: usize, row: usize, cell: Cell)
        requires
            old(self).wf(),
            old(self).in_range(layer as int, col as int, row as int),
        ensures
            final(self).wf(),
            final(self).spec_cols() == old(self).spec_cols(),
            final(self).spec_rows() == old(self).spec_rows(),
            final(self).spec_num_layers() == old(self).spec_num_layers(),
            final(self).tracked_nets() == old(self).tracked_nets(),
            final(self).congestion_view() == old(self).congestion_view(),
            final(self).cells() == old(self).cells().update(
                old(self).flat(layer as int, col as int, row as int),
                cell,
            ),
    {
        proof {
            lemma_flat_index_bound(
                layer as int,
                row as int,
                col as int,
                self.num_layers as int,
                self.rows as int,
                self.cols as int,
            );
        }
        let ghost pre = *self;
        let i = row * self.cols + col;
        let flat = layer * (self.rows * self.cols) + i;
        let net_id: Option<u32> = match cell {
            Cell::Trace(n) => Some(n),
            Cell::Pad(n) => Some(n),
            Cell::Via(n) => Some(n),
            _ => None,
        };
        if let Some(n) = net_id {
            let n = n as usize;
            if n < self.net_cells.len() {
                self.net_cells[n].push((layer, i));
            }
        }
        self.layer_data.set(flat, cell);
        proof {
            let post = *self;
            assert(post.entry_flat((layer, i)) == flat);
            assert forall|nn: int, k: int|
                0 <= nn < post.net_cells@.len() && 0 <= k < post.net_cells@[nn]@.len() implies {
                &&& (#[trigger] post.net_cells@[nn]@[k]).0 < post.num_layers
                &&& post.net_cells@[nn]@[k].1 < post.rows * post.cols
            } by {
                if k < pre.net_cells@[nn]@.len() {
                    assert(post.net_cells@[nn]@[k] == pre.net_cells@[nn]@[k]);
                }
            }
            assert forall|f: int|
                #![trigger post.layer_data@[f]]
                0 <= f < post.layer_data@.len() && cell_net(post.layer_data@[f]) is Some && (cell_net(
                    post.layer_data@[f],
                )->0 as int) < post.net_cells@.len() implies exists|k: int|
                0 <= k < post.net_cells@[cell_net(post.layer_data@[f])->0 as int]@.len()
                    && post.entry_flat(
                    #[trigger] post.net_cells@[cell_net(post.layer_data@[f])->0 as int]@[k],
                ) == f by {
                let nn = cell_net(post.layer_data@[f])->0 as int;
                if f == flat {
                    let k = post.net_cells@[nn]@.len() - 1;
                    assert(post.net_cells@[nn]@[k] == (layer, i));
                } else {
                    assert(post.layer_data@[f] == pre.layer_data@[f]);
                    let k = choose|k: int|
                        0 <= k < pre.net_cells@[nn]@.len() && pre.entry_flat(
                            #[trigger] pre.net_cells@[nn]@[k],
                        ) == f;
                    assert(post.net_cells@[nn]@[k] == pre.net_cells@[nn]@[k]);
                }
            }
        }
    }

    /// Make every cell that holds the given net free again (nets beyond the index are
    /// left alone), and empty that net's index.
    pub fn unmark_net(&mut self, net_id: u32)
        requires
            old(self).wf(),
        ensures
            final(self).wf(),
            final(self).spec_cols() == old(self).spec_cols(),
            final(self).spec_rows() == old(self).spec_rows(),
            final(self).spec_num_layers() == old(self).spec_num_layers(),
            final(self).tracked_nets() == old(self).tracked_nets(),
            final(self).congestion_view() == old(self).congestion_view(),
            final(self).cells().len() == old(self).cells().len(),
            forall|f: int|
                0 <= f < old(self).cells().len() ==> #[trigger] final(self).cells()[f] == if (
                net_id as int) < old(self).tracked_nets() && cell_net(old(self).cells()[f])
                    == Some(net_id) {
                    Cell::Free
                } else {
                    old(self).cells()[f]
                },
    {
        let n = net_id as usize;
        if n >= self.net_cells.len() {
            return;
        }
        let ghost pre = *self;
        let mut cells: Vec<(usize, usize)> = Vec::new();
        std::mem::swap(&mut cells, &mut self.net_cells[n]);
        let per_layer = self.rows * self.cols;
        let mut j: usize = 0;
        while j < cells.len()
            invariant
                j <= cells@.len(),
                cells@ == pre.net_cells@[n as int]@,
                per_layer == pre.rows * pre.cols,
                n < pre.net_cells@.len(),
                self.rows == pre.rows,
                self.cols == pre.cols,
                self.num_layers == pre.num_layers,
                self.congestion == pre.congestion,
                self.net_cells@.len() == pre.net_cells@.len(),
                self.net_cells@[n as int]@.len() == 0,
                forall|nn: int| 0 <= nn < pre.net_cells@.len() && nn != n ==> #[trigger] self.net_cells@[nn] == pre.net_cells@[nn],
                self.layer_data@.len() == pre.layer_data@.len(),
                pre.wf(),
                forall|f: int|
                    0 <= f < pre.layer_data@.len() ==> #[trigger] self.layer_data@[f] == pre.layer_data@[f]
                        || (self.layer_data@[f] == Cell::Free && cell_net(pre.layer_data@[f]) == Some(
                        net_id,
                    )),
                forall|k: int|
                    0 <= k < j ==> cell_net(
                        #[trigger] self.layer_data@[pre.entry_flat(cells@[k])],
                    ) != Some(net_id),
            decreases cells@.len() - j,
        {
            let (layer, i) = cells[j];
            proof {
                assert(pre.net_cells@[n as int]@[j as int] == (layer, i));
                assert(layer < pre.num_layers && i < per_layer);
                lemma_layer_offset_bound(layer as int, i as int, pre.num_layers as int, per_layer as int);
            }
            let flat = layer * per_layer + i;
            let c = self.layer_data[flat];
            let hit = match c {
                Cell::Trace(m) => m == net_id,
                Cell::Pad(m) => m == net_id,
                Cell::Via(m) => m == net_id,
                _ => false,
            };
            let ghost before = self.layer_data@;
            proof {
                assert(pre.entry_flat(cells@[j as int]) == flat);
            }
            if hit {
                self.layer_data.set(flat, Cell::Free);
            }
            proof {
                assert(cell_net(self.layer_data@[flat as int]) != Some(net_id));
                assert forall|k: int| 0 <= k < j + 1 implies cell_net(
                    #[trigger] self.layer_data@[pre.entry_flat(cells@[k])],
                ) != Some(net_id) by {
                    if k < j {
                        let fk = pre.entry_flat(cells@[k]);
                        assert(pre.net_cells@[n as int]@[k] == cells@[k]);
                        lemma_layer_offset_bound(
                            cells@[k].0 as int,
                            cells@[k].1 as int,
                            pre.num_layers as int,
                            per_layer as int,
                        );
                        if fk != flat {
                            assert(self.layer_data@[fk] == before[fk]);
                        }
                    }
                }
            }
            j = j + 1;
        }
        proof {
            let post = *self;
            assert forall|f: int|
                0 <= f < pre.layer_data@.len() && cell_net(pre.layer_data@[f]) == Some(
                    net_id,
                ) implies #[trigger] post.layer_data@[f] == Cell::Free by {
                let k = choose|k: int|
                    0 <= k < pre.net_cells@[n as int]@.len() && pre.entry_flat(
                        #[trigger] pre.net_cells@[n as int]@[k],
                    ) == f;
                assert(cells@[k] == pre.net_cells@[n as int]@[k]);
            }
            assert forall|nn: int, k: int|
                0 <= nn < post.net_cells@.len() && 0 <= k < post.net_cells@[nn]@.len() implies {
                &&& (#[trigger] post.net_cells@[nn]@[k]).0 < post.num_layers
                &&& post.net_cells@[nn]@[k].1 < post.rows * post.cols
            } by {
                assert(nn != n);
                assert(post.net_cells@[nn] == pre.net_cells@[nn]);
            }
            assert forall|f: int|
                #![trigger post.layer_data@[f]]
                0 <= f < post.layer_data@.len() && cell_net(post.layer_data@[f]) is Some && (cell_net(
                    post.layer_data@[f],
                )->0 as int) < post.net_cells@.len() implies exists|k: int|
                0 <= k < post.net_cells@[cell_net(post.layer_data@[f])->0 as int]@.len()
                    && post.entry_flat(
                    #[trigger] post.net_cells@[cell_net(post.layer_data@[f])->0 as int]@[k],
                ) == f by {
                let nn = cell_net(post.layer_data@[f])->0 as int;
                assert(post.layer_data@[f] == pre.layer_data@[f]);
                assert(nn != n);
                let k = choose|k: int|
                    0 <= k < pre.net_cells@[nn]@.len() && pre.entry_flat(
                        #[trigger] pre.net_cells@[nn]@[k],
                    ) == f;
                assert(post.net_cells@[nn] == pre.net_cells@[nn]);
            }
        }
    }
}

} // verus!
