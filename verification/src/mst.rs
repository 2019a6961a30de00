//! Decomposition of a multi-pin net into two-pin connections: a rectilinear minimum
//! spanning tree by Prim's algorithm, or, for three pins, a Steiner star through the
//! median point when that is clearly shorter. Pad positions are integer nanometres.
use vstd::prelude::*;
use crate::net_topology::abs;

verus! {

/// Manhattan distance between pads `i` and `j`.
pub open spec fn mdist(pads: Seq<(i32, i32)>, i: int, j: int) -> int {
    abs(pads[i].0 - pads[j].0) + abs(pads[i].1 - pads[j].1)
}

/// Median of three values.
pub open spec fn median3_spec(a: i32, b: i32, c: i32) -> i32 {
    if a <= b {
        if b <= c {
            b
        } else if a <= c {
            c
        } else {
            a
        }
    } else {
        if a <= c {
            a
        } else if b <= c {
            c
        } else {
            b
        }
    }
}

/// Median of three values.
pub fn median3(a: i32, b: i32, c: i32) -> (m: i32)
    ensures
        m == median3_spec(a, b, c),
{
    if a <= b {
        if b <= c {
            b
        } else if a <= c {
            c
        } else {
            a
        }
    } else {
        if a <= c {
            a
        } else if b <= c {
            c
        } else {
            b
        }
    }
}

/// The median point of three pads.
pub open spec fn steiner_point(pads: Seq<(i32, i32)>) -> (i32, i32) {
    (median3_spec(pads[0].0, pads[1].0, pads[2].0), median3_spec(pads[0].1, pads[1].1, pads[2].1))
}

/// Total length of a spanning tree of three pads: the two shortest pairwise distances.
pub open spec fn three_pin_mst_len(pads: Seq<(i32, i32)>) -> int {
    let d01 = mdist(pads, 0, 1);
    let d02 = mdist(pads, 0, 2);
    let d12 = mdist(pads, 1, 2);
    let mx = if d01 >= d02 && d01 >= d12 { d01 } else if d02 >= d12 { d02 } else { d12 };
    d01 + d02 + d12 - mx
}

/// Total length of the star from three pads to their median point.
pub open spec fn steiner_len(pads: Seq<(i32, i32)>) -> int {
    let s = steiner_point(pads);
    abs(pads[0].0 - s.0) + abs(pads[0].1 - s.1) + abs(pads[1].0 - s.0) + abs(pads[1].1 - s.1)
        + abs(pads[2].0 - s.0) + abs(pads[2].1 - s.1)
}

/// A three-pin net uses the Steiner star: it is shorter than 98% of the spanning tree.
pub open spec fn steiner_applies(pads: Seq<(i32, i32)>) -> bool {
    pads.len() == 3 && 50 * steiner_len(pads) < 49 * three_pin_mst_len(pads)
}

/// State of Prim's algorithm: which pads are in the tree, each other pad's distance to
/// the tree and its nearest tree pad, and the edges `(from, to, length)` chosen so far.
pub struct PrimState {
    pub inn: Seq<bool>,
    pub md: Seq<int>,
    pub nearest: Seq<usize>,
    pub edges: Seq<(usize, usize, int)>,
}

/// The distance that stands for "not reached yet".
pub open spec fn far_distance() -> int {
    i64::MAX as int
}

/// The tree holds pad 0 only.
pub open spec fn prim_init(pads: Seq<(i32, i32)>) -> PrimState {
    PrimState {
        inn: Seq::new(pads.len(), |j: int| j == 0),
        md: Seq::new(pads.len(), |j: int| if j == 0 { far_distance() } else { mdist(pads, 0, j) }),
        nearest: Seq::new(pads.len(), |j: int| 0usize),
        edges: Seq::empty(),
    }
}

/// The first pad from `j` on outside the tree whose distance is below `best_d` and
/// below every later candidate's, or `(best, best_d)` if none is.
pub open spec fn pick_from(st: PrimState, j: int, best: int, best_d: int) -> (int, int)
    decreases st.inn.len() - j,
{
    if j < 0 || j >= st.inn.len() {
        (best, best_d)
    } else if !st.inn[j] && st.md[j] < best_d {
        pick_from(st, j + 1, j, st.md[j])
    } else {
        pick_from(st, j + 1, best, best_d)
    }
}

/// One step of Prim's algorithm: add the nearest pad outside the tree (the first one
/// on ties) with the edge from its nearest tree pad, then update the distances.
pub open spec fn prim_step(pads: Seq<(i32, i32)>, st: PrimState) -> PrimState {
    let p = pick_from(st, 0, 0, far_distance());
    let best = p.0;
    if p.1 >= far_distance() {
        st
    } else {
        let inn2 = st.inn.update(best, true);
        PrimState {
            inn: inn2,
            md: Seq::new(st.md.len(), |j: int| if !inn2[j] && mdist(pads, best, j) < st.md[j] { mdist(pads, best, j) } else { st.md[j] }),
            nearest: Seq::new(st.nearest.len(), |j: int| if !inn2[j] && mdist(pads, best, j) < st.md[j] { best as usize } else { st.nearest[j] }),
            edges: st.edges.push((st.nearest[best], best as usize, p.1)),
        }
    }
}

/// The state after `k` steps.
pub open spec fn prim_run(pads: Seq<(i32, i32)>, k: nat) -> PrimState
    decreases k,
{
    if k == 0 {
        prim_init(pads)
    } else {
        prim_step(pads, prim_run(pads, (k - 1) as nat))
    }
}

/// Edge `a` sorts before edge `b`: shorter, or as long with a smaller (from, to).
pub open spec fn edge_lt(a: (usize, usize, int), b: (usize, usize, int)) -> bool {
    a.2 < b.2 || (a.2 == b.2 && (a.0 < b.0 || (a.0 == b.0 && a.1 < b.1)))
}

/// `s` with `x` inserted before the first edge it sorts before.
pub open spec fn insert_edge(s: Seq<(usize, usize, int)>, x: (usize, usize, int)) -> Seq<(usize, usize, int)>
    decreases s.len(),
{
    if s.len() == 0 {
        seq![x]
    } else if edge_lt(x, s[0]) {
        seq![x] + s
    } else {
        seq![s[0]] + insert_edge(s.drop_first(), x)
    }
}

/// The edges ordered by length, then endpoints.
pub open spec fn sort_edges(s: Seq<(usize, usize, int)>) -> Seq<(usize, usize, int)>
    decreases s.len(),
{
    if s.len() == 0 {
        Seq::empty()
    } else {
        insert_edge(sort_edges(s.drop_last()), s.last())
    }
}

/// The two-pin connections of a net: `(0, 1)` for two pads or fewer; a star to the
/// Steiner point (index 3) when `steiner_applies`; else the spanning-tree edges, shortest
/// first.
pub open spec fn mst_edges_spec(pads: Seq<(i32, i32)>) -> Seq<(usize, usize)> {
    if pads.len() <= 2 {
        seq![(0usize, 1usize)]
    } else if steiner_applies(pads) {
        seq![(0usize, 3usize), (1usize, 3usize), (2usize, 3usize)]
    } else {
        sort_edges(prim_run(pads, (pads.len() - 1) as nat).edges).map_values(|e: (usize, usize, int)| (e.0, e.1))
    }
}

/// The Steiner points added: the median point when the star is used, else none.
pub open spec fn mst_points_spec(pads: Seq<(i32, i32)>) -> Seq<(i32, i32)> {
    if pads.len() > 2 && steiner_applies(pads) {
        seq![steiner_point(pads)]
    } else {
        Seq::empty()
    }
}

/// The values of a sequence of `i64` as integers.
pub open spec fn ints(s: Seq<i64>) -> Seq<int> {
    s.map_values(|x: i64| x as int)
}

/// Edges with `i64` lengths as edges with integer lengths.
pub open spec fn int_edges(s: Seq<(usize, usize, i64)>) -> Seq<(usize, usize, int)> {
    s.map_values(|e: (usize, usize, i64)| (e.0, e.1, e.2 as int))
}

/// Appending to an `i64` sequence appends the integer.
proof fn lemma_ints_push(s: Seq<i64>, x: i64)
    ensures
        ints(s.push(x)) == ints(s).push(x as int),
{
    assert(ints(s.push(x)) =~= ints(s).push(x as int));
}

/// Appending an edge appends its integer form.
proof fn lemma_int_edges_push(s: Seq<(usize, usize, i64)>, x: (usize, usize, i64))
    ensures
        int_edges(s.push(x)) == int_edges(s).push((x.0, x.1, x.2 as int)),
{
    assert(int_edges(s.push(x)) =~= int_edges(s).push((x.0, x.1, x.2 as int)));
}

/// Manhattan distance between two pads.
fn dist(pads: &[(i32, i32)], i: usize, j: usize) -> (d: i64)
    requires
        i < pads@.len(),
        j < pads@.len(),
    ensures
        d == mdist(pads@, i as int, j as int),
        0 <= d <= 0x2_0000_0000,
{
    let dx: i64 = pads[i].0 as i64 - pads[j].0 as i64;
    let dy: i64 = pads[i].1 as i64 - pads[j].1 as i64;
    (if dx < 0 { -dx } else { dx }) + (if dy < 0 { -dy } else { dy })
}

/// Once a step changes nothing, no later step does.
proof fn lemma_prim_fixpoint(pads: Seq<(i32, i32)>, k: nat, m: nat)
    requires
        k <= m,
        prim_step(pads, prim_run(pads, k)) == prim_run(pads, k),
    ensures
        prim_run(pads, m) == prim_run(pads, k),
    decreases m - k,
{
    if m > k {
        lemma_prim_fixpoint(pads, k, (m - 1) as nat);
    }
}

/// Prim's algorithm run for `n - 1` steps.
fn prim_edges(pads: &[(i32, i32)]) -> (e: Vec<(usize, usize, i64)>)
    requires
        pads@.len() >= 1,
    ensures
        int_edges(e@) == prim_run(pads@, (pads@.len() - 1) as nat).edges,
{
    let n = pads.len();
    let mut inn: Vec<bool> = Vec::new();
    let mut md: Vec<i64> = Vec::new();
    let mut nearest: Vec<usize> = Vec::new();
    let mut j: usize = 0;
    while j < n
        invariant
            j <= n,
            n == pads@.len(),
            inn@ == prim_init(pads@).inn.take(j as int),
            ints(md@) == prim_init(pads@).md.take(j as int),
            nearest@ == prim_init(pads@).nearest.take(j as int),
        decreases n - j,
    {
        let ghost md_before = md@;
        inn.push(j == 0);
        let v: i64 = if j == 0 { i64::MAX } else { dist(pads, 0, j) };
        md.push(v);
        nearest.push(0);
        j = j + 1;
        proof {
            lemma_ints_push(md_before, v);
            assert(inn@ =~= prim_init(pads@).inn.take(j as int));
            assert(ints(md@) =~= prim_init(pads@).md.take(j as int));
            assert(nearest@ =~= prim_init(pads@).nearest.take(j as int));
        }
    }
    proof {
        assert(inn@ =~= prim_init(pads@).inn);
        assert(ints(md@) =~= prim_init(pads@).md);
        assert(nearest@ =~= prim_init(pads@).nearest);
        assert forall|i: int| 0 <= i < n implies 0 <= (#[trigger] md@[i]) by {
            assert(ints(md@)[i] == md@[i] as int);
        }
        assert(int_edges(Seq::<(usize, usize, i64)>::empty()) =~= Seq::<(usize, usize, int)>::empty());
    }
    let mut edges: Vec<(usize, usize, i64)> = Vec::new();
    let mut k: usize = 0;
    while k < n - 1
        invariant
            k <= n - 1,
            n == pads@.len(),
            inn@.len() == n,
            md@.len() == n,
            nearest@.len() == n,
            inn@ == prim_run(pads@, k as nat).inn,
            ints(md@) == prim_run(pads@, k as nat).md,
            nearest@ == prim_run(pads@, k as nat).nearest,
            int_edges(edges@) == prim_run(pads@, k as nat).edges,
            forall|i: int| 0 <= i < n ==> (#[trigger] nearest@[i]) < n,
            forall|i: int| 0 <= i < n ==> 0 <= (#[trigger] md@[i]),
        decreases n - 1 - k,
    {
        let ghost st = prim_run(pads@, k as nat);
        let mut best: usize = 0;
        let mut best_d: i64 = i64::MAX;
        let mut q: usize = 0;
        while q < n
            invariant
                q <= n,
                n == pads@.len(),
                best < n,
                inn@ == st.inn,
                ints(md@) == st.md,
                st.inn.len() == n,
                md@.len() == n,
                pick_from(st, 0, 0, far_distance()) == pick_from(st, q as int, best as int, best_d as int),
            decreases n - q,
        {
            proof {
                assert(ints(md@)[q as int] == md@[q as int] as int);
            }
            if !inn[q] && md[q] < best_d {
                best = q;
                best_d = md[q];
            }
            q = q + 1;
        }
        proof {
            assert(pick_from(st, 0, 0, far_distance()) == (best as int, best_d as int));
        }
        if best_d == i64::MAX {
            proof {
                assert(prim_step(pads@, st) == st);
                lemma_prim_fixpoint(pads@, k as nat, (n - 1) as nat);
            }
            return edges;
        }
        let ghost md0 = md@;
        let ghost near0 = nearest@;
        let ghost e0 = edges@;
        inn.set(best, true);
        edges.push((nearest[best], best, best_d));
        proof {
            lemma_int_edges_push(e0, (near0[best as int], best, best_d));
        }
        let mut u: usize = 0;
        while u < n
            invariant
                u <= n,
                n == pads@.len(),
                best < n,
                inn@.len() == n,
                inn@ == st.inn.update(best as int, true),
                md0.len() == n,
                near0.len() == n,
                md@.len() == n,
                nearest@.len() == n,
                forall|i: int| 0 <= i < n ==> 0 <= (#[trigger] md0[i]),
                forall|i: int| 0 <= i < n ==> (#[trigger] near0[i]) < n,
                forall|i: int| 0 <= i < n ==> 0 <= (#[trigger] md@[i]),
                forall|i: int| 0 <= i < n ==> (#[trigger] nearest@[i]) < n,
                forall|i: int| 0 <= i < u ==> #[trigger] md@[i] as int == (if !inn@[i] && mdist(pads@, best as int, i) < md0[i] { mdist(pads@, best as int, i) } else { md0[i] as int }),
                forall|i: int| 0 <= i < u ==> #[trigger] nearest@[i] == (if !inn@[i] && mdist(pads@, best as int, i) < md0[i] { best } else { near0[i] }),
                forall|i: int| u <= i < n ==> #[trigger] md@[i] == md0[i] && nearest@[i] == near0[i],
            decreases n - u,
        {
            assert(md@[u as int] == md0[u as int] && nearest@[u as int] == near0[u as int]);
            let ghost mdb = md@;
            let ghost nb = nearest@;
            if !inn[u] {
                let d = dist(pads, best, u);
                if d < md[u] {
                    md.set(u, d);
                    nearest.set(u, best);
                }
            }
            assert forall|i: int| u < i < n implies #[trigger] md@[i] == md0[i] && nearest@[i] == near0[i] by {
                assert(md@[i] == mdb[i]);
                assert(nearest@[i] == nb[i]);
            }
            assert forall|i: int| 0 <= i < u implies #[trigger] md@[i] == mdb[i] && nearest@[i] == nb[i] by {}
            u = u + 1;
        }
        k = k + 1;
        proof {
            let nx = prim_run(pads@, k as nat);
            assert(nx == prim_step(pads@, st));
            assert(ints(md0) == st.md);
            assert forall|i: int| 0 <= i < n implies ints(md@)[i] == nx.md[i] by {
                assert(ints(md0)[i] == md0[i] as int);
            }
            assert(ints(md@) =~= nx.md);
            assert(nearest@ =~= nx.nearest);
            assert(int_edges(edges@) =~= nx.edges);
        }
    }
    edges
}

/// Whether edge `a` sorts before edge `b`.
fn edge_less(a: (usize, usize, i64), b: (usize, usize, i64)) -> (r: bool)
    ensures
        r == edge_lt((a.0, a.1, a.2 as int), (b.0, b.1, b.2 as int)),
{
    a.2 < b.2 || (a.2 == b.2 && (a.0 < b.0 || (a.0 == b.0 && a.1 < b.1)))
}

/// Insert an edge as `insert_edge` does.
fn insert_edge_exec(v: &mut Vec<(usize, usize, i64)>, x: (usize, usize, i64))
    ensures
        int_edges(final(v)@) == insert_edge(int_edges(old(v)@), (x.0, x.1, x.2 as int)),
{
    let ghost v0 = v@;
    let ghost s0 = int_edges(v0);
    let ghost xi = (x.0, x.1, x.2 as int);
    let mut pos: usize = 0;
    proof {
        assert(s0.skip(0) =~= s0);
        assert(s0.take(0) + insert_edge(s0, xi) =~= insert_edge(s0, xi));
    }
    while pos < v.len() && !edge_less(x, v[pos])
        invariant
            pos <= v@.len(),
            v@ == v0,
            s0 == int_edges(v0),
            xi == (x.0, x.1, x.2 as int),
            insert_edge(s0, xi) == s0.take(pos as int) + insert_edge(s0.skip(pos as int), xi),
        decreases v@.len() - pos,
    {
        proof {
            let rest = s0.skip(pos as int);
            assert(rest[0] == (v0[pos as int].0, v0[pos as int].1, v0[pos as int].2 as int));
            assert(rest.drop_first() =~= s0.skip(pos as int + 1));
            assert(s0.take(pos as int) + (seq![rest[0]] + insert_edge(rest.drop_first(), xi))
                =~= s0.take(pos as int + 1) + insert_edge(s0.skip(pos as int + 1), xi));
        }
        pos = pos + 1;
    }
    proof {
        let rest = s0.skip(pos as int);
        if pos < v0.len() {
            assert(rest[0] == (v0[pos as int].0, v0[pos as int].1, v0[pos as int].2 as int));
        }
        assert(s0.take(pos as int) + insert_edge(rest, xi) =~= s0.take(pos as int) + seq![xi] + rest);
    }
    v.insert(pos, x);
    proof {
        assert(int_edges(v@) =~= s0.take(pos as int) + seq![xi] + s0.skip(pos as int));
    }
}

/// Two-pin connections of a multi-pin net, shortest first. Two pads or fewer give the
/// single connection `(0, 1)`. Three pads whose median-point star is shorter than 98%
/// of their spanning tree give the star to the Steiner point, which gets index 3 and is
/// returned as the added point. Otherwise the rectilinear minimum spanning tree by
/// Prim's algorithm from pad 0 (nearest pad first, the lowest index on ties), its edges
/// ordered by length, then endpoints.
pub fn build_mst_edges(pads: &[(i32, i32)]) -> (r: (Vec<(usize, usize)>, Vec<(i32, i32)>))
    ensures
        r.0@ == mst_edges_spec(pads@),
        r.1@ == mst_points_spec(pads@),
{
    let n = pads.len();
    if n <= 2 {
        let mut e: Vec<(usize, usize)> = Vec::new();
        e.push((0, 1));
        proof {
            assert(e@ =~= seq![(0usize, 1usize)]);
        }
        return (e, Vec::new());
    }
    if n == 3 {
        let sx = median3(pads[0].0, pads[1].0, pads[2].0);
        let sy = median3(pads[0].1, pads[1].1, pads[2].1);
        let d01 = dist(pads, 0, 1);
        let d02 = dist(pads, 0, 2);
        let d12 = dist(pads, 1, 2);
        let mx = if d01 >= d02 && d01 >= d12 { d01 } else if d02 >= d12 { d02 } else { d12 };
        let mst_len: i64 = d01 + d02 + d12 - mx;
        let mut st: i64 = 0;
        let mut i: usize = 0;
        while i < 3
            invariant
                i <= 3,
                n == 3 == pads@.len(),
                sx == steiner_point(pads@).0,
                sy == steiner_point(pads@).1,
                0 <= st <= i * 0x2_0000_0000,
                st == (if i >= 1 { abs(pads@[0].0 - sx) + abs(pads@[0].1 - sy) } else { 0 })
                    + (if i >= 2 { abs(pads@[1].0 - sx) + abs(pads@[1].1 - sy) } else { 0 })
                    + (if i >= 3 { abs(pads@[2].0 - sx) + abs(pads@[2].1 - sy) } else { 0 }),
            decreases 3 - i,
        {
            let dx: i64 = pads[i].0 as i64 - sx as i64;
            let dy: i64 = pads[i].1 as i64 - sy as i64;
            st = st + (if dx < 0 { -dx } else { dx }) + (if dy < 0 { -dy } else { dy });
            i = i + 1;
        }
        if 50 * st < 49 * mst_len {
            let mut e: Vec<(usize, usize)> = Vec::new();
            e.push((0, 3));
            e.push((1, 3));
            e.push((2, 3));
            let mut p: Vec<(i32, i32)> = Vec::new();
            p.push((sx, sy));
            proof {
                assert(e@ =~= seq![(0usize, 3usize), (1usize, 3usize), (2usize, 3usize)]);
                assert(p@ =~= seq![steiner_point(pads@)]);
            }
            return (e, p);
        }
    }
    let raw = prim_edges(pads);
    let mut sorted: Vec<(usize, usize, i64)> = Vec::new();
    let mut i: usize = 0;
    while i < raw.len()
        invariant
            i <= raw@.len(),
            int_edges(sorted@) == sort_edges(int_edges(raw@).take(i as int)),
        decreases raw@.len() - i,
    {
        proof {
            assert(int_edges(raw@).take(i as int + 1).drop_last() =~= int_edges(raw@).take(i as int));
            assert(int_edges(raw@).take(i as int + 1).last() == (raw@[i as int].0, raw@[i as int].1, raw@[i as int].2 as int));
        }
        insert_edge_exec(&mut sorted, raw[i]);
        i = i + 1;
    }
    proof {
        assert(int_edges(raw@).take(raw@.len() as int) =~= int_edges(raw@));
    }
    let mut out: Vec<(usize, usize)> = Vec::new();
    let mut k: usize = 0;
    while k < sorted.len()
        invariant
            k <= sorted@.len(),
            out@ == int_edges(sorted@).take(k as int).map_values(|e: (usize, usize, int)| (e.0, e.1)),
        decreases sorted@.len() - k,
    {
        out.push((sorted[k].0, sorted[k].1));
        k = k + 1;
        proof {
            assert(out@ =~= int_edges(sorted@).take(k as int).map_values(|e: (usize, usize, int)| (e.0, e.1)));
        }
    }
    proof {
        assert(int_edges(sorted@).take(k as int) =~= int_edges(sorted@));
    }
    (out, Vec::new())
}

/// The pads in the tree after the edges `e`: pad 0, then each edge's far end.
pub open spec fn tree_pads(e: Seq<(usize, usize, int)>) -> Seq<usize> {
    seq![0usize] + e.map_values(|x: (usize, usize, int)| x.1)
}

/// The edges grow a spanning tree from pad 0: each edge joins a pad already in the tree
/// to a new pad, and carries the Manhattan distance between them.
pub open spec fn grows_tree(pads: Seq<(i32, i32)>, e: Seq<(usize, usize, int)>) -> bool {
    &&& tree_pads(e).no_duplicates()
    &&& forall|k: int| 0 <= k < tree_pads(e).len() ==> (#[trigger] tree_pads(e)[k]) < pads.len()
    &&& forall|k: int| 0 <= k < e.len() ==> tree_pads(e.take(k)).contains((#[trigger] e[k]).0)
    &&& forall|k: int| 0 <= k < e.len() ==> (#[trigger] e[k]).2 == mdist(pads, e[k].0 as int, e[k].1 as int)
}

/// What holds of the state after each step of Prim's algorithm.
pub open spec fn prim_inv(pads: Seq<(i32, i32)>, st: PrimState) -> bool {
    let n = pads.len();
    &&& st.inn.len() == n
    &&& st.md.len() == n
    &&& st.nearest.len() == n
    &&& grows_tree(pads, st.edges)
    &&& forall|v: usize| v < n ==> (st.inn[v as int] <==> #[trigger] tree_pads(st.edges).contains(v))
    &&& forall|v: int| 0 <= v < n && !st.inn[v] ==> (#[trigger] st.nearest[v]) < n && st.inn[st.nearest[v] as int]
        && st.md[v] == mdist(pads, st.nearest[v] as int, v)
}

/// What `pick_from` returns: its starting candidate, or a later pad outside the tree
/// with a smaller distance; and it finds one whenever one exists.
proof fn lemma_pick_from(st: PrimState, j: int, best: int, bd: int)
    requires
        0 <= j,
        st.md.len() == st.inn.len(),
    ensures
        (pick_from(st, j, best, bd).0 == best && pick_from(st, j, best, bd).1 == bd) || (j <= pick_from(st, j, best, bd).0 < st.inn.len()
            && !st.inn[pick_from(st, j, best, bd).0] && st.md[pick_from(st, j, best, bd).0] == pick_from(st, j, best, bd).1
            && pick_from(st, j, best, bd).1 < bd),
        (exists|v: int| j <= v < st.inn.len() && !st.inn[v] && st.md[v] < bd) ==> pick_from(st, j, best, bd).1 < bd,
    decreases st.inn.len() - j,
{
    if j < st.inn.len() {
        if !st.inn[j] && st.md[j] < bd {
            lemma_pick_from(st, j + 1, j, st.md[j]);
        } else {
            lemma_pick_from(st, j + 1, best, bd);
            if exists|v: int| j <= v < st.inn.len() && !st.inn[v] && st.md[v] < bd {
                let v = choose|v: int| j <= v < st.inn.len() && !st.inn[v] && st.md[v] < bd;
                assert(v != j);
            }
        }
    }
}

/// A sequence of distinct values below `n` that is shorter than `n` misses one of them.
proof fn lemma_missing_value(s: Seq<usize>, n: nat)
    requires
        s.no_duplicates(),
        forall|k: int| 0 <= k < s.len() ==> (#[trigger] s[k]) < n,
        s.len() < n,
        n <= usize::MAX,
    ensures
        exists|v: usize| v < n && !s.contains(v),
    decreases n,
{
    let top = (n - 1) as usize;
    if !s.contains(top) {
        assert(top < n && !s.contains(top));
    } else {
        let i = choose|i: int| 0 <= i < s.len() && s[i] == top;
        let r = s.remove(i);
        assert(r.no_duplicates()) by {
            assert forall|a: int, b: int| 0 <= a < r.len() && 0 <= b < r.len() && a != b implies r[a] != r[b] by {
                let aa = if a < i { a } else { a + 1 };
                let bb = if b < i { b } else { b + 1 };
                assert(r[a] == s[aa] && r[b] == s[bb]);
            }
        }
        assert forall|k: int| 0 <= k < r.len() implies (#[trigger] r[k]) < n - 1 by {
            let kk = if k < i { k } else { k + 1 };
            assert(r[k] == s[kk]);
            assert(kk != i);
        }
        lemma_missing_value(r, (n - 1) as nat);
        let v = choose|v: usize| v < n - 1 && !r.contains(v);
        assert(!s.contains(v)) by {
            if s.contains(v) {
                let q = choose|q: int| 0 <= q < s.len() && s[q] == v;
                assert(q != i);
                let qq = if q < i { q } else { q - 1 };
                assert(r[qq] == s[q]);
            }
        }
    }
}

/// Tree pads after one more edge.
proof fn lemma_tree_pads_push(e: Seq<(usize, usize, int)>, x: (usize, usize, int))
    ensures
        tree_pads(e.push(x)) == tree_pads(e).push(x.1),
        e.push(x).take(e.len() as int) == e,
{
    assert(tree_pads(e.push(x)) =~= tree_pads(e).push(x.1));
    assert(e.push(x).take(e.len() as int) =~= e);
}

/// Each step keeps `prim_inv`, and the first `n - 1` steps each add an edge.
proof fn lemma_prim_step_inv(pads: Seq<(i32, i32)>, k: nat)
    requires
        pads.len() >= 1,
        pads.len() <= usize::MAX,
        k <= pads.len() - 1,
    ensures
        prim_inv(pads, prim_run(pads, k)),
        prim_run(pads, k).edges.len() == k,
    decreases k,
{
    let n = pads.len();
    if k == 0 {
        let st = prim_init(pads);
        assert(tree_pads(st.edges) =~= seq![0usize]);
        assert forall|v: usize| v < n implies (st.inn[v as int] <==> #[trigger] tree_pads(st.edges).contains(v)) by {
            if v == 0 {
                assert(tree_pads(st.edges)[0] == 0);
            }
        }
    } else {
        lemma_prim_step_inv(pads, (k - 1) as nat);
        let st = prim_run(pads, (k - 1) as nat);
        let tp = tree_pads(st.edges);
        // Some pad is still outside the tree.
        lemma_missing_value(tp, n);
        let v = choose|v: usize| v < n && !tp.contains(v);
        assert(!st.inn[v as int]);
        assert(st.md[v as int] == mdist(pads, st.nearest[v as int] as int, v as int));
        assert(st.md[v as int] < far_distance());
        lemma_pick_from(st, 0, 0, far_distance());
        let p = pick_from(st, 0, 0, far_distance());
        let best = p.0;
        assert(p.1 < far_distance());
        assert(0 <= best < n && !st.inn[best] && st.md[best] == p.1);
        let nx = prim_run(pads, k);
        assert(nx == prim_step(pads, st));
        let x = (st.nearest[best], best as usize, p.1);
        assert(nx.edges == st.edges.push(x));
        lemma_tree_pads_push(st.edges, x);
        let tp2 = tree_pads(nx.edges);
        assert(!tp.contains(best as usize));
        // The tree pads stay distinct and in range.
        assert(tp2.no_duplicates()) by {
            assert forall|a: int, b: int| 0 <= a < tp2.len() && 0 <= b < tp2.len() && a != b implies tp2[a] != tp2[b] by {
                if a < tp.len() && b < tp.len() {
                    assert(tp2[a] == tp[a] && tp2[b] == tp[b]);
                } else if a < tp.len() {
                    assert(tp2[a] == tp[a] && tp2[b] == best as usize);
                } else if b < tp.len() {
                    assert(tp2[b] == tp[b] && tp2[a] == best as usize);
                }
            }
        }
        assert forall|q: int| 0 <= q < tp2.len() implies (#[trigger] tp2[q]) < n by {
            if q < tp.len() {
                assert(tp2[q] == tp[q]);
            }
        }
        assert forall|q: int| 0 <= q < nx.edges.len() implies tree_pads(nx.edges.take(q)).contains((#[trigger] nx.edges[q]).0) by {
            if q < st.edges.len() {
                assert(nx.edges[q] == st.edges[q]);
                assert(nx.edges.take(q) =~= st.edges.take(q));
            } else {
                assert(nx.edges.take(q) == st.edges);
                assert(st.inn[st.nearest[best] as int]);
                assert(st.nearest[best] < n);
            }
        }
        assert forall|q: int| 0 <= q < nx.edges.len() implies (#[trigger] nx.edges[q]).2 == mdist(pads, nx.edges[q].0 as int, nx.edges[q].1 as int) by {
            if q < st.edges.len() {
                assert(nx.edges[q] == st.edges[q]);
            }
        }
        assert forall|w: usize| w < n implies (nx.inn[w as int] <==> #[trigger] tp2.contains(w)) by {
            if tp2.contains(w) && w != best as usize {
                let q = choose|q: int| 0 <= q < tp2.len() && tp2[q] == w;
                assert(q < tp.len());
                assert(tp[q] == w);
                assert(tp.contains(w));
            }
            if tp.contains(w) {
                let q = choose|q: int| 0 <= q < tp.len() && tp[q] == w;
                assert(tp2[q] == w);
            }
            if w == best as usize {
                assert(tp2[tp.len() as int] == w);
            }
        }
        assert forall|w: int| 0 <= w < n && !nx.inn[w] implies (#[trigger] nx.nearest[w]) < n && nx.inn[nx.nearest[w] as int]
            && nx.md[w] == mdist(pads, nx.nearest[w] as int, w) by {
            assert(!st.inn[w]);
        }
    }
}

/// Prim's algorithm grows a spanning tree of all the pads from pad 0: `n - 1` edges,
/// each joining a pad already in the tree to a new one, every pad reached.
pub proof fn lemma_prim_spanning_tree(pads: Seq<(i32, i32)>)
    requires
        pads.len() >= 1,
        pads.len() <= usize::MAX,
    ensures
        prim_run(pads, (pads.len() - 1) as nat).edges.len() == pads.len() - 1,
        grows_tree(pads, prim_run(pads, (pads.len() - 1) as nat).edges),
        forall|v: usize| v < pads.len() ==> #[trigger] tree_pads(prim_run(pads, (pads.len() - 1) as nat).edges).contains(v),
{
    let n = pads.len();
    lemma_prim_step_inv(pads, (n - 1) as nat);
    let tp = tree_pads(prim_run(pads, (n - 1) as nat).edges);
    assert forall|v: usize| v < n implies #[trigger] tp.contains(v) by {
        if !tp.contains(v) {
            assert(tp.no_duplicates());
            // n distinct values below n cannot miss v.
            lemma_full_covers(tp, n, v);
        }
    }
}

/// `n` distinct values below `n` include every value below `n`.
proof fn lemma_full_covers(s: Seq<usize>, n: nat, v: usize)
    requires
        s.no_duplicates(),
        forall|k: int| 0 <= k < s.len() ==> (#[trigger] s[k]) < n,
        s.len() == n,
        v < n,
        n <= usize::MAX,
    ensures
        s.contains(v),
{
    if !s.contains(v) {
        // Replace nothing: map the values into the n - 1 values other than v.
        let t = s.map_values(|x: usize| if x > v { (x - 1) as usize } else { x });
        assert(t.no_duplicates()) by {
            assert forall|a: int, b: int| 0 <= a < t.len() && 0 <= b < t.len() && a != b implies t[a] != t[b] by {
                assert(s[a] != s[b]);
                assert(s[a] != v && s[b] != v) by {
                    assert(s.contains(s[a]) && s.contains(s[b]));
                }
            }
        }
        assert forall|k: int| 0 <= k < t.len() implies (#[trigger] t[k]) < n - 1 by {
            assert(s[k] != v) by {
                assert(s.contains(s[k]));
            }
        }
        lemma_pigeon(t, (n - 1) as nat);
    }
}

/// More than `n` distinct values cannot all lie below `n`.
proof fn lemma_pigeon(s: Seq<usize>, n: nat)
    requires
        s.no_duplicates(),
        forall|k: int| 0 <= k < s.len() ==> (#[trigger] s[k]) < n,
        n <= usize::MAX,
    ensures
        s.len() <= n,
    decreases n,
{
    if s.len() > n {
        if n == 0 {
            assert(s[0] < 0);
        } else {
            let top = (n - 1) as usize;
            if s.contains(top) {
                let i = choose|i: int| 0 <= i < s.len() && s[i] == top;
                let r = s.remove(i);
                assert(r.no_duplicates()) by {
                    assert forall|a: int, b: int| 0 <= a < r.len() && 0 <= b < r.len() && a != b implies r[a] != r[b] by {
                        let aa = if a < i { a } else { a + 1 };
                        let bb = if b < i { b } else { b + 1 };
                        assert(r[a] == s[aa] && r[b] == s[bb]);
                    }
                }
                assert forall|k: int| 0 <= k < r.len() implies (#[trigger] r[k]) < n - 1 by {
                    let kk = if k < i { k } else { k + 1 };
                    assert(r[k] == s[kk]);
                }
                lemma_pigeon(r, (n - 1) as nat);
            } else {
                assert forall|k: int| 0 <= k < s.len() implies (#[trigger] s[k]) < n - 1 by {
                    assert(s.contains(s[k]));
                }
                lemma_pigeon(s, (n - 1) as nat);
            }
        }
    }
}

/// Edges in nondecreasing (length, from, to) order.
pub open spec fn edges_sorted(s: Seq<(usize, usize, int)>) -> bool {
    forall|i: int, j: int| 0 <= i < j < s.len() ==> !edge_lt(#[trigger] s[j], #[trigger] s[i])
}

proof fn lemma_insert_edge(s: Seq<(usize, usize, int)>, x: (usize, usize, int))
    requires
        edges_sorted(s),
    ensures
        edges_sorted(insert_edge(s, x)),
        insert_edge(s, x).to_multiset() == s.to_multiset().insert(x),
    decreases s.len(),
{
    broadcast use vstd::seq_lib::group_to_multiset_ensures;
    let r = insert_edge(s, x);
    if s.len() == 0 {
        assert(r.to_multiset() =~= s.to_multiset().insert(x));
    } else if edge_lt(x, s[0]) {
        assert forall|i: int, j: int| 0 <= i < j < r.len() implies !edge_lt(#[trigger] r[j], #[trigger] r[i]) by {
            if i == 0 {
                assert(r[j] == s[j - 1]);
                if j - 1 > 0 {
                    assert(!edge_lt(s[j - 1], s[0]));
                }
            } else {
                assert(r[i] == s[i - 1] && r[j] == s[j - 1]);
            }
        }
        vstd::seq_lib::lemma_multiset_commutative(seq![x], s);
        assert(r.to_multiset() =~= s.to_multiset().insert(x));
    } else {
        let rest = s.drop_first();
        assert forall|i: int, j: int| 0 <= i < j < rest.len() implies !edge_lt(#[trigger] rest[j], #[trigger] rest[i]) by {
            assert(rest[i] == s[i + 1] && rest[j] == s[j + 1]);
        }
        lemma_insert_edge(rest, x);
        let t = insert_edge(rest, x);
        assert forall|i: int, j: int| 0 <= i < j < r.len() implies !edge_lt(#[trigger] r[j], #[trigger] r[i]) by {
            if i == 0 {
                assert(r[j] == t[j - 1]);
                if t[j - 1] != x {
                    assert(t.to_multiset().count(t[j - 1]) > 0);
                    assert(rest.contains(t[j - 1]));
                    let k = choose|k: int| 0 <= k < rest.len() && rest[k] == t[j - 1];
                    assert(rest[k] == s[k + 1]);
                }
            } else {
                assert(r[i] == t[i - 1] && r[j] == t[j - 1]);
            }
        }
        assert(s =~= seq![s[0]] + rest);
        vstd::seq_lib::lemma_multiset_commutative(seq![s[0]], rest);
        vstd::seq_lib::lemma_multiset_commutative(seq![s[0]], t);
        assert(r.to_multiset() =~= s.to_multiset().insert(x));
    }
}

/// Sorting keeps every edge, each once, shortest first.
pub proof fn lemma_sort_edges(s: Seq<(usize, usize, int)>)
    ensures
        edges_sorted(sort_edges(s)),
        sort_edges(s).to_multiset() == s.to_multiset(),
    decreases s.len(),
{
    broadcast use vstd::seq_lib::group_to_multiset_ensures;
    if s.len() > 0 {
        lemma_sort_edges(s.drop_last());
        lemma_insert_edge(sort_edges(s.drop_last()), s.last());
        assert(s.drop_last().push(s.last()) =~= s);
    }
}

} // verus!

verus! {

/// The pads joined by the first `k` connections of `w`, growing from pad 0.
pub open spec fn joined(w: Seq<(usize, usize)>, k: int) -> Seq<usize> {
    seq![0usize] + w.take(k).map_values(|x: (usize, usize)| x.1)
}

/// `w` grows a tree over the pads from pad 0, each connection joining a pad of the tree
/// to a pad outside it that is nearest to the tree: no pad outside is closer (Manhattan)
/// to any pad inside than the pad joined.
pub open spec fn nearest_growth(pads: Seq<(i32, i32)>, w: Seq<(usize, usize)>) -> bool {
    forall|k: int|
        0 <= k < w.len() ==> {
            &&& joined(w, k).contains((#[trigger] w[k]).0)
            &&& w[k].1 < pads.len()
            &&& !joined(w, k).contains(w[k].1)
            &&& forall|a: usize, b: usize|
                joined(w, k).contains(a) && b < pads.len() && !joined(w, k).contains(b) ==> mdist(pads, w[k].0 as int, w[k].1 as int)
                    <= #[trigger] mdist(pads, a as int, b as int)
        }
}

/// The pair of pads of an edge.
pub open spec fn edge_pair(e: (usize, usize, int)) -> (usize, usize) {
    (e.0, e.1)
}

/// What `pick_from` returns is no larger than its bound nor than the distance of any pad
/// outside the tree from `j` on.
proof fn lemma_pick_min(st: PrimState, j: int, best: int, bd: int)
    requires
        0 <= j,
        st.md.len() == st.inn.len(),
    ensures
        pick_from(st, j, best, bd).1 <= bd,
        forall|v: int| j <= v < st.inn.len() && !st.inn[v] ==> pick_from(st, j, best, bd).1 <= #[trigger] st.md[v],
    decreases st.inn.len() - j,
{
    if j < st.inn.len() {
        if !st.inn[j] && st.md[j] < bd {
            lemma_pick_min(st, j + 1, j, st.md[j]);
        } else {
            lemma_pick_min(st, j + 1, best, bd);
        }
    }
}

/// Each pad outside the tree records a distance no larger than its distance to any pad
/// of the tree.
proof fn lemma_prim_md_min(pads: Seq<(i32, i32)>, k: nat)
    requires
        pads.len() >= 1,
        pads.len() <= usize::MAX,
        k <= pads.len() - 1,
    ensures
        forall|v: int, a: int|
            0 <= v < pads.len() && 0 <= a < pads.len() && !prim_run(pads, k).inn[v] && prim_run(pads, k).inn[a] ==> prim_run(
                pads,
                k,
            ).md[v] <= #[trigger] mdist(pads, a, v),
    decreases k,
{
    lemma_prim_step_inv(pads, k);
    if k == 0 {
        let st = prim_init(pads);
        assert forall|v: int, a: int|
            0 <= v < pads.len() && 0 <= a < pads.len() && !st.inn[v] && st.inn[a] implies st.md[v] <= #[trigger] mdist(pads, a, v) by {
            assert(a == 0);
        }
    } else {
        lemma_prim_md_min(pads, (k - 1) as nat);
        lemma_prim_step_inv(pads, (k - 1) as nat);
        let st = prim_run(pads, (k - 1) as nat);
        let nx = prim_run(pads, k);
        assert(nx == prim_step(pads, st));
        let p = pick_from(st, 0, 0, far_distance());
        if p.1 < far_distance() {
            let best = p.0;
            lemma_pick_from(st, 0, 0, far_distance());
            assert(0 <= best < pads.len());
            let inn2 = st.inn.update(best, true);
            assert(inn2.len() == pads.len());
            assert(nx.inn == inn2);
            assert forall|v: int, a: int|
                0 <= v < pads.len() && 0 <= a < pads.len() && !nx.inn[v] && nx.inn[a] implies nx.md[v] <= #[trigger] mdist(pads, a, v) by {
                assert(nx.md[v] == (if !inn2[v] && mdist(pads, best, v) < st.md[v] { mdist(pads, best, v) } else { st.md[v] }));
                if a != best {
                    assert(st.inn[a]);
                    assert(!st.inn[v]);
                }
            }
        } else {
            assert(nx == st);
        }
    }
}

/// The edges after `k` steps are the first `k` edges of any later state.
proof fn lemma_prim_prefix(pads: Seq<(i32, i32)>, k: nat, m: nat)
    requires
        pads.len() >= 1,
        pads.len() <= usize::MAX,
        k <= m <= pads.len() - 1,
    ensures
        prim_run(pads, m).edges.take(k as int) == prim_run(pads, k).edges,
    decreases m,
{
    lemma_prim_step_inv(pads, m);
    if m == k {
        assert(prim_run(pads, m).edges.take(k as int) =~= prim_run(pads, k).edges);
    } else {
        lemma_prim_prefix(pads, k, (m - 1) as nat);
        lemma_prim_step_inv(pads, (m - 1) as nat);
        let st = prim_run(pads, (m - 1) as nat);
        let nx = prim_run(pads, m);
        assert(nx == prim_step(pads, st));
        let p = pick_from(st, 0, 0, far_distance());
        assert(p.1 < far_distance());
        assert(nx.edges == st.edges.push((st.nearest[p.0], p.0 as usize, p.1)));
        assert(nx.edges.take(k as int) =~= st.edges.take(k as int));
    }
}

/// Prim's edges grow the tree by nearest pads.
proof fn lemma_prim_nearest_growth(pads: Seq<(i32, i32)>)
    requires
        pads.len() >= 1,
        pads.len() <= usize::MAX,
    ensures
        nearest_growth(pads, prim_run(pads, (pads.len() - 1) as nat).edges.map_values(|e: (usize, usize, int)| edge_pair(e))),
{
    let n = pads.len();
    let fin = prim_run(pads, (n - 1) as nat);
    let w = fin.edges.map_values(|e: (usize, usize, int)| edge_pair(e));
    lemma_prim_step_inv(pads, (n - 1) as nat);
    assert forall|k: int| 0 <= k < w.len() implies {
        &&& joined(w, k).contains((#[trigger] w[k]).0)
        &&& w[k].1 < pads.len()
        &&& !joined(w, k).contains(w[k].1)
        &&& forall|a: usize, b: usize|
            joined(w, k).contains(a) && b < pads.len() && !joined(w, k).contains(b) ==> mdist(pads, w[k].0 as int, w[k].1 as int)
                <= #[trigger] mdist(pads, a as int, b as int)
    } by {
        lemma_prim_step_inv(pads, k as nat);
        lemma_prim_step_inv(pads, (k + 1) as nat);
        lemma_prim_md_min(pads, k as nat);
        lemma_prim_prefix(pads, k as nat, (n - 1) as nat);
        lemma_prim_prefix(pads, (k + 1) as nat, (n - 1) as nat);
        let st = prim_run(pads, k as nat);
        let nx = prim_run(pads, (k + 1) as nat);
        assert(nx == prim_step(pads, st));
        let p = pick_from(st, 0, 0, far_distance());
        lemma_pick_from(st, 0, 0, far_distance());
        lemma_pick_min(st, 0, 0, far_distance());
        assert(p.1 < far_distance()) by {
            if p.1 >= far_distance() {
                assert(nx == st);
            }
        }
        let best = p.0;
        let e = (st.nearest[best], best as usize, p.1);
        assert(nx.edges == st.edges.push(e));
        assert(fin.edges[k] == nx.edges.take(k + 1)[k]);
        assert(fin.edges[k] == e);
        assert(w[k] == (st.nearest[best], best as usize));
        // The tree before step k.
        assert(fin.edges.take(k) == st.edges);
        assert(joined(w, k) =~= tree_pads(st.edges)) by {
            assert(w.take(k) =~= st.edges.map_values(|e: (usize, usize, int)| edge_pair(e)));
        }
        assert(!st.inn[best]);
        assert(st.inn[st.nearest[best] as int]);
        assert(tree_pads(st.edges).contains(st.nearest[best]));
        assert(!tree_pads(st.edges).contains(best as usize));
        assert forall|a: usize, b: usize|
            joined(w, k).contains(a) && b < pads.len() && !joined(w, k).contains(b) implies mdist(pads, w[k].0 as int, w[k].1 as int)
                <= #[trigger] mdist(pads, a as int, b as int) by {
            assert(tree_pads(st.edges).contains(a));
            assert(a < n) by {
                let q = choose|q: int| 0 <= q < tree_pads(st.edges).len() && tree_pads(st.edges)[q] == a;
            }
            assert(st.inn[a as int]);
            assert(!st.inn[b as int]);
            assert(st.md[b as int] <= mdist(pads, a as int, b as int));
            assert(p.1 <= st.md[b as int]);
        }
    }
}

/// When the Steiner star is not used, the connections of a net of three pads or more are
/// a tree grown from pad 0 by always joining a pad outside it nearest to it (Prim's
/// rule), so their total Manhattan length is that of a minimum spanning tree: the
/// returned pairs, in some order, are such a growth sequence.
pub proof fn lemma_mst_edges_nearest_growth(pads: Seq<(i32, i32)>)
    requires
        pads.len() > 2,
        pads.len() <= usize::MAX,
        !steiner_applies(pads),
    ensures
        exists|w: Seq<(usize, usize)>|
            #[trigger] nearest_growth(pads, w) && w.len() == pads.len() - 1 && w.len() == mst_edges_spec(pads).len()
                && forall|x: (usize, usize)| #[trigger] w.contains(x) <==> mst_edges_spec(pads).contains(x),
{
    broadcast use vstd::seq_lib::group_to_multiset_ensures;
    let n = pads.len();
    let edges = prim_run(pads, (n - 1) as nat).edges;
    lemma_prim_step_inv(pads, (n - 1) as nat);
    lemma_prim_nearest_growth(pads);
    let w = edges.map_values(|e: (usize, usize, int)| edge_pair(e));
    let sorted = sort_edges(edges);
    lemma_sort_edges(edges);
    let r = sorted.map_values(|e: (usize, usize, int)| (e.0, e.1));
    assert(mst_edges_spec(pads) == r);
    assert(sorted.len() == edges.len()) by {
        assert(sorted.to_multiset().len() == edges.to_multiset().len());
    }
    assert forall|x: (usize, usize)| #[trigger] w.contains(x) <==> r.contains(x) by {
        if w.contains(x) {
            let i = choose|i: int| 0 <= i < w.len() && w[i] == x;
            let t = edges[i];
            assert(edges.to_multiset().count(t) > 0);
            assert(sorted.to_multiset().count(t) > 0);
            assert(sorted.contains(t));
            let j = choose|j: int| 0 <= j < sorted.len() && sorted[j] == t;
            assert(r[j] == x);
        }
        if r.contains(x) {
            let j = choose|j: int| 0 <= j < r.len() && r[j] == x;
            let t = sorted[j];
            assert(sorted.to_multiset().count(t) > 0);
            assert(edges.to_multiset().count(t) > 0);
            assert(edges.contains(t));
            let i = choose|i: int| 0 <= i < edges.len() && edges[i] == t;
            assert(w[i] == x);
        }
    }
    assert(nearest_growth(pads, w));
}

} // verus!
