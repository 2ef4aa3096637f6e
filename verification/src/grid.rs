//! The routing grid: a lattice of nodes derived from a coarse base grid plus
//! per-rectangle feature coordinates, with connector nodes spliced into
//! lattice edges next to each rectangle's sides.

use crate::rect::ConRect;
use crate::search::COLLISION_MARGIN;
use vstd::prelude::*;

verus! {

use vstd::pervasive::VecAdditionalExecFns;
use vstd::arithmetic::div_mod::lemma_div_pos_is_pos;
use vstd::arithmetic::div_mod::lemma_fundamental_div_mod;
use vstd::arithmetic::div_mod::lemma_mod_bound;
use vstd::arithmetic::mul::lemma_mul_inequality;

/// Number of evenly spaced base ticks on each axis.
pub const GRID_TICKS: usize = 10;

/// Distance between two consecutive base ticks.
pub const GRID_SPACING: i64 = 100;

/// Bound on the coordinates of every grid node.  Base ticks, rectangle
/// centers and probe points all stay well within it whenever the rectangles
/// satisfy `ConRect::geom_ok`.
pub const MAX_NODE_COORD: i64 = 300_000_000;

/// True when `c` is a legal node coordinate.
pub open spec fn coord_ok(c: i64) -> bool {
    -MAX_NODE_COORD <= c <= MAX_NODE_COORD
}

/// A node of the routing grid: a position and the indices of its neighbors.
pub struct GridPoint {
    pub x: i64,
    pub y: i64,
    pub connect: Vec<usize>,
}

/// The mathematical model of a node: its coordinates and neighbor list.
#[verifier::ext_equal]
pub struct NodeModel {
    pub x: i64,
    pub y: i64,
    pub adj: Seq<usize>,
}

impl View for GridPoint {
    type V = NodeModel;

    open spec fn view(&self) -> NodeModel {
        NodeModel { x: self.x, y: self.y, adj: self.connect@ }
    }
}

impl GridPoint {
    pub fn new(x: i64, y: i64, connect: Vec<usize>) -> (r: GridPoint)
        ensures
            r.x == x,
            r.y == y,
            r.connect == connect,
    {
        GridPoint { x, y, connect }
    }
}

/// The model of a whole node list.
pub open spec fn nodes_view(ps: Seq<GridPoint>) -> Seq<NodeModel> {
    ps.map_values(|p: GridPoint| p@)
}

/// There is an edge from node `i` to node `j`: `i` is in range and lists `j`.
pub open spec fn edge(ns: Seq<NodeModel>, i: int, j: int) -> bool {
    &&& 0 <= i < ns.len()
    &&& exists|k: int| 0 <= k < ns[i].adj.len() && ns[i].adj[k] as int == j
}

/// Every adjacency entry is a distinct, in-range index of another node, and
/// every node's coordinates are in range.
pub open spec fn wf_nodes(ns: Seq<NodeModel>) -> bool {
    forall|i: int|
        0 <= i < ns.len() ==> {
            &&& coord_ok(#[trigger] ns[i].x)
            &&& coord_ok(ns[i].y)
            &&& forall|k: int|
                0 <= k < ns[i].adj.len() ==> {
                    &&& (#[trigger] ns[i].adj[k]) < ns.len()
                    &&& ns[i].adj[k] as int != i
                }
            &&& forall|k1: int, k2: int|
                0 <= k1 < k2 < ns[i].adj.len() ==> #[trigger] ns[i].adj[k1] != #[trigger] ns[i].adj[k2]
        }
}

/// Adjacency is symmetric: whenever `i` lists `j`, `j` lists `i`.
pub open spec fn symmetric(ns: Seq<NodeModel>) -> bool {
    forall|i: int, j: int| #[trigger] edge(ns, i, j) ==> edge(ns, j, i)
}

/// What well-formedness promises about one node.
pub proof fn lemma_wf_node_facts(ns: Seq<NodeModel>, i: int)
    requires
        wf_nodes(ns),
        0 <= i < ns.len(),
    ensures
        coord_ok(ns[i].x),
        coord_ok(ns[i].y),
        forall|k: int|
            0 <= k < ns[i].adj.len() ==> ((#[trigger] ns[i].adj[k]) as int) < ns.len()
                && ns[i].adj[k] as int != i,
        forall|k1: int, k2: int|
            0 <= k1 < k2 < ns[i].adj.len() ==> #[trigger] ns[i].adj[k1] != #[trigger] ns[i].adj[k2],
{
    assert(coord_ok(ns[i].x));
}

/// A sequence is strictly increasing (so in particular duplicate-free).
pub open spec fn strictly_increasing(s: Seq<i64>) -> bool {
    forall|i: int, j: int| 0 <= i < j < s.len() ==> s[i] < s[j]
}

/// Index of the first element of `s` that is strictly greater than `v`, or
/// `s.len()` when no element is.
pub open spec fn first_above(s: Seq<i64>, v: i64) -> int
    decreases s.len(),
{
    if s.len() == 0 {
        0
    } else if v < s[0] {
        0
    } else {
        1 + first_above(s.drop_first(), v)
    }
}

/// What inserting `v` into the sorted interval list `s` yields: unchanged
/// when `v` already occurs, otherwise `v` is spliced in before the first
/// larger element (at the end when no element is larger).
pub open spec fn insert_sorted(s: Seq<i64>, v: i64) -> Seq<i64> {
    let k = first_above(s, v);
    if 0 < k && s[k - 1] == v {
        s
    } else {
        s.take(k) + seq![v] + s.skip(k)
    }
}

pub proof fn lemma_first_above(s: Seq<i64>, v: i64)
    ensures
        0 <= first_above(s, v) <= s.len(),
        forall|j: int| 0 <= j < first_above(s, v) ==> s[j] <= v,
        first_above(s, v) < s.len() ==> v < s[first_above(s, v)],
    decreases s.len(),
{
    if s.len() == 0 || v < s[0] {
    } else {
        lemma_first_above(s.drop_first(), v);
        assert forall|j: int| 0 <= j < first_above(s, v) implies s[j] <= v by {
            if 0 < j {
                assert(s.drop_first()[j - 1] == s[j]);
            }
        }
        if first_above(s, v) < s.len() {
            assert(s.drop_first()[first_above(s, v) - 1] == s[first_above(s, v)]);
        }
    }
}

/// `first_above` is pinned by its characteristic properties.
pub proof fn lemma_first_above_is(s: Seq<i64>, v: i64, k: int)
    requires
        0 <= k <= s.len(),
        forall|j: int| 0 <= j < k ==> s[j] <= v,
        k < s.len() ==> v < s[k],
    ensures
        first_above(s, v) == k,
{
    lemma_first_above(s, v);
    let f = first_above(s, v);
    if f < k {
        assert(s[f] <= v);
    }
    if k < f {
        assert(s[k] <= v);
    }
}

/// Inserting into a strictly increasing list keeps it strictly increasing,
/// adds nothing but `v`, and keeps every old element.
pub proof fn lemma_insert_sorted_props(s: Seq<i64>, v: i64)
    requires
        strictly_increasing(s),
    ensures
        strictly_increasing(insert_sorted(s, v)),
        forall|i: int|
            0 <= i < insert_sorted(s, v).len() ==> s.contains(#[trigger] insert_sorted(s, v)[i])
                || insert_sorted(s, v)[i] == v,
        s.len() <= insert_sorted(s, v).len() <= s.len() + 1,
{
    lemma_first_above(s, v);
    let k = first_above(s, v);
    let r = insert_sorted(s, v);
    if 0 < k && s[k - 1] == v {
    } else {
        assert(forall|j: int| 0 <= j < k ==> s[j] <= v);
        assert forall|j: int| 0 <= j < k implies s[j] < v by {
            if 0 < k {
                if j < k - 1 {
                    assert(s[j] < s[k - 1]);
                }
                assert(s[k - 1] != v);
            }
        }
        assert(r.len() == s.len() + 1);
        assert forall|i: int| 0 <= i < r.len() implies s.contains(#[trigger] r[i]) || r[i] == v by {
            if i < k {
                assert(r[i] == s[i]);
                assert(s.contains(s[i]));
            } else if i == k {
                assert(r[i] == v);
            } else {
                assert(r[i] == s[i - 1]);
                assert(s.contains(s[i - 1]));
            }
        }
        assert forall|i: int, j: int| 0 <= i < j < r.len() implies r[i] < r[j] by {
            let a = if i < k {
                s[i]
            } else if i == k {
                v
            } else {
                s[i - 1]
            };
            let b = if j < k {
                s[j]
            } else if j == k {
                v
            } else {
                s[j - 1]
            };
            assert(r[i] == a);
            assert(r[j] == b);
        }
    }
}

/// Insert `pos` into the sorted interval list at its sorted position, unless
/// an equal interval already exists.
pub fn insert_interval(intervals: &mut Vec<i64>, pos: i64)
    ensures
        final(intervals)@ == insert_sorted(old(intervals)@, pos),
{
    let ghost s = intervals@;
    let mut k: usize = 0;
    while k < intervals.len() && intervals[k] <= pos
        invariant
            intervals@ == s,
            k <= s.len(),
            forall|j: int| 0 <= j < k ==> s[j] <= pos,
        decreases s.len() - k,
    {
        k = k + 1;
    }
    proof {
        lemma_first_above_is(s, pos, k as int);
    }
    if 0 < k && intervals[k - 1] == pos {
        return ;
    }
    intervals.insert(k, pos);
    proof {
        assert(intervals@ =~= s.take(k as int) + seq![pos] + s.skip(k as int));
    }
}

/// Most rectangles one grid build accepts; keeps every node-index computation
/// comfortably inside `usize`.
pub const MAX_RECTS: usize = 1000;

/// The evenly spaced base ticks of each axis.
pub open spec fn base_intervals() -> Seq<i64> {
    Seq::new(GRID_TICKS as nat, |i: int| (i * (GRID_SPACING as int)) as i64)
}

/// The feature coordinate rectangle `r` contributes to an axis: the center of
/// its horizontal span, or of its vertical span for the y axis.
pub open spec fn center_i64(r: ConRect, y_axis: bool) -> i64 {
    if y_axis {
        r.center_y() as i64
    } else {
        r.center_x() as i64
    }
}

/// The interval list of one axis after the first `n` rectangles contributed
/// their center coordinate.
pub open spec fn intervals_after(rects: Seq<ConRect>, n: int, y_axis: bool) -> Seq<i64>
    decreases n,
{
    if n <= 0 {
        base_intervals()
    } else {
        insert_sorted(intervals_after(rects, n - 1, y_axis), center_i64(rects[n - 1], y_axis))
    }
}

/// The interval lists stay sorted, in range, and no longer than the base list
/// plus one entry per rectangle.
pub proof fn lemma_intervals_after_props(rects: Seq<ConRect>, n: int, y_axis: bool)
    requires
        0 <= n <= rects.len(),
        forall|i: int| 0 <= i < rects.len() ==> (#[trigger] rects[i]).geom_ok(),
    ensures
        strictly_increasing(intervals_after(rects, n, y_axis)),
        forall|i: int|
            0 <= i < intervals_after(rects, n, y_axis).len() ==> coord_ok(
                #[trigger] intervals_after(rects, n, y_axis)[i],
            ),
        GRID_TICKS <= intervals_after(rects, n, y_axis).len() <= GRID_TICKS + n,
    decreases n,
{
    if n <= 0 {
        assert forall|i: int, j: int|
            0 <= i < j < base_intervals().len() implies base_intervals()[i]
            < base_intervals()[j] by {
            assert(base_intervals()[i] == (i * (GRID_SPACING as int)) as i64);
            assert(base_intervals()[j] == (j * (GRID_SPACING as int)) as i64);
        }
        assert forall|i: int| 0 <= i < base_intervals().len() implies coord_ok(
            #[trigger] base_intervals()[i],
        ) by {
            assert(base_intervals()[i] == (i * (GRID_SPACING as int)) as i64);
        }
    } else {
        lemma_intervals_after_props(rects, n - 1, y_axis);
        let s = intervals_after(rects, n - 1, y_axis);
        let v = center_i64(rects[n - 1], y_axis);
        assert(rects[n - 1].geom_ok());
        assert(coord_ok(v));
        lemma_insert_sorted_props(s, v);
        let r = intervals_after(rects, n, y_axis);
        assert forall|i: int| 0 <= i < r.len() implies coord_ok(#[trigger] r[i]) by {
            if s.contains(r[i]) {
                let j = choose|j: int| 0 <= j < s.len() && s[j] == r[i];
                assert(coord_ok(s[j]));
            }
        }
    }
}

/// Row-major index of lattice node (ix, iy) when each row holds `nx` nodes.
pub open spec fn lattice_idx(nx: int, ix: int, iy: int) -> int {
    iy * nx + ix
}

/// Adjacency list of lattice node (ix, iy) in an `nx` by `ny` mesh: the left,
/// right, up and down neighbors, in that order, where they exist.
pub open spec fn lattice_adj(nx: int, ny: int, ix: int, iy: int) -> Seq<usize> {
    let left: Seq<usize> = if 0 < ix {
        seq![lattice_idx(nx, ix - 1, iy) as usize]
    } else {
        seq![]
    };
    let right: Seq<usize> = if ix < nx - 1 {
        seq![lattice_idx(nx, ix + 1, iy) as usize]
    } else {
        seq![]
    };
    let up: Seq<usize> = if 0 < iy {
        seq![lattice_idx(nx, ix, iy - 1) as usize]
    } else {
        seq![]
    };
    let down: Seq<usize> = if iy < ny - 1 {
        seq![lattice_idx(nx, ix, iy + 1) as usize]
    } else {
        seq![]
    };
    left + right + up + down
}

/// Node (ix, iy) of `ns` is exactly the lattice node the interval lists
/// prescribe.
pub open spec fn lattice_node_at(
    ns: Seq<NodeModel>,
    xs: Seq<i64>,
    ys: Seq<i64>,
    ix: int,
    iy: int,
) -> bool {
    let p = ns[lattice_idx(xs.len() as int, ix, iy)];
    &&& p.x == xs[ix]
    &&& p.y == ys[iy]
    &&& p.adj == lattice_adj(xs.len() as int, ys.len() as int, ix, iy)
}

/// `ns` is the bare lattice over `xs` and `ys`, in row-major order.
pub open spec fn lattice_nodes_ok(ns: Seq<NodeModel>, xs: Seq<i64>, ys: Seq<i64>) -> bool {
    &&& ns.len() == xs.len() * ys.len()
    &&& forall|ix: int, iy: int|
        0 <= ix < xs.len() && 0 <= iy < ys.len() ==> #[trigger] lattice_node_at(ns, xs, ys, ix, iy)
}

/// A lattice index lies inside the mesh.
pub proof fn lemma_lattice_idx_bounds(nx: int, ny: int, ix: int, iy: int)
    requires
        0 <= ix < nx,
        0 <= iy < ny,
    ensures
        0 <= lattice_idx(nx, ix, iy) < nx * ny,
{
    lemma_mul_inequality(iy, ny - 1, nx);
    assert((ny - 1) * nx == ny * nx - nx) by (nonlinear_arith);
    assert(ny * nx == nx * ny) by (nonlinear_arith);
    assert(iy * nx >= 0) by (nonlinear_arith)
        requires
            iy >= 0,
            nx > 0,
    ;
}

/// Every node index of the mesh decomposes into lattice coordinates.
pub proof fn lemma_lattice_idx_decompose(nx: int, ny: int, i: int) -> (r: (int, int))
    requires
        0 < nx,
        0 < ny,
        0 <= i < nx * ny,
    ensures
        0 <= r.0 < nx,
        0 <= r.1 < ny,
        i == lattice_idx(nx, r.0, r.1),
{
    let ix = i % nx;
    let iy = i / nx;
    lemma_fundamental_div_mod(i, nx);
    lemma_mod_bound(i, nx);
    lemma_div_pos_is_pos(i, nx);
    assert(iy < ny) by {
        if iy >= ny {
            lemma_mul_inequality(ny, iy, nx);
            assert(iy * nx == nx * iy) by (nonlinear_arith);
            assert(ny * nx == nx * ny) by (nonlinear_arith);
        }
    }
    (ix, iy)
}

/// Shape of a lattice adjacency list: at most four pairwise distinct entries,
/// each an in-range index of an orthogonal neighbor, and one entry for each
/// neighbor that exists.
pub proof fn lemma_lattice_adj_props(nx: int, ny: int, ix: int, iy: int)
    requires
        0 <= ix < nx,
        0 <= iy < ny,
        nx * ny <= usize::MAX,
    ensures
        ({
            let la = lattice_adj(nx, ny, ix, iy);
            &&& la.len() <= 4
            &&& forall|k: int|
                0 <= k < la.len() ==> 0 <= (#[trigger] la[k]) < nx * ny && la[k] as int
                    != lattice_idx(nx, ix, iy)
            &&& forall|k1: int, k2: int|
                0 <= k1 < k2 < la.len() ==> #[trigger] la[k1] != #[trigger] la[k2]
            &&& forall|k: int|
                0 <= k < la.len() ==> ((#[trigger] la[k]) as int == lattice_idx(nx, ix - 1, iy)
                    && 0 < ix) || (la[k] as int == lattice_idx(nx, ix + 1, iy) && ix < nx - 1) || (
                la[k] as int == lattice_idx(nx, ix, iy - 1) && 0 < iy) || (la[k] as int
                    == lattice_idx(nx, ix, iy + 1) && iy < ny - 1)
            &&& 0 < ix ==> la.contains(lattice_idx(nx, ix - 1, iy) as usize)
            &&& ix < nx - 1 ==> la.contains(lattice_idx(nx, ix + 1, iy) as usize)
            &&& 0 < iy ==> la.contains(lattice_idx(nx, ix, iy - 1) as usize)
            &&& iy < ny - 1 ==> la.contains(lattice_idx(nx, ix, iy + 1) as usize)
        }),
{
    let la = lattice_adj(nx, ny, ix, iy);
    let i = lattice_idx(nx, ix, iy);
    lemma_lattice_idx_bounds(nx, ny, ix, iy);
    if 0 < ix {
        lemma_lattice_idx_bounds(nx, ny, ix - 1, iy);
        assert(lattice_idx(nx, ix - 1, iy) == i - 1);
    }
    if ix < nx - 1 {
        lemma_lattice_idx_bounds(nx, ny, ix + 1, iy);
        assert(lattice_idx(nx, ix + 1, iy) == i + 1);
    }
    if 0 < iy {
        lemma_lattice_idx_bounds(nx, ny, ix, iy - 1);
        assert(lattice_idx(nx, ix, iy - 1) == i - nx) by {
            assert((iy - 1) * nx == iy * nx - nx) by (nonlinear_arith);
        }
    }
    if iy < ny - 1 {
        lemma_lattice_idx_bounds(nx, ny, ix, iy + 1);
        assert(lattice_idx(nx, ix, iy + 1) == i + nx) by {
            assert((iy + 1) * nx == iy * nx + nx) by (nonlinear_arith);
        }
    }
    let left: Seq<usize> = if 0 < ix {
        seq![lattice_idx(nx, ix - 1, iy) as usize]
    } else {
        seq![]
    };
    let right: Seq<usize> = if ix < nx - 1 {
        seq![lattice_idx(nx, ix + 1, iy) as usize]
    } else {
        seq![]
    };
    let up: Seq<usize> = if 0 < iy {
        seq![lattice_idx(nx, ix, iy - 1) as usize]
    } else {
        seq![]
    };
    let down: Seq<usize> = if iy < ny - 1 {
        seq![lattice_idx(nx, ix, iy + 1) as usize]
    } else {
        seq![]
    };
    assert(la == left + right + up + down);
    if 0 < ix {
        assert(la[0] == lattice_idx(nx, ix - 1, iy) as usize);
    }
    if ix < nx - 1 {
        let p = left.len() as int;
        assert(la[p] == lattice_idx(nx, ix + 1, iy) as usize);
    }
    if 0 < iy {
        let p = (left.len() + right.len()) as int;
        assert(la[p] == lattice_idx(nx, ix, iy - 1) as usize);
    }
    if iy < ny - 1 {
        let p = (left.len() + right.len() + up.len()) as int;
        assert(la[p] == lattice_idx(nx, ix, iy + 1) as usize);
    }
}

/// The bare lattice over sorted, in-range interval lists is a well-formed,
/// symmetric graph.
#[verifier::rlimit(50)]
pub proof fn lemma_lattice_wf(ns: Seq<NodeModel>, xs: Seq<i64>, ys: Seq<i64>)
    requires
        lattice_nodes_ok(ns, xs, ys),
        0 < xs.len(),
        0 < ys.len(),
        ns.len() <= usize::MAX,
        strictly_increasing(xs),
        strictly_increasing(ys),
        forall|i: int| 0 <= i < xs.len() ==> coord_ok(#[trigger] xs[i]),
        forall|i: int| 0 <= i < ys.len() ==> coord_ok(#[trigger] ys[i]),
    ensures
        wf_nodes(ns),
        symmetric(ns),
        distinct_positions(ns),
{
    let nx = xs.len() as int;
    let ny = ys.len() as int;
    assert forall|i: int, j: int|
        0 <= i < j < ns.len() implies !((#[trigger] ns[i]).x == (#[trigger] ns[j]).x && ns[i].y
        == ns[j].y) by {
        let (ix, iy) = lemma_lattice_idx_decompose(nx, ny, i);
        let (jx, jy) = lemma_lattice_idx_decompose(nx, ny, j);
        assert(lattice_node_at(ns, xs, ys, ix, iy));
        assert(lattice_node_at(ns, xs, ys, jx, jy));
        if ix != jx {
            if ix < jx {
                assert(xs[ix] < xs[jx]);
            } else {
                assert(xs[jx] < xs[ix]);
            }
        } else {
            assert(iy != jy);
            if iy < jy {
                assert(ys[iy] < ys[jy]);
            } else {
                assert(ys[jy] < ys[iy]);
            }
        }
    }
    assert forall|i: int| 0 <= i < ns.len() implies coord_ok(#[trigger] ns[i].x) && coord_ok(
        ns[i].y,
    ) by {
        let (ix, iy) = lemma_lattice_idx_decompose(nx, ny, i);
        assert(lattice_node_at(ns, xs, ys, ix, iy));
    }
    assert forall|i: int, k: int|
        0 <= i < ns.len() && 0 <= k < ns[i].adj.len() implies ((#[trigger] ns[i].adj[k]) as int)
        < ns.len() && ns[i].adj[k] as int != i by {
        let (ix, iy) = lemma_lattice_idx_decompose(nx, ny, i);
        assert(lattice_node_at(ns, xs, ys, ix, iy));
        lemma_lattice_adj_props(nx, ny, ix, iy);
    }
    assert forall|i: int, k1: int, k2: int|
        0 <= i < ns.len() && 0 <= k1 < k2 < ns[i].adj.len() implies #[trigger] ns[i].adj[k1]
        != #[trigger] ns[i].adj[k2] by {
        let (ix, iy) = lemma_lattice_idx_decompose(nx, ny, i);
        assert(lattice_node_at(ns, xs, ys, ix, iy));
        lemma_lattice_adj_props(nx, ny, ix, iy);
    }
    assert(wf_nodes(ns));
    assert forall|i: int, j: int| #[trigger] edge(ns, i, j) implies edge(ns, j, i) by {
        let (ix, iy) = lemma_lattice_idx_decompose(nx, ny, i);
        assert(lattice_node_at(ns, xs, ys, ix, iy));
        lemma_lattice_adj_props(nx, ny, ix, iy);
        let k = choose|k: int| 0 <= k < ns[i].adj.len() && ns[i].adj[k] as int == j;
        let la = lattice_adj(nx, ny, ix, iy);
        assert(la[k] as int == j);
        let (jx, jy): (int, int) = if j == lattice_idx(nx, ix - 1, iy) && 0 < ix {
            (ix - 1, iy)
        } else if j == lattice_idx(nx, ix + 1, iy) && ix < nx - 1 {
            (ix + 1, iy)
        } else if j == lattice_idx(nx, ix, iy - 1) && 0 < iy {
            (ix, iy - 1)
        } else {
            (ix, iy + 1)
        };
        assert(0 <= jx < nx && 0 <= jy < ny && j == lattice_idx(nx, jx, jy));
        lemma_lattice_idx_bounds(nx, ny, jx, jy);
        assert(lattice_node_at(ns, xs, ys, jx, jy));
        lemma_lattice_adj_props(nx, ny, jx, jy);
        let lb = lattice_adj(nx, ny, jx, jy);
        assert(lb.contains(i as usize)) by {
            if jx == ix - 1 && jy == iy {
                assert(lattice_idx(nx, jx + 1, jy) == i);
            } else if jx == ix + 1 && jy == iy {
                assert(lattice_idx(nx, jx - 1, jy) == i);
            } else if jx == ix && jy == iy - 1 {
                assert(lattice_idx(nx, jx, jy + 1) == i) by {
                    assert((jy + 1) * nx == jy * nx + nx) by (nonlinear_arith);
                }
            } else {
                assert(lattice_idx(nx, jx, jy - 1) == i) by {
                    assert((jy - 1) * nx == jy * nx - nx) by (nonlinear_arith);
                }
            }
        }
        let kk = choose|kk: int| 0 <= kk < lb.len() && lb[kk] == i as usize;
        assert(ns[j].adj[kk] as int == i);
    }
}

/// The base tick list of one axis.
fn base_ticks() -> (r: Vec<i64>)
    ensures
        r@ == base_intervals(),
{
    let mut v: Vec<i64> = Vec::new();
    let mut i: usize = 0;
    while i < GRID_TICKS
        invariant
            i <= GRID_TICKS,
            v@.len() == i,
            forall|j: int| 0 <= j < i ==> (#[trigger] v@[j]) as int == j * (GRID_SPACING as int),
        decreases GRID_TICKS - i,
    {
        v.push((i as i64) * GRID_SPACING);
        i = i + 1;
    }
    proof {
        assert forall|j: int| 0 <= j < v@.len() implies v@[j] == #[trigger] base_intervals()[j] by {
            assert(base_intervals()[j] == (j * (GRID_SPACING as int)) as i64);
        }
        assert(v@ =~= base_intervals());
    }
    v
}

/// Materialize the bare lattice over the interval lists: the cross product of
/// the two lists in row-major order, each node linked to its orthogonal
/// neighbors.
fn build_lattice(xs: &Vec<i64>, ys: &Vec<i64>) -> (points: Vec<GridPoint>)
    requires
        0 < xs@.len() <= GRID_TICKS + MAX_RECTS,
        0 < ys@.len() <= GRID_TICKS + MAX_RECTS,
    ensures
        lattice_nodes_ok(nodes_view(points@), xs@, ys@),
        points@.len() == xs@.len() * ys@.len(),
{
    let nx = xs.len();
    let ny = ys.len();
    let mut points: Vec<GridPoint> = Vec::new();
    let mut iy: usize = 0;
    while iy < ny
        invariant
            nx == xs@.len(),
            ny == ys@.len(),
            0 < nx <= GRID_TICKS + MAX_RECTS,
            0 < ny <= GRID_TICKS + MAX_RECTS,
            iy <= ny,
            points@.len() == iy * nx,
            forall|jx: int, jy: int|
                0 <= jx < nx && 0 <= jy < iy ==> #[trigger] lattice_node_at(
                    nodes_view(points@),
                    xs@,
                    ys@,
                    jx,
                    jy,
                ),
        decreases ny - iy,
    {
        let mut ix: usize = 0;
        while ix < nx
            invariant
                nx == xs@.len(),
                ny == ys@.len(),
                0 < nx <= GRID_TICKS + MAX_RECTS,
                0 < ny <= GRID_TICKS + MAX_RECTS,
                iy < ny,
                ix <= nx,
                points@.len() == iy * nx + ix,
                forall|jx: int, jy: int|
                    0 <= jx < nx && 0 <= jy < iy ==> #[trigger] lattice_node_at(
                        nodes_view(points@),
                        xs@,
                        ys@,
                        jx,
                        jy,
                    ),
                forall|jx: int|
                    0 <= jx < ix ==> #[trigger] lattice_node_at(
                        nodes_view(points@),
                        xs@,
                        ys@,
                        jx,
                        iy as int,
                    ),
            decreases nx - ix,
        {
            proof {
                assert((iy as int) * (nx as int) + nx <= 1010 * 1010) by (nonlinear_arith)
                    requires
                        0 <= (iy as int),
                        (iy as int) < (ny as int),
                        0 < (nx as int),
                        (nx as int) <= 1010,
                        (ny as int) <= 1010,
                ;
            }
            let base = iy * nx;
            let mut connect: Vec<usize> = Vec::new();
            if 0 < ix {
                connect.push(base + ix - 1);
            }
            if ix + 1 < nx {
                connect.push(base + ix + 1);
            }
            if 0 < iy {
                proof {
                    assert((nx as int) <= (iy as int) * (nx as int)) by (nonlinear_arith)
                        requires
                            1 <= (iy as int),
                            0 < (nx as int),
                    ;
                }
                connect.push(base - nx + ix);
            }
            if iy + 1 < ny {
                connect.push(base + nx + ix);
            }
            proof {
                assert((iy as int - 1) * (nx as int) == (iy as int) * (nx as int) - nx as int)
                    by (nonlinear_arith);
                assert((iy as int + 1) * (nx as int) == (iy as int) * (nx as int) + nx as int)
                    by (nonlinear_arith);
                assert(connect@ =~= lattice_adj(nx as int, ny as int, ix as int, iy as int));
            }
            let ghost old_points = points@;
            points.push(GridPoint { x: xs[ix], y: ys[iy], connect });
            proof {
                assert forall|j: int| 0 <= j < old_points.len() implies nodes_view(points@)[j]
                    == nodes_view(old_points)[j] by {
                    assert(points@[j] == old_points[j]);
                }
                assert(nodes_view(points@)[old_points.len() as int].adj == lattice_adj(
                    nx as int,
                    ny as int,
                    ix as int,
                    iy as int,
                ));
                assert forall|jx: int, jy: int|
                    0 <= jx < nx && 0 <= jy < iy implies #[trigger] lattice_node_at(
                    nodes_view(points@),
                    xs@,
                    ys@,
                    jx,
                    jy,
                ) by {
                    assert(lattice_node_at(nodes_view(old_points), xs@, ys@, jx, jy));
                    assert(lattice_idx(nx as int, jx, jy) < old_points.len()) by {
                        assert((jy + 1) * (nx as int) <= (iy as int) * (nx as int))
                            by (nonlinear_arith)
                            requires
                                jy + 1 <= (iy as int),
                                0 < (nx as int),
                        ;
                        assert((jy + 1) * (nx as int) == jy * (nx as int) + nx as int)
                            by (nonlinear_arith);
                    }
                }
                assert forall|jx: int|
                    0 <= jx < ix + 1 implies #[trigger] lattice_node_at(
                    nodes_view(points@),
                    xs@,
                    ys@,
                    jx,
                    iy as int,
                ) by {
                    if jx < ix {
                        assert(lattice_node_at(nodes_view(old_points), xs@, ys@, jx, iy as int));
                        assert(lattice_idx(nx as int, jx, iy as int) < old_points.len());
                    } else {
                        assert(lattice_idx(nx as int, jx, iy as int) == old_points.len());
                    }
                }
            }
            ix = ix + 1;
        }
        iy = iy + 1;
        proof {
            assert((iy as int) * (nx as int) == (iy as int - 1) * (nx as int) + nx as int)
                by (nonlinear_arith);
        }
    }
    proof {
        assert((ny as int) * (nx as int) == (nx as int) * (ny as int)) by (nonlinear_arith);
    }
    points
}

/// Coordinate of a node along the scan axis of a probe.
pub open spec fn scan_coord(p: NodeModel, scan_y: bool) -> i64 {
    if scan_y {
        p.y
    } else {
        p.x
    }
}

/// Coordinate of a node along the fixed axis of a probe.
pub open spec fn fixed_coord(p: NodeModel, scan_y: bool) -> i64 {
    if scan_y {
        p.x
    } else {
        p.y
    }
}

/// Scan-axis coordinate of the probe point itself.
pub open spec fn probe_scan(px: i64, py: i64, scan_y: bool) -> i64 {
    if scan_y {
        py
    } else {
        px
    }
}

/// Fixed-axis coordinate of the probe point itself.
pub open spec fn probe_fixed(px: i64, py: i64, scan_y: bool) -> i64 {
    if scan_y {
        px
    } else {
        py
    }
}

/// Within one unit: the slack the edge scan allows on the fixed axis.
pub open spec fn close_fixed(a: i64, b: i64) -> bool {
    -1 <= a - b <= 1
}

/// The probe point lies on the edge from node `i` to its `k`-th neighbor:
/// both endpoints within the fixed-axis slack, the probe strictly between
/// them along the scan axis.
pub open spec fn probe_hits(
    ns: Seq<NodeModel>,
    i: int,
    k: int,
    px: i64,
    py: i64,
    scan_y: bool,
) -> bool {
    &&& 0 <= i < ns.len()
    &&& 0 <= k < ns[i].adj.len()
    &&& (ns[i].adj[k] as int) < ns.len()
    &&& ({
        let j = ns[i].adj[k] as int;
        let si = scan_coord(ns[i], scan_y);
        let sj = scan_coord(ns[j], scan_y);
        let sp = probe_scan(px, py, scan_y);
        &&& close_fixed(probe_fixed(px, py, scan_y), fixed_coord(ns[i], scan_y))
        &&& close_fixed(probe_fixed(px, py, scan_y), fixed_coord(ns[j], scan_y))
        &&& if sj < si {
            sj < sp < si
        } else {
            si < sp < sj
        }
    })
}

/// Some edge strictly before (node `i`, entry `k`) in scan order is hit.
pub open spec fn hit_before(
    ns: Seq<NodeModel>,
    i: int,
    k: int,
    px: i64,
    py: i64,
    scan_y: bool,
) -> bool {
    exists|i2: int, k2: int|
        (i2 < i || (i2 == i && k2 < k)) && probe_hits(ns, i2, k2, px, py, scan_y)
}

/// Some edge is hit by the probe.
pub open spec fn any_hit(ns: Seq<NodeModel>, px: i64, py: i64, scan_y: bool) -> bool {
    exists|i: int, k: int| probe_hits(ns, i, k, px, py, scan_y)
}

/// Some node already sits exactly at the probe position.
pub open spec fn node_at(ns: Seq<NodeModel>, px: i64, py: i64) -> bool {
    exists|i: int| 0 <= i < ns.len() && (#[trigger] ns[i]).x == px && ns[i].y == py
}

/// No two nodes share a position.
pub open spec fn distinct_positions(ns: Seq<NodeModel>) -> bool {
    forall|i: int, j: int|
        0 <= i < j < ns.len() ==> !((#[trigger] ns[i]).x == (#[trigger] ns[j]).x && ns[i].y
            == ns[j].y)
}

/// The node list after splitting the edge between `a` and `b` at the probe
/// position: entry `ka` of `a` and entry `kb` of `b` are redirected to the
/// new node, which sits at the probe position and links back to exactly `a`
/// and `b`.
pub open spec fn split_nodes(
    ns: Seq<NodeModel>,
    a: int,
    ka: int,
    b: int,
    kb: int,
    px: i64,
    py: i64,
) -> Seq<NodeModel> {
    let n = ns.len() as usize;
    let na = NodeModel { x: ns[a].x, y: ns[a].y, adj: ns[a].adj.update(ka, n) };
    let nb = NodeModel { x: ns[b].x, y: ns[b].y, adj: ns[b].adj.update(kb, n) };
    let nn = NodeModel { x: px, y: py, adj: seq![a as usize, b as usize] };
    ns.update(a, na).update(b, nb).push(nn)
}

/// The split that the probe at (px, py) performs, spelled out: (a, ka) is
/// the first hit edge entry in scan order, (b, kb) its mirror, and `ns2` the
/// node list after the split.
pub open spec fn split_witness(
    ns: Seq<NodeModel>,
    px: i64,
    py: i64,
    scan_y: bool,
    ns2: Seq<NodeModel>,
    a: int,
    ka: int,
    b: int,
    kb: int,
) -> bool {
    &&& probe_hits(ns, a, ka, px, py, scan_y)
    &&& !hit_before(ns, a, ka, px, py, scan_y)
    &&& ns[a].adj[ka] as int == b
    &&& 0 <= kb < ns[b].adj.len()
    &&& ns[b].adj[kb] as int == a
    &&& ns2 == split_nodes(ns, a, ka, b, kb, px, py)
}

/// How one probe rewrites the node list: a probe that coincides with an
/// existing node is skipped (so a degenerate probe never duplicates a
/// position); otherwise the first hit edge in scan order is split, and
/// nothing changes when no edge is hit.
pub open spec fn split_rel(
    ns: Seq<NodeModel>,
    px: i64,
    py: i64,
    scan_y: bool,
    ns2: Seq<NodeModel>,
    r: Option<usize>,
) -> bool {
    if node_at(ns, px, py) {
        ns2 == ns && r is None
    } else if any_hit(ns, px, py, scan_y) {
        &&& r == Some(ns.len() as usize)
        &&& exists|a: int, ka: int, b: int, kb: int|
            #![trigger split_witness(ns, px, py, scan_y, ns2, a, ka, b, kb)]
            split_witness(ns, px, py, scan_y, ns2, a, ka, b, kb)
    } else {
        ns2 == ns && r is None
    }
}

/// Splitting a mutually listed edge of a well-formed symmetric graph keeps
/// the graph well-formed and symmetric.
pub proof fn lemma_split_preserves_wf(
    ns: Seq<NodeModel>,
    a: int,
    ka: int,
    b: int,
    kb: int,
    px: i64,
    py: i64,
)
    requires
        wf_nodes(ns),
        symmetric(ns),
        0 <= a < ns.len(),
        0 <= ka < ns[a].adj.len(),
        ns[a].adj[ka] as int == b,
        0 <= kb < ns[b].adj.len(),
        ns[b].adj[kb] as int == a,
        coord_ok(px),
        coord_ok(py),
        ns.len() < usize::MAX,
    ensures
        wf_nodes(split_nodes(ns, a, ka, b, kb, px, py)),
        symmetric(split_nodes(ns, a, ka, b, kb, px, py)),
{
    let n = ns.len() as int;
    let ns2 = split_nodes(ns, a, ka, b, kb, px, py);
    assert(0 <= b < n && b != a);
    assert(ns2.len() == n + 1);
    assert(ns2[a].adj == ns[a].adj.update(ka, n as usize));
    assert(ns2[b].adj == ns[b].adj.update(kb, n as usize));
    assert(ns2[n].adj == seq![a as usize, b as usize]);
    assert forall|i: int| 0 <= i < ns2.len() implies coord_ok(#[trigger] ns2[i].x) && coord_ok(
        ns2[i].y,
    ) by {
        if i < n {
            assert(ns2[i].x == ns[i].x && ns2[i].y == ns[i].y);
            assert(coord_ok(ns[i].x));
        }
    }
    assert forall|i: int, k: int|
        0 <= i < ns2.len() && 0 <= k < ns2[i].adj.len() implies ((#[trigger] ns2[i].adj[k]) as int)
        < ns2.len() && ns2[i].adj[k] as int != i by {
        if i == n {
            assert(ns2[i].adj[0] == a as usize);
            assert(ns2[i].adj[1] == b as usize);
        } else if i == a || i == b {
            lemma_wf_node_facts(ns, i);
            let old_adj = ns[i].adj;
            let kx = if i == a {
                ka
            } else {
                kb
            };
            assert(ns2[i].adj == old_adj.update(kx, n as usize));
            if k != kx {
                assert(ns2[i].adj[k] == old_adj[k]);
                assert((old_adj[k] as int) < ns.len() && old_adj[k] as int != i);
            }
        } else {
            lemma_wf_node_facts(ns, i);
            assert(ns2[i] == ns[i]);
            assert((ns[i].adj[k] as int) < ns.len() && ns[i].adj[k] as int != i);
        }
    }
    assert forall|i: int, k1: int, k2: int|
        0 <= i < ns2.len() && 0 <= k1 < k2 < ns2[i].adj.len() implies #[trigger] ns2[i].adj[k1]
        != #[trigger] ns2[i].adj[k2] by {
        if i == n {
            assert(ns2[i].adj[0] == a as usize);
            assert(ns2[i].adj[1] == b as usize);
        } else if i == a || i == b {
            lemma_wf_node_facts(ns, i);
            let old_adj = ns[i].adj;
            let kx = if i == a {
                ka
            } else {
                kb
            };
            assert(ns2[i].adj == old_adj.update(kx, n as usize));
            if k1 != kx && k2 != kx {
                assert(old_adj[k1] != old_adj[k2]);
            } else if k1 == kx {
                assert(ns2[i].adj[k2] == old_adj[k2]);
                assert((old_adj[k2] as int) < n);
            } else {
                assert(ns2[i].adj[k1] == old_adj[k1]);
                assert((old_adj[k1] as int) < n);
            }
        } else {
            lemma_wf_node_facts(ns, i);
            assert(ns2[i] == ns[i]);
            assert(ns[i].adj[k1] != ns[i].adj[k2]);
        }
    }
    assert(wf_nodes(ns2));
    assert forall|i: int, j: int| #[trigger] edge(ns2, i, j) implies edge(ns2, j, i) by {
        let k = choose|k: int| 0 <= k < ns2[i].adj.len() && ns2[i].adj[k] as int == j;
        if i == n {
            if k == 0 {
                assert(j == a);
                assert(ns2[a].adj[ka] as int == n);
                assert(edge(ns2, a, n));
            } else {
                assert(j == b);
                assert(ns2[b].adj[kb] as int == n);
                assert(edge(ns2, b, n));
            }
        } else if i == a || i == b {
            let kx = if i == a {
                ka
            } else {
                kb
            };
            let other = if i == a {
                b
            } else {
                a
            };
            if k == kx {
                assert(j == n);
                assert(ns2[n].adj[0] == a as usize && ns2[n].adj[1] == b as usize);
                assert(edge(ns2, n, i));
            } else {
                assert(ns2[i].adj[k] == ns[i].adj[k]);
                assert(j != other) by {
                    assert(ns[i].adj[k] != ns[i].adj[kx]);
                }
                assert(j as int != i);
                assert(edge(ns, i, j));
                assert(edge(ns, j, i));
                let m = choose|m: int| 0 <= m < ns[j].adj.len() && ns[j].adj[m] as int == i;
                if j == a || j == b {
                    let kj = if j == a {
                        ka
                    } else {
                        kb
                    };
                    assert(m != kj) by {
                        assert(ns[j].adj[kj] as int == (if j == a {
                            b
                        } else {
                            a
                        }));
                    }
                    assert(ns2[j].adj[m] == ns[j].adj[m]);
                    assert(edge(ns2, j, i));
                } else {
                    assert(ns2[j] == ns[j]);
                    assert(edge(ns2, j, i));
                }
            }
        } else {
            assert(ns2[i] == ns[i]);
            assert(edge(ns, i, j));
            assert(j < n) by {
                assert(ns[i].adj[k] < ns.len());
            }
            assert(edge(ns, j, i));
            let m = choose|m: int| 0 <= m < ns[j].adj.len() && ns[j].adj[m] as int == i;
            if j == a || j == b {
                let kj = if j == a {
                    ka
                } else {
                    kb
                };
                let other = if j == a {
                    b
                } else {
                    a
                };
                assert(m != kj) by {
                    assert(ns[j].adj[kj] as int == other);
                    assert(i != other);
                }
                assert(ns2[j].adj[m] == ns[j].adj[m]);
                assert(edge(ns2, j, i));
            } else {
                assert(ns2[j] == ns[j]);
                assert(edge(ns2, j, i));
            }
        }
    }
}

/// After a split, the inserted node has exactly its two endpoints as
/// neighbors, each endpoint lists the inserted node, and the endpoints no
/// longer list each other.
pub proof fn lemma_split_disconnects_endpoints(
    ns: Seq<NodeModel>,
    a: int,
    ka: int,
    b: int,
    kb: int,
    px: i64,
    py: i64,
)
    requires
        wf_nodes(ns),
        0 <= a < ns.len(),
        0 <= ka < ns[a].adj.len(),
        ns[a].adj[ka] as int == b,
        0 <= kb < ns[b].adj.len(),
        ns[b].adj[kb] as int == a,
        ns.len() < usize::MAX,
    ensures
        ({
            let n = ns.len() as int;
            let ns2 = split_nodes(ns, a, ka, b, kb, px, py);
            &&& ns2[n].adj =~= seq![a as usize, b as usize]
            &&& ns2[n].adj.len() == 2
            &&& edge(ns2, n, a) && edge(ns2, a, n)
            &&& edge(ns2, n, b) && edge(ns2, b, n)
            &&& !edge(ns2, a, b)
            &&& !edge(ns2, b, a)
        }),
{
    let n = ns.len() as int;
    let ns2 = split_nodes(ns, a, ka, b, kb, px, py);
    assert(0 <= b < n && b != a);
    assert(ns2[n].adj[0] == a as usize && ns2[n].adj[1] == b as usize);
    assert(ns2[a].adj[ka] as int == n);
    assert(ns2[b].adj[kb] as int == n);
    assert(edge(ns2, n, a));
    assert(edge(ns2, n, b));
    assert(edge(ns2, a, n));
    assert(edge(ns2, b, n));
    if edge(ns2, a, b) {
        let k = choose|k: int| 0 <= k < ns2[a].adj.len() && ns2[a].adj[k] as int == b;
        assert(k != ka);
        assert(ns[a].adj[k] == ns2[a].adj[k]);
        assert(ns[a].adj[k] != ns[a].adj[ka]);
        assert(false);
    }
    if edge(ns2, b, a) {
        let k = choose|k: int| 0 <= k < ns2[b].adj.len() && ns2[b].adj[k] as int == a;
        assert(k != kb);
        assert(ns[b].adj[k] == ns2[b].adj[k]);
        assert(ns[b].adj[k] != ns[b].adj[kb]);
        assert(false);
    }
}

/// Index pair naming one directed adjacency entry: the node and the position
/// of the entry in its neighbor list.
pub struct ConIdx {
    pub node_id: usize,
    pub con_idx: usize,
}

/// Position of the adjacency entry of node `j` that points back at `i`.
fn find_link_index(points: &Vec<GridPoint>, j: usize, i: usize) -> (k: usize)
    requires
        (j as int) < points@.len(),
        edge(nodes_view(points@), j as int, i as int),
    ensures
        (k as int) < nodes_view(points@)[j as int].adj.len(),
        nodes_view(points@)[j as int].adj[k as int] == i,
{
    let ghost ns = nodes_view(points@);
    let n = points[j].connect.len();
    let mut k: usize = 0;
    while k < n
        invariant
            (j as int) < points@.len(),
            ns == nodes_view(points@),
            n == ns[j as int].adj.len(),
            k <= n,
            forall|m: int| 0 <= m < k ==> ns[j as int].adj[m] != i,
        decreases n - k,
    {
        if points[j].connect[k] == i {
            return k;
        }
        k = k + 1;
    }
    proof {
        let m = choose|m: int|
            0 <= m < ns[j as int].adj.len() && ns[j as int].adj[m] as int == i as int;
        assert(ns[j as int].adj[m] != i);
        assert(false);
    }
    0
}

/// Scan every edge, in ascending node order and neighbor-list order, for the
/// first one the probe point lies on, and return the positions of its two
/// mirrored adjacency entries.
#[verifier::rlimit(50)]
fn find_intersection(points: &Vec<GridPoint>, px: i64, py: i64, scan_y: bool) -> (r: Option<
    (ConIdx, ConIdx),
>)
    requires
        wf_nodes(nodes_view(points@)),
        symmetric(nodes_view(points@)),
        coord_ok(px),
        coord_ok(py),
    ensures
        ({
            let ns = nodes_view(points@);
            match r {
                Some(pair) => {
                    let (ca, cb) = pair;
                    &&& probe_hits(ns, ca.node_id as int, ca.con_idx as int, px, py, scan_y)
                    &&& !hit_before(ns, ca.node_id as int, ca.con_idx as int, px, py, scan_y)
                    &&& cb.node_id == ns[ca.node_id as int].adj[ca.con_idx as int]
                    &&& (cb.con_idx as int) < ns[cb.node_id as int].adj.len()
                    &&& ns[cb.node_id as int].adj[cb.con_idx as int] == ca.node_id
                },
                None => !any_hit(ns, px, py, scan_y),
            }
        }),
{
    let ghost ns = nodes_view(points@);
    let len = points.len();
    let mut i: usize = 0;
    while i < len
        invariant
            ns == nodes_view(points@),
            len == points@.len(),
            wf_nodes(ns),
            symmetric(ns),
            coord_ok(px),
            coord_ok(py),
            i <= len,
            forall|i2: int, k2: int| 0 <= i2 < i ==> !probe_hits(ns, i2, k2, px, py, scan_y),
        decreases len - i,
    {
        let fp = if scan_y {
            px
        } else {
            py
        };
        proof {
            assert(ns.len() == points@.len());
            assert(0 <= (i as int) < ns.len());
            assert(ns[i as int] == points@[i as int]@);
            lemma_wf_node_facts(ns, i as int);
        }
        let fi = if scan_y {
            points[i].x
        } else {
            points[i].y
        };
        let node_close = if fp >= fi {
            fp - fi <= 1
        } else {
            fi - fp <= 1
        };
        if node_close {
            proof {
                assert(fp == probe_fixed(px, py, scan_y));
                assert(fi == fixed_coord(ns[i as int], scan_y));
                assert(close_fixed(probe_fixed(px, py, scan_y), fixed_coord(ns[i as int], scan_y)));
            }
            let nc = points[i].connect.len();
            let mut k: usize = 0;
            while k < nc
                invariant
                    ns == nodes_view(points@),
                    len == points@.len(),
                    wf_nodes(ns),
                    symmetric(ns),
                    coord_ok(px),
                    coord_ok(py),
                    i < len,
                    nc == ns[i as int].adj.len(),
                    k <= nc,
                    close_fixed(probe_fixed(px, py, scan_y), fixed_coord(ns[i as int], scan_y)),
                    forall|i2: int, k2: int| 0 <= i2 < i ==> !probe_hits(ns, i2, k2, px, py, scan_y),
                    forall|k2: int| 0 <= k2 < k ==> !probe_hits(ns, i as int, k2, px, py, scan_y),
                decreases nc - k,
            {
                let fp2 = if scan_y {
                    px
                } else {
                    py
                };
                proof {
                    lemma_wf_node_facts(ns, i as int);
                    assert(ns[i as int].adj[k as int] < ns.len());
                }
                let j = points[i].connect[k];
                proof {
                    assert(j == ns[i as int].adj[k as int]);
                    assert(ns[j as int] == points@[j as int]@);
                    lemma_wf_node_facts(ns, j as int);
                }
                let fj = if scan_y {
                    points[j].x
                } else {
                    points[j].y
                };
                let other_close = if fp2 >= fj {
                    fp2 - fj <= 1
                } else {
                    fj - fp2 <= 1
                };
                if other_close {
                    let sp = if scan_y {
                        py
                    } else {
                        px
                    };
                    let si = if scan_y {
                        points[i].y
                    } else {
                        points[i].x
                    };
                    let sj = if scan_y {
                        points[j].y
                    } else {
                        points[j].x
                    };
                    let intersecting = if sj < si {
                        sj < sp && sp < si
                    } else {
                        si < sp && sp < sj
                    };
                    if intersecting {
                        proof {
                            assert(fj == fixed_coord(ns[j as int], scan_y));
                            assert(sp == probe_scan(px, py, scan_y));
                            assert(si == scan_coord(ns[i as int], scan_y));
                            assert(sj == scan_coord(ns[j as int], scan_y));
                            assert(probe_hits(ns, i as int, k as int, px, py, scan_y));
                            assert(!hit_before(ns, i as int, k as int, px, py, scan_y)) by {
                                if hit_before(ns, i as int, k as int, px, py, scan_y) {
                                    let (i2, k2) = choose|i2: int, k2: int|
                                        (i2 < i as int || (i2 == i as int && k2 < k as int))
                                            && probe_hits(ns, i2, k2, px, py, scan_y);
                                    assert(!probe_hits(ns, i2, k2, px, py, scan_y));
                                }
                            }
                            assert(edge(ns, i as int, j as int));
                        }
                        let kj = find_link_index(points, j, i);
                        return Some(
                            (ConIdx { node_id: i, con_idx: k }, ConIdx { node_id: j, con_idx: kj }),
                        );
                    }
                    proof {
                        assert(!probe_hits(ns, i as int, k as int, px, py, scan_y)) by {
                            assert(sp == probe_scan(px, py, scan_y));
                            assert(si == scan_coord(ns[i as int], scan_y));
                            assert(sj == scan_coord(ns[j as int], scan_y));
                        }
                    }
                } else {
                    proof {
                        assert(!probe_hits(ns, i as int, k as int, px, py, scan_y)) by {
                            assert(fj == fixed_coord(ns[j as int], scan_y));
                            assert(fp2 == probe_fixed(px, py, scan_y));
                        }
                    }
                }
                k = k + 1;
            }
        } else {
            proof {
                assert(fp == probe_fixed(px, py, scan_y));
                assert(fi == fixed_coord(ns[i as int], scan_y));
                assert forall|k2: int| !probe_hits(ns, i as int, k2, px, py, scan_y) by {}
            }
        }
        i = i + 1;
    }
    proof {
        if any_hit(ns, px, py, scan_y) {
            let (i2, k2) = choose|i2: int, k2: int| probe_hits(ns, i2, k2, px, py, scan_y);
            assert(!probe_hits(ns, i2, k2, px, py, scan_y));
        }
    }
    None
}

/// Copy of an adjacency list with entry `k` replaced by `v`.
fn connect_with(src: &Vec<usize>, k: usize, v: usize) -> (r: Vec<usize>)
    requires
        (k as int) < src@.len(),
    ensures
        r@ == src@.update(k as int, v),
{
    let mut r: Vec<usize> = Vec::new();
    let mut m: usize = 0;
    while m < src.len()
        invariant
            (k as int) < src@.len(),
            m <= src@.len(),
            r@.len() == m,
            forall|t: int|
                0 <= t < m ==> #[trigger] r@[t] == (if t == k {
                    v
                } else {
                    src@[t]
                }),
        decreases src@.len() - m,
    {
        if m == k {
            r.push(v);
        } else {
            r.push(src[m]);
        }
        m = m + 1;
    }
    proof {
        assert(r@ =~= src@.update(k as int, v));
    }
    r
}

/// Split the first edge the probe point lies on, linking the probe position
/// into the graph as a fresh node, and return its index; `None` when the
/// probe lies on no edge.
fn insert_intersection(points: &mut Vec<GridPoint>, px: i64, py: i64, scan_y: bool) -> (r: Option<
    usize,
>)
    requires
        wf_nodes(nodes_view(old(points)@)),
        symmetric(nodes_view(old(points)@)),
        distinct_positions(nodes_view(old(points)@)),
        coord_ok(px),
        coord_ok(py),
        old(points)@.len() < usize::MAX,
    ensures
        split_rel(nodes_view(old(points)@), px, py, scan_y, nodes_view(final(points)@), r),
        wf_nodes(nodes_view(final(points)@)),
        symmetric(nodes_view(final(points)@)),
        distinct_positions(nodes_view(final(points)@)),
        r is Some <==> any_hit(nodes_view(old(points)@), px, py, scan_y) && !node_at(
            nodes_view(old(points)@),
            px,
            py,
        ),
        r is Some ==> final(points)@.len() == old(points)@.len() + 1 && r == Some(
            old(points)@.len() as usize,
        ),
        r is None ==> final(points)@ == old(points)@,
        old(points)@.len() <= final(points)@.len(),
        forall|i: int|
            0 <= i < old(points)@.len() ==> #[trigger] final(points)@[i].x == old(points)@[i].x
                && final(points)@[i].y == old(points)@[i].y,
        r is Some ==> final(points)@[old(points)@.len() as int].x == px
            && final(points)@[old(points)@.len() as int].y == py,
{
    let ghost ns0 = nodes_view(points@);
    let n0 = points.len();
    let mut ci: usize = 0;
    while ci < n0
        invariant
            points@ == old(points)@,
            ns0 == nodes_view(points@),
            n0 == points@.len(),
            wf_nodes(ns0),
            symmetric(ns0),
            distinct_positions(ns0),
            ci <= n0,
            forall|t: int| 0 <= t < ci ==> !((#[trigger] ns0[t]).x == px && ns0[t].y == py),
        decreases n0 - ci,
    {
        if points[ci].x == px && points[ci].y == py {
            proof {
                assert(ns0[ci as int] == points@[ci as int]@);
                assert(node_at(ns0, px, py));
            }
            return None;
        }
        proof {
            assert(ns0[ci as int] == points@[ci as int]@);
        }
        ci = ci + 1;
    }
    proof {
        if node_at(ns0, px, py) {
            let t = choose|t: int| 0 <= t < ns0.len() && ns0[t].x == px && ns0[t].y == py;
            assert(!(ns0[t].x == px && ns0[t].y == py));
        }
    }
    match find_intersection(points, px, py, scan_y) {
        None => {
            proof {
                assert(nodes_view(points@) == ns0);
            }
            None
        },
        Some(pair) => {
            let (ca, cb) = pair;
            let a = ca.node_id;
            let ka = ca.con_idx;
            let b = cb.node_id;
            let kb = cb.con_idx;
            proof {
                assert(0 <= (a as int) < ns0.len());
                assert((b as int) < ns0.len() && b != a);
            }
            let id = points.len();
            let new_a_connect = connect_with(&points[a].connect, ka, id);
            let pa = GridPoint { x: points[a].x, y: points[a].y, connect: new_a_connect };
            points.set(a, pa);
            let new_b_connect = connect_with(&points[b].connect, kb, id);
            let pb = GridPoint { x: points[b].x, y: points[b].y, connect: new_b_connect };
            points.set(b, pb);
            let mut nc: Vec<usize> = Vec::new();
            nc.push(a);
            nc.push(b);
            points.push(GridPoint { x: px, y: py, connect: nc });
            proof {
                let ns2 = nodes_view(points@);
                assert(nc@ =~= seq![a, b]);
                assert(ns2 =~= split_nodes(ns0, a as int, ka as int, b as int, kb as int, px, py));
                lemma_split_preserves_wf(ns0, a as int, ka as int, b as int, kb as int, px, py);
                assert(split_witness(
                    ns0,
                    px,
                    py,
                    scan_y,
                    ns2,
                    a as int,
                    ka as int,
                    b as int,
                    kb as int,
                ));
                assert(any_hit(ns0, px, py, scan_y));
                assert(split_rel(ns0, px, py, scan_y, ns2, Some(id)));
                assert forall|i: int, j: int|
                    0 <= i < j < ns2.len() implies !((#[trigger] ns2[i]).x == (#[trigger] ns2[j]).x
                    && ns2[i].y == ns2[j].y) by {
                    if j < ns0.len() {
                        assert(ns2[i].x == ns0[i].x && ns2[i].y == ns0[i].y);
                        assert(ns2[j].x == ns0[j].x && ns2[j].y == ns0[j].y);
                    } else {
                        assert(ns2[j].x == px && ns2[j].y == py);
                        assert(ns2[i].x == ns0[i].x && ns2[i].y == ns0[i].y);
                        assert(!(ns0[i].x == px && ns0[i].y == py));
                    }
                }
            }
            Some(id)
        },
    }
}

/// Split the first edge a horizontal probe lies on: the scan runs along the
/// x axis, with the one-unit slack applied on the y axis.
pub fn insert_horz_intersection(points: &mut Vec<GridPoint>, px: i64, py: i64) -> (r: Option<
    usize,
>)
    requires
        wf_nodes(nodes_view(old(points)@)),
        symmetric(nodes_view(old(points)@)),
        distinct_positions(nodes_view(old(points)@)),
        coord_ok(px),
        coord_ok(py),
        old(points)@.len() < usize::MAX,
    ensures
        split_rel(nodes_view(old(points)@), px, py, false, nodes_view(final(points)@), r),
        wf_nodes(nodes_view(final(points)@)),
        symmetric(nodes_view(final(points)@)),
        distinct_positions(nodes_view(final(points)@)),
        r is Some <==> any_hit(nodes_view(old(points)@), px, py, false) && !node_at(
            nodes_view(old(points)@),
            px,
            py,
        ),
        r is Some ==> final(points)@.len() == old(points)@.len() + 1 && r == Some(
            old(points)@.len() as usize,
        ),
        r is None ==> final(points)@ == old(points)@,
{
    insert_intersection(points, px, py, false)
}

/// Split the first edge a vertical probe lies on: the scan runs along the
/// y axis, with the one-unit slack applied on the x axis.
pub fn insert_vert_intersection(points: &mut Vec<GridPoint>, px: i64, py: i64) -> (r: Option<
    usize,
>)
    requires
        wf_nodes(nodes_view(old(points)@)),
        symmetric(nodes_view(old(points)@)),
        distinct_positions(nodes_view(old(points)@)),
        coord_ok(px),
        coord_ok(py),
        old(points)@.len() < usize::MAX,
    ensures
        split_rel(nodes_view(old(points)@), px, py, true, nodes_view(final(points)@), r),
        wf_nodes(nodes_view(final(points)@)),
        symmetric(nodes_view(final(points)@)),
        distinct_positions(nodes_view(final(points)@)),
        r is Some <==> any_hit(nodes_view(old(points)@), px, py, true) && !node_at(
            nodes_view(old(points)@),
            px,
            py,
        ),
        r is Some ==> final(points)@.len() == old(points)@.len() + 1 && r == Some(
            old(points)@.len() as usize,
        ),
        r is None ==> final(points)@ == old(points)@,
{
    insert_intersection(points, px, py, true)
}

/// All set connector indices of `r` lie below `n`.
pub open spec fn connectors_in_range(r: ConRect, n: int) -> bool {
    &&& match r.left_con {
        Some(c) => (c as int) < n,
        None => true,
    }
    &&& match r.right_con {
        Some(c) => (c as int) < n,
        None => true,
    }
    &&& match r.top_con {
        Some(c) => (c as int) < n,
        None => true,
    }
    &&& match r.bottom_con {
        Some(c) => (c as int) < n,
        None => true,
    }
}

/// Probe point for the left connector: left of the left edge's midpoint, at
/// twice the obstruction margin.
pub open spec fn probe_left(r: ConRect) -> (i64, i64) {
    ((r.x - 2 * COLLISION_MARGIN) as i64, center_i64(r, true))
}

/// Probe point for the right connector.
pub open spec fn probe_right(r: ConRect) -> (i64, i64) {
    ((r.x + r.width + 2 * COLLISION_MARGIN) as i64, center_i64(r, true))
}

/// Probe point for the top connector.
pub open spec fn probe_top(r: ConRect) -> (i64, i64) {
    (center_i64(r, false), (r.y - 2 * COLLISION_MARGIN) as i64)
}

/// Probe point for the bottom connector.
pub open spec fn probe_bottom(r: ConRect) -> (i64, i64) {
    (center_i64(r, false), (r.y + r.height + 2 * COLLISION_MARGIN) as i64)
}

/// Marker naming the three intermediate node lists of one rectangle's four
/// probes; it carries no condition and only guides the prover to them.
pub open spec fn probe_stages(ns1: Seq<NodeModel>, ns2: Seq<NodeModel>, ns3: Seq<NodeModel>) -> bool {
    true
}

/// How the four probes of one rectangle rewrite the node list and set the
/// rectangle's connectors, in left, right, top, bottom order.
pub open spec fn rect_probe_rel(
    ns0: Seq<NodeModel>,
    r0: ConRect,
    ns4: Seq<NodeModel>,
    r1: ConRect,
) -> bool {
    &&& r1.same_geom(r0)
    &&& exists|ns1: Seq<NodeModel>, ns2: Seq<NodeModel>, ns3: Seq<NodeModel>|
        #![trigger probe_stages(ns1, ns2, ns3)]
        {
            &&& probe_stages(ns1, ns2, ns3)
            &&& split_rel(ns0, probe_left(r0).0, probe_left(r0).1, false, ns1, r1.left_con)
            &&& split_rel(ns1, probe_right(r0).0, probe_right(r0).1, false, ns2, r1.right_con)
            &&& split_rel(ns2, probe_top(r0).0, probe_top(r0).1, true, ns3, r1.top_con)
            &&& split_rel(ns3, probe_bottom(r0).0, probe_bottom(r0).1, true, ns4, r1.bottom_con)
        }
}

/// Marker naming the state one insertion step starts from and the rectangle
/// it produces; it carries no condition and only guides the prover to them.
pub open spec fn built_step(nsp: Seq<NodeModel>, rectsp: Seq<ConRect>, rk: ConRect) -> bool {
    true
}

/// How connector insertion rewrites the lattice and the rectangle list, one
/// rectangle at a time, in list order; only each rectangle's geometry feeds
/// its probes.
pub open spec fn built_rel(
    lat: Seq<NodeModel>,
    rects0: Seq<ConRect>,
    k: int,
    ns: Seq<NodeModel>,
    rects: Seq<ConRect>,
) -> bool
    decreases k,
{
    if k <= 0 {
        ns == lat && rects == rects0
    } else {
        exists|nsp: Seq<NodeModel>, rectsp: Seq<ConRect>, rk: ConRect|
            #![trigger built_step(nsp, rectsp, rk)]
            {
                &&& built_step(nsp, rectsp, rk)
                &&& built_rel(lat, rects0, k - 1, nsp, rectsp)
                &&& rectsp.len() == rects0.len()
                &&& 0 <= k - 1 < rectsp.len()
                &&& rect_probe_rel(nsp, rects0[k - 1], ns, rk)
                &&& rects == rectsp.update(k - 1, rk)
            }
    }
}

/// One inductive step of `built_rel`, with the witnesses spelled out.
pub proof fn lemma_built_rel_step(
    lat: Seq<NodeModel>,
    rects0: Seq<ConRect>,
    k: int,
    nsp: Seq<NodeModel>,
    rectsp: Seq<ConRect>,
    ns: Seq<NodeModel>,
    rk: ConRect,
)
    requires
        0 < k <= rects0.len(),
        rectsp.len() == rects0.len(),
        built_rel(lat, rects0, k - 1, nsp, rectsp),
        rect_probe_rel(nsp, rects0[k - 1], ns, rk),
    ensures
        built_rel(lat, rects0, k, ns, rectsp.update(k - 1, rk)),
{
    assert(built_step(nsp, rectsp, rk));
}

/// Everything the grid builder promises about its output, as one relation
/// between the input geometry and the produced grid and rectangle list.
pub open spec fn built_from(rects0: Seq<ConRect>, g: Grid, rects_out: Seq<ConRect>) -> bool {
    &&& g.intervals_x@ == intervals_after(rects0, rects0.len() as int, false)
    &&& g.intervals_y@ == intervals_after(rects0, rects0.len() as int, true)
    &&& rects_out.len() == rects0.len()
    &&& exists|lat: Seq<NodeModel>|
        #[trigger] lattice_nodes_ok(lat, g.intervals_x@, g.intervals_y@) && built_rel(
            lat,
            rects0,
            rects0.len() as int,
            g.nodes(),
            rects_out,
        )
}

/// A probe splits at most one edge, and which edge it splits is determined:
/// two outcomes of the same probe on the same well-formed node list agree.
pub proof fn lemma_split_rel_functional(
    ns: Seq<NodeModel>,
    px: i64,
    py: i64,
    scan_y: bool,
    nsa: Seq<NodeModel>,
    ra: Option<usize>,
    nsb: Seq<NodeModel>,
    rb: Option<usize>,
)
    requires
        wf_nodes(ns),
        split_rel(ns, px, py, scan_y, nsa, ra),
        split_rel(ns, px, py, scan_y, nsb, rb),
    ensures
        nsa == nsb,
        ra == rb,
{
    if !node_at(ns, px, py) && any_hit(ns, px, py, scan_y) {
        let (a1, ka1, b1, kb1) = choose|a: int, ka: int, b: int, kb: int|
            split_witness(ns, px, py, scan_y, nsa, a, ka, b, kb);
        let (a2, ka2, b2, kb2) = choose|a: int, ka: int, b: int, kb: int|
            split_witness(ns, px, py, scan_y, nsb, a, ka, b, kb);
        if a1 < a2 || (a1 == a2 && ka1 < ka2) {
            assert(probe_hits(ns, a1, ka1, px, py, scan_y));
            assert(hit_before(ns, a2, ka2, px, py, scan_y));
            assert(false);
        }
        if a2 < a1 || (a1 == a2 && ka2 < ka1) {
            assert(probe_hits(ns, a2, ka2, px, py, scan_y));
            assert(hit_before(ns, a1, ka1, px, py, scan_y));
            assert(false);
        }
        assert(a1 == a2 && ka1 == ka2);
        assert(b1 == b2);
        assert(0 <= b1 < ns.len());
        lemma_wf_node_facts(ns, b1);
        if kb1 < kb2 {
            assert(ns[b1].adj[kb1] != ns[b1].adj[kb2]);
            assert(false);
        }
        if kb2 < kb1 {
            assert(ns[b1].adj[kb2] != ns[b1].adj[kb1]);
            assert(false);
        }
        assert(nsa == split_nodes(ns, a1, ka1, b1, kb1, px, py));
        assert(nsb == split_nodes(ns, a1, ka1, b1, kb1, px, py));
    }
}

/// A probe outcome on a well-formed symmetric node list is itself
/// well-formed and symmetric, and adds at most one node.
pub proof fn lemma_split_rel_wf(
    ns: Seq<NodeModel>,
    px: i64,
    py: i64,
    scan_y: bool,
    ns2: Seq<NodeModel>,
    r: Option<usize>,
)
    requires
        wf_nodes(ns),
        symmetric(ns),
        coord_ok(px),
        coord_ok(py),
        ns.len() < usize::MAX,
        split_rel(ns, px, py, scan_y, ns2, r),
    ensures
        wf_nodes(ns2),
        symmetric(ns2),
        ns.len() <= ns2.len() <= ns.len() + 1,
{
    if !node_at(ns, px, py) && any_hit(ns, px, py, scan_y) {
        let (a, ka, b, kb) = choose|a: int, ka: int, b: int, kb: int|
            split_witness(ns, px, py, scan_y, ns2, a, ka, b, kb);
        assert(probe_hits(ns, a, ka, px, py, scan_y));
        lemma_split_preserves_wf(ns, a, ka, b, kb, px, py);
        assert(ns2 == split_nodes(ns, a, ka, b, kb, px, py));
        assert(ns2.len() == ns.len() + 1);
    }
}

/// The probe points of a bounded rectangle are legal node coordinates.
pub proof fn lemma_probe_coords_ok(r: ConRect)
    requires
        r.geom_ok(),
    ensures
        coord_ok(probe_left(r).0) && coord_ok(probe_left(r).1),
        coord_ok(probe_right(r).0) && coord_ok(probe_right(r).1),
        coord_ok(probe_top(r).0) && coord_ok(probe_top(r).1),
        coord_ok(probe_bottom(r).0) && coord_ok(probe_bottom(r).1),
{
}

/// One rectangle's probes keep the node list well-formed and symmetric, and
/// add at most four nodes.
pub proof fn lemma_rect_probe_rel_wf(
    ns0: Seq<NodeModel>,
    r0: ConRect,
    ns4: Seq<NodeModel>,
    r1: ConRect,
)
    requires
        wf_nodes(ns0),
        symmetric(ns0),
        r0.geom_ok(),
        ns0.len() + 4 <= usize::MAX,
        rect_probe_rel(ns0, r0, ns4, r1),
    ensures
        wf_nodes(ns4),
        symmetric(ns4),
        ns0.len() <= ns4.len() <= ns0.len() + 4,
{
    let (ns1, ns2, ns3) = choose|ns1: Seq<NodeModel>, ns2: Seq<NodeModel>, ns3: Seq<NodeModel>|
        {
            &&& #[trigger] probe_stages(ns1, ns2, ns3)
            &&& split_rel(ns0, probe_left(r0).0, probe_left(r0).1, false, ns1, r1.left_con)
            &&& split_rel(ns1, probe_right(r0).0, probe_right(r0).1, false, ns2, r1.right_con)
            &&& split_rel(ns2, probe_top(r0).0, probe_top(r0).1, true, ns3, r1.top_con)
            &&& split_rel(ns3, probe_bottom(r0).0, probe_bottom(r0).1, true, ns4, r1.bottom_con)
        };
    lemma_probe_coords_ok(r0);
    lemma_split_rel_wf(ns0, probe_left(r0).0, probe_left(r0).1, false, ns1, r1.left_con);
    lemma_split_rel_wf(ns1, probe_right(r0).0, probe_right(r0).1, false, ns2, r1.right_con);
    lemma_split_rel_wf(ns2, probe_top(r0).0, probe_top(r0).1, true, ns3, r1.top_con);
    lemma_split_rel_wf(ns3, probe_bottom(r0).0, probe_bottom(r0).1, true, ns4, r1.bottom_con);
}

/// One rectangle's probes are deterministic: two outcomes on the same
/// well-formed node list agree on the node list and the connectors.
pub proof fn lemma_rect_probe_rel_functional(
    ns0: Seq<NodeModel>,
    r0: ConRect,
    nsa: Seq<NodeModel>,
    ra: ConRect,
    nsb: Seq<NodeModel>,
    rb: ConRect,
)
    requires
        wf_nodes(ns0),
        symmetric(ns0),
        r0.geom_ok(),
        ns0.len() + 4 <= usize::MAX,
        rect_probe_rel(ns0, r0, nsa, ra),
        rect_probe_rel(ns0, r0, nsb, rb),
    ensures
        nsa == nsb,
        ra == rb,
{
    let (ns1a, ns2a, ns3a) = choose|
        ns1: Seq<NodeModel>,
        ns2: Seq<NodeModel>,
        ns3: Seq<NodeModel>,
    |
        {
            &&& #[trigger] probe_stages(ns1, ns2, ns3)
            &&& split_rel(ns0, probe_left(r0).0, probe_left(r0).1, false, ns1, ra.left_con)
            &&& split_rel(ns1, probe_right(r0).0, probe_right(r0).1, false, ns2, ra.right_con)
            &&& split_rel(ns2, probe_top(r0).0, probe_top(r0).1, true, ns3, ra.top_con)
            &&& split_rel(ns3, probe_bottom(r0).0, probe_bottom(r0).1, true, nsa, ra.bottom_con)
        };
    let (ns1b, ns2b, ns3b) = choose|
        ns1: Seq<NodeModel>,
        ns2: Seq<NodeModel>,
        ns3: Seq<NodeModel>,
    |
        {
            &&& #[trigger] probe_stages(ns1, ns2, ns3)
            &&& split_rel(ns0, probe_left(r0).0, probe_left(r0).1, false, ns1, rb.left_con)
            &&& split_rel(ns1, probe_right(r0).0, probe_right(r0).1, false, ns2, rb.right_con)
            &&& split_rel(ns2, probe_top(r0).0, probe_top(r0).1, true, ns3, rb.top_con)
            &&& split_rel(ns3, probe_bottom(r0).0, probe_bottom(r0).1, true, nsb, rb.bottom_con)
        };
    lemma_probe_coords_ok(r0);
    lemma_split_rel_functional(
        ns0,
        probe_left(r0).0,
        probe_left(r0).1,
        false,
        ns1a,
        ra.left_con,
        ns1b,
        rb.left_con,
    );
    lemma_split_rel_wf(ns0, probe_left(r0).0, probe_left(r0).1, false, ns1a, ra.left_con);
    lemma_split_rel_functional(
        ns1a,
        probe_right(r0).0,
        probe_right(r0).1,
        false,
        ns2a,
        ra.right_con,
        ns2b,
        rb.right_con,
    );
    lemma_split_rel_wf(ns1a, probe_right(r0).0, probe_right(r0).1, false, ns2a, ra.right_con);
    lemma_split_rel_functional(
        ns2a,
        probe_top(r0).0,
        probe_top(r0).1,
        true,
        ns3a,
        ra.top_con,
        ns3b,
        rb.top_con,
    );
    lemma_split_rel_wf(ns2a, probe_top(r0).0, probe_top(r0).1, true, ns3a, ra.top_con);
    lemma_split_rel_functional(
        ns3a,
        probe_bottom(r0).0,
        probe_bottom(r0).1,
        true,
        nsa,
        ra.bottom_con,
        nsb,
        rb.bottom_con,
    );
    assert(ra.same_geom(r0) && rb.same_geom(r0));
}

/// Connector insertion keeps the node list well-formed through the whole
/// rectangle list.
pub proof fn lemma_built_rel_wf(
    lat: Seq<NodeModel>,
    rects0: Seq<ConRect>,
    k: int,
    ns: Seq<NodeModel>,
    rects: Seq<ConRect>,
)
    requires
        wf_nodes(lat),
        symmetric(lat),
        0 <= k <= rects0.len(),
        forall|i: int| 0 <= i < rects0.len() ==> (#[trigger] rects0[i]).geom_ok(),
        lat.len() + 4 * k <= usize::MAX,
        built_rel(lat, rects0, k, ns, rects),
    ensures
        wf_nodes(ns),
        symmetric(ns),
        lat.len() <= ns.len() <= lat.len() + 4 * k,
        rects.len() == rects0.len(),
    decreases k,
{
    if k <= 0 {
    } else {
        let (nsp, rectsp, rk) = choose|nsp: Seq<NodeModel>, rectsp: Seq<ConRect>, rk: ConRect|
            {
                &&& #[trigger] built_step(nsp, rectsp, rk)
                &&& built_rel(lat, rects0, k - 1, nsp, rectsp)
                &&& rectsp.len() == rects0.len()
                &&& 0 <= k - 1 < rectsp.len()
                &&& rect_probe_rel(nsp, rects0[k - 1], ns, rk)
                &&& rects == rectsp.update(k - 1, rk)
            };
        lemma_built_rel_wf(lat, rects0, k - 1, nsp, rectsp);
        lemma_rect_probe_rel_wf(nsp, rects0[k - 1], ns, rk);
    }
}

/// Connector insertion is deterministic through the whole rectangle list.
pub proof fn lemma_built_rel_functional(
    lat: Seq<NodeModel>,
    rects0: Seq<ConRect>,
    k: int,
    nsa: Seq<NodeModel>,
    rectsa: Seq<ConRect>,
    nsb: Seq<NodeModel>,
    rectsb: Seq<ConRect>,
)
    requires
        wf_nodes(lat),
        symmetric(lat),
        0 <= k <= rects0.len(),
        forall|i: int| 0 <= i < rects0.len() ==> (#[trigger] rects0[i]).geom_ok(),
        lat.len() + 4 * k <= usize::MAX,
        built_rel(lat, rects0, k, nsa, rectsa),
        built_rel(lat, rects0, k, nsb, rectsb),
    ensures
        nsa == nsb,
        rectsa == rectsb,
    decreases k,
{
    if k <= 0 {
    } else {
        let (nspa, rectspa, rka) = choose|nsp: Seq<NodeModel>, rectsp: Seq<ConRect>, rk: ConRect|
            {
                &&& #[trigger] built_step(nsp, rectsp, rk)
                &&& built_rel(lat, rects0, k - 1, nsp, rectsp)
                &&& rectsp.len() == rects0.len()
                &&& 0 <= k - 1 < rectsp.len()
                &&& rect_probe_rel(nsp, rects0[k - 1], nsa, rk)
                &&& rectsa == rectsp.update(k - 1, rk)
            };
        let (nspb, rectspb, rkb) = choose|nsp: Seq<NodeModel>, rectsp: Seq<ConRect>, rk: ConRect|
            {
                &&& #[trigger] built_step(nsp, rectsp, rk)
                &&& built_rel(lat, rects0, k - 1, nsp, rectsp)
                &&& rectsp.len() == rects0.len()
                &&& 0 <= k - 1 < rectsp.len()
                &&& rect_probe_rel(nsp, rects0[k - 1], nsb, rk)
                &&& rectsb == rectsp.update(k - 1, rk)
            };
        lemma_built_rel_functional(lat, rects0, k - 1, nspa, rectspa, nspb, rectspb);
        lemma_built_rel_wf(lat, rects0, k - 1, nspa, rectspa);
        lemma_rect_probe_rel_functional(nspa, rects0[k - 1], nsa, rka, nsb, rkb);
    }
}

/// The lattice over given interval lists is unique.
pub proof fn lemma_lattice_nodes_unique(
    ns1: Seq<NodeModel>,
    ns2: Seq<NodeModel>,
    xs: Seq<i64>,
    ys: Seq<i64>,
)
    requires
        lattice_nodes_ok(ns1, xs, ys),
        lattice_nodes_ok(ns2, xs, ys),
        0 < xs.len(),
        0 < ys.len(),
    ensures
        ns1 == ns2,
{
    assert forall|i: int| 0 <= i < ns1.len() implies ns1[i] == ns2[i] by {
        let (ix, iy) = lemma_lattice_idx_decompose(xs.len() as int, ys.len() as int, i);
        assert(lattice_node_at(ns1, xs, ys, ix, iy));
        assert(lattice_node_at(ns2, xs, ys, ix, iy));
        assert(ns1[i] =~= ns2[i]);
    }
    assert(ns1 =~= ns2);
}

/// Building twice from unchanged rectangle geometry yields structurally
/// identical results: the interval lists, the node list and the connector
/// assignments of the two builds coincide.
pub proof fn lemma_build_deterministic(
    rects0: Seq<ConRect>,
    g1: Grid,
    out1: Seq<ConRect>,
    g2: Grid,
    out2: Seq<ConRect>,
)
    requires
        rects0.len() <= MAX_RECTS,
        forall|i: int| 0 <= i < rects0.len() ==> (#[trigger] rects0[i]).geom_ok(),
        built_from(rects0, g1, out1),
        built_from(rects0, g2, out2),
    ensures
        g1.intervals_x@ == g2.intervals_x@,
        g1.intervals_y@ == g2.intervals_y@,
        g1.nodes() == g2.nodes(),
        out1 == out2,
{
    let n = rects0.len() as int;
    lemma_intervals_after_props(rects0, n, false);
    lemma_intervals_after_props(rects0, n, true);
    let xs = intervals_after(rects0, n, false);
    let ys = intervals_after(rects0, n, true);
    let lat1 = choose|lat: Seq<NodeModel>|
        #[trigger] lattice_nodes_ok(lat, g1.intervals_x@, g1.intervals_y@) && built_rel(
            lat,
            rects0,
            n,
            g1.nodes(),
            out1,
        );
    let lat2 = choose|lat: Seq<NodeModel>|
        #[trigger] lattice_nodes_ok(lat, g2.intervals_x@, g2.intervals_y@) && built_rel(
            lat,
            rects0,
            n,
            g2.nodes(),
            out2,
        );
    lemma_lattice_nodes_unique(lat1, lat2, xs, ys);
    assert((xs.len() as int) * (ys.len() as int) <= 1010 * 1010) by (nonlinear_arith)
        requires
            0 <= xs.len() <= 1010,
            0 <= ys.len() <= 1010,
    ;
    lemma_lattice_wf(lat1, xs, ys);
    lemma_built_rel_functional(lat1, rects0, n, g1.nodes(), out1, g2.nodes(), out2);
}

/// The interval folds read nothing but geometry.
pub proof fn lemma_intervals_after_same_geom(
    rects0: Seq<ConRect>,
    rects0b: Seq<ConRect>,
    n: int,
    y_axis: bool,
)
    requires
        0 <= n <= rects0.len(),
        rects0b.len() == rects0.len(),
        forall|i: int| 0 <= i < rects0.len() ==> (#[trigger] rects0b[i]).same_geom(rects0[i]),
    ensures
        intervals_after(rects0b, n, y_axis) == intervals_after(rects0, n, y_axis),
    decreases n,
{
    if n <= 0 {
    } else {
        lemma_intervals_after_same_geom(rects0, rects0b, n - 1, y_axis);
        assert(rects0b[n - 1].same_geom(rects0[n - 1]));
        assert(center_i64(rects0b[n - 1], y_axis) == center_i64(rects0[n - 1], y_axis));
    }
}

/// A rectangle's probes read nothing but geometry.
pub proof fn lemma_rect_probe_rel_same_geom(
    ns0: Seq<NodeModel>,
    r0: ConRect,
    r0b: ConRect,
    ns4: Seq<NodeModel>,
    r1: ConRect,
)
    requires
        r0b.same_geom(r0),
        rect_probe_rel(ns0, r0, ns4, r1),
    ensures
        rect_probe_rel(ns0, r0b, ns4, r1),
{
    assert(probe_left(r0b) == probe_left(r0));
    assert(probe_right(r0b) == probe_right(r0));
    assert(probe_top(r0b) == probe_top(r0));
    assert(probe_bottom(r0b) == probe_bottom(r0));
    let (ns1, ns2, ns3) = choose|ns1: Seq<NodeModel>, ns2: Seq<NodeModel>, ns3: Seq<NodeModel>|
        {
            &&& #[trigger] probe_stages(ns1, ns2, ns3)
            &&& split_rel(ns0, probe_left(r0).0, probe_left(r0).1, false, ns1, r1.left_con)
            &&& split_rel(ns1, probe_right(r0).0, probe_right(r0).1, false, ns2, r1.right_con)
            &&& split_rel(ns2, probe_top(r0).0, probe_top(r0).1, true, ns3, r1.top_con)
            &&& split_rel(ns3, probe_bottom(r0).0, probe_bottom(r0).1, true, ns4, r1.bottom_con)
        };
    assert(probe_stages(ns1, ns2, ns3));
    assert(r1.same_geom(r0b));
}

/// Connector insertion reads nothing of the rectangle list but geometry: the
/// same run is a run over any list with the same geometry.
pub proof fn lemma_built_rel_same_geom(
    lat: Seq<NodeModel>,
    rects0: Seq<ConRect>,
    rects0b: Seq<ConRect>,
    k: int,
    ns: Seq<NodeModel>,
    rects: Seq<ConRect>,
)
    requires
        0 <= k <= rects0.len(),
        rects0b.len() == rects0.len(),
        forall|i: int| 0 <= i < rects0.len() ==> (#[trigger] rects0b[i]).same_geom(rects0[i]),
        built_rel(lat, rects0, k, ns, rects),
    ensures
        built_rel(lat, rects0b, k, ns, rects.take(k) + rects0b.skip(k)),
    decreases k,
{
    if k <= 0 {
        assert(rects.take(0) + rects0b.skip(0) =~= rects0b);
    } else {
        let (nsp, rectsp, rk) = choose|nsp: Seq<NodeModel>, rectsp: Seq<ConRect>, rk: ConRect|
            {
                &&& #[trigger] built_step(nsp, rectsp, rk)
                &&& built_rel(lat, rects0, k - 1, nsp, rectsp)
                &&& rectsp.len() == rects0.len()
                &&& 0 <= k - 1 < rectsp.len()
                &&& rect_probe_rel(nsp, rects0[k - 1], ns, rk)
                &&& rects == rectsp.update(k - 1, rk)
            };
        lemma_built_rel_same_geom(lat, rects0, rects0b, k - 1, nsp, rectsp);
        lemma_rect_probe_rel_same_geom(nsp, rects0[k - 1], rects0b[k - 1], ns, rk);
        let prev = rectsp.take(k - 1) + rects0b.skip(k - 1);
        lemma_built_rel_step(lat, rects0b, k, nsp, prev, ns, rk);
        assert(rectsp.len() == rects0.len()) by {
            lemma_built_rel_len(lat, rects0, k - 1, nsp, rectsp);
        }
        assert(prev.update(k - 1, rk) =~= rects.take(k) + rects0b.skip(k));
    }
}

/// `built_rel` preserves the rectangle count.
pub proof fn lemma_built_rel_len(
    lat: Seq<NodeModel>,
    rects0: Seq<ConRect>,
    k: int,
    ns: Seq<NodeModel>,
    rects: Seq<ConRect>,
)
    requires
        0 <= k,
        built_rel(lat, rects0, k, ns, rects),
    ensures
        rects.len() == rects0.len(),
    decreases k,
{
    if k <= 0 {
    } else {
        let (nsp, rectsp, rk) = choose|nsp: Seq<NodeModel>, rectsp: Seq<ConRect>, rk: ConRect|
            {
                &&& #[trigger] built_step(nsp, rectsp, rk)
                &&& built_rel(lat, rects0, k - 1, nsp, rectsp)
                &&& rectsp.len() == rects0.len()
                &&& 0 <= k - 1 < rectsp.len()
                &&& rect_probe_rel(nsp, rects0[k - 1], ns, rk)
                &&& rects == rectsp.update(k - 1, rk)
            };
        lemma_built_rel_len(lat, rects0, k - 1, nsp, rectsp);
    }
}

/// A build from one rectangle list is a build from any list with the same
/// geometry: the grid and the connector assignments do not change.
pub proof fn lemma_built_from_same_geom(
    rects0: Seq<ConRect>,
    rects0b: Seq<ConRect>,
    g: Grid,
    out: Seq<ConRect>,
)
    requires
        rects0b.len() == rects0.len(),
        forall|i: int| 0 <= i < rects0.len() ==> (#[trigger] rects0b[i]).same_geom(rects0[i]),
        built_from(rects0, g, out),
    ensures
        built_from(rects0b, g, out),
{
    let n = rects0.len() as int;
    lemma_intervals_after_same_geom(rects0, rects0b, n, false);
    lemma_intervals_after_same_geom(rects0, rects0b, n, true);
    let lat = choose|lat: Seq<NodeModel>|
        #[trigger] lattice_nodes_ok(lat, g.intervals_x@, g.intervals_y@) && built_rel(
            lat,
            rects0,
            n,
            g.nodes(),
            out,
        );
    lemma_built_rel_same_geom(lat, rects0, rects0b, n, g.nodes(), out);
    assert(out.take(n) + rects0b.skip(n) =~= out);
    assert(lattice_nodes_ok(lat, g.intervals_x@, g.intervals_y@) && built_rel(
        lat,
        rects0b,
        n,
        g.nodes(),
        out,
    ));
}

/// Rebuilding from a build's own output — the geometry unchanged, the
/// connectors merely recomputed — reproduces the identical structure: the
/// interval lists, the node list and the connector assignments all agree.
pub proof fn lemma_rebuild_identical(
    rects0: Seq<ConRect>,
    g1: Grid,
    out1: Seq<ConRect>,
    g2: Grid,
    out2: Seq<ConRect>,
)
    requires
        rects0.len() <= MAX_RECTS,
        forall|i: int| 0 <= i < rects0.len() ==> (#[trigger] rects0[i]).geom_ok(),
        out1.len() == rects0.len(),
        forall|i: int| 0 <= i < rects0.len() ==> (#[trigger] out1[i]).same_geom(rects0[i]),
        built_from(rects0, g1, out1),
        built_from(out1, g2, out2),
    ensures
        g1.intervals_x@ == g2.intervals_x@,
        g1.intervals_y@ == g2.intervals_y@,
        g1.nodes() == g2.nodes(),
        out2 == out1,
{
    assert forall|i: int| 0 <= i < out1.len() implies (#[trigger] rects0[i]).same_geom(
        out1[i],
    ) by {
        assert(out1[i].same_geom(rects0[i]));
    }
    lemma_built_from_same_geom(out1, rects0, g2, out2);
    lemma_build_deterministic(rects0, g1, out1, g2, out2);
}

/// The connector list of a rectangle whose connectors are in range holds
/// only indices below `n`.
pub proof fn lemma_connectors_seq_in_range(r: ConRect, n: int)
    requires
        connectors_in_range(r, n),
    ensures
        forall|t: int|
            0 <= t < r.connectors_seq().len() ==> ((#[trigger] r.connectors_seq()[t]) as int) < n,
{
    let s = r.connectors_seq();
    let a = crate::rect::opt_con_seq(r.left_con);
    let b = crate::rect::opt_con_seq(r.right_con);
    let c = crate::rect::opt_con_seq(r.top_con);
    let d = crate::rect::opt_con_seq(r.bottom_con);
    assert forall|t: int| 0 <= t < s.len() implies ((#[trigger] s[t]) as int) < n by {
        if t < a.len() {
            assert(s[t] == a[0]);
        } else if t < a.len() + b.len() {
            assert(s[t] == b[0]);
        } else if t < a.len() + b.len() + c.len() {
            assert(s[t] == c[0]);
        } else {
            assert(s[t] == d[0]);
        }
    }
}

/// The routing grid: the interval lists that generated the lattice and the
/// node list, connector nodes included.
pub struct Grid {
    pub intervals_x: Vec<i64>,
    pub intervals_y: Vec<i64>,
    pub points: Vec<GridPoint>,
}

impl Grid {
    /// The model of this grid's node list.
    pub open spec fn nodes(self) -> Seq<NodeModel> {
        nodes_view(self.points@)
    }

    /// Structural invariant of every grid this library hands out.
    pub open spec fn wf(self) -> bool {
        &&& strictly_increasing(self.intervals_x@)
        &&& strictly_increasing(self.intervals_y@)
        &&& wf_nodes(self.nodes())
        &&& symmetric(self.nodes())
        &&& distinct_positions(self.nodes())
    }

    /// Build the routing grid for the given rectangles: derive the interval
    /// lists from the base ticks plus each rectangle's center coordinates,
    /// materialize the lattice, then splice one connector node per rectangle
    /// side into the lattice, writing the connector indices back onto the
    /// rectangles.  A side whose probe lies on no lattice edge keeps `None`.
    pub fn new(con_rects: &mut Vec<ConRect>) -> (g: Grid)
        requires
            old(con_rects)@.len() <= MAX_RECTS,
            forall|i: int|
                0 <= i < old(con_rects)@.len() ==> (#[trigger] old(con_rects)@[i]).geom_ok(),
        ensures
            g.wf(),
            g.intervals_x@ == intervals_after(
                old(con_rects)@,
                old(con_rects)@.len() as int,
                false,
            ),
            g.intervals_y@ == intervals_after(old(con_rects)@, old(con_rects)@.len() as int, true),
            final(con_rects)@.len() == old(con_rects)@.len(),
            forall|i: int|
                0 <= i < old(con_rects)@.len() ==> (#[trigger] final(con_rects)@[i]).same_geom(
                    old(con_rects)@[i],
                ),
            forall|i: int|
                0 <= i < final(con_rects)@.len() ==> connectors_in_range(
                    #[trigger] final(con_rects)@[i],
                    nodes_view(g.points@).len() as int,
                ),
            built_from(old(con_rects)@, g, final(con_rects)@),
    {
        let ghost rects0 = con_rects@;
        let mut intervals_x = base_ticks();
        let mut intervals_y = base_ticks();
        let n_rects = con_rects.len();
        let mut ri: usize = 0;
        while ri < n_rects
            invariant
                con_rects@ == rects0,
                n_rects == rects0.len(),
                ri <= n_rects,
                rects0.len() <= MAX_RECTS,
                forall|i: int| 0 <= i < rects0.len() ==> (#[trigger] rects0[i]).geom_ok(),
                intervals_x@ == intervals_after(rects0, ri as int, false),
                intervals_y@ == intervals_after(rects0, ri as int, true),
            decreases n_rects - ri,
        {
            let r_x = con_rects[ri].x;
            let r_y = con_rects[ri].y;
            let r_w = con_rects[ri].width;
            let r_h = con_rects[ri].height;
            proof {
                assert(rects0[ri as int].geom_ok());
            }
            let cx = r_x + ((r_w as u64 / 2) as i64);
            let cy = r_y + ((r_h as u64 / 2) as i64);
            proof {
                assert(cx == center_i64(rects0[ri as int], false));
                assert(cy == center_i64(rects0[ri as int], true));
            }
            insert_interval(&mut intervals_x, cx);
            insert_interval(&mut intervals_y, cy);
            ri = ri + 1;
        }
        proof {
            lemma_intervals_after_props(rects0, n_rects as int, false);
            lemma_intervals_after_props(rects0, n_rects as int, true);
        }
        let mut points = build_lattice(&intervals_x, &intervals_y);
        let n_lattice = points.len();
        let ghost lat = nodes_view(points@);
        let ghost ixs = intervals_x@;
        let ghost iys = intervals_y@;
        proof {
            assert(nodes_view(points@).len() == n_lattice as int);
            lemma_lattice_wf(nodes_view(points@), intervals_x@, intervals_y@);
            assert((intervals_x@.len() as int) * (intervals_y@.len() as int) <= 1010 * 1010)
                by (nonlinear_arith)
                requires
                    0 <= intervals_x@.len() <= 1010,
                    0 <= intervals_y@.len() <= 1010,
            ;
        }
        let mut ri: usize = 0;
        while ri < n_rects
            invariant
                n_rects == con_rects@.len(),
                con_rects@.len() == rects0.len(),
                ri <= n_rects,
                rects0.len() <= MAX_RECTS,
                forall|i: int| 0 <= i < rects0.len() ==> (#[trigger] rects0[i]).geom_ok(),
                forall|i: int|
                    0 <= i < rects0.len() ==> (#[trigger] con_rects@[i]).same_geom(rects0[i]),
                wf_nodes(nodes_view(points@)),
                symmetric(nodes_view(points@)),
                distinct_positions(nodes_view(points@)),
                points@.len() <= 1020100 + 4 * ri,
                forall|i: int|
                    0 <= i < ri ==> connectors_in_range(
                        #[trigger] con_rects@[i],
                        points@.len() as int,
                    ),
                built_rel(lat, rects0, ri as int, nodes_view(points@), con_rects@),
            decreases n_rects - ri,
        {
            let ghost ns_a = nodes_view(points@);
            let ghost rects_a = con_rects@;
            let r_x = con_rects[ri].x;
            let r_y = con_rects[ri].y;
            let r_w = con_rects[ri].width;
            let r_h = con_rects[ri].height;
            proof {
                assert(con_rects@[ri as int].same_geom(rects0[ri as int]));
                assert(rects0[ri as int].geom_ok());
            }
            let half_w = (r_w as u64 / 2) as i64;
            let half_h = (r_h as u64 / 2) as i64;
            let m2 = 2 * COLLISION_MARGIN;
            let left_con = insert_intersection(&mut points, r_x - m2, r_y + half_h, false);
            let ghost ns_b = nodes_view(points@);
            let right_con = insert_intersection(&mut points, r_x + r_w + m2, r_y + half_h, false);
            let ghost ns_c = nodes_view(points@);
            let top_con = insert_intersection(&mut points, r_x + half_w, r_y - m2, true);
            let ghost ns_d = nodes_view(points@);
            let bottom_con = insert_intersection(&mut points, r_x + half_w, r_y + r_h + m2, true);
            let new_rect = ConRect {
                x: r_x,
                y: r_y,
                width: r_w,
                height: r_h,
                left_con,
                right_con,
                top_con,
                bottom_con,
            };
            con_rects.set(ri, new_rect);
            proof {
                let r0 = rects0[ri as int];
                assert(r_x - m2 == probe_left(r0).0 && r_y + half_h == probe_left(r0).1);
                assert(r_x + r_w + m2 == probe_right(r0).0 && r_y + half_h == probe_right(r0).1);
                assert(r_x + half_w == probe_top(r0).0 && r_y - m2 == probe_top(r0).1);
                assert(r_x + half_w == probe_bottom(r0).0 && r_y + r_h + m2 == probe_bottom(r0).1);
                assert(split_rel(ns_a, probe_left(r0).0, probe_left(r0).1, false, ns_b, new_rect.left_con));
                assert(split_rel(ns_b, probe_right(r0).0, probe_right(r0).1, false, ns_c, new_rect.right_con));
                assert(split_rel(ns_c, probe_top(r0).0, probe_top(r0).1, true, ns_d, new_rect.top_con));
                assert(split_rel(ns_d, probe_bottom(r0).0, probe_bottom(r0).1, true, nodes_view(points@), new_rect.bottom_con));
                assert(new_rect.same_geom(r0));
                assert(probe_stages(ns_b, ns_c, ns_d));
                assert(rect_probe_rel(ns_a, r0, nodes_view(points@), new_rect));
                assert(con_rects@ == rects_a.update(ri as int, new_rect));
                lemma_built_rel_step(
                    lat,
                    rects0,
                    ri as int + 1,
                    ns_a,
                    rects_a,
                    nodes_view(points@),
                    new_rect,
                );
                assert(built_rel(lat, rects0, ri as int + 1, nodes_view(points@), con_rects@));
                assert(connectors_in_range(new_rect, points@.len() as int));
                assert forall|i: int| 0 <= i < ri + 1 implies connectors_in_range(
                    #[trigger] con_rects@[i],
                    points@.len() as int,
                ) by {}
                assert forall|i: int|
                    0 <= i < rects0.len() implies (#[trigger] con_rects@[i]).same_geom(
                    rects0[i],
                ) by {}
            }
            ri = ri + 1;
        }
        let g = Grid { intervals_x, intervals_y, points };
        proof {
            assert(g.intervals_x@ == ixs && g.intervals_y@ == iys);
            assert(lattice_nodes_ok(lat, g.intervals_x@, g.intervals_y@));
            assert(built_rel(lat, rects0, rects0.len() as int, g.nodes(), con_rects@));
            assert(built_from(rects0, g, con_rects@));
        }
        g
    }
}

} // verus!
