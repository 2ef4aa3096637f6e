//! Uniform-cost search over the routing grid, with per-query obstruction
//! masking and a hard iteration bound.

use crate::grid::connectors_in_range;
use crate::grid::coord_ok;
use crate::grid::edge;
use crate::grid::Grid;
use crate::grid::NodeModel;
use crate::rect::ConRect;
use vstd::prelude::*;

verus! {

/// Square of an integer.
pub open spec fn sq(a: int) -> int {
    a * a
}

/// Integer square root: the largest `r` with `r * r <= n`.
pub open spec fn sqrt_floor(n: nat) -> nat
    decreases n,
{
    if n == 0 {
        0
    } else {
        let r = sqrt_floor((n - 1) as nat);
        if (r + 1) * (r + 1) <= n {
            r + 1
        } else {
            r
        }
    }
}

pub proof fn lemma_sqrt_floor(n: nat)
    ensures
        sqrt_floor(n) * sqrt_floor(n) <= n,
        n < (sqrt_floor(n) + 1) * (sqrt_floor(n) + 1),
    decreases n,
{
    let s = sqrt_floor(n);
    if n == 0 {
        assert(s == 0);
        assert(s * s <= n && n < (s + 1) * (s + 1)) by (nonlinear_arith)
            requires
                s == 0,
                n == 0,
        ;
    } else {
        lemma_sqrt_floor((n - 1) as nat);
        let r = sqrt_floor((n - 1) as nat);
        if (r + 1) * (r + 1) <= n {
            assert(s == r + 1);
            assert(s * s <= n && n < (s + 1) * (s + 1)) by (nonlinear_arith)
                requires
                    s == r + 1,
                    (r + 1) * (r + 1) <= n,
                    n - 1 < (r + 1) * (r + 1),
                    r >= 0,
                    n >= 1,
            ;
        } else {
            assert(s == r);
            assert(s * s <= n && n < (s + 1) * (s + 1)) by (nonlinear_arith)
                requires
                    s == r,
                    r * r <= n - 1,
                    !((r + 1) * (r + 1) <= n),
                    n >= 1,
            ;
        }
    }
}

/// The integer square root is pinned by its bracketing window.
pub proof fn lemma_sqrt_floor_unique(n: nat, r: nat)
    requires
        r * r <= n,
        n < (r + 1) * (r + 1),
    ensures
        r == sqrt_floor(n),
{
    lemma_sqrt_floor(n);
    let s = sqrt_floor(n);
    if r < s {
        assert((r + 1) * (r + 1) <= s * s) by (nonlinear_arith)
            requires
                0 <= r + 1 <= s,
        ;
    }
    if s < r {
        assert((s + 1) * (s + 1) <= r * r) by (nonlinear_arith)
            requires
                0 <= s + 1 <= r,
        ;
    }
}

/// Largest `r` with `r * r <= n`, by bisection.
fn isqrt(n: u64) -> (r: u64)
    requires
        n <= 9_000_000_000_000_000_000,
    ensures
        r as nat == sqrt_floor(n as nat),
        r <= 3_000_000_000,
{
    let mut lo: u64 = 0;
    let mut hi: u64 = 3_000_000_000;
    proof {
        assert((3_000_000_001 as int) * (3_000_000_001 as int) > 9_000_000_000_000_000_000 as int)
            by (nonlinear_arith);
    }
    while lo < hi
        invariant
            n <= 9_000_000_000_000_000_000,
            lo <= hi <= 3_000_000_000,
            (lo as nat) * (lo as nat) <= n as nat,
            (n as nat) < ((hi as nat) + 1) * ((hi as nat) + 1),
        decreases hi - lo,
    {
        let mid = lo + (hi - lo + 1) / 2;
        proof {
            assert((mid as int) * (mid as int) <= (3_000_000_000 as int) * (3_000_000_000 as int))
                by (nonlinear_arith)
                requires
                    0 <= (mid as int) <= 3_000_000_000,
            ;
        }
        let sqm = mid * mid;
        if sqm <= n {
            lo = mid;
        } else {
            hi = mid - 1;
        }
    }
    proof {
        lemma_sqrt_floor_unique(n as nat, lo as nat);
    }
    lo
}

/// Euclidean distance between two points, rounded down to an integer.
pub open spec fn dist_coords(x1: i64, y1: i64, x2: i64, y2: i64) -> nat {
    sqrt_floor((sq(x1 - x2) + sq(y1 - y2)) as nat)
}

/// Largest cost a single edge between in-range coordinates can have.
pub const MAX_EDGE_COST: u64 = 1_000_000_000;

/// Edge cost between two in-range points.
fn node_distance(x1: i64, y1: i64, x2: i64, y2: i64) -> (d: u64)
    requires
        coord_ok(x1),
        coord_ok(y1),
        coord_ok(x2),
        coord_ok(y2),
    ensures
        d as nat == dist_coords(x1, y1, x2, y2),
        d <= MAX_EDGE_COST,
{
    let dx = if x1 >= x2 {
        x1 - x2
    } else {
        x2 - x1
    };
    let dy = if y1 >= y2 {
        y1 - y2
    } else {
        y2 - y1
    };
    proof {
        assert((dx as int) * (dx as int) == sq(x1 - x2)) by (nonlinear_arith)
            requires
                (dx as int) == (x1 - x2) || (dx as int) == (x2 - x1),
        ;
        assert((dy as int) * (dy as int) == sq(y1 - y2)) by (nonlinear_arith)
            requires
                (dy as int) == (y1 - y2) || (dy as int) == (y2 - y1),
        ;
        assert((dx as int) * (dx as int) <= (600_000_000 as int) * (600_000_000 as int))
            by (nonlinear_arith)
            requires
                0 <= (dx as int) <= 600_000_000,
        ;
        assert((dy as int) * (dy as int) <= (600_000_000 as int) * (600_000_000 as int))
            by (nonlinear_arith)
            requires
                0 <= (dy as int) <= 600_000_000,
        ;
    }
    let dx2 = (dx as u64) * (dx as u64);
    let dy2 = (dy as u64) * (dy as u64);
    let s = dx2 + dy2;
    let r = isqrt(s);
    proof {
        if r > MAX_EDGE_COST {
            assert((r as int) * (r as int) >= (1_000_000_001 as int) * (1_000_000_001 as int))
                by (nonlinear_arith)
                requires
                    (r as int) >= 1_000_000_001,
            ;
            lemma_sqrt_floor(s as nat);
            assert(false);
        }
    }
    r
}

/// The node at `(x, y)` lies inside the margin-expanded box of rectangle `r`.
pub open spec fn in_obstruction(r: ConRect, x: i64, y: i64) -> bool {
    &&& r.x - COLLISION_MARGIN <= x < r.x + r.width + COLLISION_MARGIN
    &&& r.y - COLLISION_MARGIN <= y < r.y + r.height + COLLISION_MARGIN
}

/// The node at `(x, y)` is obstructed by some rectangle of the list.
pub open spec fn obstructed(rects: Seq<ConRect>, x: i64, y: i64) -> bool {
    exists|i: int| 0 <= i < rects.len() && in_obstruction(#[trigger] rects[i], x, y)
}

/// Clearance kept around every rectangle's footprint when deciding which
/// nodes a search may traverse.  Connector probes sit at twice this distance
/// from the rectangle's edge, so a rectangle's own connectors clear its own
/// obstruction box.
pub const COLLISION_MARGIN: i64 = 2;

/// Hard bound on relaxation steps, and separately on reconstruction hops.
pub const SEARCH_ITER_LIMIT: u64 = 1000;

/// Why a search was aborted.
#[derive(Clone, Copy, Debug, PartialEq, Eq, Structural)]
pub enum SearchReason {
    /// The relaxation loop exceeded the iteration bound.
    IterationsExceeded,
    /// Path reconstruction exceeded the iteration bound, which indicates a
    /// predecessor-chain anomaly rather than mere graph size.
    ReconstructionExceeded,
}

/// An aborted search: the reason it was cut off, together with the
/// diagnostics that are retained regardless of outcome — the visited map as
/// far as the search got, and the connector sets it was seeded and aimed
/// with.
#[derive(Debug)]
pub struct SearchError {
    pub reason: SearchReason,
    pub visited: Vec<Option<VisitedNode>>,
    pub start_nodes: Vec<usize>,
    pub goal_nodes: Vec<usize>,
}

/// Best known cost from a search source, and the node it was reached from
/// (`None` for a source).
#[derive(Clone, Copy, Debug)]
pub struct VisitedNode {
    pub cost: u64,
    pub came_from: Option<usize>,
}

impl VisitedNode {
    pub fn new(cost: u64, came_from: Option<usize>) -> (r: VisitedNode)
        ensures
            r.cost == cost,
            r.came_from == came_from,
    {
        VisitedNode { cost, came_from }
    }
}

/// Everything one search hands back: the winning path in goal-to-source
/// order (`None` when no route exists, or when the search was not
/// attempted), the visited map for diagnostics, and the connector sets used
/// for seeding and acceptance.
pub struct PathResult {
    pub path: Option<Vec<usize>>,
    pub visited: Vec<Option<VisitedNode>>,
    pub start_nodes: Vec<usize>,
    pub goal_nodes: Vec<usize>,
}

/// One visited entry is consistent with the graph, the obstruction set and
/// the seed set: a root entry is an unobstructed zero-cost seed, and a
/// derived entry was reached over an edge from its predecessor, costs at
/// least the predecessor's cost plus that edge, and is not obstructed.  So
/// no discovered node at all is obstructed.
pub open spec fn visited_entry_sound(
    ns: Seq<NodeModel>,
    rects: Seq<ConRect>,
    starts: Seq<usize>,
    vis: Seq<Option<VisitedNode>>,
    j: int,
) -> bool {
    vis[j] is Some ==> match vis[j]->0.came_from {
        Option::None => vis[j]->0.cost == 0 && starts.contains(j as usize) && 0 <= j < ns.len()
            && !obstructed(rects, ns[j].x, ns[j].y),
        Option::Some(p) => {
            &&& (p as int) < ns.len()
            &&& vis[p as int] is Some
            &&& vis[p as int]->0.cost as nat + dist_coords(
                ns[p as int].x,
                ns[p as int].y,
                ns[j].x,
                ns[j].y,
            ) <= vis[j]->0.cost as nat
            &&& edge(ns, p as int, j)
            &&& !obstructed(rects, ns[j].x, ns[j].y)
        },
    }
}

/// The whole visited map is consistent.
pub open spec fn visited_sound(
    ns: Seq<NodeModel>,
    rects: Seq<ConRect>,
    starts: Seq<usize>,
    vis: Seq<Option<VisitedNode>>,
) -> bool {
    &&& vis.len() == ns.len()
    &&& forall|j: int| 0 <= j < vis.len() ==> #[trigger] visited_entry_sound(ns, rects, starts, vis, j)
}

/// The reported path follows the visited map's predecessor chain from a goal
/// connector back to a zero-cost source seed.
pub open spec fn path_follows_visited(
    ns: Seq<NodeModel>,
    starts: Seq<usize>,
    goals: Seq<usize>,
    vis: Seq<Option<VisitedNode>>,
    p: Seq<usize>,
) -> bool {
    &&& p.len() >= 1
    &&& goals.contains(p[0])
    &&& starts.contains(p[p.len() - 1])
    &&& forall|t: int| 0 <= t < p.len() ==> (#[trigger] p[t] as int) < vis.len() && vis[p[t] as int] is Some
    &&& forall|t: int|
        0 <= t < p.len() - 1 ==> vis[#[trigger] p[t] as int]->0.came_from == Some(p[t + 1])
    &&& vis[p[p.len() - 1] as int]->0.came_from is None
}

/// A route the search could report: it begins at a source connector, ends at
/// a goal connector, follows edges of the graph, and avoids every
/// obstruction box throughout.
pub open spec fn is_route(
    ns: Seq<NodeModel>,
    rects: Seq<ConRect>,
    starts: Seq<usize>,
    goals: Seq<usize>,
    p: Seq<usize>,
) -> bool {
    &&& p.len() >= 1
    &&& starts.contains(p[0])
    &&& goals.contains(p[p.len() - 1])
    &&& forall|t: int| 0 <= t < p.len() ==> (#[trigger] p[t] as int) < ns.len()
    &&& forall|t: int| 0 <= t < p.len() - 1 ==> edge(ns, #[trigger] p[t] as int, p[t + 1] as int)
    &&& forall|t: int|
        0 <= t < p.len() ==> !obstructed(rects, ns[#[trigger] p[t] as int].x, ns[p[t] as int].y)
}

/// Every unobstructed start connector is recorded as a zero-cost root entry
/// of the visited map; obstructed start connectors are never seeded.
pub open spec fn seeds_recorded(
    ns: Seq<NodeModel>,
    rects: Seq<ConRect>,
    starts: Seq<usize>,
    vis: Seq<Option<VisitedNode>>,
) -> bool {
    forall|t: int|
        0 <= t < starts.len() ==> ((#[trigger] starts[t]) as int) < vis.len() && (!obstructed(
            rects,
            ns[starts[t] as int].x,
            ns[starts[t] as int].y,
        ) ==> vis[starts[t] as int] is Some && vis[starts[t] as int]->0.cost == 0
            && vis[starts[t] as int]->0.came_from is None)
}

/// Some route from the seeds to the goals exists.
pub open spec fn route_exists(
    ns: Seq<NodeModel>,
    rects: Seq<ConRect>,
    starts: Seq<usize>,
    goals: Seq<usize>,
) -> bool {
    exists|p: Seq<usize>| is_route(ns, rects, starts, goals, p)
}

/// The final map of an exhausted search is a relaxation fixpoint: no edge
/// out of a discovered node could improve an unobstructed neighbor beyond
/// what the map records.
pub open spec fn relaxation_complete(
    ns: Seq<NodeModel>,
    rects: Seq<ConRect>,
    vis: Seq<Option<VisitedNode>>,
) -> bool {
    forall|j: int, m: int|
        #[trigger] edge(ns, j, m) && 0 <= j < vis.len() && vis[j] is Some && 0 <= m < vis.len()
            && !obstructed(rects, ns[m].x, ns[m].y) ==> vis[m] is Some && vis[m]->0.cost as nat
            <= vis[j]->0.cost as nat + dist_coords(ns[j].x, ns[j].y, ns[m].x, ns[m].y)
}

/// Like `relaxation_complete`, but only for the settled nodes.
pub open spec fn done_closed_cost(
    ns: Seq<NodeModel>,
    rects: Seq<ConRect>,
    vis: Seq<Option<VisitedNode>>,
    done: Set<int>,
) -> bool {
    forall|j: int, m: int|
        #[trigger] edge(ns, j, m) && done.contains(j) && 0 <= j < vis.len() && vis[j] is Some && 0
            <= m < vis.len() && !obstructed(rects, ns[m].x, ns[m].y) ==> vis[m] is Some
            && vis[m]->0.cost as nat <= vis[j]->0.cost as nat + dist_coords(
            ns[j].x,
            ns[j].y,
            ns[m].x,
            ns[m].y,
        )
}

/// Every settled node's unobstructed neighbors have been discovered.
pub open spec fn done_closed(
    ns: Seq<NodeModel>,
    rects: Seq<ConRect>,
    vis: Seq<Option<VisitedNode>>,
    done: Set<int>,
) -> bool {
    forall|j: int, m: int|
        #[trigger] edge(ns, j, m) && done.contains(j) && 0 <= m < vis.len() && !obstructed(
            rects,
            ns[m].x,
            ns[m].y,
        ) ==> vis[m] is Some
}

/// On a path that follows a sound visited map, the recorded cost never
/// decreases when the path is walked from the source end to the goal end:
/// each hop towards the goal costs at least the edge's length more.
pub proof fn lemma_path_cost_monotone(
    ns: Seq<NodeModel>,
    rects: Seq<ConRect>,
    starts: Seq<usize>,
    goals: Seq<usize>,
    vis: Seq<Option<VisitedNode>>,
    p: Seq<usize>,
    t: int,
)
    requires
        visited_sound(ns, rects, starts, vis),
        path_follows_visited(ns, starts, goals, vis, p),
        0 <= t < p.len() - 1,
    ensures
        vis[p[t + 1] as int]->0.cost as nat + dist_coords(
            ns[p[t + 1] as int].x,
            ns[p[t + 1] as int].y,
            ns[p[t] as int].x,
            ns[p[t] as int].y,
        ) <= vis[p[t] as int]->0.cost as nat,
        vis[p[t + 1] as int]->0.cost <= vis[p[t] as int]->0.cost,
{
    assert(visited_entry_sound(ns, rects, starts, vis, p[t] as int));
}

/// Every node of a reported path lies
/// outside all obstruction boxes — the source seed at its end included,
/// since obstructed connectors are never seeded.
pub proof fn lemma_path_avoids_obstructions(
    ns: Seq<NodeModel>,
    rects: Seq<ConRect>,
    starts: Seq<usize>,
    goals: Seq<usize>,
    vis: Seq<Option<VisitedNode>>,
    p: Seq<usize>,
    t: int,
)
    requires
        visited_sound(ns, rects, starts, vis),
        path_follows_visited(ns, starts, goals, vis, p),
        0 <= t < p.len(),
    ensures
        !obstructed(rects, ns[p[t] as int].x, ns[p[t] as int].y),
        t < p.len() - 1 ==> edge(ns, p[t + 1] as int, p[t] as int),
{
    assert(visited_entry_sound(ns, rects, starts, vis, p[t] as int));
}

/// Total edge cost of a node sequence, hop by hop.
pub open spec fn path_cost(ns: Seq<NodeModel>, p: Seq<usize>) -> nat
    decreases p.len(),
{
    if p.len() <= 1 {
        0
    } else {
        dist_coords(
            ns[p[0] as int].x,
            ns[p[0] as int].y,
            ns[p[1] as int].x,
            ns[p[1] as int].y,
        ) + path_cost(ns, p.drop_first())
    }
}

/// Distance does not depend on the order of its endpoints.
pub proof fn lemma_dist_symmetric(x1: i64, y1: i64, x2: i64, y2: i64)
    ensures
        dist_coords(x1, y1, x2, y2) == dist_coords(x2, y2, x1, y1),
{
    assert(sq(x1 - x2) == sq(x2 - x1)) by (nonlinear_arith);
    assert(sq(y1 - y2) == sq(y2 - y1)) by (nonlinear_arith);
}

proof fn lemma_chain_cost(
    ns: Seq<NodeModel>,
    rects: Seq<ConRect>,
    starts: Seq<usize>,
    vis: Seq<Option<VisitedNode>>,
    p: Seq<usize>,
)
    requires
        visited_sound(ns, rects, starts, vis),
        p.len() >= 1,
        forall|t: int| 0 <= t < p.len() ==> (#[trigger] p[t] as int) < vis.len() && vis[p[t] as int] is Some,
        forall|t: int|
            0 <= t < p.len() - 1 ==> vis[#[trigger] p[t] as int]->0.came_from == Some(p[t + 1]),
        vis[p[p.len() - 1] as int]->0.came_from is None,
    ensures
        path_cost(ns, p) <= vis[p[0] as int]->0.cost as nat,
    decreases p.len(),
{
    assert(visited_entry_sound(ns, rects, starts, vis, p[0] as int));
    if p.len() == 1 {
    } else {
        let q = p.drop_first();
        assert(vis[p[0] as int]->0.came_from == Some(p[1]));
        assert forall|t: int|
            0 <= t < q.len() implies (#[trigger] q[t] as int) < vis.len() && vis[q[t] as int] is Some by {
            assert(q[t] == p[t + 1]);
        }
        assert forall|t: int|
            0 <= t < q.len() - 1 implies vis[#[trigger] q[t] as int]->0.came_from == Some(
            q[t + 1],
        ) by {
            assert(q[t] == p[t + 1]);
            assert(q[t + 1] == p[t + 2]);
        }
        assert(q[q.len() - 1] == p[p.len() - 1]);
        lemma_chain_cost(ns, rects, starts, vis, q);
        lemma_dist_symmetric(
            ns[p[0] as int].x,
            ns[p[0] as int].y,
            ns[p[1] as int].x,
            ns[p[1] as int].y,
        );
        assert(q[0] == p[1]);
    }
}

/// The cost recorded at the goal end of a reported path accounts for the
/// whole path: it is at least the sum of the path's edge costs, and the
/// source end is free.
pub proof fn lemma_path_cost_covers_edges(
    ns: Seq<NodeModel>,
    rects: Seq<ConRect>,
    starts: Seq<usize>,
    goals: Seq<usize>,
    vis: Seq<Option<VisitedNode>>,
    p: Seq<usize>,
)
    requires
        visited_sound(ns, rects, starts, vis),
        path_follows_visited(ns, starts, goals, vis, p),
    ensures
        path_cost(ns, p) <= vis[p[0] as int]->0.cost as nat,
        vis[p[p.len() - 1] as int]->0.cost == 0,
{
    lemma_chain_cost(ns, rects, starts, vis, p);
    assert(visited_entry_sound(ns, rects, starts, vis, p[p.len() - 1] as int));
}

/// A reported path, read from its source end to its goal end, is itself a
/// route: so whenever the search reports a path, a route exists.
pub proof fn lemma_reported_path_is_route(
    ns: Seq<NodeModel>,
    rects: Seq<ConRect>,
    starts: Seq<usize>,
    goals: Seq<usize>,
    vis: Seq<Option<VisitedNode>>,
    p: Seq<usize>,
)
    requires
        visited_sound(ns, rects, starts, vis),
        path_follows_visited(ns, starts, goals, vis, p),
    ensures
        is_route(ns, rects, starts, goals, p.reverse()),
        route_exists(ns, rects, starts, goals),
{
    let q = p.reverse();
    let n = p.len() as int;
    assert(q.len() == n);
    assert(q[0] == p[n - 1]);
    assert(q[n - 1] == p[0]);
    assert forall|t: int| 0 <= t < q.len() implies (#[trigger] q[t] as int) < ns.len() by {
        assert(q[t] == p[n - 1 - t]);
    }
    assert forall|t: int| 0 <= t < q.len() - 1 implies edge(
        ns,
        #[trigger] q[t] as int,
        q[t + 1] as int,
    ) by {
        assert(q[t] == p[n - 1 - t]);
        assert(q[t + 1] == p[n - 2 - t]);
        assert(visited_entry_sound(ns, rects, starts, vis, p[n - 2 - t] as int));
        assert(vis[p[n - 2 - t] as int]->0.came_from == Some(p[n - 1 - t]));
    }
    assert forall|t: int| 0 <= t < q.len() implies !obstructed(
        rects,
        ns[#[trigger] q[t] as int].x,
        ns[q[t] as int].y,
    ) by {
        assert(q[t] == p[n - 1 - t]);
        assert(visited_entry_sound(ns, rects, starts, vis, p[n - 1 - t] as int));
        if 1 <= t {
            assert(vis[p[n - 1 - t] as int]->0.came_from == Some(p[n - t]));
        }
    }
    assert(is_route(ns, rects, starts, goals, q));
}

/// If every source seed is discovered and the discovered set is closed under
/// unobstructed edges, then every node along a route is discovered.
proof fn lemma_route_reaches(
    ns: Seq<NodeModel>,
    rects: Seq<ConRect>,
    starts: Seq<usize>,
    goals: Seq<usize>,
    vis: Seq<Option<VisitedNode>>,
    done: Set<int>,
    p: Seq<usize>,
    t: int,
)
    requires
        is_route(ns, rects, starts, goals, p),
        0 <= t < p.len(),
        vis.len() == ns.len(),
        done_closed(ns, rects, vis, done),
        forall|j: int| 0 <= j < vis.len() && #[trigger] vis[j] is Some ==> done.contains(j),
        seeds_recorded(ns, rects, starts, vis),
    ensures
        vis[p[t] as int] is Some,
    decreases t,
{
    if t == 0 {
        let si = choose|si: int| 0 <= si < starts.len() && starts[si] == p[0];
        assert(!obstructed(rects, ns[p[0] as int].x, ns[p[0] as int].y));
        assert(vis[starts[si] as int] is Some);
    } else {
        lemma_route_reaches(ns, rects, starts, goals, vis, done, p, t - 1);
        assert(done.contains(p[t - 1] as int));
        assert(edge(ns, p[t - 1] as int, p[t] as int));
        assert(!obstructed(rects, ns[p[t] as int].x, ns[p[t] as int].y));
    }
}

/// Frontier entry: a candidate node with the cost it was queued at and the
/// node it was reached from.
#[derive(Clone, Copy)]
pub struct SearchNode {
    pub id: usize,
    pub cost: u64,
    pub came_from: Option<usize>,
}

/// One snapshot of a search in flight: the visited map and the frontier.
#[verifier::ext_equal]
pub struct SearchState {
    pub vis: Seq<Option<VisitedNode>>,
    pub fr: Seq<SearchNode>,
}

/// A freshly seeded search state: the visited map holds exactly the
/// unobstructed start connectors as zero-cost roots, and every frontier
/// entry is such a seed.
pub open spec fn seeded_state(
    ns: Seq<NodeModel>,
    rects: Seq<ConRect>,
    starts: Seq<usize>,
    st: SearchState,
) -> bool {
    &&& st.vis.len() == ns.len()
    &&& seeds_recorded(ns, rects, starts, st.vis)
    &&& forall|j: int|
        0 <= j < st.vis.len() && (#[trigger] st.vis[j]) is Some ==> st.vis[j]->0.cost == 0
            && st.vis[j]->0.came_from is None && starts.contains(j as usize) && !obstructed(
            rects,
            ns[j].x,
            ns[j].y,
        )
    &&& forall|fi: int|
        0 <= fi < st.fr.len() ==> (#[trigger] st.fr[fi]).cost == 0 && st.fr[fi].came_from is None
            && ((st.fr[fi].id as int) < st.vis.len() && st.vis[st.fr[fi].id as int] is Some)
    &&& forall|j: int|
        0 <= j < st.vis.len() && (#[trigger] st.vis[j]) is Some ==> exists|fi: int|
            0 <= fi < st.fr.len() && (#[trigger] st.fr[fi]).id as int == j
}

/// What relaxing the `k`-th neighbor of the popped entry `e` does to the
/// state: an obstructed neighbor is skipped; otherwise the offer
/// `e.cost + edge` replaces a missing or strictly worse entry and queues a
/// matching frontier entry, and is dropped otherwise.
pub open spec fn relax_one(
    ns: Seq<NodeModel>,
    rects: Seq<ConRect>,
    st: SearchState,
    e: SearchNode,
    k: int,
    st2: SearchState,
) -> bool {
    &&& (e.id as int) < ns.len()
    &&& 0 <= k < ns[e.id as int].adj.len()
    &&& ({
        let m = ns[e.id as int].adj[k] as int;
        let offer = e.cost as nat + dist_coords(
            ns[e.id as int].x,
            ns[e.id as int].y,
            ns[m].x,
            ns[m].y,
        );
        if obstructed(rects, ns[m].x, ns[m].y) || m >= st.vis.len() {
            st2 == st
        } else if st.vis[m] is None || offer < st.vis[m]->0.cost as nat {
            &&& st2.vis == st.vis.update(
                m,
                Some(VisitedNode { cost: offer as u64, came_from: Some(e.id) }),
            )
            &&& st2.fr == st.fr.push(
                SearchNode { id: ns[e.id as int].adj[k], cost: offer as u64, came_from: Some(e.id) },
            )
        } else {
            st2 == st
        }
    })
}

/// Marker naming the intermediate state of a relaxation sweep; it carries no
/// condition and only guides the prover to it.
pub open spec fn relax_stage(st: SearchState) -> bool {
    true
}

/// The state after the popped entry `e` relaxed its first `k` neighbors in
/// list order.
pub open spec fn relaxed_from(
    ns: Seq<NodeModel>,
    rects: Seq<ConRect>,
    st: SearchState,
    e: SearchNode,
    k: int,
    st2: SearchState,
) -> bool
    decreases k,
{
    if k <= 0 {
        st2 == st
    } else {
        exists|stp: SearchState|
            #![trigger relax_stage(stp)]
            {
                &&& relax_stage(stp)
                &&& relaxed_from(ns, rects, st, e, k - 1, stp)
                &&& relax_one(ns, rects, stp, e, k - 1, st2)
            }
    }
}

/// Marker naming one full step of the search; it carries no condition and
/// only guides the prover to its witnesses.
pub open spec fn search_step(st1: SearchState, e: SearchNode, mi: int) -> bool {
    true
}

/// `n_steps` full relaxation steps of the bounded uniform-cost search, from
/// state `st0`: each step removes a cheapest frontier entry that is not a
/// goal connector and relaxes all of its neighbors in order.
pub open spec fn steps_rel(
    ns: Seq<NodeModel>,
    rects: Seq<ConRect>,
    goals: Seq<usize>,
    st0: SearchState,
    n_steps: int,
    st2: SearchState,
) -> bool
    decreases n_steps,
{
    if n_steps <= 0 {
        st2 == st0
    } else {
        exists|st1: SearchState, e: SearchNode, mi: int|
            #![trigger search_step(st1, e, mi)]
            {
                &&& search_step(st1, e, mi)
                &&& steps_rel(ns, rects, goals, st0, n_steps - 1, st1)
                &&& 0 <= mi < st1.fr.len()
                &&& st1.fr[mi] == e
                &&& forall|fi: int| 0 <= fi < st1.fr.len() ==> e.cost <= (#[trigger] st1.fr[fi]).cost
                &&& !goals.contains(e.id)
                &&& (e.id as int) < ns.len()
                &&& relaxed_from(
                    ns,
                    rects,
                    SearchState { vis: st1.vis, fr: st1.fr.remove(mi) },
                    e,
                    ns[e.id as int].adj.len() as int,
                    st2,
                )
            }
    }
}

/// One inductive step of `relaxed_from`, with the witness spelled out.
pub proof fn lemma_relaxed_from_step(
    ns: Seq<NodeModel>,
    rects: Seq<ConRect>,
    st: SearchState,
    e: SearchNode,
    k: int,
    stp: SearchState,
    st2: SearchState,
)
    requires
        0 < k,
        relaxed_from(ns, rects, st, e, k - 1, stp),
        relax_one(ns, rects, stp, e, k - 1, st2),
    ensures
        relaxed_from(ns, rects, st, e, k, st2),
{
    assert(relax_stage(stp));
}

/// One inductive step of `steps_rel`, with the witnesses spelled out.
pub proof fn lemma_steps_rel_step(
    ns: Seq<NodeModel>,
    rects: Seq<ConRect>,
    goals: Seq<usize>,
    st0: SearchState,
    n_steps: int,
    st1: SearchState,
    e: SearchNode,
    mi: int,
    st2: SearchState,
)
    requires
        0 < n_steps,
        steps_rel(ns, rects, goals, st0, n_steps - 1, st1),
        0 <= mi < st1.fr.len(),
        st1.fr[mi] == e,
        forall|fi: int| 0 <= fi < st1.fr.len() ==> e.cost <= (#[trigger] st1.fr[fi]).cost,
        !goals.contains(e.id),
        (e.id as int) < ns.len(),
        relaxed_from(
            ns,
            rects,
            SearchState { vis: st1.vis, fr: st1.fr.remove(mi) },
            e,
            ns[e.id as int].adj.len() as int,
            st2,
        ),
    ensures
        steps_rel(ns, rects, goals, st0, n_steps, st2),
{
    assert(search_step(st1, e, mi));
}

/// Marker naming the two endpoint states of an exhausted run; it carries no
/// condition and only guides the prover to them.
pub open spec fn run_endpoints(st0: SearchState, stf: SearchState) -> bool {
    true
}

/// Evidence that a relaxation budget was truly spent: from some properly
/// seeded state, the search model ran one step past the iteration limit and
/// ended in the reported visited map.
pub open spec fn exhausted_run(
    ns: Seq<NodeModel>,
    rects: Seq<ConRect>,
    starts: Seq<usize>,
    goals: Seq<usize>,
    vis_final: Seq<Option<VisitedNode>>,
) -> bool {
    exists|st0: SearchState, stf: SearchState|
        #![trigger run_endpoints(st0, stf)]
        {
            &&& run_endpoints(st0, stf)
            &&& seeded_state(ns, rects, starts, st0)
            &&& steps_rel(ns, rects, goals, st0, SEARCH_ITER_LIMIT as int + 1, stf)
            &&& stf.vis == vis_final
        }
}

/// Evidence that reconstruction truly overran its own budget: the visited
/// map holds a predecessor chain longer than the limit, starting at a goal
/// connector.
pub open spec fn overlong_chain(
    ns: Seq<NodeModel>,
    goals: Seq<usize>,
    vis: Seq<Option<VisitedNode>>,
    p: Seq<usize>,
) -> bool {
    &&& p.len() == SEARCH_ITER_LIMIT as int + 2
    &&& goals.contains(p[0])
    &&& forall|t: int| 0 <= t < p.len() ==> (#[trigger] p[t] as int) < vis.len() && vis[p[t] as int] is Some
    &&& forall|t: int|
        0 <= t < p.len() - 1 ==> vis[#[trigger] p[t] as int]->0.came_from == Some(p[t + 1])
}

/// Every frontier entry refers to a discovered node and never undercuts the
/// recorded cost.
spec fn frontier_sound(vis: Seq<Option<VisitedNode>>, fr: Seq<SearchNode>) -> bool {
    forall|fi: int|
        0 <= fi < fr.len() ==> {
            &&& ((#[trigger] fr[fi]).id as int) < vis.len()
            &&& vis[fr[fi].id as int] is Some
            &&& vis[fr[fi].id as int]->0.cost <= fr[fi].cost
        }
}

/// Every discovered but unsettled node has a frontier entry carrying exactly
/// its recorded cost and predecessor.
spec fn pending_in_frontier(
    vis: Seq<Option<VisitedNode>>,
    done: Set<int>,
    fr: Seq<SearchNode>,
) -> bool {
    forall|j: int|
        0 <= j < vis.len() && (#[trigger] vis[j]) is Some && !done.contains(j) ==> exists|fi: int|
            0 <= fi < fr.len() && (#[trigger] fr[fi]).id as int == j && fr[fi].cost == vis[j]->0.cost
                && fr[fi].came_from == vis[j]->0.came_from
}

/// All recorded and queued costs are bounded by the step budget spent so
/// far.
spec fn costs_bounded(vis: Seq<Option<VisitedNode>>, fr: Seq<SearchNode>, steps: int) -> bool {
    &&& forall|j: int|
        0 <= j < vis.len() && (#[trigger] vis[j]) is Some ==> vis[j]->0.cost as int <= steps * (
        MAX_EDGE_COST as int)
    &&& forall|fi: int|
        0 <= fi < fr.len() ==> (#[trigger] fr[fi]).cost as int <= steps * (MAX_EDGE_COST as int)
}

/// Whether `x` occurs in the list.
fn contains_id(v: &Vec<usize>, x: usize) -> (b: bool)
    ensures
        b == v@.contains(x),
{
    let mut i: usize = 0;
    while i < v.len()
        invariant
            i <= v@.len(),
            forall|t: int| 0 <= t < i ==> v@[t] != x,
        decreases v@.len() - i,
    {
        if v[i] == x {
            return true;
        }
        i = i + 1;
    }
    proof {
        if v@.contains(x) {
            let t = choose|t: int| 0 <= t < v@.len() && v@[t] == x;
            assert(v@[t] != x);
        }
    }
    false
}

/// Index of a cheapest frontier entry (the first one among ties).
fn min_cost_index(frontier: &Vec<SearchNode>) -> (mi: usize)
    requires
        frontier@.len() > 0,
    ensures
        (mi as int) < frontier@.len(),
        forall|fi: int|
            0 <= fi < frontier@.len() ==> frontier@[mi as int].cost <= (#[trigger] frontier@[fi]).cost,
{
    let mut mi: usize = 0;
    let mut i: usize = 1;
    while i < frontier.len()
        invariant
            frontier@.len() > 0,
            (mi as int) < i as int,
            i <= frontier@.len(),
            forall|fi: int|
                0 <= fi < i ==> frontier@[mi as int].cost <= (#[trigger] frontier@[fi]).cost,
        decreases frontier@.len() - i,
    {
        if frontier[i].cost < frontier[mi].cost {
            mi = i;
        }
        i = i + 1;
    }
    mi
}

/// The obstruction mask for one search: for every node of the grid, whether
/// it falls inside any rectangle's margin-expanded box.  Recomputed for
/// every query, since rectangle geometry may have changed.
pub fn obstruction_mask(grid: &Grid, con_rects: &Vec<ConRect>) -> (mask: Vec<bool>)
    requires
        forall|i: int| 0 <= i < con_rects@.len() ==> (#[trigger] con_rects@[i]).geom_ok(),
    ensures
        mask@.len() == grid.nodes().len(),
        forall|j: int|
            0 <= j < mask@.len() ==> #[trigger] mask@[j] == obstructed(
                con_rects@,
                grid.nodes()[j].x,
                grid.nodes()[j].y,
            ),
{
    let ghost ns = grid.nodes();
    let ghost rects = con_rects@;
    let mut mask: Vec<bool> = Vec::new();
    let n = grid.points.len();
    let mut j: usize = 0;
    while j < n
        invariant
            n == grid.points@.len(),
            ns == grid.nodes(),
            rects == con_rects@,
            forall|i: int| 0 <= i < rects.len() ==> (#[trigger] rects[i]).geom_ok(),
            j <= n,
            mask@.len() == j,
            forall|t: int|
                0 <= t < j ==> #[trigger] mask@[t] == obstructed(rects, ns[t].x, ns[t].y),
        decreases n - j,
    {
        let x = grid.points[j].x;
        let y = grid.points[j].y;
        proof {
            assert(ns[j as int] == grid.points@[j as int]@);
        }
        let mut hit = false;
        let mut ri: usize = 0;
        while ri < con_rects.len()
            invariant
                rects == con_rects@,
                forall|i: int| 0 <= i < rects.len() ==> (#[trigger] rects[i]).geom_ok(),
                ri <= rects.len(),
                hit == exists|t: int| 0 <= t < ri && in_obstruction(#[trigger] rects[t], x, y),
            decreases rects.len() - ri,
        {
            let r = &con_rects[ri];
            proof {
                assert(rects[ri as int].geom_ok());
            }
            let inside = r.x - COLLISION_MARGIN <= x && x < r.x + r.width + COLLISION_MARGIN && r.y
                - COLLISION_MARGIN <= y && y < r.y + r.height + COLLISION_MARGIN;
            proof {
                assert(inside == in_obstruction(rects[ri as int], x, y));
            }
            if inside {
                hit = true;
            }
            proof {
                if hit && !inside && !(exists|t: int|
                    0 <= t < ri && in_obstruction(#[trigger] rects[t], x, y)) {
                    assert(false);
                }
            }
            ri = ri + 1;
        }
        mask.push(hit);
        proof {
            assert(hit == obstructed(rects, ns[j as int].x, ns[j as int].y));
        }
        j = j + 1;
    }
    mask
}

/// Uniform-cost search from every connector of rectangle `start` to any
/// connector of rectangle `goal`, over the grid with all obstruction boxes
/// masked out for this query.  A start connector that itself lies inside an
/// obstruction box is not seeded, so no node of a reported path is ever
/// obstructed.  Returns the winning path in goal-to-source order together
/// with the visited map, `path: None` when no traversable route exists (or
/// when an index is out of range and the search is not attempted), and an
/// error when an iteration bound is exceeded — with the visited map retained
/// in the error, and an exhaustion certificate in the contract: the error
/// cannot be reported unless the bounded search truly ran out of budget.
#[verifier::rlimit(100)]
#[verifier::loop_isolation(false)]
pub fn find_path(grid: &Grid, con_rects: &Vec<ConRect>, start: usize, goal: usize) -> (r: Result<
    PathResult,
    SearchError,
>)
    requires
        grid.wf(),
        forall|i: int| 0 <= i < con_rects@.len() ==> (#[trigger] con_rects@[i]).geom_ok(),
        forall|i: int|
            0 <= i < con_rects@.len() ==> connectors_in_range(
                #[trigger] con_rects@[i],
                grid.nodes().len() as int,
            ),
    ensures
        ({
            let ns = grid.nodes();
            let rects = con_rects@;
            let attempted = (start as int) < rects.len() && (goal as int) < rects.len();
            match r {
                Ok(res) => {
                    &&& !attempted ==> res.path is None && res.visited@.len() == 0
                        && res.start_nodes@.len() == 0 && res.goal_nodes@.len() == 0
                    &&& attempted ==> {
                        &&& res.start_nodes@ == rects[start as int].connectors_seq()
                        &&& res.goal_nodes@ == rects[goal as int].connectors_seq()
                        &&& visited_sound(ns, rects, res.start_nodes@, res.visited@)
                        &&& seeds_recorded(ns, rects, res.start_nodes@, res.visited@)
                        &&& match res.path {
                            Some(p) => path_follows_visited(
                                ns,
                                res.start_nodes@,
                                res.goal_nodes@,
                                res.visited@,
                                p@,
                            ) && forall|t: int|
                                0 <= t < res.goal_nodes@.len() && (res.goal_nodes@[t] as int)
                                    < res.visited@.len() && res.visited@[res.goal_nodes@[t] as int] is Some
                                    ==> res.visited@[p@[0] as int]->0.cost
                                    <= res.visited@[(#[trigger] res.goal_nodes@[t]) as int]->0.cost,
                            None => !route_exists(ns, rects, res.start_nodes@, res.goal_nodes@)
                                && relaxation_complete(ns, rects, res.visited@),
                        }
                    }
                },
                Err(err) => {
                    &&& attempted
                    &&& err.start_nodes@ == rects[start as int].connectors_seq()
                    &&& err.goal_nodes@ == rects[goal as int].connectors_seq()
                    &&& visited_sound(ns, rects, err.start_nodes@, err.visited@)
                    &&& seeds_recorded(ns, rects, err.start_nodes@, err.visited@)
                    &&& err.reason == SearchReason::IterationsExceeded ==> exhausted_run(
                        ns,
                        rects,
                        err.start_nodes@,
                        err.goal_nodes@,
                        err.visited@,
                    )
                    &&& err.reason == SearchReason::ReconstructionExceeded ==> exists|p: Seq<usize>|
                        overlong_chain(ns, err.goal_nodes@, err.visited@, p)
                },
            }
        }),
{
    let ghost ns = grid.nodes();
    let ghost rects = con_rects@;
    if start >= con_rects.len() || goal >= con_rects.len() {
        return Ok(
            PathResult {
                path: None,
                visited: Vec::new(),
                start_nodes: Vec::new(),
                goal_nodes: Vec::new(),
            },
        );
    }
    let n_nodes = grid.points.len();
    let start_nodes = con_rects[start].connectors();
    let goal_nodes = con_rects[goal].connectors();
    let ghost starts = start_nodes@;
    let ghost goals = goal_nodes@;
    proof {
        assert(n_nodes as int == ns.len());
        assert(connectors_in_range(rects[start as int], ns.len() as int));
        assert(connectors_in_range(rects[goal as int], ns.len() as int));
        crate::grid::lemma_connectors_seq_in_range(rects[start as int], ns.len() as int);
        crate::grid::lemma_connectors_seq_in_range(rects[goal as int], ns.len() as int);
    }
    let mask = obstruction_mask(grid, con_rects);
    let mut visited: Vec<Option<VisitedNode>> = Vec::new();
    let mut jj: usize = 0;
    while jj < n_nodes
        invariant
            jj <= n_nodes,
            visited@.len() == jj,
            forall|t: int| 0 <= t < jj ==> (#[trigger] visited@[t]) is None,
        decreases n_nodes - jj,
    {
        visited.push(None);
        jj = jj + 1;
    }
    let mut frontier: Vec<SearchNode> = Vec::new();
    let ghost mut done: Set<int> = Set::empty();
    let mut si: usize = 0;
    while si < start_nodes.len()
        invariant
            n_nodes as int == ns.len(),
            starts == start_nodes@,
            si <= starts.len(),
            visited@.len() == n_nodes,
            forall|t: int| 0 <= t < starts.len() ==> ((#[trigger] starts[t]) as int) < n_nodes,
            forall|j: int|
                0 <= j < visited@.len() && (#[trigger] visited@[j]) is Some ==> visited@[j]->0.cost
                    == 0 && visited@[j]->0.came_from is None && starts.contains(j as usize)
                    && !obstructed(rects, ns[j].x, ns[j].y),
            frontier_sound(visited@, frontier@),
            pending_in_frontier(visited@, Set::empty(), frontier@),
            costs_bounded(visited@, frontier@, 1),
            forall|fi: int|
                0 <= fi < frontier@.len() ==> (#[trigger] frontier@[fi]).cost == 0
                    && frontier@[fi].came_from is None,
            forall|t: int|
                0 <= t < si ==> (!obstructed(
                    rects,
                    ns[(#[trigger] starts[t]) as int].x,
                    ns[starts[t] as int].y,
                ) ==> visited@[starts[t] as int] is Some),
        decreases starts.len() - si,
    {
        let s = start_nodes[si];
        proof {
            assert(starts[si as int] == s);
            assert(mask@[s as int] == obstructed(rects, ns[s as int].x, ns[s as int].y));
        }
        if !mask[s] {
            let ghost old_vis = visited@;
            let ghost old_fr = frontier@;
            frontier.push(SearchNode { id: s, cost: 0, came_from: None });
            visited.set(s, Some(VisitedNode { cost: 0, came_from: None }));
            proof {
                assert(starts.contains(s));
                assert forall|j: int|
                    0 <= j < visited@.len() && (#[trigger] visited@[j]) is Some implies visited@[j]->0.cost
                    == 0 && visited@[j]->0.came_from is None && starts.contains(j as usize)
                    && !obstructed(rects, ns[j].x, ns[j].y) by {
                    if j != s as int {
                        assert(visited@[j] == old_vis[j]);
                    }
                }
                assert forall|j: int|
                    0 <= j < visited@.len() && (#[trigger] visited@[j]) is Some && !Set::<
                        int,
                    >::empty().contains(j) implies exists|fi: int|
                    0 <= fi < frontier@.len() && (#[trigger] frontier@[fi]).id as int == j
                        && frontier@[fi].cost == visited@[j]->0.cost && frontier@[fi].came_from
                        == visited@[j]->0.came_from by {
                    if j == s as int {
                        assert(frontier@[frontier@.len() - 1].id as int == j);
                    } else {
                        assert(old_vis[j] is Some);
                        let fi0 = choose|fi0: int|
                            0 <= fi0 < old_fr.len() && old_fr[fi0].id as int == j && old_fr[fi0].cost
                                == old_vis[j]->0.cost && old_fr[fi0].came_from
                                == old_vis[j]->0.came_from;
                        assert(frontier@[fi0].id as int == j);
                    }
                }
            }
        }
        si = si + 1;
    }
    proof {
        assert forall|j: int| 0 <= j < visited@.len() implies #[trigger] visited_entry_sound(
            ns,
            rects,
            starts,
            visited@,
            j,
        ) by {}
        assert(seeds_recorded(ns, rects, starts, visited@));
    }
    let ghost st0 = SearchState { vis: visited@, fr: frontier@ };
    let ghost mut floor: u64 = 0;
    proof {
        assert forall|j: int|
            0 <= j < st0.vis.len() && (#[trigger] st0.vis[j]) is Some implies exists|fi: int|
            0 <= fi < st0.fr.len() && (#[trigger] st0.fr[fi]).id as int == j by {
            assert(!Set::<int>::empty().contains(j));
            let fi0 = choose|fi0: int|
                0 <= fi0 < frontier@.len() && frontier@[fi0].id as int == j && frontier@[fi0].cost
                    == visited@[j]->0.cost && frontier@[fi0].came_from == visited@[j]->0.came_from;
            assert(st0.fr[fi0].id as int == j);
        }
        assert(seeded_state(ns, rects, starts, st0));
    }
    let mut iter: u64 = 0;
    while frontier.len() > 0
        invariant
            ns == grid.nodes(),
            grid.wf(),
            rects == con_rects@,
            (start as int) < rects.len(),
            (goal as int) < rects.len(),
            starts == rects[start as int].connectors_seq(),
            goals == rects[goal as int].connectors_seq(),
            n_nodes as int == ns.len(),
            starts == start_nodes@,
            goals == goal_nodes@,
            visited@.len() == n_nodes,
            mask@.len() == ns.len(),
            forall|j: int|
                0 <= j < mask@.len() ==> #[trigger] mask@[j] == obstructed(
                    rects,
                    ns[j].x,
                    ns[j].y,
                ),
            forall|j: int|
                0 <= j < visited@.len() ==> #[trigger] visited_entry_sound(
                    ns,
                    rects,
                    starts,
                    visited@,
                    j,
                ),
            frontier_sound(visited@, frontier@),
            pending_in_frontier(visited@, done, frontier@),
            costs_bounded(visited@, frontier@, iter as int + 1),
            done_closed(ns, rects, visited@, done),
            forall|j: int| #[trigger] done.contains(j) ==> 0 <= j < n_nodes,
            forall|t: int|
                0 <= t < goals.len() ==> !done.contains((#[trigger] goals[t]) as int),
            seeds_recorded(ns, rects, starts, visited@),
            forall|fi: int| 0 <= fi < frontier@.len() ==> (#[trigger] frontier@[fi]).cost >= floor,
            forall|j: int|
                #[trigger] done.contains(j) ==> visited@[j] is Some && visited@[j]->0.cost
                    <= floor,
            done_closed_cost(ns, rects, visited@, done),
            steps_rel(
                ns,
                rects,
                goals,
                st0,
                iter as int,
                SearchState { vis: visited@, fr: frontier@ },
            ),
            iter <= SEARCH_ITER_LIMIT,
        decreases SEARCH_ITER_LIMIT + 1 - iter,
    {
        let ghost st_head = SearchState { vis: visited@, fr: frontier@ };
        let mi = min_cost_index(&frontier);
        let ghost old_fr = frontier@;
        let e = frontier.remove(mi);
        let ghost eid = e.id as int;
        let ghost st_minus = SearchState { vis: visited@, fr: frontier@ };
        proof {
            assert(e == old_fr[mi as int]);
            assert(0 <= eid < n_nodes && visited@[eid] is Some && visited@[eid]->0.cost <= e.cost);
            assert forall|fi: int| 0 <= fi < frontier@.len() implies {
                &&& ((#[trigger] frontier@[fi]).id as int) < visited@.len()
                &&& visited@[frontier@[fi].id as int] is Some
                &&& visited@[frontier@[fi].id as int]->0.cost <= frontier@[fi].cost
                &&& frontier@[fi].cost as int <= (iter as int + 1) * (MAX_EDGE_COST as int)
            } by {
                if fi < mi as int {
                    assert(frontier@[fi] == old_fr[fi]);
                } else {
                    assert(frontier@[fi] == old_fr[fi + 1]);
                }
            }
            assert forall|j: int|
                0 <= j < visited@.len() && (#[trigger] visited@[j]) is Some && !done.insert(
                    eid,
                ).contains(j) implies exists|fi: int|
                0 <= fi < frontier@.len() && (#[trigger] frontier@[fi]).id as int == j
                    && frontier@[fi].cost == visited@[j]->0.cost && frontier@[fi].came_from
                    == visited@[j]->0.came_from by {
                assert(!done.contains(j));
                let fi0 = choose|fi0: int|
                    0 <= fi0 < old_fr.len() && old_fr[fi0].id as int == j && old_fr[fi0].cost
                        == visited@[j]->0.cost && old_fr[fi0].came_from
                        == visited@[j]->0.came_from;
                if fi0 == mi as int {
                    assert(j == eid);
                    assert(false);
                } else if fi0 < mi as int {
                    assert(frontier@[fi0].id as int == j);
                } else {
                    assert(frontier@[fi0 - 1].id as int == j);
                }
            }
        }
        let ghost fresh = !done.contains(eid);
        proof {
            assert(e.cost >= floor);
            floor = e.cost;
            if fresh {
                let fi0 = choose|fi0: int|
                    0 <= fi0 < old_fr.len() && old_fr[fi0].id as int == eid && old_fr[fi0].cost
                        == visited@[eid]->0.cost && old_fr[fi0].came_from
                        == visited@[eid]->0.came_from;
                assert(e.cost <= old_fr[fi0].cost);
                assert(visited@[eid]->0.cost == e.cost);
            }
        }
        let is_goal = contains_id(&goal_nodes, e.id);
        if is_goal {
            proof {
                assert(goals.contains(e.id));
                assert forall|t: int|
                    0 <= t < goals.len() && (goals[t] as int) < visited@.len()
                        && visited@[(#[trigger] goals[t]) as int] is Some implies visited@[eid]->0.cost
                    <= visited@[goals[t] as int]->0.cost by {
                    let g = goals[t] as int;
                    if g != eid {
                        assert(!done.contains(g));
                        assert(!done.insert(eid).contains(g));
                        let fi = choose|fi: int|
                            0 <= fi < frontier@.len() && frontier@[fi].id as int == g
                                && frontier@[fi].cost == visited@[g]->0.cost
                                && frontier@[fi].came_from == visited@[g]->0.came_from;
                        if fi < mi as int {
                            assert(frontier@[fi] == old_fr[fi]);
                            assert(e.cost <= old_fr[fi].cost);
                        } else {
                            assert(frontier@[fi] == old_fr[fi + 1]);
                            assert(e.cost <= old_fr[fi + 1].cost);
                        }
                    }
                }
            }
            let mut path: Vec<usize> = Vec::new();
            path.push(e.id);
            let mut cursor: usize = e.id;
            let mut steps: u64 = 0;
            #[verifier::loop_isolation(true)]
            loop
                invariant
                    ns == grid.nodes(),
                    rects == con_rects@,
                    (start as int) < rects.len(),
                    (goal as int) < rects.len(),
                    starts == start_nodes@,
                    goals == goal_nodes@,
                    starts == rects[start as int].connectors_seq(),
                    goals == rects[goal as int].connectors_seq(),
                    seeds_recorded(ns, rects, starts, visited@),
                    n_nodes as int == ns.len(),
                    visited@.len() == n_nodes,
                    forall|j: int|
                        0 <= j < visited@.len() ==> #[trigger] visited_entry_sound(
                            ns,
                            rects,
                            starts,
                            visited@,
                            j,
                        ),
                    path@.len() >= 1,
                    path@[0] == e.id,
                    goals.contains(e.id),
                    path@.len() == steps as int + 1,
                    (cursor as int) < n_nodes,
                    path@[path@.len() - 1] == cursor,
                    visited@[cursor as int] is Some,
                    forall|t: int|
                        0 <= t < path@.len() ==> ((#[trigger] path@[t]) as int) < n_nodes
                            && visited@[path@[t] as int] is Some,
                    forall|t: int|
                        0 <= t < path@.len() - 1 ==> visited@[(#[trigger] path@[t]) as int]->0.came_from
                            == Some(path@[t + 1]),
                    steps <= SEARCH_ITER_LIMIT,
                ensures
                    path@.len() >= 1,
                    path@[0] == e.id,
                    path@[path@.len() - 1] == cursor,
                    (cursor as int) < n_nodes,
                    visited@[cursor as int] is Some,
                    visited@[cursor as int]->0.came_from is None,
                    forall|t: int|
                        0 <= t < path@.len() ==> ((#[trigger] path@[t]) as int) < n_nodes
                            && visited@[path@[t] as int] is Some,
                    forall|t: int|
                        0 <= t < path@.len() - 1 ==> visited@[(#[trigger] path@[t]) as int]->0.came_from
                            == Some(path@[t + 1]),
                decreases SEARCH_ITER_LIMIT - steps,
            {
                let v = visited[cursor].unwrap();
                match v.came_from {
                    None => {
                        break ;
                    },
                    Some(pv) => {
                        proof {
                            assert(visited_entry_sound(ns, rects, starts, visited@, cursor as int));
                        }
                        let ghost old_path = path@;
                        path.push(pv);
                        cursor = pv;
                        steps = steps + 1;
                        proof {
                            assert forall|t: int|
                                0 <= t < path@.len() - 1 implies visited@[(#[trigger] path@[t]) as int]->0.came_from
                                == Some(path@[t + 1]) by {
                                if t < old_path.len() - 1 {
                                    assert(path@[t] == old_path[t]);
                                    assert(path@[t + 1] == old_path[t + 1]);
                                }
                            }
                        }
                        if SEARCH_ITER_LIMIT < steps {
                            proof {
                                assert(overlong_chain(ns, goals, visited@, path@));
                            }
                            return Err(
                                SearchError {
                                    reason: SearchReason::ReconstructionExceeded,
                                    visited,
                                    start_nodes,
                                    goal_nodes,
                                },
                            );
                        }
                    },
                }
            }
            proof {
                assert(visited_entry_sound(ns, rects, starts, visited@, cursor as int));
                assert(starts.contains(path@[path@.len() - 1]));
                assert(path_follows_visited(ns, starts, goals, visited@, path@));
            }
            return Ok(PathResult { path: Some(path), visited, start_nodes, goal_nodes });
        }
        proof {
            assert(!goals.contains(e.id));
        }
        proof {
            assert(ns[eid] == grid.points@[eid]@);
            crate::grid::lemma_wf_node_facts(ns, eid);
        }
        let ex = grid.points[e.id].x;
        let ey = grid.points[e.id].y;
        let nc = grid.points[e.id].connect.len();
        let mut k: usize = 0;
        while k < nc
            invariant
                ns == grid.nodes(),
                grid.wf(),
                rects == con_rects@,
                n_nodes as int == ns.len(),
                visited@.len() == n_nodes,
                mask@.len() == ns.len(),
                forall|j: int|
                    0 <= j < mask@.len() ==> #[trigger] mask@[j] == obstructed(
                        rects,
                        ns[j].x,
                        ns[j].y,
                    ),
                forall|j: int|
                    0 <= j < visited@.len() ==> #[trigger] visited_entry_sound(
                        ns,
                        rects,
                        starts,
                        visited@,
                        j,
                    ),
                frontier_sound(visited@, frontier@),
                pending_in_frontier(visited@, done.insert(eid), frontier@),
                costs_bounded(visited@, frontier@, iter as int + 2),
                done_closed(ns, rects, visited@, done),
                forall|j: int| #[trigger] done.contains(j) ==> 0 <= j < n_nodes,
                forall|t: int|
                    0 <= t < goals.len() ==> !done.contains((#[trigger] goals[t]) as int),
                seeds_recorded(ns, rects, starts, visited@),
                floor == e.cost,
                forall|fi: int|
                    0 <= fi < frontier@.len() ==> (#[trigger] frontier@[fi]).cost >= e.cost,
                forall|j: int|
                    #[trigger] done.contains(j) ==> visited@[j] is Some && visited@[j]->0.cost
                        <= floor,
                done_closed_cost(ns, rects, visited@, done),
                fresh == !done.contains(eid),
                fresh ==> visited@[eid]->0.cost == e.cost,
                iter <= SEARCH_ITER_LIMIT,
                0 <= eid < n_nodes,
                eid == e.id as int,
                nc == ns[eid].adj.len(),
                visited@[eid] is Some,
                visited@[eid]->0.cost <= e.cost,
                e.cost as int <= (iter as int + 1) * (MAX_EDGE_COST as int),
                ex == ns[eid].x,
                ey == ns[eid].y,
                k <= nc,
                forall|t: int|
                    0 <= t < k ==> (!obstructed(
                        rects,
                        ns[(#[trigger] ns[eid].adj[t]) as int].x,
                        ns[ns[eid].adj[t] as int].y,
                    ) ==> visited@[ns[eid].adj[t] as int] is Some),
                fresh ==> forall|t: int|
                    0 <= t < k ==> (!obstructed(
                        rects,
                        ns[(#[trigger] ns[eid].adj[t]) as int].x,
                        ns[ns[eid].adj[t] as int].y,
                    ) ==> visited@[ns[eid].adj[t] as int] is Some
                        && visited@[ns[eid].adj[t] as int]->0.cost as nat
                        <= visited@[eid]->0.cost as nat + dist_coords(
                        ns[eid].x,
                        ns[eid].y,
                        ns[ns[eid].adj[t] as int].x,
                        ns[ns[eid].adj[t] as int].y,
                    )),
                relaxed_from(
                    ns,
                    rects,
                    st_minus,
                    e,
                    k as int,
                    SearchState { vis: visited@, fr: frontier@ },
                ),
            decreases nc - k,
        {
            let ghost st_k = SearchState { vis: visited@, fr: frontier@ };
            proof {
                assert(ns.len() == grid.points@.len());
                assert(ns[eid] == grid.points@[eid]@);
                crate::grid::lemma_wf_node_facts(ns, eid);
                assert((ns[eid].adj[k as int] as int) < ns.len());
                assert(ns[eid].adj[k as int] as int != eid);
            }
            let m = grid.points[e.id].connect[k];
            proof {
                assert(m == ns[eid].adj[k as int]);
                assert(ns[m as int] == grid.points@[m as int]@);
                crate::grid::lemma_wf_node_facts(ns, m as int);
                assert(mask@[m as int] == obstructed(rects, ns[m as int].x, ns[m as int].y));
            }
            if !mask[m] {
                let mx = grid.points[m].x;
                let my = grid.points[m].y;
                let d = node_distance(ex, ey, mx, my);
                proof {
                    assert(e.cost as int + d as int <= (iter as int + 2) * (MAX_EDGE_COST as int));
                }
                let new_cost = e.cost + d;
                let cur = visited[m];
                let improve = match cur {
                    None => true,
                    Some(v) => new_cost < v.cost,
                };
                if improve {
                    let ghost old_vis = visited@;
                    let ghost old_fr2 = frontier@;
                    proof {
                        if done.contains(m as int) {
                            assert(old_vis[m as int] is Some);
                            assert(old_vis[m as int]->0.cost <= floor);
                            assert(false);
                        }
                    }
                    visited.set(m, Some(VisitedNode { cost: new_cost, came_from: Some(e.id) }));
                    frontier.push(SearchNode { id: m, cost: new_cost, came_from: Some(e.id) });
                    proof {
                        assert forall|j: int, m2: int|
                            #[trigger] edge(ns, j, m2) && done.contains(j) && 0 <= j < visited@.len()
                                && visited@[j] is Some && 0 <= m2 < visited@.len() && !obstructed(
                                rects,
                                ns[m2].x,
                                ns[m2].y,
                            ) implies visited@[m2] is Some && visited@[m2]->0.cost as nat
                            <= visited@[j]->0.cost as nat + dist_coords(
                            ns[j].x,
                            ns[j].y,
                            ns[m2].x,
                            ns[m2].y,
                        ) by {
                            assert(j != m as int);
                            assert(visited@[j] == old_vis[j]);
                            if m2 == m as int {
                                assert(old_vis[m2] is Some);
                                assert(new_cost < old_vis[m2]->0.cost);
                            } else {
                                assert(visited@[m2] == old_vis[m2]);
                            }
                        }
                        assert(edge(ns, eid, m as int)) by {
                            assert(ns[eid].adj[k as int] as int == m as int);
                        }
                        assert(visited_entry_sound(ns, rects, starts, visited@, m as int)) by {
                            assert(visited@[eid] == old_vis[eid]);
                            assert(visited@[eid]->0.cost as nat + dist_coords(
                                ns[eid].x,
                                ns[eid].y,
                                ns[m as int].x,
                                ns[m as int].y,
                            ) <= new_cost as nat);
                        }
                        assert forall|j: int|
                            0 <= j < visited@.len() implies #[trigger] visited_entry_sound(
                            ns,
                            rects,
                            starts,
                            visited@,
                            j,
                        ) by {
                            if j != m as int {
                                assert(visited_entry_sound(ns, rects, starts, old_vis, j));
                                assert(visited@[j] == old_vis[j]);
                                if old_vis[j] is Some {
                                    match old_vis[j]->0.came_from {
                                        Option::Some(p) => {
                                            if p as int == m as int {
                                                assert(old_vis[m as int] is Some);
                                                assert(new_cost < old_vis[m as int]->0.cost);
                                            } else {
                                                assert(visited@[p as int] == old_vis[p as int]);
                                            }
                                        },
                                        Option::None => {},
                                    }
                                }
                            }
                        }
                        assert forall|fi: int| 0 <= fi < frontier@.len() implies {
                            &&& ((#[trigger] frontier@[fi]).id as int) < visited@.len()
                            &&& visited@[frontier@[fi].id as int] is Some
                            &&& visited@[frontier@[fi].id as int]->0.cost <= frontier@[fi].cost
                        } by {
                            if fi < old_fr2.len() {
                                assert(frontier@[fi] == old_fr2[fi]);
                                if frontier@[fi].id as int == m as int {
                                    assert(old_vis[m as int] is Some);
                                }
                            }
                        }
                        assert forall|j: int|
                            0 <= j < visited@.len() && (#[trigger] visited@[j]) is Some
                                && !done.insert(eid).contains(j) implies exists|fi: int|
                            0 <= fi < frontier@.len() && (#[trigger] frontier@[fi]).id as int == j
                                && frontier@[fi].cost == visited@[j]->0.cost
                                && frontier@[fi].came_from == visited@[j]->0.came_from by {
                            if j == m as int {
                                assert(frontier@[frontier@.len() - 1].id as int == j);
                            } else {
                                assert(old_vis[j] is Some);
                                let fi0 = choose|fi0: int|
                                    0 <= fi0 < old_fr2.len() && old_fr2[fi0].id as int == j
                                        && old_fr2[fi0].cost == old_vis[j]->0.cost
                                        && old_fr2[fi0].came_from == old_vis[j]->0.came_from;
                                assert(frontier@[fi0].id as int == j);
                            }
                        }
                    }
                }
            }
            proof {
                let mm = ns[eid].adj[k as int] as int;
                if !obstructed(rects, ns[mm].x, ns[mm].y) {
                    assert(visited@[mm] is Some);
                }
                assert forall|t: int|
                    0 <= t < k + 1 && !obstructed(
                    rects,
                    ns[(#[trigger] ns[eid].adj[t]) as int].x,
                    ns[ns[eid].adj[t] as int].y,
                ) implies visited@[ns[eid].adj[t] as int] is Some by {
                    if t < k {
                    } else {
                        assert(ns[eid].adj[t] as int == ns[eid].adj[k as int] as int);
                    }
                }
                if fresh {
                    assert forall|t: int|
                        0 <= t < k + 1 && !obstructed(
                        rects,
                        ns[(#[trigger] ns[eid].adj[t]) as int].x,
                        ns[ns[eid].adj[t] as int].y,
                    ) implies visited@[ns[eid].adj[t] as int] is Some
                        && visited@[ns[eid].adj[t] as int]->0.cost as nat
                        <= visited@[eid]->0.cost as nat + dist_coords(
                        ns[eid].x,
                        ns[eid].y,
                        ns[ns[eid].adj[t] as int].x,
                        ns[ns[eid].adj[t] as int].y,
                    ) by {
                        if t == k {
                            assert(ns[eid].adj[t] as int == ns[eid].adj[k as int] as int);
                        }
                    }
                }
                assert(relax_one(
                    ns,
                    rects,
                    st_k,
                    e,
                    k as int,
                    SearchState { vis: visited@, fr: frontier@ },
                ));
                lemma_relaxed_from_step(
                    ns,
                    rects,
                    st_minus,
                    e,
                    k as int + 1,
                    st_k,
                    SearchState { vis: visited@, fr: frontier@ },
                );
            }
            k = k + 1;
        }
        proof {
            done = done.insert(eid);
            assert forall|j: int, m2: int|
                #[trigger] edge(ns, j, m2) && done.contains(j) && 0 <= m2 < visited@.len()
                    && !obstructed(rects, ns[m2].x, ns[m2].y) implies visited@[m2] is Some by {
                if j == eid {
                    let t = choose|t: int|
                        0 <= t < ns[eid].adj.len() && ns[eid].adj[t] as int == m2;
                    assert(!obstructed(rects, ns[ns[eid].adj[t] as int].x, ns[ns[eid].adj[t] as int].y)
                        ==> visited@[ns[eid].adj[t] as int] is Some);
                }
            }
            assert forall|j: int, m2: int|
                #[trigger] edge(ns, j, m2) && done.contains(j) && 0 <= j < visited@.len()
                    && visited@[j] is Some && 0 <= m2 < visited@.len() && !obstructed(
                    rects,
                    ns[m2].x,
                    ns[m2].y,
                ) implies visited@[m2] is Some && visited@[m2]->0.cost as nat
                <= visited@[j]->0.cost as nat + dist_coords(
                ns[j].x,
                ns[j].y,
                ns[m2].x,
                ns[m2].y,
            ) by {
                if j == eid && fresh {
                    let t = choose|t: int|
                        0 <= t < ns[eid].adj.len() && ns[eid].adj[t] as int == m2;
                    assert(ns[eid].adj[t] as int == m2);
                }
            }
            assert(visited@[eid] is Some && visited@[eid]->0.cost <= floor);
            assert(st_minus == SearchState { vis: st_head.vis, fr: st_head.fr.remove(mi as int) });
            lemma_steps_rel_step(
                ns,
                rects,
                goals,
                st0,
                iter as int + 1,
                st_head,
                e,
                mi as int,
                SearchState { vis: visited@, fr: frontier@ },
            );
        }
        iter = iter + 1;
        if SEARCH_ITER_LIMIT < iter {
            proof {
                assert(steps_rel(
                    ns,
                    rects,
                    goals,
                    st0,
                    SEARCH_ITER_LIMIT as int + 1,
                    SearchState { vis: visited@, fr: frontier@ },
                ));
                assert(run_endpoints(st0, SearchState { vis: visited@, fr: frontier@ }));
                assert(seeded_state(ns, rects, starts, st0));
                assert(exhausted_run(ns, rects, starts, goals, visited@));
            }
            return Err(
                SearchError {
                    reason: SearchReason::IterationsExceeded,
                    visited,
                    start_nodes,
                    goal_nodes,
                },
            );
        }
    }
    proof {
        assert forall|j: int|
            0 <= j < visited@.len() && (#[trigger] visited@[j]) is Some implies done.contains(
            j,
        ) by {
            if !done.contains(j) {
                let fi = choose|fi: int|
                    0 <= fi < frontier@.len() && frontier@[fi].id as int == j && frontier@[fi].cost
                        == visited@[j]->0.cost && frontier@[fi].came_from
                        == visited@[j]->0.came_from;
                assert(false);
            }
        }
        if route_exists(ns, rects, starts, goals) {
            let p = choose|p: Seq<usize>| is_route(ns, rects, starts, goals, p);
            lemma_route_reaches(ns, rects, starts, goals, visited@, done, p, p.len() - 1);
            let gt = choose|gt: int| 0 <= gt < goals.len() && goals[gt] == p[p.len() - 1];
            assert(done.contains(p[p.len() - 1] as int));
            assert(!done.contains((goals[gt]) as int));
            assert(false);
        }
        assert forall|j: int, m2: int|
            #[trigger] edge(ns, j, m2) && 0 <= j < visited@.len() && visited@[j] is Some && 0 <= m2
                < visited@.len() && !obstructed(rects, ns[m2].x, ns[m2].y) implies visited@[m2] is Some
            && visited@[m2]->0.cost as nat <= visited@[j]->0.cost as nat + dist_coords(
            ns[j].x,
            ns[j].y,
            ns[m2].x,
            ns[m2].y,
        ) by {
            assert(done.contains(j));
        }
        assert(relaxation_complete(ns, rects, visited@));
    }
    Ok(PathResult { path: None, visited, start_nodes, goal_nodes })
}

} // verus!
