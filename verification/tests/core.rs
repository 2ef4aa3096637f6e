use box_connector::grid::{insert_horz_intersection, Grid, GridPoint};
use box_connector::rect::ConRect;
use box_connector::search::{find_path, obstruction_mask, SearchReason, COLLISION_MARGIN};

fn scenario_a_rects() -> Vec<ConRect> {
    vec![
        ConRect::new(130, 70, 140, 50),
        ConRect::new(420, 120, 90, 30),
        ConRect::new(260, 420, 150, 60),
    ]
}

fn assert_symmetric(points: &Vec<GridPoint>) {
    for (i, p) in points.iter().enumerate() {
        for &j in p.connect.iter() {
            assert!(j < points.len(), "adjacency index {} out of range", j);
            assert!(
                points[j].connect.contains(&i),
                "adjacency not symmetric: {} lists {} but not back",
                i,
                j
            );
        }
    }
}

fn assert_strictly_increasing(intervals: &Vec<i64>) {
    for w in intervals.windows(2) {
        assert!(w[0] < w[1], "intervals not strictly increasing: {} then {}", w[0], w[1]);
    }
}

fn in_expanded_box(r: &ConRect, x: i64, y: i64) -> bool {
    r.x - COLLISION_MARGIN <= x
        && x < r.x + r.width + COLLISION_MARGIN
        && r.y - COLLISION_MARGIN <= y
        && y < r.y + r.height + COLLISION_MARGIN
}

#[test]
fn adjacency_is_symmetric_after_build() {
    let mut rects = scenario_a_rects();
    let grid = Grid::new(&mut rects);
    assert_symmetric(&grid.points);
}

#[test]
fn intervals_are_strictly_increasing() {
    let mut rects = scenario_a_rects();
    let grid = Grid::new(&mut rects);
    assert_strictly_increasing(&grid.intervals_x);
    assert_strictly_increasing(&grid.intervals_y);
    // base ticks plus one center per rectangle, except that rect 0's
    // horizontal center (200) equals a base tick exactly and is deduplicated
    assert_eq!(grid.intervals_x.len(), 12);
    assert_eq!(grid.intervals_y.len(), 13);
    // the centers themselves are present
    assert!(grid.intervals_x.contains(&200)); // 130 + 140/2, a base tick
    assert!(grid.intervals_x.contains(&465)); // 420 + 90/2
    assert!(grid.intervals_x.contains(&335)); // 260 + 150/2
    assert!(grid.intervals_y.contains(&95)); // 70 + 50/2
    assert!(grid.intervals_y.contains(&135)); // 120 + 30/2
    assert!(grid.intervals_y.contains(&450)); // 420 + 60/2
}

#[test]
fn inserted_connector_has_two_neighbors_and_splits_its_edge() {
    let mut rects = scenario_a_rects();
    let grid = Grid::new(&mut rects);
    let lattice_count = grid.intervals_x.len() * grid.intervals_y.len();
    for r in rects.iter() {
        for con in [r.left_con, r.right_con, r.top_con, r.bottom_con] {
            let Some(c) = con else { continue };
            assert!(c >= lattice_count, "connector {} is not an inserted node", c);
            let node = &grid.points[c];
            assert_eq!(node.connect.len(), 2, "connector {} must have exactly 2 neighbors", c);
            let a = node.connect[0];
            let b = node.connect[1];
            assert!(
                !grid.points[a].connect.contains(&b),
                "split endpoints {} and {} still list each other",
                a,
                b
            );
            assert!(!grid.points[b].connect.contains(&a));
            assert!(grid.points[a].connect.contains(&c));
            assert!(grid.points[b].connect.contains(&c));
        }
    }
}

#[test]
fn each_successful_insertion_grows_node_count_by_one() {
    let mut rects = scenario_a_rects();
    let grid = Grid::new(&mut rects);
    let lattice_count = grid.intervals_x.len() * grid.intervals_y.len();
    let mut inserted = 0;
    for r in rects.iter() {
        for con in [r.left_con, r.right_con, r.top_con, r.bottom_con] {
            if con.is_some() {
                inserted += 1;
            }
        }
    }
    assert_eq!(grid.points.len(), lattice_count + inserted);
}

#[test]
fn scenario_a_finds_path_between_rect_connectors() {
    let mut rects = scenario_a_rects();
    let grid = Grid::new(&mut rects);
    let result = find_path(&grid, &rects, 0, 1).expect("search must not hit the iteration bound");
    let path = result.path.expect("a path must exist in the open scenario");
    assert!(!path.is_empty());
    assert!(path.len() <= grid.points.len());
    // goal-to-source order: first node is a connector of rect 1, last of rect 0
    assert!(rects[1].connectors().contains(&path[0]));
    assert!(rects[0].connectors().contains(&path[path.len() - 1]));
    // consecutive path nodes are adjacent in the grid
    for w in path.windows(2) {
        assert!(grid.points[w[0]].connect.contains(&w[1]));
    }
}

#[test]
fn path_costs_are_monotone_from_source_to_goal() {
    let mut rects = scenario_a_rects();
    let grid = Grid::new(&mut rects);
    let result = find_path(&grid, &rects, 0, 1).unwrap();
    let path = result.path.unwrap();
    // path is goal-to-source: costs must be non-increasing along it
    let mut prev_cost = None;
    for &id in path.iter() {
        let entry = result.visited[id].as_ref().expect("path node must be visited");
        if let Some(p) = prev_cost {
            assert!(entry.cost <= p, "cost rose while walking toward the source");
        }
        prev_cost = Some(entry.cost);
    }
    // the source end is a zero-cost seed
    let last = result.visited[path[path.len() - 1]].as_ref().unwrap();
    assert_eq!(last.cost, 0);
    assert!(last.came_from.is_none());
    // the reached goal is the cheapest among all discovered goal connectors
    let reached_cost = result.visited[path[0]].as_ref().unwrap().cost;
    for &g in result.goal_nodes.iter() {
        if let Some(v) = &result.visited[g] {
            assert!(reached_cost <= v.cost);
        }
    }
}

#[test]
fn path_avoids_all_obstruction_boxes() {
    let mut rects = scenario_a_rects();
    let grid = Grid::new(&mut rects);
    let mask = obstruction_mask(&grid, &rects);
    let result = find_path(&grid, &rects, 0, 1).unwrap();
    let path = result.path.unwrap();
    for &id in path.iter() {
        assert!(!mask[id], "path node {} lies in an obstruction box", id);
        let node = &grid.points[id];
        for r in rects.iter() {
            assert!(!in_expanded_box(r, node.x, node.y));
        }
    }
}

#[test]
fn obstruction_mask_matches_expanded_boxes() {
    let mut rects = scenario_a_rects();
    let grid = Grid::new(&mut rects);
    let mask = obstruction_mask(&grid, &rects);
    assert_eq!(mask.len(), grid.points.len());
    for (j, p) in grid.points.iter().enumerate() {
        let expected = rects.iter().any(|r| in_expanded_box(r, p.x, p.y));
        assert_eq!(mask[j], expected, "mask wrong at node {}", j);
    }
    // a concrete obstructed node: rect 0 covers its own center (200, 95)
    let center = grid
        .points
        .iter()
        .position(|p| p.x == 200 && p.y == 95)
        .expect("center lattice node exists");
    assert!(mask[center]);
}

fn edge_cost(ax: i64, ay: i64, bx: i64, by: i64) -> u64 {
    let s = (ax - bx).unsigned_abs() * (ax - bx).unsigned_abs()
        + (ay - by).unsigned_abs() * (ay - by).unsigned_abs();
    let mut r: u64 = 0;
    while (r + 1) * (r + 1) <= s {
        r += 1;
    }
    r
}

#[test]
fn overlapping_rects_with_no_gap_yield_no_path() {
    // the second rectangle is nested in the first: all of its connector
    // probes land inside the first rectangle's expanded box
    let mut rects = vec![ConRect::new(100, 100, 100, 50), ConRect::new(130, 116, 30, 14)];
    let grid = Grid::new(&mut rects);
    let mask = obstruction_mask(&grid, &rects);
    let result = find_path(&grid, &rects, 0, 1).expect("search must terminate below the bound");
    assert!(result.path.is_none(), "no route should exist into the nested rectangle");
    // diagnostics are still available
    assert_eq!(result.visited.len(), grid.points.len());
    assert!(result.visited.iter().any(|v| v.is_some()));
    // the exhausted map is a relaxation fixpoint: no edge out of a
    // discovered node can improve an unobstructed neighbor
    for (j, entry) in result.visited.iter().enumerate() {
        let Some(vj) = entry else { continue };
        for &m in grid.points[j].connect.iter() {
            if mask[m] {
                continue;
            }
            let vm = result.visited[m].as_ref().expect("neighbor must be discovered");
            let d = edge_cost(grid.points[j].x, grid.points[j].y, grid.points[m].x, grid.points[m].y);
            assert!(vm.cost <= vj.cost + d, "edge {} -> {} could still relax", j, m);
        }
    }
}

#[test]
fn single_rectangle_search_is_not_attempted() {
    let mut rects = vec![ConRect::new(130, 70, 140, 50)];
    let grid = Grid::new(&mut rects);
    let result = find_path(&grid, &rects, 0, 1).expect("an out-of-range goal is not an error");
    assert!(result.path.is_none());
    assert!(result.visited.is_empty());
    assert!(result.start_nodes.is_empty());
    assert!(result.goal_nodes.is_empty());
}

#[test]
fn probe_on_lattice_node_inserts_no_duplicate() {
    // the left and right probes of this rectangle land exactly on the base
    // lattice nodes (100, 100) and (200, 100); the strict betweenness test
    // rejects both, so those connectors stay unset and no duplicate node
    // appears
    let mut rects = vec![ConRect::new(104, 80, 92, 40)];
    let grid = Grid::new(&mut rects);
    assert!(rects[0].left_con.is_none());
    assert!(rects[0].right_con.is_none());
    let at_100_100 = grid.points.iter().filter(|p| p.x == 100 && p.y == 100).count();
    let at_200_100 = grid.points.iter().filter(|p| p.x == 200 && p.y == 100).count();
    assert_eq!(at_100_100, 1);
    assert_eq!(at_200_100, 1);
    // the vertical probes lie strictly inside lattice edges and do split them
    assert!(rects[0].top_con.is_some());
    assert!(rects[0].bottom_con.is_some());
}

#[test]
fn rebuilding_unchanged_geometry_is_idempotent() {
    let mut rects1 = scenario_a_rects();
    let grid1 = Grid::new(&mut rects1);
    let mut rects2 = scenario_a_rects();
    let grid2 = Grid::new(&mut rects2);
    assert_eq!(grid1.intervals_x, grid2.intervals_x);
    assert_eq!(grid1.intervals_y, grid2.intervals_y);
    assert_eq!(grid1.points.len(), grid2.points.len());
    for (p, q) in grid1.points.iter().zip(grid2.points.iter()) {
        assert_eq!(p.x, q.x);
        assert_eq!(p.y, q.y);
        assert_eq!(p.connect, q.connect);
    }
    for (r, s) in rects1.iter().zip(rects2.iter()) {
        assert_eq!(r.left_con, s.left_con);
        assert_eq!(r.right_con, s.right_con);
        assert_eq!(r.top_con, s.top_con);
        assert_eq!(r.bottom_con, s.bottom_con);
    }
}

#[test]
fn connectors_lists_set_entries_in_order() {
    let mut r = ConRect::new(0, 0, 10, 10);
    assert!(r.connectors().is_empty());
    r.right_con = Some(7);
    r.top_con = Some(3);
    assert_eq!(r.connectors(), vec![7, 3]);
    r.left_con = Some(9);
    r.bottom_con = Some(1);
    assert_eq!(r.connectors(), vec![9, 7, 3, 1]);
}

#[test]
fn unreachable_probe_leaves_connector_unset() {
    // the second rectangle sits at the lattice's lower-left rim: its center
    // becomes the smallest interval on both axes, so its left and top
    // probes fall outside every edge and those connectors stay unset
    let mut rects = vec![ConRect::new(130, 70, 140, 50), ConRect::new(-500, -500, 20, 20)];
    let grid = Grid::new(&mut rects);
    assert!(rects[1].left_con.is_none());
    assert!(rects[1].top_con.is_none());
    assert!(rects[1].right_con.is_some());
    assert!(rects[1].bottom_con.is_some());
    // the remaining connectors still take part in a search
    let result = find_path(&grid, &rects, 0, 1).unwrap();
    assert!(result.path.is_some());
}

#[test]
fn center_beyond_last_tick_is_appended() {
    let mut rects = vec![ConRect::new(950, 950, 20, 20)];
    let grid = Grid::new(&mut rects);
    assert_eq!(grid.intervals_x.len(), 11);
    assert_eq!(*grid.intervals_x.last().unwrap(), 960);
    assert_eq!(*grid.intervals_y.last().unwrap(), 960);
    // the left and top probes lie on edges toward the appended interval;
    // the right and bottom probes fall beyond every edge and stay unset
    assert!(rects[0].left_con.is_some());
    assert!(rects[0].top_con.is_some());
    assert!(rects[0].right_con.is_none());
    assert!(rects[0].bottom_con.is_none());
}

#[test]
fn probe_on_node_position_never_splits_nearby_edge() {
    // a node sits exactly at the probe position, and a parallel edge one
    // unit away would otherwise match within the fixed-axis slack; the
    // probe is skipped, so no second node at (100, 100) can appear
    let mut points = vec![
        GridPoint::new(100, 100, vec![]),
        GridPoint::new(50, 101, vec![2]),
        GridPoint::new(150, 101, vec![1]),
    ];
    let r = insert_horz_intersection(&mut points, 100, 100);
    assert!(r.is_none());
    assert_eq!(points.len(), 3);
    assert_eq!(points[1].connect, vec![2]);
    assert_eq!(points[2].connect, vec![1]);
}

#[test]
fn large_exhaustive_search_hits_iteration_bound() {
    // 23 extra rectangles widen the lattice past a thousand nodes; the goal
    // rectangle is nested inside another, so all of its connectors are
    // obstructed and the frontier keeps expanding until the cap trips
    let mut rects: Vec<ConRect> = (0..23).map(|i| ConRect::new(40 * i, 40 * i, 20, 20)).collect();
    rects.push(ConRect::new(1300, 1300, 100, 50));
    rects.push(ConRect::new(1330, 1316, 30, 14));
    let grid = Grid::new(&mut rects);
    assert!(grid.points.len() > 1000);
    let goal = rects.len() - 1;
    let result = find_path(&grid, &rects, 0, goal);
    match result {
        Err(e) => {
            assert_eq!(e.reason, SearchReason::IterationsExceeded);
            // the diagnostics are retained on failure
            assert_eq!(e.visited.len(), grid.points.len());
            assert!(e.visited.iter().any(|v| v.is_some()));
            assert_eq!(e.start_nodes, rects[0].connectors());
        }
        Ok(_) => panic!("the exhaustive search should exceed the iteration bound"),
    }
}

#[test]
fn bare_lattice_has_mesh_degrees() {
    // with no rectangles the grid is the bare 10 x 10 base lattice:
    // corners have 2 neighbors, edge nodes 3, interior nodes 4
    let mut rects: Vec<ConRect> = Vec::new();
    let grid = Grid::new(&mut rects);
    assert_eq!(grid.intervals_x, (0..10).map(|i| i * 100).collect::<Vec<i64>>());
    assert_eq!(grid.intervals_y, grid.intervals_x);
    assert_eq!(grid.points.len(), 100);
    assert_symmetric(&grid.points);
    for (i, p) in grid.points.iter().enumerate() {
        let ix = i % 10;
        let iy = i / 10;
        let on_x_rim = ix == 0 || ix == 9;
        let on_y_rim = iy == 0 || iy == 9;
        let expected = match (on_x_rim, on_y_rim) {
            (true, true) => 2,
            (false, false) => 4,
            _ => 3,
        };
        assert_eq!(p.connect.len(), expected, "wrong degree at node {}", i);
    }
}

#[test]
fn search_from_rect_to_itself_returns_trivial_path() {
    let mut rects = scenario_a_rects();
    let grid = Grid::new(&mut rects);
    let result = find_path(&grid, &rects, 0, 0).unwrap();
    let path = result.path.expect("a rectangle's own connectors are both seeds and goals");
    assert_eq!(path.len(), 1);
    assert!(rects[0].connectors().contains(&path[0]));
}

#[test]
fn zero_size_rectangle_builds_and_routes() {
    let mut rects = vec![ConRect::new(130, 70, 140, 50), ConRect::new(650, 650, 0, 0)];
    let grid = Grid::new(&mut rects);
    assert_symmetric(&grid.points);
    // the degenerate rectangle still gets connectors around its point
    assert!(rects[1].connectors().len() > 0);
    let result = find_path(&grid, &rects, 0, 1).unwrap();
    assert!(result.path.is_some());
}

#[test]
fn visited_map_records_predecessor_tree() {
    let mut rects = scenario_a_rects();
    let grid = Grid::new(&mut rects);
    let result = find_path(&grid, &rects, 0, 1).unwrap();
    let starts = rects[0].connectors();
    for (j, entry) in result.visited.iter().enumerate() {
        let Some(v) = entry else { continue };
        match v.came_from {
            None => {
                assert_eq!(v.cost, 0);
                assert!(starts.contains(&j), "only seeds may lack a predecessor");
            }
            Some(p) => {
                let pv = result.visited[p].as_ref().expect("predecessor must be visited");
                assert!(pv.cost <= v.cost);
                assert!(grid.points[p].connect.contains(&j));
            }
        }
    }
}
