use ibex::gridsearch::{reaches_room_edge, room_grid_dijkstra, ROOM_DIM};
use std::collections::HashSet;

fn cost_grid(f: impl Fn(u8, u8) -> Option<u64>) -> Vec<Option<u64>> {
    let mut grid = Vec::with_capacity(ROOM_DIM * ROOM_DIM);
    for y in 0..ROOM_DIM as u8 {
        for x in 0..ROOM_DIM as u8 {
            grid.push(f(x, y));
        }
    }
    grid
}

fn passable_grid(f: impl Fn(u8, u8) -> bool) -> Vec<bool> {
    let mut grid = Vec::with_capacity(ROOM_DIM * ROOM_DIM);
    for y in 0..ROOM_DIM as u8 {
        for x in 0..ROOM_DIM as u8 {
            grid.push(f(x, y));
        }
    }
    grid
}

fn open() -> Vec<Option<u64>> {
    cost_grid(|_, _| Some(1))
}

fn path_cost(grid: &[Option<u64>], path: &[(u8, u8)]) -> u64 {
    path.iter().map(|(x, y)| grid[*y as usize * ROOM_DIM + *x as usize].unwrap()).sum()
}

#[test]
fn open_grid_path_length_is_chebyshev_distance() {
    // 8-directional movement: the optimal step count between two points
    // is their Chebyshev distance.
    let path = room_grid_dijkstra(&open(), (5, 25), (45, 20), 1).expect("path should exist");
    assert_eq!(path.len() as u32, 40 - 1); // distance 40, goal_range 1
}

#[test]
fn start_inside_goal_range_returns_empty_path() {
    assert_eq!(room_grid_dijkstra(&open(), (10, 10), (11, 11), 1), Some(Vec::new()));
    assert_eq!(room_grid_dijkstra(&open(), (10, 10), (10, 13), 3), Some(Vec::new()));
}

#[test]
fn sealed_goal_returns_none() {
    // Goal ringed by impassable tiles at range 2; goal_range 1 targets
    // sit inside the ring.
    let cost = cost_grid(|x: u8, y: u8| -> Option<u64> {
        if x.abs_diff(25) == 2 && y.abs_diff(25) <= 2 || y.abs_diff(25) == 2 && x.abs_diff(25) <= 2 {
            None
        } else {
            Some(1)
        }
    });
    assert_eq!(room_grid_dijkstra(&cost, (5, 25), (25, 25), 1), None);
}

#[test]
fn expensive_tiles_are_detoured_when_cheaper_routes_exist() {
    // A high-cost band across column 25 except one cheap tile at y=5:
    // the path must route through (25, 5) despite the longer walk.
    let cost = cost_grid(|x: u8, y: u8| -> Option<u64> {
        if x == 25 {
            if y == 5 {
                Some(10)
            } else {
                Some(1_000_000)
            }
        } else {
            Some(1)
        }
    });

    let path = room_grid_dijkstra(&cost, (5, 25), (45, 25), 1).expect("path should exist");
    assert!(path.contains(&(25, 5)), "path must use the cheap crossing: {:?}", path);
    assert_eq!(path.iter().filter(|(x, _)| *x == 25).count(), 1, "exactly one crossing of the band");
}

#[test]
fn open_room_controller_reaches_edge() {
    // Interior start, everything passable → reachable.
    assert!(reaches_room_edge(&passable_grid(|_, _| true), (25, 25)));
}

#[test]
fn fully_walled_controller_does_not_reach_edge() {
    // Ring of impassable tiles around the controller at range 1: its
    // passable neighbours are all blocked, so nothing is even seeded.
    let blocked: HashSet<(u8, u8)> = [(24, 24), (25, 24), (26, 24), (24, 25), (26, 25), (24, 26), (25, 26), (26, 26)]
        .into_iter()
        .collect();
    let passable = passable_grid(|x: u8, y: u8| !blocked.contains(&(x, y)));
    assert!(!reaches_room_edge(&passable, (25, 25)));
}

#[test]
fn single_gap_in_wall_reaches_edge() {
    // Box around the controller with one gap at (25,24): the flood escapes
    // through it to the edge.
    let blocked: HashSet<(u8, u8)> = [(24, 24), (26, 24), (24, 25), (26, 25), (24, 26), (25, 26), (26, 26)]
        .into_iter()
        .collect();
    // (25,24) deliberately left open.
    let passable = passable_grid(|x: u8, y: u8| !blocked.contains(&(x, y)));
    assert!(reaches_room_edge(&passable, (25, 25)));
}

#[test]
fn controller_on_edge_reaches_edge() {
    // A controller adjacent to the room border is trivially reachable: a
    // passable neighbour lies on the edge.
    assert!(reaches_room_edge(&passable_grid(|_, _| true), (1, 0)));
}

#[test]
fn path_is_a_connected_walk_from_start_to_goal() {
    let cost = cost_grid(|x: u8, y: u8| Some(1 + ((x as u64 * 7 + y as u64 * 13) % 5)));
    let path = room_grid_dijkstra(&cost, (3, 47), (44, 4), 0).expect("path should exist");
    let mut at = (3u8, 47u8);
    for step in &path {
        assert!(step.0.abs_diff(at.0) <= 1 && step.1.abs_diff(at.1) <= 1 && *step != at);
        at = *step;
    }
    assert_eq!(at, (44, 4));
    // Moving diagonally at least 41 times, each step costs at least 1.
    assert!(path_cost(&cost, &path) >= 41);
}

#[test]
fn zero_cost_tiles_are_free() {
    let cost = cost_grid(|_, _| Some(0));
    let path = room_grid_dijkstra(&cost, (0, 0), (10, 0), 0).expect("path should exist");
    assert_eq!(path_cost(&cost, &path), 0);
    assert_eq!(path.last(), Some(&(10, 0)));
}

#[test]
fn saturated_route_counts_as_no_route() {
    // The only way across column 25 costs u64::MAX: no finite route exists.
    let cost = cost_grid(|x: u8, _| if x == 25 { Some(u64::MAX) } else { Some(1) });
    assert_eq!(room_grid_dijkstra(&cost, (5, 25), (45, 25), 0), None);
}

#[test]
fn start_surrounded_by_walls_has_no_route() {
    let cost = cost_grid(|x: u8, y: u8| if x.abs_diff(10) <= 1 && y.abs_diff(10) <= 1 && (x, y) != (10, 10) { None } else { Some(1) });
    assert_eq!(room_grid_dijkstra(&cost, (10, 10), (40, 40), 0), None);
}

#[test]
fn corner_start_with_all_neighbours_blocked_does_not_reach_edge() {
    let passable = passable_grid(|x: u8, y: u8| !((x, y) == (0, 1) || (x, y) == (1, 0) || (x, y) == (1, 1)));
    assert!(!reaches_room_edge(&passable, (0, 0)));
}

#[test]
fn free_tiles_never_carry_the_path_through_the_goal_range_or_back_to_start() {
    // Every tile is free: any walk into the goal range is optimal, but the
    // search stops at the first goal tile it settles.
    let grid = cost_grid(|_, _| Some(0));
    let start = (10u8, 10u8);
    let goal = (20u8, 10u8);
    let path = room_grid_dijkstra(&grid, start, goal, 3).expect("open room");
    assert!(!path.is_empty());
    let near = |(x, y): (u8, u8)| x.abs_diff(goal.0) <= 3 && y.abs_diff(goal.1) <= 3;
    assert!(near(*path.last().unwrap()));
    for (i, t) in path.iter().enumerate() {
        assert_ne!(*t, start);
        if i + 1 < path.len() {
            assert!(!near(*t), "an earlier tile {:?} is already in range", t);
        }
    }
    assert_eq!(path_cost(&grid, &path), 0);
}
