use ciber_agent::bfs::{bfs_first_step, direction_order, Goal};
use ciber_agent::dijkstra::dijkstra_path;
use ciber_agent::dir::Dir;
use ciber_agent::map::DynMap;
use ciber_agent::planner::{explore_next, return_next};

/// Walls all round cell `p`.
fn box_in(m: &mut DynMap, p: (i32, i32)) {
    for d in [Dir::North, Dir::East, Dir::South, Dir::West] {
        m.record_wall(p, d);
    }
}

#[test]
fn record_wall_is_seen_from_both_sides() {
    let mut m = DynMap::new();
    assert!(!m.has_wall((0, 0), Dir::North));
    m.record_wall((0, 0), Dir::North);
    assert!(m.has_wall((0, 0), Dir::North));
    assert!(m.has_wall((1, 0), Dir::South));
    assert!(!m.has_wall((0, 0), Dir::East));
    assert!(!m.has_wall((1, 0), Dir::North));
}

#[test]
fn record_open_clears_wall_and_adds_frontier() {
    let mut m = DynMap::new();
    m.record_wall((0, 0), Dir::East);
    m.record_open((0, 0), Dir::East);
    assert!(!m.has_wall((0, 0), Dir::East));
    assert!(!m.has_wall((0, 1), Dir::West));
    assert!(m.in_frontier((0, 1)));
    assert_eq!(m.frontier_len(), 1);
    m.mark_visited((0, 1));
    assert!(!m.in_frontier((0, 1)));
    assert!(m.is_visited((0, 1)));
    assert!(m.frontier_is_empty());
    // Opening toward a visited cell does not put it on the frontier.
    m.mark_visited((0, 0));
    m.record_open((0, 1), Dir::West);
    assert!(m.frontier_is_empty());
    assert_eq!(m.visited_len(), 2);
}

#[test]
fn bfs_start_is_goal() {
    let m = DynMap::new();
    assert_eq!(bfs_first_step(&m, (0, 0), Goal::Cell(0, 0), None), None);
}

/// All cells with rows and columns in `-r..=r` visited.
fn visited_block(r: i32) -> DynMap {
    let mut m = DynMap::new();
    for row in -r..=r {
        for col in -r..=r {
            m.mark_visited((row, col));
        }
    }
    m
}

#[test]
fn bfs_goes_straight_in_the_open() {
    let m = visited_block(3);
    assert_eq!(bfs_first_step(&m, (0, 0), Goal::Cell(3, 0), None), Some(Dir::North));
    assert_eq!(bfs_first_step(&m, (0, 0), Goal::Cell(0, -2), None), Some(Dir::West));
    assert_eq!(bfs_first_step(&m, (0, 0), Goal::Cell(-1, 0), None), Some(Dir::South));
}

#[test]
fn bfs_ties_follow_direction_order() {
    let m = visited_block(2);
    // (1,1) is two steps away through North or East; North is tried first.
    assert_eq!(bfs_first_step(&m, (0, 0), Goal::Cell(1, 1), None), Some(Dir::North));
    assert_eq!(bfs_first_step(&m, (0, 0), Goal::Cell(1, 1), Some(Dir::East)), Some(Dir::East));
}

#[test]
fn bfs_detours_around_walls() {
    let mut m = visited_block(2);
    m.record_wall((0, 0), Dir::North);
    // The cell to the North is reached around the wall, starting East or West.
    let step = bfs_first_step(&m, (0, 0), Goal::Cell(1, 0), None);
    assert_eq!(step, Some(Dir::East));
}

#[test]
fn bfs_enclosed_start_finds_nothing() {
    let mut m = visited_block(4);
    box_in(&mut m, (0, 0));
    assert_eq!(bfs_first_step(&m, (0, 0), Goal::Cell(4, 4), None), None);
}

#[test]
fn bfs_never_enters_unknown_cells() {
    let mut m = DynMap::new();
    m.mark_visited((0, 0));
    // (1,0) was never seen: it cannot be reached, not even as the goal.
    assert_eq!(bfs_first_step(&m, (0, 0), Goal::Cell(1, 0), None), None);
    // With (0,1) and (1,1) visited, (1,1) is reached East, around the unknown (1,0).
    m.mark_visited((0, 1));
    m.mark_visited((1, 1));
    assert_eq!(bfs_first_step(&m, (0, 0), Goal::Cell(1, 1), None), Some(Dir::East));
}

#[test]
fn explore_next_goes_through_known_cells() {
    let mut m = DynMap::new();
    m.mark_visited((0, 0));
    m.mark_visited((0, 1));
    m.record_open((0, 1), Dir::North);
    assert!(m.in_frontier((1, 1)));
    assert_eq!(explore_next(&m, (0, 0)), Some(Dir::East));
}

#[test]
fn bfs_reaches_frontier() {
    let mut m = DynMap::new();
    m.mark_visited((0, 0));
    m.record_open((0, 0), Dir::East);
    assert_eq!(bfs_first_step(&m, (0, 0), Goal::Frontier, None), Some(Dir::East));
    assert_eq!(explore_next(&m, (0, 0)), Some(Dir::East));
}

#[test]
fn direction_order_prefers_first() {
    assert_eq!(direction_order(None), [0, 1, 2, 3]);
    assert_eq!(direction_order(Some(Dir::South)), [2, 0, 1, 3]);
    assert_eq!(direction_order(Some(Dir::West)), [3, 0, 1, 2]);
}

#[test]
fn explore_next_without_frontier() {
    let m = DynMap::new();
    assert_eq!(explore_next(&m, (0, 0)), None);
}

#[test]
fn return_next_heads_home() {
    let m = visited_block(3);
    assert_eq!(return_next(&m, (0, 0)), None);
    assert_eq!(return_next(&m, (2, 0)), Some(Dir::South));
    assert_eq!(return_next(&m, (0, -3)), Some(Dir::East));
    let mut walled = visited_block(3);
    walled.record_wall((2, 0), Dir::South);
    let step = return_next(&walled, (2, 0));
    assert_eq!(step, Some(Dir::East));
    // Nothing is known: no way home.
    assert_eq!(return_next(&DynMap::new(), (2, 0)), None);
}

/// A corridor of visited cells (0,0) .. (0,n) along the East.
fn corridor(n: i32) -> DynMap {
    let mut m = DynMap::new();
    for c in 0..=n {
        m.mark_visited((0, c));
    }
    m
}

#[test]
fn dijkstra_start_is_goal() {
    let m = corridor(3);
    assert!(dijkstra_path(&m, (0, 1), Dir::East, (0, 1)).is_empty());
}

#[test]
fn dijkstra_straight_corridor() {
    let m = corridor(3);
    assert_eq!(dijkstra_path(&m, (0, 0), Dir::East, (0, 3)), vec![Dir::East, Dir::East, Dir::East]);
    assert_eq!(dijkstra_path(&m, (0, 3), Dir::East, (0, 0)), vec![Dir::West, Dir::West, Dir::West]);
}

#[test]
fn dijkstra_unreachable_goal() {
    let mut m = corridor(2);
    m.record_wall((0, 1), Dir::East);
    assert!(dijkstra_path(&m, (0, 0), Dir::East, (0, 2)).is_empty());
    // Cells that were never visited are not entered, except the goal.
    let m2 = corridor(1);
    assert!(dijkstra_path(&m2, (0, 0), Dir::East, (0, 3)).is_empty());
    assert_eq!(dijkstra_path(&m2, (0, 0), Dir::East, (0, 2)), vec![Dir::East, Dir::East]);
}

#[test]
fn dijkstra_prefers_fewer_turns() {
    // A 3x3 block of visited cells; from (0,0) facing North to (2,2).
    let mut m = DynMap::new();
    for r in 0..3 {
        for c in 0..3 {
            m.mark_visited((r, c));
        }
    }
    let path = dijkstra_path(&m, (0, 0), Dir::North, (2, 2));
    // Four moves, a single quarter turn: North, North, East, East.
    assert_eq!(path, vec![Dir::North, Dir::North, Dir::East, Dir::East]);
    let path_e = dijkstra_path(&m, (0, 0), Dir::East, (2, 2));
    assert_eq!(path_e, vec![Dir::East, Dir::East, Dir::North, Dir::North]);
}

#[test]
fn dijkstra_goes_around_a_wall() {
    let mut m = DynMap::new();
    for r in 0..2 {
        for c in 0..3 {
            m.mark_visited((r, c));
        }
    }
    m.record_wall((0, 0), Dir::East);
    let path = dijkstra_path(&m, (0, 0), Dir::East, (0, 1));
    assert_eq!(path, vec![Dir::North, Dir::East, Dir::South]);
}

#[test]
fn dijkstra_breaks_ties_by_search_order() {
    // Two mirror-image detours around the unknown (1,0), equally costly:
    // West, North, North, East and East, North, North, West. The one that
    // arrives heading East (the lower heading index) is returned.
    let mut m = DynMap::new();
    for (r, c) in [(0, 0), (0, 1), (0, -1), (1, 1), (1, -1), (2, 1), (2, -1)] {
        m.mark_visited((r, c));
    }
    let path = dijkstra_path(&m, (0, 0), Dir::North, (2, 0));
    assert_eq!(path, vec![Dir::West, Dir::North, Dir::North, Dir::East]);
}
