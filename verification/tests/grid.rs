use ciber_agent::dir::{has_neighbor, neighbor, turn_left, turn_right, Dir};
use ciber_agent::heading::Heading;
use ciber_agent::position::{neighbor_cell, Cell, VisitLog};

const ALL: [Dir; 4] = [Dir::North, Dir::East, Dir::South, Dir::West];

#[test]
fn delta_of_each_direction() {
    assert_eq!(Dir::North.delta(), (0, 1));
    assert_eq!(Dir::East.delta(), (1, 0));
    assert_eq!(Dir::South.delta(), (0, -1));
    assert_eq!(Dir::West.delta(), (-1, 0));
}

#[test]
fn opposite_pairs() {
    assert_eq!(Dir::North.opposite(), Dir::South);
    assert_eq!(Dir::East.opposite(), Dir::West);
    assert_eq!(Dir::South.opposite(), Dir::North);
    assert_eq!(Dir::West.opposite(), Dir::East);
    for d in ALL {
        assert_eq!(d.opposite().opposite(), d);
        assert_ne!(d.opposite(), d);
    }
}

#[test]
fn from_index_and_index() {
    assert_eq!(Dir::from_index(0), Dir::North);
    assert_eq!(Dir::from_index(1), Dir::East);
    assert_eq!(Dir::from_index(2), Dir::South);
    assert_eq!(Dir::from_index(3), Dir::West);
    assert_eq!(Dir::from_index(17), Dir::West);
    for d in ALL {
        assert_eq!(Dir::from_index(d.index() as usize), d);
    }
    assert_eq!(Dir::West.index(), 3);
}

#[test]
fn neighbor_moves_row_for_north_and_col_for_east() {
    assert_eq!(neighbor((0, 0), Dir::North), (1, 0));
    assert_eq!(neighbor((0, 0), Dir::East), (0, 1));
    assert_eq!(neighbor((3, -2), Dir::South), (2, -2));
    assert_eq!(neighbor((3, -2), Dir::West), (3, -3));
    for d in ALL {
        assert_eq!(neighbor(neighbor((5, 7), d), d.opposite()), (5, 7));
    }
}

#[test]
fn neighbor_exists_inside_the_grid_only() {
    assert!(has_neighbor((0, 0), Dir::North));
    assert!(!has_neighbor((i32::MAX, 0), Dir::North));
    assert!(!has_neighbor((0, i32::MIN), Dir::West));
    assert!(has_neighbor((i32::MAX, 0), Dir::South));
}

#[test]
fn turns_are_inverse_and_cycle() {
    assert_eq!(turn_left(Dir::North), Dir::West);
    assert_eq!(turn_right(Dir::North), Dir::East);
    for d in ALL {
        assert_eq!(turn_left(turn_right(d)), d);
        assert_eq!(turn_right(turn_left(d)), d);
        assert_eq!(turn_left(turn_left(turn_left(turn_left(d)))), d);
        assert_eq!(turn_left(turn_left(d)), d.opposite());
    }
}

#[test]
fn heading_left_cycles() {
    assert_eq!(Heading::East.left(), Heading::North);
    assert_eq!(Heading::North.left(), Heading::West);
    assert_eq!(Heading::West.left(), Heading::South);
    assert_eq!(Heading::South.left(), Heading::East);
    for h in [Heading::East, Heading::North, Heading::West, Heading::South] {
        assert_eq!(h.left().left().left().left(), h);
    }
}

#[test]
fn cell_neighbors() {
    let c = Cell::new(2, -1);
    assert_eq!(c.x, 2);
    assert_eq!(c.y, -1);
    assert_eq!(neighbor_cell(c, Heading::East), Cell::new(3, -1));
    assert_eq!(neighbor_cell(c, Heading::North), Cell::new(2, 0));
    assert_eq!(neighbor_cell(c, Heading::West), Cell::new(1, -1));
    assert_eq!(neighbor_cell(c, Heading::South), Cell::new(2, -2));
}

#[test]
fn visit_log_counts_entries() {
    let mut log = VisitLog::new();
    assert_eq!(log.visit_count(Cell::new(0, 0)), 1);
    assert_eq!(log.visited_cells(), 1);
    log.note_cell(Cell::new(0, 0));
    assert_eq!(log.visit_count(Cell::new(0, 0)), 1);
    log.note_cell(Cell::new(1, 0));
    log.note_cell(Cell::new(1, 0));
    log.note_cell(Cell::new(0, 0));
    log.note_cell(Cell::new(1, 0));
    assert_eq!(log.visit_count(Cell::new(1, 0)), 2);
    assert_eq!(log.visit_count(Cell::new(0, 0)), 2);
    assert_eq!(log.visit_count(Cell::new(5, 5)), 0);
    assert_eq!(log.visited_cells(), 2);
}

#[test]
fn prefer_left_when_left_less_visited() {
    let mut log = VisitLog::new();
    // Standing in (0,0) facing East: ahead is (1,0), left is (0,1).
    log.note_cell(Cell::new(1, 0));
    log.note_cell(Cell::new(0, 0));
    assert!(log.should_prefer_left(Cell::new(0, 0), Heading::East));
    log.note_cell(Cell::new(0, 1));
    assert!(!log.should_prefer_left(Cell::new(0, 0), Heading::East));
}
