use grid_pathing::algo::NODE_WALL;
use grid_pathing::diagonal::{Diagonal, Direction};
use grid_pathing::models::Coord;
use std::cell::RefCell;

fn open_field(_c: Coord) -> i32 {
    0
}

fn walls_at(walls: Vec<(i32, i32)>) -> impl Fn(Coord) -> i32 {
    move |c: Coord| {
        if walls.contains(&(c.x, c.y)) {
            NODE_WALL
        } else {
            0
        }
    }
}

fn cells(list: &[(i32, i32)]) -> Vec<Coord> {
    list.iter().map(|p| Coord::new(p.0, p.1)).collect()
}

#[test]
fn diagonal_list_has_four_policies_in_order() {
    assert_eq!(Diagonal::len(), 4);
    assert_eq!(Diagonal::from_index(0), Diagonal::Never);
    assert_eq!(Diagonal::from_index(1), Diagonal::NoWalls);
    assert_eq!(Diagonal::from_index(2), Diagonal::OneWall);
    assert_eq!(Diagonal::from_index(3), Diagonal::Always);
}

#[test]
fn diagonal_names_are_the_menu_labels() {
    assert_eq!(Diagonal::Never.name(), "Never");
    assert_eq!(Diagonal::NoWalls.name(), "No walls");
    assert_eq!(Diagonal::OneWall.name(), "Only one wall");
    assert_eq!(Diagonal::Always.name(), "Always");
}

#[test]
fn max_walls_grows_with_the_policy() {
    assert_eq!(Diagonal::Never.max_walls(), 0);
    assert_eq!(Diagonal::NoWalls.max_walls(), 0);
    assert_eq!(Diagonal::OneWall.max_walls(), 1);
    assert_eq!(Diagonal::Always.max_walls(), 2);
}

#[test]
fn allows_counts_walls_against_the_tolerance() {
    for walls in 0..3 {
        assert!(!Diagonal::Never.allows(walls));
    }
    assert!(Diagonal::NoWalls.allows(0));
    assert!(!Diagonal::NoWalls.allows(1));
    assert!(Diagonal::OneWall.allows(1));
    assert!(!Diagonal::OneWall.allows(2));
    assert!(Diagonal::Always.allows(2));
    assert!(!Diagonal::Always.allows(3));
}

#[test]
fn directions_lead_to_the_eight_cells_around() {
    let at = Coord::new(5, 5);
    assert_eq!(Direction::Top.convert_to_coord(at), Coord::new(5, 4));
    assert_eq!(Direction::Bottom.convert_to_coord(at), Coord::new(5, 6));
    assert_eq!(Direction::Left.convert_to_coord(at), Coord::new(4, 5));
    assert_eq!(Direction::Right.convert_to_coord(at), Coord::new(6, 5));
    assert_eq!(Direction::TopRight.convert_to_coord(at), Coord::new(6, 4));
    assert_eq!(Direction::TopLeft.convert_to_coord(at), Coord::new(4, 4));
    assert_eq!(Direction::BottomRight.convert_to_coord(at), Coord::new(6, 6));
    assert_eq!(Direction::BottomLeft.convert_to_coord(at), Coord::new(4, 6));
}

#[test]
fn directions_know_the_cells_beside_them() {
    let at = Coord::new(5, 5);
    assert_eq!(
        Direction::TopRight.convert_direction_to_neighbours(at),
        cells(&[(5, 4), (6, 5)])
    );
    assert_eq!(
        Direction::TopLeft.convert_direction_to_neighbours(at),
        cells(&[(4, 5), (5, 4)])
    );
    assert_eq!(
        Direction::BottomRight.convert_direction_to_neighbours(at),
        cells(&[(5, 6), (6, 5)])
    );
    assert_eq!(
        Direction::BottomLeft.convert_direction_to_neighbours(at),
        cells(&[(4, 5), (5, 6)])
    );
    assert_eq!(Direction::Top.convert_direction_to_neighbours(at), cells(&[(4, 4), (6, 4)]));
    assert_eq!(Direction::Right.convert_direction_to_neighbours(at), cells(&[(6, 4), (6, 6)]));
    assert_eq!(Direction::Left.convert_direction_to_neighbours(at), cells(&[(4, 4), (4, 6)]));
    assert_eq!(Direction::Bottom.convert_direction_to_neighbours(at), cells(&[(4, 6), (6, 6)]));
}

#[test]
fn never_yields_the_four_orthogonal_cells() {
    let found = Diagonal::Never.get_neighbours(&open_field, Coord::new(5, 5));
    assert_eq!(found, cells(&[(5, 4), (5, 6), (4, 5), (6, 5)]));
}

#[test]
fn open_field_yields_all_eight_cells_in_order() {
    for policy in [Diagonal::NoWalls, Diagonal::OneWall, Diagonal::Always] {
        let found = policy.get_neighbours(&open_field, Coord::new(5, 5));
        assert_eq!(
            found,
            cells(&[(5, 4), (5, 6), (4, 5), (6, 5), (6, 4), (6, 6), (4, 4), (4, 6)])
        );
    }
}

#[test]
fn walled_cells_are_never_candidates() {
    let cost = walls_at(vec![(5, 4), (6, 6)]);
    let found = Diagonal::Always.get_neighbours(&cost, Coord::new(5, 5));
    assert_eq!(found, cells(&[(5, 6), (4, 5), (6, 5), (6, 4), (4, 4), (4, 6)]));
    let found = Diagonal::Never.get_neighbours(&cost, Coord::new(5, 5));
    assert_eq!(found, cells(&[(5, 6), (4, 5), (6, 5)]));
}

#[test]
fn one_wall_beside_a_diagonal_stops_the_strict_policy() {
    let cost = walls_at(vec![(5, 4)]);
    let at = Coord::new(5, 5);
    assert_eq!(
        Diagonal::NoWalls.get_neighbours(&cost, at),
        cells(&[(5, 6), (4, 5), (6, 5), (6, 6), (4, 6)])
    );
    assert_eq!(
        Diagonal::OneWall.get_neighbours(&cost, at),
        cells(&[(5, 6), (4, 5), (6, 5), (6, 4), (6, 6), (4, 4), (4, 6)])
    );
    assert_eq!(
        Diagonal::Always.get_neighbours(&cost, at),
        cells(&[(5, 6), (4, 5), (6, 5), (6, 4), (6, 6), (4, 4), (4, 6)])
    );
}

#[test]
fn two_walls_beside_a_diagonal_pass_only_the_loosest_policy() {
    let cost = walls_at(vec![(5, 4), (6, 5)]);
    let at = Coord::new(5, 5);
    assert_eq!(Diagonal::NoWalls.get_neighbours(&cost, at), cells(&[(5, 6), (4, 5), (4, 6)]));
    assert_eq!(
        Diagonal::OneWall.get_neighbours(&cost, at),
        cells(&[(5, 6), (4, 5), (6, 6), (4, 4), (4, 6)])
    );
    assert_eq!(
        Diagonal::Always.get_neighbours(&cost, at),
        cells(&[(5, 6), (4, 5), (6, 4), (6, 6), (4, 4), (4, 6)])
    );
}

#[test]
fn only_the_wall_sentinel_blocks_a_candidate() {
    let cost = |c: Coord| if c.x == 6 { 8 } else if c.y == 4 { -2 } else { 0 };
    let found = Diagonal::Never.get_neighbours(&cost, Coord::new(5, 5));
    assert_eq!(found, cells(&[(5, 4), (5, 6), (4, 5), (6, 5)]));
}

#[test]
fn candidates_of_a_looser_policy_include_those_of_a_stricter() {
    let cost = walls_at(vec![(1, 0), (0, 1), (2, 1), (3, 2)]);
    let order = [Diagonal::Never, Diagonal::NoWalls, Diagonal::OneWall, Diagonal::Always];
    for x in 0..4 {
        for y in 0..4 {
            for pair in order.windows(2) {
                let strict = pair[0].get_neighbours(&cost, Coord::new(x, y));
                let loose = pair[1].get_neighbours(&cost, Coord::new(x, y));
                for c in strict {
                    assert!(loose.contains(&c));
                }
            }
        }
    }
}

#[test]
fn cost_function_is_asked_once_about_each_consulted_cell() {
    let asked: RefCell<Vec<(i32, i32)>> = RefCell::new(Vec::new());
    let cost = |c: Coord| {
        asked.borrow_mut().push((c.x, c.y));
        if c.x == 6 {
            NODE_WALL
        } else {
            0
        }
    };
    Diagonal::Never.get_neighbours(&cost, Coord::new(5, 5));
    assert_eq!(*asked.borrow(), vec![(5, 4), (5, 6), (4, 5), (6, 5)]);
    asked.borrow_mut().clear();
    Diagonal::OneWall.get_neighbours(&cost, Coord::new(5, 5));
    assert_eq!(
        *asked.borrow(),
        vec![(5, 4), (5, 6), (4, 5), (6, 5), (6, 4), (6, 6), (4, 4), (4, 6)]
    );
}
