use grid_pathing::algo::{AlgoStatus, NODE_WALL};
use grid_pathing::diagonal::Diagonal;
use grid_pathing::engine::{Search, SearchOptions};
use grid_pathing::grid::{Cell, Grid};
use grid_pathing::models::Coord;

#[test]
fn grid_keeps_what_the_functions_say_about_each_cell() {
    let cost = |c: Coord| c.x * 10 + c.y;
    let goal = |c: Coord| c.x == c.y;
    let estimate = |c: Coord| 100 - c.x - c.y;
    let grid = Grid::sample(3, 2, &cost, &goal, &estimate);
    assert_eq!(grid.column_count(), 3);
    assert_eq!(grid.row_count(), 2);
    for x in 0..3 {
        for y in 0..2 {
            let c = Coord::new(x, y);
            assert_eq!(
                grid.lookup(c),
                Cell { cost: x * 10 + y, goal: x == y, estimate: 100 - x - y }
            );
            assert_eq!(grid.cost_at(c), x * 10 + y);
        }
    }
}

#[test]
fn grid_is_walled_in() {
    let grid = Grid::sample(3, 2, &|_c: Coord| 7, &|_c: Coord| true, &|_c: Coord| 9);
    let outside = Cell { cost: NODE_WALL, goal: false, estimate: 0 };
    for c in [Coord::new(-1, 0), Coord::new(0, -1), Coord::new(3, 0), Coord::new(0, 2)] {
        assert_eq!(grid.lookup(c), outside);
        assert_eq!(grid.cost_at(c), NODE_WALL);
    }
}

#[test]
fn grid_without_cells_is_all_wall() {
    for (width, height) in [(0, 5), (5, 0), (-3, 4), (4, -3), (0, 0)] {
        let grid = Grid::sample(width, height, &|_c: Coord| 1, &|_c: Coord| true, &|_c: Coord| 1);
        assert_eq!(grid.column_count(), width);
        assert_eq!(grid.row_count(), height);
        assert_eq!(grid.cost_at(Coord::new(0, 0)), NODE_WALL);
    }
}

#[test]
fn search_orders_the_frontier_by_path_length_estimate_and_weighted_cost() {
    let cost = |c: Coord| if c.x == 1 && c.y == 0 { 2 } else { 0 };
    let goal = |c: Coord| c.x == 2 && c.y == 2;
    let estimate = |c: Coord| if c.x == 0 && c.y == 1 { 11 } else { 0 };
    let options = SearchOptions { terrain_weight: 5, relax: false, nearest_goal: false };
    let mut search =
        Search::new(Coord::new(0, 0), 3, 3, Diagonal::Never, options, &cost, &goal, &estimate);
    assert_eq!(
        search.status(),
        &AlgoStatus::InProgress((vec![Coord::new(0, 0)], vec![]))
    );
    search.advance();
    assert_eq!(
        search.status(),
        &AlgoStatus::InProgress((
            vec![Coord::new(0, 1), Coord::new(1, 0)],
            vec![Coord::new(0, 0)]
        ))
    );
    search.advance();
    assert_eq!(search.expanded_cells(), vec![Coord::new(0, 0), Coord::new(1, 0)]);
    let options = SearchOptions { terrain_weight: 6, relax: false, nearest_goal: false };
    let mut search =
        Search::new(Coord::new(0, 0), 3, 3, Diagonal::Never, options, &cost, &goal, &estimate);
    search.advance();
    search.advance();
    assert_eq!(search.expanded_cells(), vec![Coord::new(0, 0), Coord::new(0, 1)]);
}
