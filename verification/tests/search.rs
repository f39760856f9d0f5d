use grid_pathing::algo::{AlgoStatus, Algorithm, NODE_WALL};
use grid_pathing::astar::Astar;
use grid_pathing::diagonal::Diagonal;
use grid_pathing::dijkstra::Dijkstra;
use grid_pathing::engine::{SearchOptions, TERRAIN_WEIGHT};
use grid_pathing::heuristic::Heuristic;
use grid_pathing::models::Coord;

fn cells(list: &[(i32, i32)]) -> Vec<Coord> {
    list.iter().map(|p| Coord::new(p.0, p.1)).collect()
}

fn grid(width: i32, height: i32, walls: &[(i32, i32)]) -> impl Fn(Coord) -> i32 {
    let walls: Vec<(i32, i32)> = walls.to_vec();
    move |c: Coord| {
        if c.is_out_of_bounds(width, height) || walls.contains(&(c.x, c.y)) {
            NODE_WALL
        } else {
            0
        }
    }
}

fn table(costs: Vec<Vec<i32>>) -> impl Fn(Coord) -> i32 {
    move |c: Coord| {
        if c.x < 0 || c.y < 0 || c.x as usize >= costs.len() || c.y as usize >= costs[0].len() {
            NODE_WALL
        } else {
            costs[c.x as usize][c.y as usize]
        }
    }
}

fn snapshot(status: &AlgoStatus) -> (Vec<Coord>, Vec<Coord>, Vec<Coord>, bool) {
    match status {
        AlgoStatus::InProgress((open, closed)) => (open.clone(), closed.clone(), vec![], false),
        AlgoStatus::Found(path) => (vec![], vec![], path.clone(), false),
        AlgoStatus::NoPath => (vec![], vec![], vec![], true),
    }
}

fn finish<A: Algorithm>(engine: &mut A, limit: usize) -> (Option<Vec<Coord>>, usize) {
    for ticks in 1..=limit {
        engine.tick();
        match engine.get_data() {
            AlgoStatus::Found(path) => return (Some(path.clone()), ticks),
            AlgoStatus::NoPath => return (None, ticks),
            AlgoStatus::InProgress(_) => {}
        }
    }
    panic!("the search did not end within {} steps", limit);
}

fn is_step(policy: Diagonal, cost: &dyn Fn(Coord) -> i32, a: Coord, b: Coord) -> bool {
    policy.get_neighbours(&cost, a).contains(&b) && cost(b) >= 0
}

const BARRIER: [(i32, i32); 3] = [(3, 0), (2, 1), (1, 2)];

#[test]
fn default_terrain_weight_is_five() {
    assert_eq!(TERRAIN_WEIGHT, 5);
    let options = SearchOptions::default();
    assert_eq!(options.terrain_weight, 5);
    assert!(!options.relax);
    assert!(!options.nearest_goal);
}

#[test]
fn a_new_engine_shows_the_start_on_the_frontier() {
    let engine = Dijkstra::new_fixed_target(
        Coord::new(1, 2),
        cells(&[(3, 3)]),
        grid(4, 4, &[]),
        4,
        4,
        Diagonal::Never,
    );
    let (open, closed, path, none) = snapshot(engine.get_data());
    assert_eq!(open, cells(&[(1, 2)]));
    assert!(closed.is_empty());
    assert!(path.is_empty());
    assert!(!none);
}

#[test]
fn first_step_expands_the_start_in_candidate_order() {
    let mut engine = Dijkstra::new_fixed_target(
        Coord::new(1, 1),
        cells(&[(3, 3)]),
        grid(4, 4, &[]),
        4,
        4,
        Diagonal::Always,
    );
    engine.tick();
    let (open, closed, _, _) = snapshot(engine.get_data());
    assert_eq!(
        open,
        cells(&[(1, 0), (1, 2), (0, 1), (2, 1), (2, 0), (2, 2), (0, 0), (0, 2)])
    );
    assert_eq!(closed, cells(&[(1, 1)]));
}

#[test]
fn cells_outside_the_grid_never_enter_the_frontier() {
    let everywhere_free = |_c: Coord| 0;
    let mut engine = Dijkstra::new_fixed_target(
        Coord::new(0, 0),
        cells(&[(1, 1)]),
        everywhere_free,
        2,
        2,
        Diagonal::Never,
    );
    engine.tick();
    let (open, closed, _, _) = snapshot(engine.get_data());
    assert_eq!(open, cells(&[(0, 1), (1, 0)]));
    assert_eq!(closed, cells(&[(0, 0)]));
}

#[test]
fn barrier_without_diagonals_takes_the_detour() {
    for policy in [Diagonal::Never, Diagonal::NoWalls] {
        let mut dijkstra = Dijkstra::new_fixed_target(
            Coord::new(0, 0),
            cells(&[(3, 3)]),
            grid(4, 4, &BARRIER),
            4,
            4,
            policy,
        );
        let (path, _) = finish(&mut dijkstra, 100);
        assert_eq!(
            path.unwrap(),
            cells(&[(0, 0), (0, 1), (0, 2), (0, 3), (1, 3), (2, 3), (3, 3)])
        );
        let mut astar = Astar::new_fixed_target(
            Coord::new(0, 0),
            cells(&[(3, 3)]),
            grid(4, 4, &BARRIER),
            4,
            4,
            policy,
            Heuristic::Chebyshev,
        );
        let (path, _) = finish(&mut astar, 100);
        assert_eq!(
            path.unwrap(),
            cells(&[(0, 0), (0, 1), (0, 2), (0, 3), (1, 3), (2, 3), (3, 3)])
        );
    }
}

#[test]
fn barrier_with_one_wall_tolerated_cuts_one_corner() {
    let mut dijkstra = Dijkstra::new_fixed_target(
        Coord::new(0, 0),
        cells(&[(3, 3)]),
        grid(4, 4, &BARRIER),
        4,
        4,
        Diagonal::OneWall,
    );
    let (path, _) = finish(&mut dijkstra, 100);
    assert_eq!(path.unwrap(), cells(&[(0, 0), (0, 1), (0, 2), (1, 3), (2, 3), (3, 3)]));
    let mut astar = Astar::new_fixed_target(
        Coord::new(0, 0),
        cells(&[(3, 3)]),
        grid(4, 4, &BARRIER),
        4,
        4,
        Diagonal::OneWall,
        Heuristic::Chebyshev,
    );
    let (path, _) = finish(&mut astar, 100);
    assert_eq!(path.unwrap(), cells(&[(0, 0), (1, 1), (0, 2), (1, 3), (2, 3), (3, 3)]));
}

#[test]
fn barrier_with_free_diagonals_goes_straight() {
    let straight = cells(&[(0, 0), (1, 1), (2, 2), (3, 3)]);
    let mut dijkstra = Dijkstra::new_fixed_target(
        Coord::new(0, 0),
        cells(&[(3, 3)]),
        grid(4, 4, &BARRIER),
        4,
        4,
        Diagonal::Always,
    );
    assert_eq!(finish(&mut dijkstra, 100).0.unwrap(), straight);
    let mut astar = Astar::new_fixed_target(
        Coord::new(0, 0),
        cells(&[(3, 3)]),
        grid(4, 4, &BARRIER),
        4,
        4,
        Diagonal::Always,
        Heuristic::Chebyshev,
    );
    assert_eq!(finish(&mut astar, 100).0.unwrap(), straight);
}

#[test]
fn several_goals_end_at_the_one_selected_first() {
    let mut dijkstra = Dijkstra::new_fixed_target(
        Coord::new(0, 0),
        cells(&[(3, 3), (0, 3)]),
        grid(4, 4, &[]),
        4,
        4,
        Diagonal::Never,
    );
    let (path, ticks) = finish(&mut dijkstra, 100);
    assert_eq!(path.unwrap(), cells(&[(0, 0), (0, 1), (0, 2), (0, 3)]));
    assert_eq!(ticks, 7);
    let mut astar = Astar::new_fixed_target(
        Coord::new(0, 0),
        cells(&[(3, 3), (0, 3)]),
        grid(4, 4, &[]),
        4,
        4,
        Diagonal::Always,
        Heuristic::Manhattan,
    );
    let (path, ticks) = finish(&mut astar, 100);
    assert_eq!(path.unwrap(), cells(&[(0, 0), (0, 1), (0, 2), (0, 3)]));
    assert_eq!(ticks, 4);
}

#[test]
fn start_on_a_goal_is_found_at_the_first_step() {
    let mut engine = Astar::new_fixed_target(
        Coord::new(2, 2),
        cells(&[(2, 2)]),
        grid(4, 4, &[]),
        4,
        4,
        Diagonal::Never,
        Heuristic::Manhattan,
    );
    let (path, ticks) = finish(&mut engine, 10);
    assert_eq!(path.unwrap(), cells(&[(2, 2)]));
    assert_eq!(ticks, 1);
}

#[test]
fn walled_in_goal_ends_without_a_path() {
    let walls = [(2, 3), (3, 2), (2, 2)];
    for policy in [Diagonal::Never, Diagonal::NoWalls, Diagonal::OneWall, Diagonal::Always] {
        let mut dijkstra = Dijkstra::new_fixed_target(
            Coord::new(0, 0),
            cells(&[(3, 3)]),
            grid(4, 4, &walls),
            4,
            4,
            policy,
        );
        let (path, ticks) = finish(&mut dijkstra, 100);
        assert!(path.is_none());
        assert_eq!(ticks, 13);
        let mut astar = Astar::new_fixed_target(
            Coord::new(0, 0),
            cells(&[(3, 3)]),
            grid(4, 4, &walls),
            4,
            4,
            policy,
            Heuristic::Euclidean,
        );
        assert!(finish(&mut astar, 100).0.is_none());
    }
}

#[test]
fn no_goal_at_all_ends_without_a_path() {
    let mut engine = Dijkstra::new_fixed_target(
        Coord::new(0, 0),
        Vec::new(),
        grid(3, 2, &[]),
        3,
        2,
        Diagonal::Always,
    );
    let (path, ticks) = finish(&mut engine, 100);
    assert!(path.is_none());
    assert_eq!(ticks, 7);
}

#[test]
fn goal_outside_the_grid_is_never_reached() {
    let everywhere_free = |_c: Coord| 0;
    let mut engine = Dijkstra::new_fixed_target(
        Coord::new(0, 0),
        cells(&[(2, 0)]),
        everywhere_free,
        2,
        1,
        Diagonal::Never,
    );
    let (path, ticks) = finish(&mut engine, 100);
    assert!(path.is_none());
    assert_eq!(ticks, 3);
}

#[test]
fn a_finished_search_stays_as_it_is() {
    let mut found = Dijkstra::new_fixed_target(
        Coord::new(0, 0),
        cells(&[(2, 1)]),
        grid(3, 3, &[]),
        3,
        3,
        Diagonal::Never,
    );
    let (path, _) = finish(&mut found, 100);
    for _ in 0..5 {
        found.tick();
        assert_eq!(found.get_data(), &AlgoStatus::Found(path.clone().unwrap()));
    }
    let mut lost = Astar::new_fixed_target(
        Coord::new(0, 0),
        cells(&[(2, 2)]),
        grid(3, 3, &[(1, 0), (0, 1), (1, 1)]),
        3,
        3,
        Diagonal::Always,
        Heuristic::Manhattan,
    );
    assert!(finish(&mut lost, 100).0.is_none());
    for _ in 0..5 {
        lost.tick();
        assert_eq!(lost.get_data(), &AlgoStatus::NoPath);
    }
}

#[test]
fn open_grid_paths_are_as_long_as_the_distance() {
    let width: i32 = 5;
    let height: i32 = 4;
    for policy in [Diagonal::Never, Diagonal::NoWalls, Diagonal::OneWall, Diagonal::Always] {
        for sx in 0..width {
            for sy in 0..height {
                for gx in 0..width {
                    for gy in 0..height {
                        let dx = (sx - gx).abs();
                        let dy = (sy - gy).abs();
                        let distance = if policy == Diagonal::Never { dx + dy } else { dx.max(dy) };
                        let mut dijkstra = Dijkstra::new_fixed_target(
                            Coord::new(sx, sy),
                            cells(&[(gx, gy)]),
                            grid(width, height, &[]),
                            width,
                            height,
                            policy,
                        );
                        let (path, _) = finish(&mut dijkstra, 100);
                        assert_eq!(path.unwrap().len() as i32 - 1, distance);
                        let mut astar = Astar::new_fixed_target(
                            Coord::new(sx, sy),
                            cells(&[(gx, gy)]),
                            grid(width, height, &[]),
                            width,
                            height,
                            policy,
                            Heuristic::Zero,
                        );
                        let (path, _) = finish(&mut astar, 100);
                        assert_eq!(path.unwrap().len() as i32 - 1, distance);
                    }
                }
            }
        }
    }
}

#[test]
fn summed_estimates_can_miss_the_shortest_path() {
    let mut engine = Astar::new_fixed_target(
        Coord::new(0, 0),
        cells(&[(2, 2), (4, 0)]),
        grid(5, 4, &[]),
        5,
        4,
        Diagonal::Always,
        Heuristic::Manhattan,
    );
    let (path, _) = finish(&mut engine, 100);
    assert_eq!(path.unwrap(), cells(&[(0, 0), (1, 0), (2, 1), (2, 2)]));
}

#[test]
fn every_found_path_is_a_chain_of_legal_steps() {
    let walls = [(1, 0), (1, 1), (3, 1), (3, 2), (3, 3), (1, 3), (4, 1)];
    let heuristics = [
        Heuristic::Zero,
        Heuristic::Manhattan,
        Heuristic::Euclidean,
        Heuristic::Chebyshev,
        Heuristic::Octile,
        Heuristic::Mine,
    ];
    for policy in [Diagonal::Never, Diagonal::NoWalls, Diagonal::OneWall, Diagonal::Always] {
        for heuristic in heuristics {
            let goals = cells(&[(5, 3), (4, 0)]);
            let mut engine = Astar::new_fixed_target(
                Coord::new(0, 0),
                goals.clone(),
                grid(6, 4, &walls),
                6,
                4,
                policy,
                heuristic,
            );
            let (path, _) = finish(&mut engine, 200);
            let path = path.unwrap();
            assert_eq!(path[0], Coord::new(0, 0));
            assert!(goals.contains(path.last().unwrap()));
            let cost = grid(6, 4, &walls);
            for pair in path.windows(2) {
                assert!(is_step(policy, &cost, pair[0], pair[1]));
            }
        }
    }
}

#[test]
fn no_cell_is_ever_listed_twice() {
    let mut engine = Astar::new_fixed_target(
        Coord::new(2, 2),
        cells(&[(5, 5)]),
        grid(6, 6, &[(3, 3), (4, 4)]),
        6,
        6,
        Diagonal::Always,
        Heuristic::Mine,
    );
    for _ in 0..40 {
        engine.tick();
        if let AlgoStatus::InProgress((open, closed)) = engine.get_data() {
            let mut all: Vec<(i32, i32)> =
                open.iter().chain(closed.iter()).map(|c| (c.x, c.y)).collect();
            let count = all.len();
            all.sort();
            all.dedup();
            assert_eq!(all.len(), count);
        }
    }
}

#[test]
fn zero_heuristic_astar_steps_like_dijkstra() {
    let costs = vec![
        vec![0, 1, 0, 1],
        vec![-1, 0, 2, 2],
        vec![0, 2, 1, 1],
        vec![-1, 0, 1, 0],
    ];
    for policy in [Diagonal::Never, Diagonal::NoWalls, Diagonal::OneWall, Diagonal::Always] {
        let mut astar = Astar::new_fixed_target(
            Coord::new(0, 0),
            cells(&[(3, 3)]),
            table(costs.clone()),
            4,
            4,
            policy,
            Heuristic::Zero,
        );
        let mut dijkstra = Dijkstra::new_fixed_target(
            Coord::new(0, 0),
            cells(&[(3, 3)]),
            table(costs.clone()),
            4,
            4,
            policy,
        );
        assert_eq!(astar.get_data(), dijkstra.get_data());
        for _ in 0..20 {
            astar.tick();
            dijkstra.tick();
            assert_eq!(astar.get_data(), dijkstra.get_data());
        }
        assert!(astar.get_data().is_terminal());
    }
}

#[test]
fn reachable_cells_grow_with_the_policy() {
    let walls = [(1, 0), (0, 1), (2, 2), (3, 1), (1, 3)];
    let mut before: Vec<(i32, i32)> = Vec::new();
    for policy in [Diagonal::Never, Diagonal::NoWalls, Diagonal::OneWall, Diagonal::Always] {
        let mut engine = Dijkstra::new_fixed_target(
            Coord::new(0, 0),
            Vec::new(),
            grid(4, 4, &walls),
            4,
            4,
            policy,
        );
        let mut reached: Vec<(i32, i32)> = Vec::new();
        for _ in 0..30 {
            engine.tick();
            if let AlgoStatus::InProgress((_, closed)) = engine.get_data() {
                reached = closed.iter().map(|c| (c.x, c.y)).collect();
            }
        }
        assert_eq!(engine.get_data(), &AlgoStatus::NoPath);
        for c in &before {
            assert!(reached.contains(c));
        }
        before = reached;
    }
    assert_eq!(before.len(), 11);
}

#[test]
fn equal_priorities_are_expanded_oldest_first() {
    let mut engine = Dijkstra::new_fixed_target(
        Coord::new(1, 1),
        Vec::new(),
        grid(3, 3, &[]),
        3,
        3,
        Diagonal::Never,
    );
    engine.tick();
    engine.tick();
    let (open, closed, _, _) = snapshot(engine.get_data());
    assert_eq!(closed, cells(&[(1, 1), (1, 0)]));
    assert_eq!(open, cells(&[(1, 2), (0, 1), (2, 1), (0, 0), (2, 0)]));
    engine.tick();
    let (_, closed, _, _) = snapshot(engine.get_data());
    assert_eq!(closed, cells(&[(1, 1), (1, 0), (1, 2)]));
}

#[test]
fn terrain_weight_steers_the_search_around_costly_cells() {
    let costs = vec![vec![0, 0, 0], vec![0, 8, 0], vec![0, 0, 0]];
    let mut weighted = Dijkstra::new_fixed_target(
        Coord::new(0, 1),
        cells(&[(2, 1)]),
        table(costs.clone()),
        3,
        3,
        Diagonal::Never,
    );
    let (path, _) = finish(&mut weighted, 50);
    assert_eq!(path.unwrap(), cells(&[(0, 1), (0, 0), (1, 0), (2, 0), (2, 1)]));
    let flat = SearchOptions { terrain_weight: 0, relax: false, nearest_goal: false };
    let mut unweighted = Dijkstra::new_fixed_target_with(
        Coord::new(0, 1),
        cells(&[(2, 1)]),
        table(costs),
        3,
        3,
        Diagonal::Never,
        flat,
    );
    let (path, _) = finish(&mut unweighted, 50);
    assert_eq!(path.unwrap(), cells(&[(0, 1), (1, 1), (2, 1)]));
}

#[test]
fn first_route_wins_unless_relaxation_is_asked_for() {
    let costs = vec![vec![8, 8, 8], vec![0, 8, 2], vec![-1, 2, 2]];
    let mut first_wins = Dijkstra::new_fixed_target(
        Coord::new(0, 2),
        cells(&[(0, 0)]),
        table(costs.clone()),
        3,
        3,
        Diagonal::Always,
    );
    let (path, _) = finish(&mut first_wins, 50);
    assert_eq!(path.unwrap(), cells(&[(0, 2), (1, 2), (2, 1), (1, 0), (0, 0)]));
    let relaxing = SearchOptions { terrain_weight: TERRAIN_WEIGHT, relax: true, nearest_goal: false };
    let mut relaxed = Dijkstra::new_fixed_target_with(
        Coord::new(0, 2),
        cells(&[(0, 0)]),
        table(costs),
        3,
        3,
        Diagonal::Always,
        relaxing,
    );
    let (path, _) = finish(&mut relaxed, 50);
    assert_eq!(path.unwrap(), cells(&[(0, 2), (0, 1), (0, 0)]));
}

#[test]
fn goals_are_summed_unless_the_nearest_is_asked_for() {
    let mut summed = Astar::new_fixed_target(
        Coord::new(0, 0),
        cells(&[(1, 3), (1, 1)]),
        grid(4, 4, &[]),
        4,
        4,
        Diagonal::Never,
        Heuristic::Manhattan,
    );
    let (path, ticks) = finish(&mut summed, 50);
    assert_eq!(path.unwrap(), cells(&[(0, 0), (0, 1), (1, 1)]));
    assert_eq!(ticks, 3);
    let nearest = SearchOptions { terrain_weight: TERRAIN_WEIGHT, relax: false, nearest_goal: true };
    let mut by_nearest = Astar::new_fixed_target_with(
        Coord::new(0, 0),
        cells(&[(1, 3), (1, 1)]),
        grid(4, 4, &[]),
        4,
        4,
        Diagonal::Never,
        Heuristic::Manhattan,
        nearest,
    );
    let (path, ticks) = finish(&mut by_nearest, 50);
    assert_eq!(path.unwrap(), cells(&[(0, 0), (0, 1), (1, 1)]));
    assert_eq!(ticks, 4);
}

#[test]
fn open_target_takes_the_callers_goal_and_estimate() {
    let on_last_row = |c: Coord| c.y == 3;
    let rows_left = |c: Coord| 3 - c.y;
    let mut astar = Astar::new_open_target(
        Coord::new(1, 0),
        on_last_row,
        rows_left,
        grid(4, 4, &[(1, 1)]),
        4,
        4,
        Diagonal::Never,
    );
    let (path, _) = finish(&mut astar, 50);
    let path = path.unwrap();
    assert_eq!(path[0], Coord::new(1, 0));
    assert_eq!(path.last().unwrap().y, 3);
    assert_eq!(path.len(), 5);
    let mut dijkstra = Dijkstra::new_open_target(
        Coord::new(1, 0),
        on_last_row,
        grid(4, 4, &[(1, 1)]),
        4,
        4,
        Diagonal::Never,
    );
    let (path, _) = finish(&mut dijkstra, 50);
    let path = path.unwrap();
    assert_eq!(path.last().unwrap().y, 3);
    assert_eq!(path.len(), 5);
}

#[test]
fn process_once_is_one_tick() {
    let mut by_tick = Astar::new_fixed_target(
        Coord::new(0, 0),
        cells(&[(2, 2)]),
        grid(3, 3, &[]),
        3,
        3,
        Diagonal::OneWall,
        Heuristic::Octile,
    );
    let mut by_step = Astar::new_fixed_target(
        Coord::new(0, 0),
        cells(&[(2, 2)]),
        grid(3, 3, &[]),
        3,
        3,
        Diagonal::OneWall,
        Heuristic::Octile,
    );
    for _ in 0..6 {
        by_tick.tick();
        by_step.process_once();
        assert_eq!(by_tick.get_data(), by_step.get_data());
    }
}

#[test]
fn the_search_ends_within_one_step_per_cell_and_one_more() {
    let width: i32 = 4;
    let height: i32 = 3;
    for policy in [Diagonal::Never, Diagonal::Always] {
        let mut engine = Dijkstra::new_fixed_target(
            Coord::new(0, 0),
            Vec::new(),
            grid(width, height, &[]),
            width,
            height,
            policy,
        );
        let (path, ticks) = finish(&mut engine, 100);
        assert!(path.is_none());
        assert_eq!(ticks, (width * height + 1) as usize);
    }
}

#[test]
fn matching_heuristic_finds_shortest_paths_on_open_grids() {
    let width: i32 = 5;
    let height: i32 = 4;
    for policy in [Diagonal::Never, Diagonal::NoWalls, Diagonal::OneWall, Diagonal::Always] {
        let heuristic =
            if policy == Diagonal::Never { Heuristic::Manhattan } else { Heuristic::Chebyshev };
        for sx in 0..width {
            for sy in 0..height {
                for gx in 0..width {
                    for gy in 0..height {
                        let dx = (sx - gx).abs();
                        let dy = (sy - gy).abs();
                        let distance = if policy == Diagonal::Never { dx + dy } else { dx.max(dy) };
                        let mut astar = Astar::new_fixed_target(
                            Coord::new(sx, sy),
                            cells(&[(gx, gy)]),
                            grid(width, height, &[]),
                            width,
                            height,
                            policy,
                            heuristic,
                        );
                        let (path, _) = finish(&mut astar, 100);
                        let path = path.unwrap();
                        assert_eq!(path.len() as i32 - 1, distance);
                        assert_eq!(*path.last().unwrap(), Coord::new(gx, gy));
                    }
                }
            }
        }
    }
}

#[test]
fn terrain_weight_is_idle_where_all_cells_cost_the_same() {
    let costs = vec![
        vec![3, 3, 3, 3],
        vec![-1, 3, -1, 3],
        vec![3, 3, 3, 3],
        vec![3, -1, 3, 3],
    ];
    for policy in [Diagonal::Never, Diagonal::NoWalls, Diagonal::OneWall, Diagonal::Always] {
        let unweighted = SearchOptions { terrain_weight: 0, relax: false, nearest_goal: false };
        let mut astar = Astar::new_fixed_target_with(
            Coord::new(0, 0),
            cells(&[(3, 3)]),
            table(costs.clone()),
            4,
            4,
            policy,
            Heuristic::Zero,
            unweighted,
        );
        let mut dijkstra = Dijkstra::new_fixed_target(
            Coord::new(0, 0),
            cells(&[(3, 3)]),
            table(costs.clone()),
            4,
            4,
            policy,
        );
        for _ in 0..20 {
            astar.tick();
            dijkstra.tick();
            assert_eq!(astar.get_data(), dijkstra.get_data());
            assert_eq!(astar.closed_cells(), dijkstra.closed_cells());
        }
        assert!(astar.get_data().is_terminal());
    }
}

#[test]
fn closed_cells_are_told_after_the_search_too() {
    let mut engine = Dijkstra::new_fixed_target(
        Coord::new(0, 0),
        cells(&[(1, 1)]),
        grid(2, 2, &[]),
        2,
        2,
        Diagonal::Never,
    );
    assert!(engine.closed_cells().is_empty());
    engine.tick();
    assert_eq!(engine.closed_cells(), cells(&[(0, 0)]));
    let (path, _) = finish(&mut engine, 10);
    assert_eq!(path.unwrap(), cells(&[(0, 0), (0, 1), (1, 1)]));
    assert_eq!(engine.closed_cells(), cells(&[(0, 0), (0, 1), (1, 0)]));
}

#[test]
fn an_engine_asks_its_functions_once_per_cell_when_it_is_built() {
    let asked = std::cell::RefCell::new(Vec::new());
    let cost = |c: Coord| {
        asked.borrow_mut().push((c.x, c.y));
        0
    };
    let mut engine = Dijkstra::new_fixed_target(
        Coord::new(0, 0),
        cells(&[(1, 2)]),
        cost,
        2,
        3,
        Diagonal::Always,
    );
    assert_eq!(*asked.borrow(), vec![(0, 0), (0, 1), (0, 2), (1, 0), (1, 1), (1, 2)]);
    let (path, _) = finish(&mut engine, 20);
    assert_eq!(path.unwrap(), cells(&[(0, 0), (0, 1), (1, 2)]));
    assert_eq!(asked.borrow().len(), 6);
}

#[test]
fn nearest_goal_estimate_finds_a_nearest_goal_on_open_grids() {
    let width: i32 = 5;
    let height: i32 = 4;
    let goals = cells(&[(4, 3), (0, 3), (3, 0)]);
    let nearest = SearchOptions { terrain_weight: TERRAIN_WEIGHT, relax: false, nearest_goal: true };
    for policy in [Diagonal::Never, Diagonal::NoWalls, Diagonal::OneWall, Diagonal::Always] {
        let heuristic =
            if policy == Diagonal::Never { Heuristic::Manhattan } else { Heuristic::Chebyshev };
        for sx in 0..width {
            for sy in 0..height {
                let distance = goals
                    .iter()
                    .map(|g| {
                        let dx = (sx - g.x).abs();
                        let dy = (sy - g.y).abs();
                        if policy == Diagonal::Never {
                            dx + dy
                        } else {
                            dx.max(dy)
                        }
                    })
                    .min()
                    .unwrap();
                let mut astar = Astar::new_fixed_target_with(
                    Coord::new(sx, sy),
                    goals.clone(),
                    grid(width, height, &[]),
                    width,
                    height,
                    policy,
                    heuristic,
                    nearest,
                );
                let (path, _) = finish(&mut astar, 100);
                let path = path.unwrap();
                assert_eq!(path.len() as i32 - 1, distance);
                assert!(goals.contains(path.last().unwrap()));
            }
        }
    }
}
