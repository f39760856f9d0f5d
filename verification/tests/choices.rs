use grid_pathing::algo::{Algo, AlgoStatus, Algorithm};
use grid_pathing::diagonal::Diagonal;
use grid_pathing::engines::Engine;
use grid_pathing::heuristic::Heuristic;
use grid_pathing::map_format::parse_map;
use grid_pathing::maps::{GridMap, Variant};
use grid_pathing::models::Coord;
use grid_pathing::executor::Executor;
use grid_pathing::picker::{
    is_keycode_a_number, keycode_to_num, AlgoPicker, Cursor, DiagonalPicker, HeuristicPicker, Key,
    MapPicker, SceneParams,
};

fn small_map() -> GridMap {
    parse_map(b"M0009 M0090 M0900 M0000 S0,0 E3,3 S3,3 E0,0 E0,3", 4, 4).unwrap()
}

fn finish(engine: &mut Engine) -> Option<Vec<Coord>> {
    for _ in 0..100 {
        engine.tick();
        match engine.get_data() {
            AlgoStatus::Found(path) => return Some(path.clone()),
            AlgoStatus::NoPath => return None,
            AlgoStatus::InProgress(_) => {}
        }
    }
    panic!("the search did not end");
}

#[test]
fn cursor_moves_within_the_list() {
    let mut cursor = Cursor::new(3, 0);
    cursor.on_button_down(Key::Up);
    assert_eq!(cursor.highlighted, 0);
    cursor.on_button_down(Key::Down);
    assert_eq!(cursor.highlighted, 1);
    cursor.on_button_down(Key::Down);
    assert_eq!(cursor.highlighted, 2);
    cursor.on_button_down(Key::Down);
    assert_eq!(cursor.highlighted, 2);
    cursor.on_button_down(Key::Left);
    cursor.on_button_down(Key::Right);
    cursor.on_button_down(Key::Return);
    cursor.on_button_down(Key::Other);
    assert_eq!(cursor.highlighted, 2);
    cursor.on_button_down(Key::Up);
    assert_eq!(cursor.highlighted, 1);
    assert!(!cursor.is_complete());
}

#[test]
fn cursor_settles_on_return_only() {
    let mut cursor = Cursor::new(4, 2);
    cursor.on_button_up(Key::Up);
    cursor.on_button_up(Key::Other);
    assert_eq!(cursor.selected, None);
    cursor.on_button_up(Key::Return);
    assert_eq!(cursor.selected, Some(2));
    assert!(cursor.is_complete());
    assert_eq!(cursor.highlighted, 2);
}

#[test]
fn algo_picker_hands_on_the_engine() {
    let mut picker = AlgoPicker::new(3, 0);
    assert_eq!(picker.cursor, Cursor { len: 2, highlighted: 0, selected: None });
    picker.cursor.on_button_down(Key::Down);
    picker.cursor.on_button_down(Key::Down);
    picker.cursor.on_button_up(Key::Return);
    match picker.get_next_stage_params() {
        SceneParams::DiagonalSelection { algo, variant } => {
            assert_eq!(algo, Algo::Dijkstra);
            assert_eq!(variant, 3);
        }
        _ => panic!("wrong stage"),
    }
}

#[test]
fn diagonal_picker_hands_on_the_policy() {
    let mut picker = DiagonalPicker::new(Algo::AStar, 1, 2);
    assert_eq!(picker.highlighted(), Diagonal::OneWall);
    picker.cursor.on_button_down(Key::Down);
    assert_eq!(picker.highlighted(), Diagonal::Always);
    picker.cursor.on_button_up(Key::Return);
    match picker.get_next_stage_params() {
        SceneParams::HeuristicSelection { algo, diagonal, variant } => {
            assert_eq!(algo, Algo::AStar);
            assert_eq!(diagonal, Diagonal::Always);
            assert_eq!(variant, 1);
        }
        _ => panic!("wrong stage"),
    }
}

#[test]
fn diagonal_picker_marks_the_corners_that_pass() {
    let expected = [
        [false, false, false],
        [true, false, false],
        [true, true, false],
        [true, true, true],
    ];
    for (i, marks) in expected.iter().enumerate() {
        let picker = DiagonalPicker::new(Algo::AStar, 0, i);
        assert_eq!(&picker.allowed_markers(), marks);
    }
}

#[test]
fn heuristic_picker_waits_for_a_choice_only_with_astar() {
    let astar = HeuristicPicker::new(Algo::AStar, Diagonal::Never, 0, 4);
    assert_eq!(astar.cursor.selected, None);
    assert_eq!(astar.cursor.highlighted, 4);
    assert!(!astar.cursor.is_complete());
    let dijkstra = HeuristicPicker::new(Algo::Dijkstra, Diagonal::Never, 0, 4);
    assert_eq!(dijkstra.cursor.selected, Some(0));
    assert!(dijkstra.cursor.is_complete());
}

#[test]
fn heuristic_picker_hands_on_a_ready_engine() {
    let map = small_map();
    let mut picker = HeuristicPicker::new(Algo::AStar, Diagonal::Always, 0, 0);
    picker.cursor.on_button_down(Key::Down);
    picker.cursor.on_button_down(Key::Down);
    picker.cursor.on_button_down(Key::Down);
    picker.cursor.on_button_up(Key::Return);
    match picker.get_next_stage_params(&map) {
        Some(SceneParams::AlgoRunner { mut algo, algo_name, diagonal, heuristic, variant }) => {
            assert_eq!(algo_name, "A*");
            assert_eq!(diagonal, Diagonal::Always);
            assert_eq!(heuristic, Heuristic::Chebyshev);
            assert_eq!(variant, 0);
            assert_eq!(
                finish(&mut algo),
                Some(vec![
                    Coord::new(0, 0),
                    Coord::new(1, 1),
                    Coord::new(2, 2),
                    Coord::new(3, 3)
                ])
            );
        }
        _ => panic!("no engine"),
    }
}

#[test]
fn map_picker_moves_between_maps_and_variants() {
    let mut picker = MapPicker::new(10, 0, 0);
    picker.on_button_down(Key::Up, 3);
    assert_eq!((picker.highlighted, picker.variant_highlighted), (0, 0));
    picker.on_button_down(Key::Right, 3);
    picker.on_button_down(Key::Right, 3);
    picker.on_button_down(Key::Right, 3);
    assert_eq!((picker.highlighted, picker.variant_highlighted), (0, 2));
    picker.on_button_down(Key::Left, 3);
    assert_eq!((picker.highlighted, picker.variant_highlighted), (0, 1));
    picker.on_button_down(Key::Down, 3);
    assert_eq!((picker.highlighted, picker.variant_highlighted), (1, 0));
    for _ in 0..20 {
        picker.on_button_down(Key::Down, 1);
    }
    assert_eq!((picker.highlighted, picker.variant_highlighted), (9, 0));
    picker.on_button_down(Key::Right, 1);
    assert_eq!(picker.variant_highlighted, 0);
    picker.on_button_down(Key::Right, 2);
    assert_eq!(picker.variant_highlighted, 1);
    assert!(!picker.is_complete());
    picker.on_button_up(Key::Down);
    assert!(!picker.is_complete());
    picker.on_button_up(Key::Return);
    assert!(picker.is_complete());
    match picker.get_next_stage_params() {
        SceneParams::AlgoSelection { map, variant } => {
            assert_eq!(map, 9);
            assert_eq!(variant, 1);
        }
        _ => panic!("wrong stage"),
    }
}

#[test]
fn engine_for_a_map_plays_the_chosen_variant() {
    let map = small_map();
    let mut engine =
        Engine::for_map(&map, 1, Algo::Dijkstra, Diagonal::Never, Heuristic::Zero).unwrap();
    let path = finish(&mut engine).unwrap();
    assert_eq!(path[0], Coord::new(3, 3));
    assert_eq!(path.len(), 4);
    assert_eq!(*path.last().unwrap(), Coord::new(0, 3));
    let mut engine =
        Engine::for_map(&map, 0, Algo::AStar, Diagonal::Never, Heuristic::Manhattan).unwrap();
    let path = finish(&mut engine).unwrap();
    assert_eq!(path.len(), 7);
    assert_eq!(*path.last().unwrap(), Coord::new(3, 3));
}

#[test]
fn there_is_no_engine_for_what_cannot_be_played() {
    let map = small_map();
    assert!(Engine::for_map(&map, 2, Algo::AStar, Diagonal::Never, Heuristic::Zero).is_none());
    let ragged = GridMap {
        variants: vec![Variant { start: Coord::new(0, 0), ends: vec![Coord::new(0, 1)] }],
        cost: vec![vec![0, 0], vec![0]],
    };
    assert!(!ragged.is_rectangular());
    assert!(Engine::for_map(&ragged, 0, Algo::Dijkstra, Diagonal::Never, Heuristic::Zero).is_none());
    let empty = GridMap { variants: vec![], cost: vec![] };
    assert!(Engine::for_map(&empty, 0, Algo::Dijkstra, Diagonal::Never, Heuristic::Zero).is_none());
    let start_outside = GridMap {
        variants: vec![Variant { start: Coord::new(2, 0), ends: vec![Coord::new(0, 1)] }],
        cost: vec![vec![0, 0], vec![0, 0]],
    };
    assert!(start_outside.is_rectangular());
    assert!(
        Engine::for_map(&start_outside, 0, Algo::Dijkstra, Diagonal::Never, Heuristic::Zero)
            .is_none()
    );
    let goal_outside = GridMap {
        variants: vec![Variant { start: Coord::new(0, 0), ends: vec![Coord::new(0, 2)] }],
        cost: vec![vec![0, 0], vec![0, 0]],
    };
    assert!(
        Engine::for_map(&goal_outside, 0, Algo::AStar, Diagonal::Never, Heuristic::Zero).is_none()
    );
    let too_costly = GridMap {
        variants: vec![Variant { start: Coord::new(0, 0), ends: vec![Coord::new(0, 1)] }],
        cost: vec![vec![0, 0], vec![0, 500_000_000]],
    };
    assert!(
        Engine::for_map(&too_costly, 0, Algo::Dijkstra, Diagonal::Never, Heuristic::Zero).is_none()
    );
    let affordable = GridMap {
        variants: vec![Variant { start: Coord::new(0, 0), ends: vec![Coord::new(0, 1)] }],
        cost: vec![vec![0, 0], vec![0, 400_000_000]],
    };
    assert!(
        Engine::for_map(&affordable, 0, Algo::Dijkstra, Diagonal::Never, Heuristic::Zero).is_some()
    );
}

#[test]
fn digit_keys_carry_their_digit() {
    for digit in 0..10 {
        assert!(is_keycode_a_number(Key::Number(digit)));
        assert_eq!(keycode_to_num(Key::Number(digit)), digit);
    }
    for key in [Key::Up, Key::Down, Key::Left, Key::Right, Key::Return, Key::Space, Key::P, Key::Other]
    {
        assert!(!is_keycode_a_number(key));
    }
}

#[test]
fn executor_steps_on_its_own_when_a_step_is_due() {
    let map = small_map();
    let engine =
        Engine::for_map(&map, 0, Algo::Dijkstra, Diagonal::Always, Heuristic::Zero).unwrap();
    let mut executor = Executor::new(engine);
    assert!(executor.is_automatic());
    assert!(!executor.is_waiting());
    assert_eq!(executor.ticks(), 0);
    executor.update(false);
    assert_eq!(executor.ticks(), 0);
    assert!(matches!(executor.get_data(), AlgoStatus::InProgress((open, _)) if open.len() == 1));
    executor.update(true);
    assert_eq!(executor.ticks(), 1);
    assert!(matches!(executor.get_data(), AlgoStatus::InProgress((_, closed)) if closed.len() == 1));
    for _ in 0..50 {
        executor.update(true);
    }
    assert_eq!(
        executor.get_data(),
        &AlgoStatus::Found(vec![
            Coord::new(0, 0),
            Coord::new(1, 1),
            Coord::new(2, 2),
            Coord::new(3, 3)
        ])
    );
    assert_eq!(executor.ticks(), 12);
    assert_eq!(executor.engine().closed_cells().len(), 12);
}

#[test]
fn executor_steps_by_hand_once_per_request() {
    let map = small_map();
    let engine =
        Engine::for_map(&map, 0, Algo::AStar, Diagonal::Never, Heuristic::Manhattan).unwrap();
    let mut executor = Executor::new(engine);
    executor.on_button_down(Key::P);
    assert!(!executor.is_automatic());
    assert!(executor.is_waiting());
    executor.update(true);
    assert_eq!(executor.ticks(), 0);
    executor.on_button_down(Key::Space);
    assert!(!executor.is_waiting());
    executor.update(true);
    assert_eq!(executor.ticks(), 1);
    assert!(executor.is_waiting());
    executor.update(true);
    assert_eq!(executor.ticks(), 1);
    executor.on_button_down(Key::Space);
    executor.update(false);
    assert_eq!(executor.ticks(), 1);
    assert!(executor.is_waiting());
    executor.on_button_down(Key::Up);
    assert!(executor.is_waiting());
    executor.on_button_down(Key::P);
    assert!(executor.is_automatic());
    executor.on_button_down(Key::Space);
    assert!(!executor.is_automatic());
}
