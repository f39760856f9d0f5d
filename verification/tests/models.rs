use grid_pathing::algo::{Algo, AlgoStatus, NODE_FREE, NODE_WALL};
use grid_pathing::models::{contains_coord, Coord, Node};

#[test]
fn coord_new_keeps_both_components() {
    let c = Coord::new(3, -7);
    assert_eq!(c.x, 3);
    assert_eq!(c.y, -7);
    assert_eq!(c, Coord { x: 3, y: -7 });
    assert_ne!(c, Coord { x: -7, y: 3 });
}

#[test]
fn coord_default_is_the_origin() {
    assert_eq!(Coord::default(), Coord::new(0, 0));
}

#[test]
fn out_of_bounds_is_exact_at_every_edge() {
    assert!(!Coord::new(0, 0).is_out_of_bounds(4, 3));
    assert!(!Coord::new(3, 2).is_out_of_bounds(4, 3));
    assert!(Coord::new(4, 2).is_out_of_bounds(4, 3));
    assert!(Coord::new(3, 3).is_out_of_bounds(4, 3));
    assert!(Coord::new(-1, 0).is_out_of_bounds(4, 3));
    assert!(Coord::new(0, -1).is_out_of_bounds(4, 3));
    assert!(Coord::new(0, 0).is_out_of_bounds(0, 3));
    assert!(Coord::new(0, 0).is_out_of_bounds(3, 0));
}

#[test]
fn coords_add_and_subtract_by_component() {
    let a = Coord::new(2, 5);
    let b = Coord::new(-3, 4);
    assert_eq!(a + b, Coord::new(-1, 9));
    assert_eq!(a - b, Coord::new(5, 1));
    assert_eq!(a + (1, -1), Coord::new(3, 4));
}

#[test]
fn coords_convert_to_and_from_pairs() {
    let c: Coord = (4, 9).into();
    assert_eq!(c, Coord::new(4, 9));
    let pair: (i32, i32) = Coord::new(-2, 6).into();
    assert_eq!(pair, (-2, 6));
}

#[test]
fn contains_coord_finds_exactly_the_members() {
    let list = vec![Coord::new(1, 1), Coord::new(2, 3)];
    assert!(contains_coord(&list, Coord::new(2, 3)));
    assert!(!contains_coord(&list, Coord::new(3, 2)));
    assert!(!contains_coord(&Vec::new(), Coord::new(0, 0)));
}

#[test]
fn new_node_has_no_costs_yet() {
    let n = Node::new(Coord::new(1, 2), Some(7));
    assert_eq!(n.xy, Coord::new(1, 2));
    assert_eq!(n.g, 0);
    assert_eq!(n.h, 0);
    assert_eq!(n.f, 0);
    assert_eq!(n.parent, Some(7));
    let root: Node = Coord::new(5, 5).into();
    assert_eq!(root.parent, None);
    assert_eq!(root.xy, Coord::new(5, 5));
}

#[test]
fn nodes_match_by_cell_alone() {
    let a = Node { xy: Coord::new(1, 1), g: 3, h: 4, f: 7, parent: None };
    let b = Node { xy: Coord::new(1, 1), g: 9, h: 0, f: 9, parent: Some(2) };
    let c = Node { xy: Coord::new(1, 2), g: 3, h: 4, f: 7, parent: None };
    assert!(a.same_cell(&b));
    assert!(!a.same_cell(&c));
}

#[test]
fn cost_sentinels_have_their_values() {
    assert_eq!(NODE_FREE, 0);
    assert_eq!(NODE_WALL, -1);
}

#[test]
fn algo_list_has_both_engines_in_order() {
    assert_eq!(Algo::len(), 2);
    assert_eq!(Algo::from_index(0), Algo::AStar);
    assert_eq!(Algo::from_index(1), Algo::Dijkstra);
    assert_eq!(Algo::AStar.name(), "A*");
    assert_eq!(Algo::Dijkstra.name(), "Dijkstra");
}

#[test]
fn only_astar_takes_a_heuristic() {
    assert!(Algo::AStar.supported_heuristics());
    assert!(!Algo::Dijkstra.supported_heuristics());
}

#[test]
fn status_knows_when_the_search_is_over() {
    assert!(!AlgoStatus::InProgress((vec![], vec![])).is_terminal());
    assert!(AlgoStatus::Found(vec![Coord::new(0, 0)]).is_terminal());
    assert!(AlgoStatus::NoPath.is_terminal());
}
