use grid_pathing::heuristic::{Heuristic, OCTILE_DENOMINATOR, OCTILE_NUMERATOR};
use grid_pathing::models::Coord;

#[test]
fn heuristic_list_has_six_entries_in_order() {
    assert_eq!(Heuristic::len(), 6);
    assert_eq!(Heuristic::from_index(0), Heuristic::Zero);
    assert_eq!(Heuristic::from_index(1), Heuristic::Manhattan);
    assert_eq!(Heuristic::from_index(2), Heuristic::Euclidean);
    assert_eq!(Heuristic::from_index(3), Heuristic::Chebyshev);
    assert_eq!(Heuristic::from_index(4), Heuristic::Octile);
    assert_eq!(Heuristic::from_index(5), Heuristic::Mine);
}

#[test]
fn heuristic_names_are_the_menu_labels() {
    assert_eq!(Heuristic::Zero.name(), "Always 0");
    assert_eq!(Heuristic::Manhattan.name(), "Manhattan");
    assert_eq!(Heuristic::Euclidean.name(), "Euclidean");
    assert_eq!(Heuristic::Chebyshev.name(), "Chebyshev");
    assert_eq!(Heuristic::Octile.name(), "Octile");
    assert_eq!(Heuristic::Mine.name(), "Fast but less accurate");
}

#[test]
fn zero_is_always_zero() {
    assert_eq!(Heuristic::Zero.calc(0, 0), 0);
    assert_eq!(Heuristic::Zero.calc(17, -40), 0);
    assert_eq!(Heuristic::Zero.calc(i32::MIN, i32::MAX), 0);
}

#[test]
fn manhattan_adds_the_magnitudes() {
    assert_eq!(Heuristic::Manhattan.calc(3, 4), 7);
    assert_eq!(Heuristic::Manhattan.calc(-3, 4), 7);
    assert_eq!(Heuristic::Manhattan.calc(3, -4), 7);
    assert_eq!(Heuristic::Manhattan.calc(0, 0), 0);
    assert_eq!(Heuristic::Manhattan.calc(i32::MAX, 0), i32::MAX);
}

#[test]
fn euclidean_rounds_the_root_down() {
    assert_eq!(Heuristic::Euclidean.calc(3, 4), 5);
    assert_eq!(Heuristic::Euclidean.calc(-3, -4), 5);
    assert_eq!(Heuristic::Euclidean.calc(1, 1), 1);
    assert_eq!(Heuristic::Euclidean.calc(2, 2), 2);
    assert_eq!(Heuristic::Euclidean.calc(0, 0), 0);
    assert_eq!(Heuristic::Euclidean.calc(10, 0), 10);
    assert_eq!(Heuristic::Euclidean.calc(7, 24), 25);
    assert_eq!(Heuristic::Euclidean.calc(7, 23), 24);
    assert_eq!(Heuristic::Euclidean.calc(46340, 46340), 65534);
    assert_eq!(Heuristic::Euclidean.calc(i32::MAX, 0), i32::MAX);
}

#[test]
fn chebyshev_takes_the_larger_magnitude() {
    assert_eq!(Heuristic::Chebyshev.calc(3, 4), 4);
    assert_eq!(Heuristic::Chebyshev.calc(-9, 4), 9);
    assert_eq!(Heuristic::Chebyshev.calc(5, 5), 5);
    assert_eq!(Heuristic::Chebyshev.calc(0, 0), 0);
}

#[test]
fn octile_weighs_the_shorter_delta() {
    assert_eq!(OCTILE_NUMERATOR, 41421356);
    assert_eq!(OCTILE_DENOMINATOR, 100000000);
    assert_eq!(Heuristic::Octile.calc(3, 4), 2);
    assert_eq!(Heuristic::Octile.calc(4, -3), 2);
    assert_eq!(Heuristic::Octile.calc(10, 10), 4);
    assert_eq!(Heuristic::Octile.calc(0, 9), 9);
    assert_eq!(Heuristic::Octile.calc(100, 250), 41 + 150);
    assert_eq!(Heuristic::Octile.calc(0, 0), 0);
}

#[test]
fn mine_is_the_squared_distance() {
    assert_eq!(Heuristic::Mine.calc(3, 4), 25);
    assert_eq!(Heuristic::Mine.calc(-3, -4), 25);
    assert_eq!(Heuristic::Mine.calc(0, 0), 0);
    assert_eq!(Heuristic::Mine.calc(46340, 0), 2147395600);
}

#[test]
fn calc_fixed_measures_between_two_cells() {
    let a = Coord::new(1, 1);
    let b = Coord::new(4, 5);
    assert_eq!(Heuristic::Manhattan.calc_fixed(&a, &b), 7);
    assert_eq!(Heuristic::Manhattan.calc_fixed(&b, &a), 7);
    assert_eq!(Heuristic::Euclidean.calc_fixed(&a, &b), 5);
    assert_eq!(Heuristic::Chebyshev.calc_fixed(&a, &b), 4);
    assert_eq!(Heuristic::Mine.calc_fixed(&a, &b), 25);
    assert_eq!(Heuristic::Zero.calc_fixed(&a, &b), 0);
    assert_eq!(
        Heuristic::Manhattan.calc_fixed(&Coord::new(i32::MIN, 0), &Coord::new(-1, 0)),
        i32::MAX
    );
}

#[test]
fn calc_multiple_sums_over_all_goals() {
    let from = Coord::new(0, 0);
    let goals = vec![Coord::new(3, 3), Coord::new(0, 3), Coord::new(1, 0)];
    assert_eq!(Heuristic::Manhattan.calc_multiple(&from, &goals), 6 + 3 + 1);
    assert_eq!(Heuristic::Chebyshev.calc_multiple(&from, &goals), 3 + 3 + 1);
    assert_eq!(Heuristic::Mine.calc_multiple(&from, &goals), 18 + 9 + 1);
    assert_eq!(Heuristic::Zero.calc_multiple(&from, &goals), 0);
    assert_eq!(Heuristic::Manhattan.calc_multiple(&from, &Vec::new()), 0);
}

#[test]
fn calc_nearest_takes_the_least_estimate() {
    let from = Coord::new(0, 0);
    let goals = vec![Coord::new(3, 3), Coord::new(0, 3), Coord::new(1, 0)];
    assert_eq!(Heuristic::Manhattan.calc_nearest(&from, &goals), 1);
    assert_eq!(Heuristic::Mine.calc_nearest(&from, &goals[..2].to_vec()), 9);
    assert_eq!(Heuristic::Manhattan.calc_nearest(&from, &Vec::new()), 0);
    assert_eq!(Heuristic::Manhattan.calc_nearest(&from, &vec![Coord::new(2, 2)]), 4);
}
