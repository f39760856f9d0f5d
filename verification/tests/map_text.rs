use grid_pathing::algo::NODE_WALL;
use grid_pathing::map_format::{
    convert_chars_to_coords, parse_map, parse_number, split_words, MapError,
};
use grid_pathing::maps::{GridMap, Variant};
use grid_pathing::models::Coord;

fn number(text: &str) -> Option<i32> {
    parse_number(&text.as_bytes().to_vec())
}

fn coord(text: &str) -> Option<Coord> {
    convert_chars_to_coords(&text.as_bytes().to_vec())
}

fn parse(text: &str, columns: usize, rows: usize) -> Result<GridMap, MapError> {
    parse_map(text.as_bytes(), columns, rows)
}

#[test]
fn words_are_the_runs_between_white_space() {
    let words = split_words(b"  M012\tS1,2\r\nE3,4  note \x0b\x0cM9\n");
    let expected: Vec<Vec<u8>> = vec![
        b"M012".to_vec(),
        b"S1,2".to_vec(),
        b"E3,4".to_vec(),
        b"note".to_vec(),
        b"M9".to_vec(),
    ];
    assert_eq!(words, expected);
    assert!(split_words(b"").is_empty());
    assert!(split_words(b" \n\t ").is_empty());
    assert_eq!(split_words(b"one"), vec![b"one".to_vec()]);
}

#[test]
fn numbers_are_signed_decimals_that_fit() {
    assert_eq!(number("0"), Some(0));
    assert_eq!(number("17"), Some(17));
    assert_eq!(number("+17"), Some(17));
    assert_eq!(number("-17"), Some(-17));
    assert_eq!(number("0042"), Some(42));
    assert_eq!(number("2147483647"), Some(i32::MAX));
    assert_eq!(number("-2147483648"), Some(i32::MIN));
    assert_eq!(number("00000000000000000000007"), Some(7));
}

#[test]
fn anything_else_is_no_number() {
    assert_eq!(number(""), None);
    assert_eq!(number("-"), None);
    assert_eq!(number("+"), None);
    assert_eq!(number("1a"), None);
    assert_eq!(number("a1"), None);
    assert_eq!(number(" 1"), None);
    assert_eq!(number("1 "), None);
    assert_eq!(number("--1"), None);
    assert_eq!(number("2147483648"), None);
    assert_eq!(number("-2147483649"), None);
    assert_eq!(number("99999999999999999999999"), None);
}

#[test]
fn coordinates_are_two_numbers_and_a_comma() {
    assert_eq!(coord("3,4"), Some(Coord::new(3, 4)));
    assert_eq!(coord("-3,+4"), Some(Coord::new(-3, 4)));
    assert_eq!(coord("10,20,30"), Some(Coord::new(10, 20)));
    assert_eq!(coord("10,20,"), Some(Coord::new(10, 20)));
    assert_eq!(coord("3"), None);
    assert_eq!(coord("3,"), None);
    assert_eq!(coord(",4"), None);
    assert_eq!(coord("3;4"), None);
    assert_eq!(coord(""), None);
    assert_eq!(coord("3,x"), None);
}

#[test]
fn a_map_text_becomes_its_table_and_variants() {
    let text = "M019\nM200\nS0,0\nE2,1\nE1,1\nS1,0 E0,1";
    let map = parse(text, 3, 2).unwrap();
    assert_eq!(map.cost, vec![vec![0, 2], vec![1, 0], vec![NODE_WALL, 0]]);
    assert_eq!(
        map.variants,
        vec![
            Variant { start: Coord::new(0, 0), ends: vec![Coord::new(2, 1), Coord::new(1, 1)] },
            Variant { start: Coord::new(1, 0), ends: vec![Coord::new(0, 1)] },
        ]
    );
    assert_eq!(map.get_column_count(), 3);
    assert_eq!(map.get_row_count(), 2);
}

#[test]
fn painting_words_may_break_anywhere() {
    let whole = parse("M123456 S0,0 E1,1", 3, 2).unwrap();
    let split = parse("M1 M23 M4 M56 S0,0 E1,1", 3, 2).unwrap();
    assert_eq!(whole, split);
    assert_eq!(whole.cost, vec![vec![1, 4], vec![2, 5], vec![3, 6]]);
}

#[test]
fn other_words_are_remarks() {
    let map = parse("first M00 remark M00 S0,0 E1,1 last", 2, 2).unwrap();
    assert_eq!(map.cost, vec![vec![0, 0], vec![0, 0]]);
    assert_eq!(map.variants.len(), 1);
}

#[test]
fn free_cells_may_run_over_the_table() {
    let map = parse("M0000 M00 M0000 S0,0 E1,1", 2, 2).unwrap();
    assert_eq!(map.cost, vec![vec![0, 0], vec![0, 0]]);
}

#[test]
fn a_letter_that_is_no_digit_is_unexpected() {
    assert_eq!(parse("M01x0 S0,0 E1,1", 2, 2), Err(MapError::UnexpectedCharacter));
    assert_eq!(parse("M01,0 S0,0 E1,1", 2, 2), Err(MapError::UnexpectedCharacter));
}

#[test]
fn a_cost_below_the_table_is_too_long() {
    assert_eq!(parse("M00001 S0,0 E1,1", 2, 2), Err(MapError::TooLong));
    assert_eq!(parse("M0000 M9 S0,0 E1,1", 2, 2), Err(MapError::TooLong));
}

#[test]
fn a_table_that_is_not_filled_is_too_short() {
    assert_eq!(parse("M000 S0,0 E1,1", 2, 2), Err(MapError::TooShort));
    assert_eq!(parse("S0,0 E1,1", 2, 2), Err(MapError::TooShort));
    assert_eq!(parse("", 2, 2), Err(MapError::TooShort));
}

#[test]
fn a_bad_coordinate_is_invalid() {
    assert_eq!(parse("M0000 S0 E1,1", 2, 2), Err(MapError::InvalidCoord));
    assert_eq!(parse("M0000 S0,0 E1,b", 2, 2), Err(MapError::InvalidCoord));
    assert_eq!(parse("M0000 S E1,1", 2, 2), Err(MapError::InvalidCoord));
}

#[test]
fn a_goal_needs_a_start_before_it() {
    assert_eq!(parse("M0000 E1,1 S0,0", 2, 2), Err(MapError::EndWithoutStart));
}

#[test]
fn a_map_needs_a_variant() {
    assert_eq!(parse("M0000", 2, 2), Err(MapError::NoVariants));
}

#[test]
fn a_variant_needs_a_goal() {
    assert_eq!(parse("M0000 S0,0", 2, 2), Err(MapError::VariantWithoutEnd));
    assert_eq!(parse("M0000 S0,0 E1,1 S1,0", 2, 2), Err(MapError::VariantWithoutEnd));
}

#[test]
fn goals_have_to_lie_on_free_cells_of_the_table() {
    assert_eq!(parse("M0000 S0,0 E2,0", 2, 2), Err(MapError::EndOutOfBounds));
    assert_eq!(parse("M0000 S0,0 E0,-1", 2, 2), Err(MapError::EndOutOfBounds));
    assert_eq!(parse("M0009 S0,0 E1,1", 2, 2), Err(MapError::EndInWall));
    assert_eq!(parse("M0009 S0,0 E1,0 E1,1", 2, 2), Err(MapError::EndInWall));
}

#[test]
fn starts_have_to_lie_on_free_cells_of_the_table() {
    assert_eq!(parse("M0000 S0,2 E1,1", 2, 2), Err(MapError::StartOutOfBounds));
    assert_eq!(parse("M0000 S-1,0 E1,1", 2, 2), Err(MapError::StartOutOfBounds));
    assert_eq!(parse("M9000 S0,0 E1,1", 2, 2), Err(MapError::StartInWall));
}

#[test]
fn the_first_fault_is_the_one_reported() {
    assert_eq!(parse("M9009 S0,0 E1,1", 2, 2), Err(MapError::EndInWall));
    assert_eq!(parse("M0000 S5,5 E7,7", 2, 2), Err(MapError::EndOutOfBounds));
    assert_eq!(parse("M0000 S0,0 E1,1 S9,9 E1,1 S0,0", 2, 2), Err(MapError::StartOutOfBounds));
    assert_eq!(parse("M000 E0,0", 2, 2), Err(MapError::EndWithoutStart));
    assert_eq!(parse("M0x E0,0", 2, 2), Err(MapError::UnexpectedCharacter));
}

#[test]
fn a_full_size_map_is_read_row_by_row() {
    let mut text = String::new();
    for y in 0..17 {
        text.push('M');
        for x in 0..32 {
            text.push(if x == y { '9' } else if x == 31 { '3' } else { '0' });
        }
        text.push('\n');
    }
    text.push_str("S1,0\nE30,16\n");
    let map = parse(&text, 32, 17).unwrap();
    assert_eq!(map.get_column_count(), 32);
    assert_eq!(map.get_row_count(), 17);
    for x in 0..32 {
        for y in 0..17 {
            let expected = if x == y { NODE_WALL } else if x == 31 { 3 } else { 0 };
            assert_eq!(map.cost[x][y], expected);
        }
    }
    assert_eq!(map.cost_at(Coord::new(5, 5)), NODE_WALL);
    assert_eq!(map.cost_at(Coord::new(31, 2)), 3);
    assert_eq!(map.cost_at(Coord::new(32, 2)), NODE_WALL);
    assert_eq!(map.cost_at(Coord::new(-1, 0)), NODE_WALL);
    assert_eq!(map.cost_at(Coord::new(0, 17)), NODE_WALL);
}
