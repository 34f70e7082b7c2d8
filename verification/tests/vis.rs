//! Tests for the board data that renderers consume.

use camel_up::camel::Camel;
use camel_up::vis::{prepend_camel_to_tile, prepend_camel_to_unit, Board, Tile, BOARD_SIZE};

#[test]
fn a_new_board_is_empty() {
    let board = Board::new();

    assert_eq!(board.tiles.len(), BOARD_SIZE);
    for tile in &board.tiles {
        assert_eq!(*tile, Tile::Nothing);
    }
}

#[test]
fn a_camel_lands_at_the_bottom_of_a_unit() {
    let unit = vec![Camel::Yellow, Camel::Green];
    let grown = prepend_camel_to_unit(Camel::Red, unit);

    assert_eq!(grown, vec![Camel::Red, Camel::Yellow, Camel::Green]);
}

#[test]
fn a_camel_lands_at_the_bottom_of_a_tile() {
    let tile = Tile::Camels(vec![Camel::Yellow]);
    let grown = prepend_camel_to_tile(Camel::Red, &tile);

    assert_eq!(grown, Tile::Camels(vec![Camel::Red, Camel::Yellow]));

    let empty = Tile::Nothing;
    let started = prepend_camel_to_tile(Camel::Red, &empty);

    assert_eq!(started, Tile::Camels(vec![Camel::Red]));
}
