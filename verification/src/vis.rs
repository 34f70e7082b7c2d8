//! Plain data for drawing a board: tiles, traps and their owners.
//!
//! Rendering itself writes to a terminal and lives outside the library; it
//! only reads these values.

use vstd::prelude::*;
use crate::camel::Camel;

verus! {

/// How many tiles a board has.
pub const BOARD_SIZE: usize = 16;

/// The players that may own a trap.
#[derive(PartialEq, Eq, Structural, Hash, Copy, Clone, Debug)]
#[allow(missing_docs)]
pub enum Player {
    SaddamHussain,
    StuckUpLady,
    TheScientist,
    Prophet,
    Eyebrows,
    PaulSpencer,
    PrinceAli,
    BobbyTheBooky,
}

/// The two kinds of trap a player can place.
#[derive(PartialEq, Eq, Structural, Hash, Copy, Clone, Debug)]
pub enum TrapType {
    /// Camels that land on an oasis advance one position.
    Oasis,
    /// Camels that land on a fata morgana fall back one position.
    FataMorgana,
}

/// A trap on a tile, with the player who placed it.
#[derive(PartialEq, Eq, Structural, Hash, Copy, Clone, Debug)]
pub struct Trap {
    /// Which kind of trap this is.
    pub trap_type: TrapType,
    /// Who placed it.
    pub player: Player,
}

/// One tile of the board: a pile of camels, a trap, or nothing.
#[derive(PartialEq, Eq, Hash, Clone, Debug)]
pub enum Tile {
    /// The camels piled on this tile, bottom first.
    Camels(Vec<Camel>),
    /// A trap sits on this tile.
    Trap(Trap),
    /// An empty tile.
    Nothing,
}

impl Default for Tile {
    /// A tile is empty until something is put on it.
    fn default() -> (r: Self)
        ensures
            r is Nothing,
    {
        Tile::Nothing
    }
}

/// A complete board of `BOARD_SIZE` tiles.
pub struct Board {
    /// The tiles, in track order.
    pub tiles: Vec<Tile>,
}

impl Board {
    /// An empty board.
    pub fn new() -> (r: Self)
        ensures
            r.tiles@.len() == BOARD_SIZE,
            forall|i: int| 0 <= i < r.tiles@.len() ==> r.tiles@[i] is Nothing,
    {
        let mut tiles: Vec<Tile> = Vec::new();
        let mut i: usize = 0;
        while i < BOARD_SIZE
            invariant
                i <= BOARD_SIZE,
                tiles@.len() == i,
                forall|j: int| 0 <= j < i ==> tiles@[j] is Nothing,
            decreases BOARD_SIZE - i,
        {
            tiles.push(Tile::Nothing);
            i += 1;
        }
        Board { tiles }
    }
}

/// Puts a camel at the bottom of a pile.
pub fn prepend_camel_to_unit(camel: Camel, unit: Vec<Camel>) -> (r: Vec<Camel>)
    ensures
        r@ == seq![camel] + unit@,
{
    let ghost before = unit@;
    let mut grown = unit;
    grown.insert(0, camel);
    proof {
        assert(grown@ =~= seq![camel] + before);
    }
    grown
}

/// Puts a camel at the bottom of a tile's pile; a tile without a pile gets a
/// pile of one.
pub fn prepend_camel_to_tile(camel: Camel, tile: &Tile) -> (r: Tile)
    ensures
        (match *tile {
            Tile::Camels(unit) => r matches Tile::Camels(grown) && grown@ == seq![camel] + unit@,
            _ => r matches Tile::Camels(grown) && grown@ == seq![camel],
        }),
{
    match tile {
        Tile::Camels(unit) => {
            let mut pile: Vec<Camel> = Vec::new();
            pile.push(camel);
            let mut i: usize = 0;
            while i < unit.len()
                invariant
                    i <= unit@.len(),
                    pile@ =~= seq![camel] + unit@.subrange(0, i as int),
                decreases unit@.len() - i,
            {
                pile.push(unit[i]);
                i += 1;
            }
            proof {
                assert(pile@ =~= seq![camel] + unit@);
            }
            Tile::Camels(pile)
        },
        _ => {
            let mut pile: Vec<Camel> = Vec::new();
            pile.push(camel);
            proof {
                assert(pile@ =~= seq![camel]);
            }
            Tile::Camels(pile)
        },
    }
}

} // verus!
