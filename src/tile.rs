use vstd::prelude::*;
use crate::components::{decimal, push_decimal};

verus! {

/// What a single cell of the board holds.
#[derive(Debug, Copy, Clone, PartialEq, Eq, Structural)]
pub enum Tile {
    /// A bomb: uncovering it loses the game.
    Bomb,
    /// A safe cell with the given number (1 to 8) of bombs around it.
    BombNeighbor(u8),
    /// A safe cell with no bomb around it.
    Empty,
}

/// How a tile is drawn in text: `*` for a bomb, its count for a neighbour, a space
/// for an empty cell.
pub open spec fn tile_text(t: Tile) -> Seq<char> {
    match t {
        Tile::Bomb => seq!['*'],
        Tile::BombNeighbor(v) => decimal(v as nat),
        Tile::Empty => seq![' '],
    }
}

impl Tile {
    /// The text form of the tile.
    pub fn console_output(&self) -> (r: String)
        ensures
            r@ == tile_text(*self),
    {
        let mut s = String::new();
        match self {
            Tile::Bomb => {
                s.append("*");
                proof {
                    reveal_strlit("*");
                }
            },
            Tile::BombNeighbor(v) => {
                push_decimal(&mut s, *v as u16);
            },
            Tile::Empty => {
                s.append(" ");
                proof {
                    reveal_strlit(" ");
                }
            },
        }
        s
    }

    pub fn is_bomb(&self) -> (r: bool)
        ensures
            r == (*self is Bomb),
    {
        match self {
            Tile::Bomb => true,
            _ => false,
        }
    }
}

/// The tile that a safe cell with `n` bombs around it holds.
pub open spec fn safe_tile(n: int) -> Tile {
    if n == 0 { Tile::Empty } else { Tile::BombNeighbor(n as u8) }
}

} // verus!
