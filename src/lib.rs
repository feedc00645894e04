//! Board generation and tile reveal for a Minesweeper-style game.
pub mod board;
pub mod cascade;
pub mod components;
mod random;
pub mod tile;
pub mod tile_map;

pub use board::{Board, BoardView, Bounds2, EntityId};
pub use cascade::{trigger_event_handler, uncover_from, uncover_tiles, TickResult};
pub use components::{Bomb, BombNeighbor, Coordinates, TileTriggerEvent, Uncover};
pub use tile::Tile;
pub use tile_map::{generate_map, BoardError, TileMap, TileMapView};
