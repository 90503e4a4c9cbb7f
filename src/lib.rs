pub mod game;
pub mod position;
pub mod tile;

pub use game::{Field, Game};
pub use position::{File, Position, Rank};
pub use tile::{Color, Figure, Tile};
