use vstd::prelude::*;
use vstd::string::*;

verus! {

/// The kind of a piece. How a piece moves is decided by the board's move
/// table, keyed by this kind.
#[derive(Clone, Copy, PartialEq, Eq, Structural, Debug, Hash)]
pub enum Figure {
    Pawn,
    Knight,
    Bishop,
    Rook,
    Queen,
    King,
}

impl Figure {
    /// The symbol that shows the piece, whatever its color.
    pub open spec fn glyph_spec(self) -> Seq<char> {
        match self {
            Figure::Pawn => "\u{2659}"@,
            Figure::Knight => "\u{2658}"@,
            Figure::Bishop => "\u{2657}"@,
            Figure::Rook => "\u{2656}"@,
            Figure::Queen => "\u{2655}"@,
            Figure::King => "\u{2654}"@,
        }
    }

    /// The symbol that shows the piece.
    pub fn glyph(&self) -> (r: &'static str)
        ensures
            r@ == self.glyph_spec(),
    {
        match self {
            Figure::Pawn => "\u{2659}",
            Figure::Knight => "\u{2658}",
            Figure::Bishop => "\u{2657}",
            Figure::Rook => "\u{2656}",
            Figure::Queen => "\u{2655}",
            Figure::King => "\u{2654}",
        }
    }
}

/// The side a piece belongs to.
#[derive(Clone, Copy, PartialEq, Eq, Structural, Debug, Hash)]
pub enum Color {
    White,
    Black,
}

impl Color {
    /// The other side.
    pub open spec fn opposite_spec(self) -> Color {
        match self {
            Color::White => Color::Black,
            Color::Black => Color::White,
        }
    }

    /// The other side.
    pub fn opposite(&self) -> (r: Color)
        ensures
            r == self.opposite_spec(),
            r != *self,
    {
        match self {
            Color::White => Color::Black,
            Color::Black => Color::White,
        }
    }

    /// The letter that marks the side in a rendered board.
    pub open spec fn code_spec(self) -> Seq<char> {
        match self {
            Color::White => "w"@,
            Color::Black => "b"@,
        }
    }

    /// The letter that marks the side in a rendered board.
    pub fn code(&self) -> (r: &'static str)
        ensures
            r@ == self.code_spec(),
    {
        match self {
            Color::White => "w",
            Color::Black => "b",
        }
    }
}

/// What stands on a square: nothing, or a piece of some side.
#[derive(Clone, Copy, PartialEq, Eq, Structural, Debug, Hash)]
pub enum Tile {
    Empty,
    Occupied(Color, Figure),
}

impl Default for Tile {
    fn default() -> (r: Tile)
        ensures
            r == Tile::Empty,
    {
        Tile::Empty
    }
}

impl Tile {
    /// Whether the tile holds a piece of side `color`.
    pub open spec fn is_of(self, color: Color) -> bool {
        match self {
            Tile::Occupied(c, _) => c == color,
            Tile::Empty => false,
        }
    }

    /// The two characters that show the tile: `__` when empty, else the
    /// side's letter and the piece's symbol.
    pub open spec fn text_spec(self) -> Seq<char> {
        match self {
            Tile::Empty => "__"@,
            Tile::Occupied(color, figure) => color.code_spec() + figure.glyph_spec(),
        }
    }

    /// The two characters that show the tile.
    pub fn text(&self) -> (r: String)
        ensures
            r@ == self.text_spec(),
    {
        match self {
            Tile::Empty => String::from_str("__"),
            Tile::Occupied(color, figure) => {
                let mut r = String::from_str(color.code());
                r.append(figure.glyph());
                r
            },
        }
    }
}

} // verus!
