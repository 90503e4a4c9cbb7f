use vstd::prelude::*;
use vstd::string::*;

verus! {

/// A row of the board, numbered 1 (White's back rank) to 8 (Black's back rank).
#[derive(Clone, Copy, PartialEq, Eq, Structural, Debug, PartialOrd, Ord, Hash)]
pub enum Rank {
    One,
    Two,
    Three,
    Four,
    Five,
    Six,
    Seven,
    Eight,
}

/// A column of the board, lettered `a` to `h` and numbered 1 to 8.
#[derive(Clone, Copy, PartialEq, Eq, Structural, Debug, PartialOrd, Ord, Hash)]
pub enum File {
    A,
    B,
    C,
    D,
    E,
    F,
    G,
    H,
}

/// Whether `n` is a coordinate of the board.
pub open spec fn on_board(n: int) -> bool {
    1 <= n <= 8
}

impl Rank {
    /// The number of the rank, from 1 to 8.
    pub open spec fn value(self) -> int {
        match self {
            Rank::One => 1,
            Rank::Two => 2,
            Rank::Three => 3,
            Rank::Four => 4,
            Rank::Five => 5,
            Rank::Six => 6,
            Rank::Seven => 7,
            Rank::Eight => 8,
        }
    }

    /// The rank numbered `n`; meaningful for `n` in 1..=8.
    pub open spec fn of_value(n: int) -> Rank {
        if n <= 1 {
            Rank::One
        } else if n == 2 {
            Rank::Two
        } else if n == 3 {
            Rank::Three
        } else if n == 4 {
            Rank::Four
        } else if n == 5 {
            Rank::Five
        } else if n == 6 {
            Rank::Six
        } else if n == 7 {
            Rank::Seven
        } else {
            Rank::Eight
        }
    }

    /// The digit that names the rank in square notation.
    pub open spec fn digit(self) -> char {
        match self {
            Rank::One => '1',
            Rank::Two => '2',
            Rank::Three => '3',
            Rank::Four => '4',
            Rank::Five => '5',
            Rank::Six => '6',
            Rank::Seven => '7',
            Rank::Eight => '8',
        }
    }

    /// Each rank has a number on the board, which gives the rank back.
    pub proof fn lemma_value_round_trip(self)
        ensures
            on_board(self.value()),
            Rank::of_value(self.value()) == self,
    {
    }

    /// The number of the rank.
    pub fn as_u8(self) -> (r: u8)
        ensures
            r as int == self.value(),
    {
        match self {
            Rank::One => 1,
            Rank::Two => 2,
            Rank::Three => 3,
            Rank::Four => 4,
            Rank::Five => 5,
            Rank::Six => 6,
            Rank::Seven => 7,
            Rank::Eight => 8,
        }
    }

    /// The rank numbered `n`, or `None` when `n` is not in 1..=8.
    pub fn from_u8(n: u8) -> (r: Option<Rank>)
        ensures
            r is Some <==> on_board(n as int),
            r is Some ==> r->0.value() == n as int,
    {
        match n {
            1 => Some(Rank::One),
            2 => Some(Rank::Two),
            3 => Some(Rank::Three),
            4 => Some(Rank::Four),
            5 => Some(Rank::Five),
            6 => Some(Rank::Six),
            7 => Some(Rank::Seven),
            8 => Some(Rank::Eight),
            _ => None,
        }
    }

    /// The rank that the digit `c` names, or `None` when `c` is not one of `'1'..='8'`.
    pub fn from_char(c: char) -> (r: Option<Rank>)
        ensures
            r is Some <==> ('1' <= c && c <= '8'),
            r is Some ==> r->0.digit() == c,
    {
        match c {
            '1' => Some(Rank::One),
            '2' => Some(Rank::Two),
            '3' => Some(Rank::Three),
            '4' => Some(Rank::Four),
            '5' => Some(Rank::Five),
            '6' => Some(Rank::Six),
            '7' => Some(Rank::Seven),
            '8' => Some(Rank::Eight),
            _ => None,
        }
    }

    /// All ranks, from the first to the eighth.
    pub fn iter() -> (r: Vec<Rank>)
        ensures
            r@.len() == 8,
            forall|i: int| 0 <= i < 8 ==> (#[trigger] r@[i]).value() == i + 1,
    {
        vec![
            Rank::One,
            Rank::Two,
            Rank::Three,
            Rank::Four,
            Rank::Five,
            Rank::Six,
            Rank::Seven,
            Rank::Eight,
        ]
    }
}

impl File {
    /// The number of the file, from 1 (`a`) to 8 (`h`).
    pub open spec fn value(self) -> int {
        match self {
            File::A => 1,
            File::B => 2,
            File::C => 3,
            File::D => 4,
            File::E => 5,
            File::F => 6,
            File::G => 7,
            File::H => 8,
        }
    }

    /// The file numbered `n`; meaningful for `n` in 1..=8.
    pub open spec fn of_value(n: int) -> File {
        if n <= 1 {
            File::A
        } else if n == 2 {
            File::B
        } else if n == 3 {
            File::C
        } else if n == 4 {
            File::D
        } else if n == 5 {
            File::E
        } else if n == 6 {
            File::F
        } else if n == 7 {
            File::G
        } else {
            File::H
        }
    }

    /// The letter that names the file in square notation.
    pub open spec fn letter(self) -> char {
        match self {
            File::A => 'a',
            File::B => 'b',
            File::C => 'c',
            File::D => 'd',
            File::E => 'e',
            File::F => 'f',
            File::G => 'g',
            File::H => 'h',
        }
    }

    /// Each file has a number on the board, which gives the file back.
    pub proof fn lemma_value_round_trip(self)
        ensures
            on_board(self.value()),
            File::of_value(self.value()) == self,
    {
    }

    /// The number of the file.
    pub fn as_u8(self) -> (r: u8)
        ensures
            r as int == self.value(),
    {
        match self {
            File::A => 1,
            File::B => 2,
            File::C => 3,
            File::D => 4,
            File::E => 5,
            File::F => 6,
            File::G => 7,
            File::H => 8,
        }
    }

    /// The file numbered `n`, or `None` when `n` is not in 1..=8.
    pub fn from_u8(n: u8) -> (r: Option<File>)
        ensures
            r is Some <==> on_board(n as int),
            r is Some ==> r->0.value() == n as int,
    {
        match n {
            1 => Some(File::A),
            2 => Some(File::B),
            3 => Some(File::C),
            4 => Some(File::D),
            5 => Some(File::E),
            6 => Some(File::F),
            7 => Some(File::G),
            8 => Some(File::H),
            _ => None,
        }
    }

    /// The file that the letter `c` names, or `None` when `c` is not one of `'a'..='h'`.
    pub fn from_char(c: char) -> (r: Option<File>)
        ensures
            r is Some <==> ('a' <= c && c <= 'h'),
            r is Some ==> r->0.letter() == c,
    {
        match c {
            'a' => Some(File::A),
            'b' => Some(File::B),
            'c' => Some(File::C),
            'd' => Some(File::D),
            'e' => Some(File::E),
            'f' => Some(File::F),
            'g' => Some(File::G),
            'h' => Some(File::H),
            _ => None,
        }
    }

    /// All files, from `a` to `h`.
    pub fn iter() -> (r: Vec<File>)
        ensures
            r@.len() == 8,
            forall|i: int| 0 <= i < 8 ==> (#[trigger] r@[i]).value() == i + 1,
    {
        vec![
            File::A,
            File::B,
            File::C,
            File::D,
            File::E,
            File::F,
            File::G,
            File::H,
        ]
    }
}

/// A square of the board. Both coordinates are always on the board: a step
/// that would leave it gives no position at all.
#[derive(Clone, Copy, PartialEq, Eq, Structural, Debug, PartialOrd, Ord, Hash)]
pub struct Position {
    pub rank: Rank,
    pub file: File,
}

impl Position {
    /// The square at rank `r` and file `f`; meaningful for both in 1..=8.
    pub open spec fn at(r: int, f: int) -> Position {
        Position { rank: Rank::of_value(r), file: File::of_value(f) }
    }

    /// The square `dr` ranks and `df` files away, if it is on the board.
    pub open spec fn offset(self, dr: int, df: int) -> Option<Position> {
        let r = self.rank.value() + dr;
        let f = self.file.value() + df;
        if on_board(r) && on_board(f) {
            Some(Position::at(r, f))
        } else {
            None
        }
    }

    /// The place of the square when the squares are listed rank by rank,
    /// from a1 to h8; it orders positions as `Ord` does.
    pub open spec fn index(self) -> int {
        (self.rank.value() - 1) * 8 + (self.file.value() - 1)
    }

    /// The square that two characters name, file letter first (`"e2"`).
    pub open spec fn named(text: Seq<char>) -> Option<Position> {
        if text.len() == 2 && 'a' <= text[0] <= 'h' && '1' <= text[1] <= '8' {
            Some(
                Position {
                    rank: Rank::of_value(text[1] as int - '0' as int),
                    file: File::of_value(text[0] as int - 'a' as int + 1),
                },
            )
        } else {
            None
        }
    }

    /// Two squares with the same place in board order are the same square.
    pub proof fn lemma_index_unique(a: Position, b: Position)
        requires
            a.index() == b.index(),
        ensures
            a == b,
    {
        a.rank.lemma_value_round_trip();
        b.rank.lemma_value_round_trip();
        a.file.lemma_value_round_trip();
        b.file.lemma_value_round_trip();
    }

    /// A step that leaves the board gives no square at all, and one that
    /// stays on it gives the square exactly that far away: nothing wraps
    /// round an edge or lands on another square.
    pub proof fn lemma_offset_exact(self, dr: int, df: int)
        ensures
            self.offset(dr, df) is Some <==> on_board(self.rank.value() + dr) && on_board(
                self.file.value() + df,
            ),
            self.offset(dr, df) is Some ==> self.offset(dr, df)->0.rank.value() == self.rank.value()
                + dr && self.offset(dr, df)->0.file.value() == self.file.value() + df,
    {
    }

    /// Moves by `vector` (ranks, files). The result is `None` exactly when the
    /// destination lies off the board; nothing wraps round an edge.
    pub fn add(&self, vector: (i8, i8)) -> (r: Option<Position>)
        ensures
            r == self.offset(vector.0 as int, vector.1 as int),
    {
        let (rank_change, file_change) = vector;
        let rank_changed: i16 = self.rank.as_u8() as i16 + rank_change as i16;
        let file_changed: i16 = self.file.as_u8() as i16 + file_change as i16;
        if rank_changed < 1 || rank_changed > 8 || file_changed < 1 || file_changed > 8 {
            return None;
        }
        match (Rank::from_u8(rank_changed as u8), File::from_u8(file_changed as u8)) {
            (Some(rank), Some(file)) => {
                proof {
                    rank.lemma_value_round_trip();
                    file.lemma_value_round_trip();
                }
                Some(Position { rank, file })
            },
            _ => None,
        }
    }

    /// Reads a square written as a file letter and a rank digit (`"e2"`).
    /// Any other text, of another length or with another character, gives `None`.
    pub fn parse(text: &str) -> (r: Option<Position>)
        ensures
            r == Position::named(text@),
    {
        if text.unicode_len() != 2 {
            return None;
        }
        let file = File::from_char(text.get_char(0));
        let rank = Rank::from_char(text.get_char(1));
        match (file, rank) {
            (Some(file), Some(rank)) => {
                proof {
                    rank.lemma_value_round_trip();
                    file.lemma_value_round_trip();
                }
                Some(Position { rank, file })
            },
            _ => None,
        }
    }
}

} // verus!
