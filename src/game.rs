use vstd::prelude::*;

use crate::position::{File, Position, Rank};
use crate::tile::{Color, Figure, Tile};

verus! {

/// The board: eight ranks of eight tiles. Row `r - 1` holds rank `r`, and
/// column `f - 1` of a row holds file `f`.
pub struct Field([[Tile; 8]; 8]);

/// The tile that `grid` holds at `p`.
spec fn grid_tile(grid: [[Tile; 8]; 8], p: Position) -> Tile {
    grid[p.rank.value() - 1][p.file.value() - 1]
}

impl View for Field {
    type V = Map<Position, Tile>;

    /// The tile on each square of the board.
    closed spec fn view(&self) -> Map<Position, Tile> {
        Map::new(|p: Position| true, |p: Position| grid_tile(self.0, p))
    }
}

/// The piece that starts on file `f` of a back rank.
pub open spec fn back_rank_figure(f: File) -> Figure {
    match f {
        File::A | File::H => Figure::Rook,
        File::B | File::G => Figure::Knight,
        File::C | File::F => Figure::Bishop,
        File::D => Figure::Queen,
        File::E => Figure::King,
    }
}

/// The tile on square `p` at the start of a game.
pub open spec fn initial_tile(p: Position) -> Tile {
    match p.rank {
        Rank::One => Tile::Occupied(Color::White, back_rank_figure(p.file)),
        Rank::Two => Tile::Occupied(Color::White, Figure::Pawn),
        Rank::Seven => Tile::Occupied(Color::Black, Figure::Pawn),
        Rank::Eight => Tile::Occupied(Color::Black, back_rank_figure(p.file)),
        _ => Tile::Empty,
    }
}

/// The board that results when the piece on `from` moves onto `to`: what
/// stood on `to` is lost, and `from` is left empty.
pub open spec fn relocated(board: Map<Position, Tile>, from: Position, to: Position) -> Map<
    Position,
    Tile,
> {
    board.insert(to, board[from]).insert(from, Tile::Empty)
}

/// How a piece may treat the squares along one of its directions.
#[derive(Clone, Copy, PartialEq, Eq, Structural, Debug)]
pub enum MoveType {
    /// Onto an empty square, or onto a piece of side `opposite`, which is captured.
    MoveAndAttack { opposite: Color },
    /// Onto an empty square only.
    OnlyMove,
    /// Onto a piece of side `opposite` only.
    OnlyAttack { opposite: Color },
}

/// One line of a piece's movement: a step of `direction` (ranks, files),
/// taken up to `distance` times.
#[derive(Clone, Copy, Debug)]
pub struct Ray {
    pub direction: (i8, i8),
    pub distance: i8,
    pub move_type: MoveType,
}

/// Whether a piece may step onto `tile` and go on beyond it.
pub open spec fn passes(tile: Tile, move_type: MoveType) -> bool {
    tile is Empty && !(move_type is OnlyAttack)
}

/// Whether a piece may end on `tile` by capturing what stands there.
pub open spec fn captures(tile: Tile, move_type: MoveType) -> bool {
    match (tile, move_type) {
        (Tile::Occupied(color, _), MoveType::MoveAndAttack { opposite }) => color == opposite,
        (Tile::Occupied(color, _), MoveType::OnlyAttack { opposite }) => color == opposite,
        _ => false,
    }
}

/// The squares reached from `from` by stepping `(dr, df)` up to `distance`
/// times: each square passed is a destination; a square of a piece that may
/// be captured is one too and ends the line; any other square, or the edge of
/// the board, ends the line before it.
pub open spec fn reach(
    board: Map<Position, Tile>,
    from: Position,
    dr: int,
    df: int,
    distance: int,
    move_type: MoveType,
) -> Set<Position>
    decreases distance,
{
    if distance <= 0 {
        Set::empty()
    } else {
        match from.offset(dr, df) {
            None => Set::empty(),
            Some(next) => if passes(board[next], move_type) {
                reach(board, next, dr, df, distance - 1, move_type).insert(next)
            } else if captures(board[next], move_type) {
                Set::empty().insert(next)
            } else {
                Set::empty()
            },
        }
    }
}

/// The squares of `reach`, in the order a scan meets them: the squares
/// passed, nearest first, then the captured square if the line ends on one.
pub open spec fn reach_seq(
    board: Map<Position, Tile>,
    from: Position,
    dr: int,
    df: int,
    distance: int,
    move_type: MoveType,
) -> Seq<Position>
    decreases distance,
{
    if distance <= 0 {
        Seq::empty()
    } else {
        match from.offset(dr, df) {
            None => Seq::empty(),
            Some(next) => if passes(board[next], move_type) {
                seq![next] + reach_seq(board, next, dr, df, distance - 1, move_type)
            } else if captures(board[next], move_type) {
                seq![next]
            } else {
                Seq::empty()
            },
        }
    }
}

/// Whether `b` lies strictly further than `a` along the direction `(dr, df)`.
pub open spec fn ahead(a: Position, b: Position, dr: int, df: int) -> bool {
    if dr > 0 {
        b.rank.value() > a.rank.value()
    } else if dr < 0 {
        b.rank.value() < a.rank.value()
    } else if df > 0 {
        b.file.value() > a.file.value()
    } else {
        b.file.value() < a.file.value()
    }
}

/// The squares that a scan lists are exactly the squares it reaches.
pub proof fn lemma_reach_seq_to_set(
    board: Map<Position, Tile>,
    from: Position,
    dr: int,
    df: int,
    distance: int,
    move_type: MoveType,
)
    ensures
        reach_seq(board, from, dr, df, distance, move_type).to_set() == reach(
            board,
            from,
            dr,
            df,
            distance,
            move_type,
        ),
    decreases distance,
{
    let s = reach_seq(board, from, dr, df, distance, move_type);
    if distance > 0 {
        if let Some(next) = from.offset(dr, df) {
            lemma_reach_seq_to_set(board, next, dr, df, distance - 1, move_type);
            let rest = reach_seq(board, next, dr, df, distance - 1, move_type);
            if passes(board[next], move_type) {
                assert forall|p: Position| s.contains(p) implies p == next || rest.contains(p) by {
                    let i = choose|i: int| 0 <= i < s.len() && s[i] == p;
                    if i > 0 {
                        assert(rest[i - 1] == p);
                    }
                }
                assert forall|p: Position| rest.contains(p) implies s.contains(p) by {
                    let i = choose|i: int| 0 <= i < rest.len() && rest[i] == p;
                    assert(s[i + 1] == p);
                }
                assert(s[0] == next);
            } else if captures(board[next], move_type) {
                assert(s[0] == next);
            }
        }
    }
    assert(s.to_set() =~= reach(board, from, dr, df, distance, move_type));
}

/// Every square that a scan lists lies beyond its starting square, and the
/// scan lists no square twice.
pub proof fn lemma_reach_seq_distinct(
    board: Map<Position, Tile>,
    from: Position,
    dr: int,
    df: int,
    distance: int,
    move_type: MoveType,
)
    requires
        dr != 0 || df != 0,
    ensures
        reach_seq(board, from, dr, df, distance, move_type).no_duplicates(),
        forall|i: int|
            0 <= i < reach_seq(board, from, dr, df, distance, move_type).len() ==> ahead(
                from,
                #[trigger] reach_seq(board, from, dr, df, distance, move_type)[i],
                dr,
                df,
            ),
    decreases distance,
{
    let s = reach_seq(board, from, dr, df, distance, move_type);
    if distance > 0 {
        if let Some(next) = from.offset(dr, df) {
            lemma_reach_seq_distinct(board, next, dr, df, distance - 1, move_type);
            let rest = reach_seq(board, next, dr, df, distance - 1, move_type);
            assert(ahead(from, next, dr, df));
            if passes(board[next], move_type) {
                assert forall|i: int| 0 <= i < s.len() implies ahead(from, #[trigger] s[i], dr, df) by {
                    if i > 0 {
                        assert(s[i] == rest[i - 1]);
                    }
                }
                assert forall|i: int, j: int| 0 <= i < s.len() && 0 <= j < s.len() && i != j implies s[i]
                    != s[j] by {
                    if i > 0 && j > 0 {
                        assert(s[i] == rest[i - 1]);
                        assert(s[j] == rest[j - 1]);
                    } else if i == 0 {
                        assert(s[j] == rest[j - 1]);
                    } else {
                        assert(s[i] == rest[i - 1]);
                    }
                }
            }
        }
    }
}

/// The squares that `ray` reaches from `from`.
pub open spec fn ray_reach(board: Map<Position, Tile>, from: Position, ray: Ray) -> Set<Position> {
    reach(
        board,
        from,
        ray.direction.0 as int,
        ray.direction.1 as int,
        ray.distance as int,
        ray.move_type,
    )
}

/// The squares that any of `rays` reaches from `from`.
pub open spec fn rays_reach(board: Map<Position, Tile>, from: Position, rays: Seq<Ray>) -> Set<
    Position,
>
    decreases rays.len(),
{
    if rays.len() == 0 {
        Set::empty()
    } else {
        rays_reach(board, from, rays.drop_last()).union(ray_reach(board, from, rays.last()))
    }
}

/// A ray of `distance` steps of `(dr, df)` that may move and capture.
pub open spec fn free_ray(dr: int, df: int, distance: i8, color: Color) -> Ray {
    Ray {
        direction: (dr as i8, df as i8),
        distance,
        move_type: MoveType::MoveAndAttack { opposite: color.opposite_spec() },
    }
}

/// The rank from which a pawn of side `color` may advance two squares.
pub open spec fn pawn_home_rank(color: Color) -> Rank {
    match color {
        Color::White => Rank::Two,
        Color::Black => Rank::Seven,
    }
}

/// The rank step of a pawn of side `color`.
pub open spec fn pawn_step(color: Color) -> i8 {
    match color {
        Color::White => 1i8,
        Color::Black => -1i8,
    }
}

/// The knight's eight jumps.
pub open spec fn knight_jumps() -> Seq<(int, int)> {
    seq![(2, 1), (2, -1), (-2, 1), (-2, -1), (1, 2), (1, -2), (-1, 2), (-1, -2)]
}

/// The four diagonal directions.
pub open spec fn diagonals() -> Seq<(int, int)> {
    seq![(1, 1), (1, -1), (-1, 1), (-1, -1)]
}

/// The four orthogonal directions.
pub open spec fn orthogonals() -> Seq<(int, int)> {
    seq![(1, 0), (-1, 0), (0, 1), (0, -1)]
}

/// Rays that may move and capture, one along each of `directions`.
pub open spec fn free_rays(directions: Seq<(int, int)>, distance: i8, color: Color) -> Seq<Ray> {
    directions.map_values(|d: (int, int)| free_ray(d.0, d.1, distance, color))
}

/// The movement of a piece of kind `figure` and side `color` that stands on
/// rank `rank`.
pub open spec fn rays(figure: Figure, color: Color, rank: Rank) -> Seq<Ray> {
    match figure {
        Figure::Pawn => {
            let forward = pawn_step(color);
            let attack = MoveType::OnlyAttack { opposite: color.opposite_spec() };
            seq![
                Ray {
                    direction: (forward, 0i8),
                    distance: if rank == pawn_home_rank(color) { 2i8 } else { 1i8 },
                    move_type: MoveType::OnlyMove,
                },
                Ray { direction: (forward, -1i8), distance: 1i8, move_type: attack },
                Ray { direction: (forward, 1i8), distance: 1i8, move_type: attack },
            ]
        },
        Figure::Knight => free_rays(knight_jumps(), 1i8, color),
        Figure::Bishop => free_rays(diagonals(), 7i8, color),
        Figure::Rook => free_rays(orthogonals(), 7i8, color),
        Figure::Queen => free_rays(orthogonals() + diagonals(), 7i8, color),
        Figure::King => free_rays(orthogonals() + diagonals(), 1i8, color),
    }
}

/// The destinations of the piece on `from` when side `turn` is to move:
/// none unless that piece is of side `turn`.
pub open spec fn moves(board: Map<Position, Tile>, from: Position, turn: Color) -> Set<Position> {
    match board[from] {
        Tile::Occupied(color, figure) => if color == turn {
            rays_reach(board, from, rays(figure, color, from.rank))
        } else {
            Set::empty()
        },
        Tile::Empty => Set::empty(),
    }
}

/// Whether the squares of `s` come in board order, a1 to h8, each once.
pub open spec fn in_board_order(s: Seq<Position>) -> bool {
    forall|i: int, j: int| 0 <= i < j < s.len() ==> (#[trigger] s[i]).index() < (#[trigger] s[j]).index()
}

/// Whether `v` holds `p`.
fn contains_position(v: &Vec<Position>, p: Position) -> (r: bool)
    ensures
        r == v@.contains(p),
{
    let mut i: usize = 0;
    while i < v.len()
        invariant
            i <= v@.len(),
            forall|k: int| 0 <= k < i ==> v@[k] != p,
        decreases v@.len() - i,
    {
        if v[i] == p {
            return true;
        }
        i = i + 1;
    }
    false
}

/// The squares of `found`, each once, in board order.
fn sorted_positions(found: &Vec<Position>) -> (r: Vec<Position>)
    ensures
        r@.to_set() == found@.to_set(),
        in_board_order(r@),
{
    let ranks = Rank::iter();
    let files = File::iter();
    let mut result: Vec<Position> = Vec::new();
    let mut ri: usize = 0;
    while ri < 8
        invariant
            ri <= 8,
            ranks@.len() == 8,
            files@.len() == 8,
            forall|i: int| 0 <= i < 8 ==> (#[trigger] ranks@[i]).value() == i + 1,
            forall|i: int| 0 <= i < 8 ==> (#[trigger] files@[i]).value() == i + 1,
            in_board_order(result@),
            forall|k: int| 0 <= k < result@.len() ==> (#[trigger] result@[k]).index() < ri * 8,
            result@.to_set() == found@.to_set().filter(|p: Position| p.index() < ri * 8),
        decreases 8 - ri,
    {
        let mut fi: usize = 0;
        while fi < 8
            invariant
                ri < 8,
                fi <= 8,
                ranks@.len() == 8,
                files@.len() == 8,
                forall|i: int| 0 <= i < 8 ==> (#[trigger] ranks@[i]).value() == i + 1,
                forall|i: int| 0 <= i < 8 ==> (#[trigger] files@[i]).value() == i + 1,
                in_board_order(result@),
                forall|k: int| 0 <= k < result@.len() ==> (#[trigger] result@[k]).index() < ri * 8 + fi,
                result@.to_set() == found@.to_set().filter(|p: Position| p.index() < ri * 8 + fi),
            decreases 8 - fi,
        {
            let square = Position { rank: ranks[ri], file: files[fi] };
            let bound = ri * 8 + fi;
            assert(square.index() == bound);
            let ghost before = result@;
            if contains_position(found, square) {
                result.push(square);
                proof {
                    before.lemma_push_to_set_commute(square);
                }
            }
            proof {
                assert forall|p: Position| #[trigger] result@.to_set().contains(p) == found@.to_set().filter(
                    |p: Position| p.index() < bound + 1,
                ).contains(p) by {
                    if p.index() == bound {
                        Position::lemma_index_unique(p, square);
                    }
                }
                assert(result@.to_set() =~= found@.to_set().filter(|p: Position| p.index() < bound + 1));
            }
            fi = fi + 1;
        }
        ri = ri + 1;
    }
    proof {
        assert forall|p: Position| #[trigger] found@.to_set().contains(p) implies p.index() < 64 by {
            p.rank.lemma_value_round_trip();
            p.file.lemma_value_round_trip();
        }
        assert(result@.to_set() =~= found@.to_set());
    }
    result
}

/// Whether a piece may step onto `tile` and go on beyond it.
fn can_pass(tile: Tile, move_type: MoveType) -> (r: bool)
    ensures
        r == passes(tile, move_type),
{
    match (tile, move_type) {
        (Tile::Empty, MoveType::OnlyAttack { opposite: _ }) => false,
        (Tile::Empty, _) => true,
        _ => false,
    }
}

/// Whether a piece may end on `tile` by capturing what stands there.
fn can_capture(tile: Tile, move_type: MoveType) -> (r: bool)
    ensures
        r == captures(tile, move_type),
{
    match (tile, move_type) {
        (Tile::Occupied(color, _), MoveType::MoveAndAttack { opposite }) => color == opposite,
        (Tile::Occupied(color, _), MoveType::OnlyAttack { opposite }) => color == opposite,
        _ => false,
    }
}

/// A ray of `distance` steps of `(dr, df)` that may move and capture.
fn free_ray_of(dr: i8, df: i8, distance: i8, color: Color) -> (r: Ray)
    ensures
        r == free_ray(dr as int, df as int, distance, color),
{
    Ray {
        direction: (dr, df),
        distance,
        move_type: MoveType::MoveAndAttack { opposite: color.opposite() },
    }
}

/// The movement table: the rays of a piece of kind `figure` and side
/// `color` that stands on rank `rank`.
fn movement_table(figure: Figure, color: Color, rank: Rank) -> (r: Vec<Ray>)
    ensures
        r@ == rays(figure, color, rank),
{
    let r = match figure {
        Figure::Pawn => {
            let forward: i8 = match color {
                Color::White => 1,
                Color::Black => -1,
            };
            let can_make_long_move = (rank == Rank::Two && color == Color::White) || (rank
                == Rank::Seven && color == Color::Black);
            let move_distance: i8 = if can_make_long_move {
                2
            } else {
                1
            };
            let attack = MoveType::OnlyAttack { opposite: color.opposite() };
            vec![
                Ray { direction: (forward, 0), distance: move_distance, move_type: MoveType::OnlyMove },
                Ray { direction: (forward, -1), distance: 1, move_type: attack },
                Ray { direction: (forward, 1), distance: 1, move_type: attack },
            ]
        },
        Figure::Knight => vec![
            free_ray_of(2, 1, 1, color),
            free_ray_of(2, -1, 1, color),
            free_ray_of(-2, 1, 1, color),
            free_ray_of(-2, -1, 1, color),
            free_ray_of(1, 2, 1, color),
            free_ray_of(1, -2, 1, color),
            free_ray_of(-1, 2, 1, color),
            free_ray_of(-1, -2, 1, color),
        ],
        Figure::Bishop => vec![
            free_ray_of(1, 1, 7, color),
            free_ray_of(1, -1, 7, color),
            free_ray_of(-1, 1, 7, color),
            free_ray_of(-1, -1, 7, color),
        ],
        Figure::Rook => vec![
            free_ray_of(1, 0, 7, color),
            free_ray_of(-1, 0, 7, color),
            free_ray_of(0, 1, 7, color),
            free_ray_of(0, -1, 7, color),
        ],
        Figure::Queen => vec![
            free_ray_of(1, 0, 7, color),
            free_ray_of(-1, 0, 7, color),
            free_ray_of(0, 1, 7, color),
            free_ray_of(0, -1, 7, color),
            free_ray_of(1, 1, 7, color),
            free_ray_of(1, -1, 7, color),
            free_ray_of(-1, 1, 7, color),
            free_ray_of(-1, -1, 7, color),
        ],
        Figure::King => vec![
            free_ray_of(1, 0, 1, color),
            free_ray_of(-1, 0, 1, color),
            free_ray_of(0, 1, 1, color),
            free_ray_of(0, -1, 1, color),
            free_ray_of(1, 1, 1, color),
            free_ray_of(1, -1, 1, color),
            free_ray_of(-1, 1, 1, color),
            free_ray_of(-1, -1, 1, color),
        ],
    };
    assert(r@ =~= rays(figure, color, rank));
    r
}

/// The row of the grid that holds rank `rank`.
fn row_of(rank: Rank) -> (r: usize)
    ensures
        r == rank.value() - 1,
{
    (rank.as_u8() - 1) as usize
}

/// The column of a row that holds file `file`.
fn column_of(file: File) -> (r: usize)
    ensures
        r == file.value() - 1,
{
    (file.as_u8() - 1) as usize
}

impl Field {
    /// A board set up for the start of a game.
    fn new() -> (r: Field)
        ensures
            forall|p: Position| r@[p] == initial_tile(p),
    {
        let mut result = Field([[Tile::Empty; 8]; 8]);
        let major_figure_line = [
            Figure::Rook,
            Figure::Knight,
            Figure::Bishop,
            Figure::Queen,
            Figure::King,
            Figure::Bishop,
            Figure::Knight,
            Figure::Rook,
        ];
        let pawn_line = [Figure::Pawn; 8];

        result.set_figure_line(0, Color::White, major_figure_line);
        result.set_figure_line(1, Color::White, pawn_line);

        result.set_figure_line(7, Color::Black, major_figure_line);
        result.set_figure_line(6, Color::Black, pawn_line);

        assert forall|p: Position| result@[p] == initial_tile(p) by {
            let r = p.rank.value() - 1;
            let f = p.file.value() - 1;
            assert(grid_tile(result.0, p) == result.0[r][f]);
        }
        result
    }

    /// Fills row `line` with pieces of side `color`, one per file, in the
    /// order of `figures`.
    fn set_figure_line(&mut self, line: usize, color: Color, figures: [Figure; 8])
        requires
            line < 8,
        ensures
            forall|f: int| 0 <= f < 8 ==> final(self).0[line as int][f] == Tile::Occupied(color, figures[f]),
            forall|r: int| 0 <= r < 8 && r != line ==> final(self).0[r] == old(self).0[r],
    {
        let mut i: usize = 0;
        while i < 8
            invariant
                line < 8,
                i <= 8,
                forall|f: int| 0 <= f < i ==> self.0[line as int][f] == Tile::Occupied(color, figures[f]),
                forall|r: int| 0 <= r < 8 && r != line ==> self.0[r] == old(self).0[r],
            decreases 8 - i,
        {
            self.0[line][i] = Tile::Occupied(color, figures[i]);
            i = i + 1;
        }
    }

    /// The tile on square `position`.
    pub fn get(&self, position: Position) -> (r: Tile)
        ensures
            r == self@[position],
    {
        self.0[row_of(position.rank)][column_of(position.file)]
    }

    /// Puts `tile` on square `position`, replacing what stood there.
    fn set(&mut self, position: Position, tile: Tile)
        ensures
            final(self)@ == old(self)@.insert(position, tile),
    {
        let row = row_of(position.rank);
        let column = column_of(position.file);
        self.0[row][column] = tile;
        proof {
            assert forall|p: Position| #[trigger] self@[p] == old(self)@.insert(position, tile)[p] by {
                if p != position {
                    if p.rank == position.rank {
                        assert(p.file.value() != position.file.value());
                    }
                }
            }
            assert(self@ =~= old(self)@.insert(position, tile));
        }
    }
    /// Every destination of the piece on `position` when side `turn` is to
    /// move, each once and in board order (a1 to h8). Empty when the square
    /// is empty or holds a piece of the other side.
    pub fn moves_available(&self, position: Position, turn: Color) -> (r: Vec<Position>)
        ensures
            r@.to_set() == moves(self@, position, turn),
            in_board_order(r@),
    {
        let tile = self.get(position);
        let mut result: Vec<Position> = Vec::new();
        match tile {
            Tile::Occupied(color, figure) => {
                if color == turn {
                    let table = movement_table(figure, color, position.rank);
                    let mut i: usize = 0;
                    while i < table.len()
                        invariant
                            i <= table@.len(),
                            table@ == rays(figure, color, position.rank),
                            result@.to_set() == rays_reach(self@, position, table@.take(i as int)),
                        decreases table@.len() - i,
                    {
                        let ray = table[i];
                        let ghost before = result@;
                        proof {
                            let t = table@.take(i as int + 1);
                            assert(t.drop_last() =~= table@.take(i as int));
                            assert(t.last() == ray);
                        }
                        self.fill_moves_by_direction(
                            position,
                            ray.direction,
                            ray.distance,
                            ray.move_type,
                            &mut result,
                        );
                        proof {
                            let added = ray_reach(self@, position, ray);
                            let listed = reach_seq(
                                self@,
                                position,
                                ray.direction.0 as int,
                                ray.direction.1 as int,
                                ray.distance as int,
                                ray.move_type,
                            );
                            lemma_reach_seq_to_set(
                                self@,
                                position,
                                ray.direction.0 as int,
                                ray.direction.1 as int,
                                ray.distance as int,
                                ray.move_type,
                            );
                            assert forall|p: Position| #[trigger] result@.contains(p) implies before.contains(p)
                                || listed.contains(p) by {
                                let k = choose|k: int| 0 <= k < result@.len() && result@[k] == p;
                                if k >= before.len() {
                                    assert(listed[k - before.len()] == p);
                                }
                            }
                            assert forall|p: Position| before.contains(p) || listed.contains(p) implies #[trigger] result@.contains(p) by {
                                if before.contains(p) {
                                    let k = choose|k: int| 0 <= k < before.len() && before[k] == p;
                                    assert(result@[k] == p);
                                } else {
                                    let k = choose|k: int| 0 <= k < listed.len() && listed[k] == p;
                                    assert(result@[k + before.len()] == p);
                                }
                            }
                            assert(result@.to_set() =~= before.to_set().union(added));
                        }
                        i = i + 1;
                    }
                    assert(table@.take(table@.len() as int) =~= table@);
                } else {
                    assert(result@.to_set() =~= Set::empty());
                }
            },
            Tile::Empty => {
                assert(result@.to_set() =~= Set::empty());
            },
        }
        sorted_positions(&result)
    }

    /// Appends to `storage` the squares reached from `from` by stepping
    /// `direction` up to `distance` times, in the order the steps reach
    /// them; what `storage` held before stays in front.
    fn fill_moves_by_direction(
        &self,
        from: Position,
        direction: (i8, i8),
        distance: i8,
        move_type: MoveType,
        storage: &mut Vec<Position>,
    )
        ensures
            final(storage)@ == old(storage)@ + reach_seq(
                self@,
                from,
                direction.0 as int,
                direction.1 as int,
                distance as int,
                move_type,
            ),
    {
        let ghost dr = direction.0 as int;
        let ghost df = direction.1 as int;
        let ghost goal = old(storage)@ + reach_seq(self@, from, dr, df, distance as int, move_type);
        if distance < 1 {
            assert(storage@ =~= goal);
            return;
        }
        let mut current = from;
        let mut i: i16 = 1;
        while i <= distance as i16
            invariant
                1 <= i <= distance + 1,
                dr == direction.0 as int,
                df == direction.1 as int,
                goal == old(storage)@ + reach_seq(self@, from, dr, df, distance as int, move_type),
                storage@ + reach_seq(self@, current, dr, df, distance - i + 1, move_type) == goal,
            decreases distance as int + 1 - i as int,
        {
            let ghost before = storage@;
            let ghost rest = reach_seq(self@, current, dr, df, distance - i + 1, move_type);
            let next = current.add(direction);
            let position = match next {
                Some(position) => position,
                None => {
                    assert(storage@ =~= goal);
                    return;
                },
            };
            let tile = self.get(position);
            if can_pass(tile, move_type) {
                storage.push(position);
                assert(storage@ + reach_seq(self@, position, dr, df, distance - i, move_type)
                    =~= before + rest);
                current = position;
                i = i + 1;
            } else if can_capture(tile, move_type) {
                storage.push(position);
                assert(storage@ =~= goal);
                return;
            } else {
                assert(storage@ =~= goal);
                return;
            }
        }
        assert(storage@ =~= goal);
    }

    /// Moves the tile on `from` onto `to`, whatever stood there, and leaves
    /// `from` empty. No rule of the game is checked here.
    pub fn make_move(&mut self, from: Position, to: Position)
        ensures
            final(self)@ == relocated(old(self)@, from, to),
    {
        let from_tile = self.get(from);

        self.set(to, from_tile);
        self.set(from, Tile::Empty);
    }
}

/// A game in progress: the board and the side to move.
pub struct Game {
    pub field: Field,
    pub turn: Color,
}

impl View for Game {
    type V = (Map<Position, Tile>, Color);

    /// The board and the side to move.
    open spec fn view(&self) -> (Map<Position, Tile>, Color) {
        (self.field@, self.turn)
    }
}

/// The state after side `state.1` asks to move the piece on `from` onto
/// `to`: `None` when `to` is not one of that piece's destinations, else the
/// board with the piece moved and the other side to move.
pub open spec fn play(state: (Map<Position, Tile>, Color), from: Position, to: Position) -> Option<
    (Map<Position, Tile>, Color),
> {
    if moves(state.0, from, state.1).contains(to) {
        Some((relocated(state.0, from, to), state.1.opposite_spec()))
    } else {
        None
    }
}

/// The rendered text of the first `n` files of rank `rank` of `board`:
/// each tile between two spaces.
pub open spec fn row_text(board: Map<Position, Tile>, rank: int, n: int) -> Seq<char>
    decreases n,
{
    if n <= 0 {
        Seq::empty()
    } else {
        row_text(board, rank, n - 1) + " "@ + board[Position::at(rank, n)].text_spec() + " "@
    }
}

/// The rendered text of the top `n` ranks of `board`, from rank 8 down,
/// one line each, with a newline between lines and none after the last.
pub open spec fn board_text(board: Map<Position, Tile>, n: int) -> Seq<char>
    decreases n,
{
    if n <= 0 {
        Seq::empty()
    } else if n == 1 {
        row_text(board, 8, 8)
    } else {
        board_text(board, n - 1) + "\n"@ + row_text(board, 9 - n, 8)
    }
}

impl Game {
    /// A game at the start: the pieces in their places and White to move.
    pub fn new() -> (r: Game)
        ensures
            forall|p: Position| r.field@[p] == initial_tile(p),
            r.turn == Color::White,
    {
        Game { field: Field::new(), turn: Color::White }
    }

    /// The destinations of the piece on `position` for the side to move, in
    /// board order.
    pub fn moves_available(&self, position: Position) -> (r: Vec<Position>)
        ensures
            r@.to_set() == moves(self.field@, position, self.turn),
            in_board_order(r@),
    {
        self.field.moves_available(position, self.turn)
    }

    /// Moves the piece on `from` onto `to` when that is one of its
    /// destinations for the side to move, and hands the turn over. Otherwise
    /// fails and changes nothing.
    pub fn make_move(&mut self, from: Position, to: Position) -> (r: Result<(), ()>)
        ensures
            match play(old(self)@, from, to) {
                Some(next) => r is Ok && final(self)@ == next,
                None => r is Err && *final(self) == *old(self),
            },
    {
        let moves = self.field.moves_available(from, self.turn);
        if !contains_position(&moves, to) {
            return Err(());
        }
        self.field.make_move(from, to);
        self.turn = self.turn.opposite();
        Ok(())
    }

    /// The board as text: eight lines from rank 8 down to rank 1, each tile
    /// shown as `__` or as its side's letter and piece symbol, between two
    /// spaces.
    pub fn render(&self) -> (r: String)
        ensures
            r@ == board_text(self.field@, 8),
    {
        let ranks = Rank::iter();
        let files = File::iter();
        let mut text = String::new();
        let mut line: usize = 0;
        while line < 8
            invariant
                line <= 8,
                ranks@.len() == 8,
                files@.len() == 8,
                forall|i: int| 0 <= i < 8 ==> (#[trigger] ranks@[i]).value() == i + 1,
                forall|i: int| 0 <= i < 8 ==> (#[trigger] files@[i]).value() == i + 1,
                text@ == board_text(self.field@, line as int),
            decreases 8 - line,
        {
            let rank = ranks[7 - line];
            let ghost head = if line == 0 {
                Seq::<char>::empty()
            } else {
                board_text(self.field@, line as int) + "\n"@
            };
            if line > 0 {
                text.append("\n");
            }
            assert(text@ =~= head);
            let mut column: usize = 0;
            while column < 8
                invariant
                    line < 8,
                    column <= 8,
                    files@.len() == 8,
                    forall|i: int| 0 <= i < 8 ==> (#[trigger] files@[i]).value() == i + 1,
                    rank.value() == 8 - line,
                    text@ == head + row_text(self.field@, 8 - line, column as int),
                decreases 8 - column,
            {
                let square = Position { rank, file: files[column] };
                proof {
                    rank.lemma_value_round_trip();
                    square.file.lemma_value_round_trip();
                    assert(square == Position::at(8 - line, column + 1));
                }
                let cell = self.field.get(square).text();
                text.append(" ");
                text.append(cell.as_str());
                text.append(" ");
                assert(text@ =~= head + row_text(self.field@, 8 - line, column + 1));
                column = column + 1;
            }
            assert(text@ =~= board_text(self.field@, line + 1));
            line = line + 1;
        }
        text
    }
}

/// The square `k` steps of `(dr, df)` away from `from`, if every step stays
/// on the board.
pub open spec fn walk(from: Position, dr: int, df: int, k: int) -> Option<Position>
    decreases k,
{
    if k <= 0 {
        Some(from)
    } else {
        match from.offset(dr, df) {
            None => None,
            Some(next) => walk(next, dr, df, k - 1),
        }
    }
}

/// Whether each of the first `k - 1` squares along `(dr, df)` from `from`
/// is on the board and may be passed.
pub open spec fn clear_before(
    board: Map<Position, Tile>,
    from: Position,
    dr: int,
    df: int,
    k: int,
    move_type: MoveType,
) -> bool {
    forall|j: int|
        1 <= j < k ==> match #[trigger] walk(from, dr, df, j) {
            Some(q) => passes(board[q], move_type),
            None => false,
        }
}

/// A scan along one direction stops at the first obstruction: a square is
/// reached exactly when it lies at most `distance` steps away, every square
/// before it may be passed, and it may itself be passed or captured. So a
/// capturable piece that blocks the line is reached, a piece of the mover's
/// own side is not, and nothing beyond either is.
pub proof fn lemma_reach_stops_at_first_obstruction(
    board: Map<Position, Tile>,
    from: Position,
    dr: int,
    df: int,
    distance: int,
    move_type: MoveType,
    p: Position,
)
    ensures
        reach(board, from, dr, df, distance, move_type).contains(p) <==> exists|k: int|
            1 <= k <= distance && walk(from, dr, df, k) == Some(p) && clear_before(
                board,
                from,
                dr,
                df,
                k,
                move_type,
            ) && (passes(board[p], move_type) || captures(board[p], move_type)),
    decreases distance,
{
    let lands = passes(board[p], move_type) || captures(board[p], move_type);
    if distance > 0 {
        match from.offset(dr, df) {
            None => {
                assert forall|k: int| 1 <= k <= distance implies walk(from, dr, df, k) is None by {}
            },
            Some(next) => {
                assert(walk(from, dr, df, 1) == walk(next, dr, df, 0));
                lemma_reach_stops_at_first_obstruction(board, next, dr, df, distance - 1, move_type, p);
                if reach(board, from, dr, df, distance, move_type).contains(p) {
                    if p == next {
                        assert(clear_before(board, from, dr, df, 1, move_type));
                    } else {
                        let k = choose|k: int|
                            1 <= k <= distance - 1 && walk(next, dr, df, k) == Some(p)
                                && clear_before(board, next, dr, df, k, move_type) && lands;
                        assert(walk(from, dr, df, k + 1) == walk(next, dr, df, k));
                        assert forall|j: int| 1 <= j < k + 1 implies match #[trigger] walk(
                            from,
                            dr,
                            df,
                            j,
                        ) {
                            Some(q) => passes(board[q], move_type),
                            None => false,
                        } by {
                            assert(walk(from, dr, df, j) == walk(next, dr, df, j - 1));
                        }
                    }
                }
                if exists|k: int|
                    1 <= k <= distance && walk(from, dr, df, k) == Some(p) && clear_before(
                        board,
                        from,
                        dr,
                        df,
                        k,
                        move_type,
                    ) && lands {
                    let k = choose|k: int|
                        1 <= k <= distance && walk(from, dr, df, k) == Some(p) && clear_before(
                            board,
                            from,
                            dr,
                            df,
                            k,
                            move_type,
                        ) && lands;
                    if k > 1 {
                        assert(walk(from, dr, df, 1) == Some(next));
                        assert(passes(board[next], move_type));
                        assert(walk(from, dr, df, k) == walk(next, dr, df, k - 1));
                        assert forall|j: int| 1 <= j < k - 1 implies match #[trigger] walk(
                            next,
                            dr,
                            df,
                            j,
                        ) {
                            Some(q) => passes(board[q], move_type),
                            None => false,
                        } by {
                            assert(walk(from, dr, df, j + 1) == walk(next, dr, df, j));
                        }
                        assert(clear_before(board, next, dr, df, k - 1, move_type));
                    }
                }
            },
        }
    }
}

/// A square is reached by a list of rays exactly when one of them reaches it.
pub proof fn lemma_rays_reach_any(board: Map<Position, Tile>, from: Position, rays: Seq<Ray>, p: Position)
    ensures
        rays_reach(board, from, rays).contains(p) <==> exists|i: int|
            0 <= i < rays.len() && #[trigger] ray_reach(board, from, rays[i]).contains(p),
    decreases rays.len(),
{
    if rays.len() > 0 {
        let init = rays.drop_last();
        lemma_rays_reach_any(board, from, init, p);
        if rays_reach(board, from, init).contains(p) {
            let i = choose|i: int| 0 <= i < init.len() && #[trigger] ray_reach(board, from, init[i]).contains(p);
            assert(rays[i] == init[i]);
        }
        if exists|i: int| 0 <= i < rays.len() && #[trigger] ray_reach(board, from, rays[i]).contains(p) {
            let i = choose|i: int| 0 <= i < rays.len() && #[trigger] ray_reach(board, from, rays[i]).contains(p);
            if i < rays.len() - 1 {
                assert(rays[i] == init[i]);
            }
        }
    }
}

/// A ray of one step reaches exactly the square one step away, if that
/// square may be passed or captured.
pub proof fn lemma_single_step(
    board: Map<Position, Tile>,
    from: Position,
    dr: int,
    df: int,
    move_type: MoveType,
    p: Position,
)
    ensures
        reach(board, from, dr, df, 1, move_type).contains(p) <==> from.offset(dr, df) == Some(p) && (
        passes(board[p], move_type) || captures(board[p], move_type)),
{
    if let Some(next) = from.offset(dr, df) {
        assert(reach(board, from, dr, df, 1, move_type) == if passes(board[next], move_type) {
            reach(board, next, dr, df, 0, move_type).insert(next)
        } else if captures(board[next], move_type) {
            Set::empty().insert(next)
        } else {
            Set::empty()
        });
    }
}

/// A knight may go to each square one jump away that holds no piece of its
/// own side, and nowhere else: squares of its own side are left out, enemy
/// pieces may be captured, and jumps off the board give nothing.
pub proof fn lemma_knight_moves(board: Map<Position, Tile>, from: Position, turn: Color, to: Position)
    requires
        board[from] == Tile::Occupied(turn, Figure::Knight),
    ensures
        moves(board, from, turn).contains(to) <==> (exists|i: int|
            0 <= i < 8 && from.offset(knight_jumps()[i].0, knight_jumps()[i].1) == Some(to))
            && !board[to].is_of(turn),
{
    let table = rays(Figure::Knight, turn, from.rank);
    lemma_rays_reach_any(board, from, table, to);
    assert forall|i: int| 0 <= i < 8 implies (#[trigger] ray_reach(board, from, table[i]).contains(to)
        <==> from.offset(knight_jumps()[i].0, knight_jumps()[i].1) == Some(to) && !board[to].is_of(turn)) by {
        let d = knight_jumps()[i];
        assert(table[i] == free_ray(d.0, d.1, 1, turn));
        lemma_single_step(board, from, d.0, d.1, table[i].move_type, to);
    }
    assert(table.len() == 8);
    if moves(board, from, turn).contains(to) {
        let i = choose|i: int| 0 <= i < table.len() && #[trigger] ray_reach(board, from, table[i]).contains(to);
        assert(from.offset(knight_jumps()[i].0, knight_jumps()[i].1) == Some(to));
    }
    if exists|i: int| 0 <= i < 8 && from.offset(knight_jumps()[i].0, knight_jumps()[i].1) == Some(to) {
        let i = choose|i: int| 0 <= i < 8 && from.offset(knight_jumps()[i].0, knight_jumps()[i].1) == Some(to);
        if !board[to].is_of(turn) {
            assert(ray_reach(board, from, table[i]).contains(to));
        }
    }
}

/// A pawn on its home rank, with the two squares ahead empty and no enemy
/// piece on either forward diagonal, may go exactly one or two squares
/// ahead.
pub proof fn lemma_pawn_home_moves(board: Map<Position, Tile>, from: Position, turn: Color)
    requires
        board[from] == Tile::Occupied(turn, Figure::Pawn),
        from.rank == pawn_home_rank(turn),
        board[from.offset(pawn_step(turn) as int, 0)->0] is Empty,
        board[from.offset(2 * pawn_step(turn), 0)->0] is Empty,
        forall|df: int|
            (df == -1 || df == 1) && #[trigger] from.offset(pawn_step(turn) as int, df) is Some
                ==> !board[from.offset(pawn_step(turn) as int, df)->0].is_of(turn.opposite_spec()),
    ensures
        moves(board, from, turn) == Set::empty().insert(
            from.offset(pawn_step(turn) as int, 0)->0,
        ).insert(from.offset(2 * pawn_step(turn), 0)->0),
{
    let step = pawn_step(turn) as int;
    let one = from.offset(step, 0)->0;
    let two = from.offset(2 * step, 0)->0;
    let table = rays(Figure::Pawn, turn, from.rank);
    assert(from.offset(step, 0) is Some);
    assert(one.offset(step, 0) == Some(two));
    let forward = reach(board, from, step, 0, 2, MoveType::OnlyMove);
    assert(reach(board, one, step, 0, 1, MoveType::OnlyMove) =~= Set::empty().insert(two)) by {
        lemma_single_step(board, one, step, 0, MoveType::OnlyMove, two);
        assert(reach(board, two, step, 0, 0, MoveType::OnlyMove) == Set::<Position>::empty());
    }
    assert(forward =~= Set::empty().insert(one).insert(two));
    assert forall|p: Position| #[trigger] moves(board, from, turn).contains(p) <==> (p == one || p == two) by {
        lemma_rays_reach_any(board, from, table, p);
        assert(ray_reach(board, from, table[0]) == forward);
        if moves(board, from, turn).contains(p) {
            let i = choose|i: int| 0 <= i < table.len() && #[trigger] ray_reach(board, from, table[i]).contains(p);
            if i == 1 {
                lemma_single_step(board, from, step, -1, table[1].move_type, p);
                assert(from.offset(step, -1) is Some);
            } else if i == 2 {
                lemma_single_step(board, from, step, 1, table[2].move_type, p);
                assert(from.offset(step, 1) is Some);
            }
        }
        if p == one || p == two {
            assert(ray_reach(board, from, table[0]).contains(p));
        }
    }
    assert(moves(board, from, turn) =~= Set::empty().insert(one).insert(two));
}

/// A move that is not among the piece's destinations is refused and leaves
/// the game as it was, so that a move among them is then still accepted.
pub proof fn lemma_refused_move_keeps_state(
    state: (Map<Position, Tile>, Color),
    from: Position,
    refused: Position,
    accepted: Position,
)
    requires
        !moves(state.0, from, state.1).contains(refused),
        moves(state.0, from, state.1).contains(accepted),
    ensures
        play(state, from, refused) is None,
        play(state, from, accepted) == Some(
            (relocated(state.0, from, accepted), state.1.opposite_spec()),
        ),
{
}

/// Each accepted move hands the turn to the other side, so that two
/// accepted moves in a row are made by the two sides in turn.
pub proof fn lemma_turn_alternates(
    state: (Map<Position, Tile>, Color),
    first_from: Position,
    first_to: Position,
    between: (Map<Position, Tile>, Color),
    second_from: Position,
    second_to: Position,
    after: (Map<Position, Tile>, Color),
)
    requires
        play(state, first_from, first_to) == Some(between),
        play(between, second_from, second_to) == Some(after),
    ensures
        between.1 == state.1.opposite_spec(),
        between.1 != state.1,
        after.1 == state.1,
{
}

/// The square `k` steps of `d` (ranks, files) away from `from`, if it is on
/// the board.
pub open spec fn line_square(from: Position, d: (int, int), k: int) -> Option<Position> {
    from.offset(k * d.0, k * d.1)
}

/// Whether a piece of side `turn` on `from` that slides along `d` may stop on
/// `to`: `to` lies on that line, every square before it is empty, and it does
/// not hold a piece of side `turn`.
pub open spec fn slides_to(
    board: Map<Position, Tile>,
    from: Position,
    d: (int, int),
    turn: Color,
    to: Position,
) -> bool {
    exists|k: int|
        1 <= k && #[trigger] line_square(from, d, k) == Some(to) && (forall|j: int|
            1 <= j < k ==> match #[trigger] line_square(from, d, j) {
                Some(q) => board[q] is Empty,
                None => false,
            }) && !board[to].is_of(turn)
}

/// The directions along which a piece of kind `figure` slides.
pub open spec fn sliding_directions(figure: Figure) -> Seq<(int, int)> {
    match figure {
        Figure::Bishop => diagonals(),
        Figure::Rook => orthogonals(),
        _ => orthogonals() + diagonals(),
    }
}

/// Stepping `k` times is the same as moving `k` times as far at once.
pub proof fn lemma_walk_is_line(from: Position, dr: int, df: int, k: int)
    requires
        k >= 0,
    ensures
        walk(from, dr, df, k) == line_square(from, (dr, df), k),
    decreases k,
{
    from.rank.lemma_value_round_trip();
    from.file.lemma_value_round_trip();
    if k == 0 {
        assert(0 * dr == 0 && 0 * df == 0) by (nonlinear_arith);
    } else {
        assert(dr <= 0 ==> k * dr <= dr) by (nonlinear_arith)
            requires
                k >= 1,
        ;
        assert(dr >= 0 ==> k * dr >= dr) by (nonlinear_arith)
            requires
                k >= 1,
        ;
        assert(df <= 0 ==> k * df <= df) by (nonlinear_arith)
            requires
                k >= 1,
        ;
        assert(df >= 0 ==> k * df >= df) by (nonlinear_arith)
            requires
                k >= 1,
        ;
        assert((k - 1) * dr + dr == k * dr && (k - 1) * df + df == k * df) by (nonlinear_arith);
        if let Some(next) = from.offset(dr, df) {
            lemma_walk_is_line(next, dr, df, k - 1);
            assert(next.rank.value() == from.rank.value() + dr);
            assert(next.file.value() == from.file.value() + df);
        }
    }
}

/// A line in a direction of unit steps leaves the board after at most seven
/// steps.
pub proof fn lemma_line_within_seven(from: Position, d: (int, int), k: int)
    requires
        -1 <= d.0 <= 1,
        -1 <= d.1 <= 1,
        d.0 != 0 || d.1 != 0,
        k >= 1,
        line_square(from, d, k) is Some,
    ensures
        k <= 7,
{
    from.rank.lemma_value_round_trip();
    from.file.lemma_value_round_trip();
    if d.0 == 1 || d.0 == -1 {
        assert(k * d.0 == k || k * d.0 == -k) by (nonlinear_arith)
            requires
                d.0 == 1 || d.0 == -1,
        ;
    } else {
        assert(k * d.1 == k || k * d.1 == -k) by (nonlinear_arith)
            requires
                d.1 == 1 || d.1 == -1,
        ;
    }
}

/// Along one direction of unit steps, a piece that may move and capture
/// reaches only squares it slides to.
proof fn lemma_free_line_sound(
    board: Map<Position, Tile>,
    from: Position,
    turn: Color,
    d: (int, int),
    to: Position,
)
    requires
        -1 <= d.0 <= 1,
        -1 <= d.1 <= 1,
        reach(
            board,
            from,
            d.0,
            d.1,
            7,
            MoveType::MoveAndAttack { opposite: turn.opposite_spec() },
        ).contains(to),
    ensures
        slides_to(board, from, d, turn, to),
{
    let mt = MoveType::MoveAndAttack { opposite: turn.opposite_spec() };
    lemma_reach_stops_at_first_obstruction(board, from, d.0, d.1, 7, mt, to);
    let k = choose|k: int|
        1 <= k <= 7 && walk(from, d.0, d.1, k) == Some(to) && clear_before(board, from, d.0, d.1, k, mt)
            && (passes(board[to], mt) || captures(board[to], mt));
    lemma_walk_is_line(from, d.0, d.1, k);
    assert forall|j: int| 1 <= j < k implies match #[trigger] line_square(from, d, j) {
        Some(q) => board[q] is Empty,
        None => false,
    } by {
        lemma_walk_is_line(from, d.0, d.1, j);
        assert(clear_before(board, from, d.0, d.1, k, mt));
    }
    assert(line_square(from, d, k) == Some(to));
}

/// Along one direction of unit steps, a piece that may move and capture
/// reaches every square it slides to.
proof fn lemma_free_line_complete(
    board: Map<Position, Tile>,
    from: Position,
    turn: Color,
    d: (int, int),
    to: Position,
)
    requires
        -1 <= d.0 <= 1,
        -1 <= d.1 <= 1,
        d.0 != 0 || d.1 != 0,
        slides_to(board, from, d, turn, to),
    ensures
        reach(
            board,
            from,
            d.0,
            d.1,
            7,
            MoveType::MoveAndAttack { opposite: turn.opposite_spec() },
        ).contains(to),
{
    let mt = MoveType::MoveAndAttack { opposite: turn.opposite_spec() };
    let k = choose|k: int|
        1 <= k && #[trigger] line_square(from, d, k) == Some(to) && (forall|j: int|
            1 <= j < k ==> match #[trigger] line_square(from, d, j) {
                Some(q) => board[q] is Empty,
                None => false,
            }) && !board[to].is_of(turn);
    lemma_line_within_seven(from, d, k);
    lemma_walk_is_line(from, d.0, d.1, k);
    assert forall|j: int| 1 <= j < k implies match #[trigger] walk(from, d.0, d.1, j) {
        Some(q) => passes(board[q], mt),
        None => false,
    } by {
        lemma_walk_is_line(from, d.0, d.1, j);
    }
    assert(clear_before(board, from, d.0, d.1, k, mt));
    assert(passes(board[to], mt) || captures(board[to], mt));
    lemma_reach_stops_at_first_obstruction(board, from, d.0, d.1, 7, mt, to);
}

/// Along one direction of unit steps, a piece that may move and capture
/// reaches exactly the squares it slides to: the first enemy piece in the
/// way is included, its own first piece is not, and nothing beyond either.
pub proof fn lemma_free_line(
    board: Map<Position, Tile>,
    from: Position,
    turn: Color,
    d: (int, int),
    to: Position,
)
    requires
        -1 <= d.0 <= 1,
        -1 <= d.1 <= 1,
        d.0 != 0 || d.1 != 0,
    ensures
        reach(
            board,
            from,
            d.0,
            d.1,
            7,
            MoveType::MoveAndAttack { opposite: turn.opposite_spec() },
        ).contains(to) <==> slides_to(board, from, d, turn, to),
{
    if reach(
        board,
        from,
        d.0,
        d.1,
        7,
        MoveType::MoveAndAttack { opposite: turn.opposite_spec() },
    ).contains(to) {
        lemma_free_line_sound(board, from, turn, d, to);
    }
    if slides_to(board, from, d, turn, to) {
        lemma_free_line_complete(board, from, turn, d, to);
    }
}

/// A bishop, rook or queen may go exactly to the squares it slides to along
/// one of its directions: it stops at the first piece in each direction,
/// taking it when it is an enemy and stopping short when it is its own, and
/// never goes beyond.
pub proof fn lemma_sliding_moves(
    board: Map<Position, Tile>,
    from: Position,
    turn: Color,
    figure: Figure,
    to: Position,
)
    requires
        board[from] == Tile::Occupied(turn, figure),
        figure is Bishop || figure is Rook || figure is Queen,
    ensures
        moves(board, from, turn).contains(to) <==> exists|i: int|
            0 <= i < sliding_directions(figure).len() && #[trigger] slides_to(
                board,
                from,
                sliding_directions(figure)[i],
                turn,
                to,
            ),
{
    let dirs = sliding_directions(figure);
    let table = rays(figure, turn, from.rank);
    assert(table == free_rays(dirs, 7i8, turn));
    lemma_rays_reach_any(board, from, table, to);
    assert forall|i: int| 0 <= i < dirs.len() implies -1 <= #[trigger] dirs[i].0 <= 1 && -1 <= dirs[i].1
        <= 1 && (dirs[i].0 != 0 || dirs[i].1 != 0) by {}
    assert forall|i: int| 0 <= i < table.len() implies (#[trigger] ray_reach(board, from, table[i]).contains(to)
        <==> slides_to(board, from, dirs[i], turn, to)) by {
        let d = dirs[i];
        assert(table[i] == free_ray(d.0, d.1, 7i8, turn));
        lemma_free_line(board, from, turn, d, to);
    }
    if moves(board, from, turn).contains(to) {
        let i = choose|i: int| 0 <= i < table.len() && #[trigger] ray_reach(board, from, table[i]).contains(to);
        assert(slides_to(board, from, dirs[i], turn, to));
    }
    if exists|i: int| 0 <= i < dirs.len() && #[trigger] slides_to(board, from, dirs[i], turn, to) {
        let i = choose|i: int| 0 <= i < dirs.len() && #[trigger] slides_to(board, from, dirs[i], turn, to);
        assert(ray_reach(board, from, table[i]).contains(to));
    }
}

} // verus!
