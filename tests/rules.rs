use chess::{Color, Field, File, Figure, Game, Position, Rank, Tile};

fn sq(text: &str) -> Position {
    Position::parse(text).unwrap()
}

fn squares(texts: &[&str]) -> Vec<Position> {
    let mut list: Vec<Position> = texts.iter().map(|t| sq(t)).collect();
    list.sort();
    list
}

fn expected_start(rank: Rank, file: File) -> Tile {
    let back = match file {
        File::A | File::H => Figure::Rook,
        File::B | File::G => Figure::Knight,
        File::C | File::F => Figure::Bishop,
        File::D => Figure::Queen,
        File::E => Figure::King,
    };
    match rank {
        Rank::One => Tile::Occupied(Color::White, back),
        Rank::Two => Tile::Occupied(Color::White, Figure::Pawn),
        Rank::Seven => Tile::Occupied(Color::Black, Figure::Pawn),
        Rank::Eight => Tile::Occupied(Color::Black, back),
        _ => Tile::Empty,
    }
}

#[test]
fn initial_layout_on_every_square() {
    let game = Game::new();
    let mut count = 0;
    for rank in Rank::iter() {
        for file in File::iter() {
            let tile = game.field.get(Position { rank, file });
            assert_eq!(tile, expected_start(rank, file));
            count += 1;
        }
    }
    assert_eq!(count, 64);
    assert_eq!(game.turn, Color::White);
}

#[test]
fn rendering_after_a_move() {
    let mut game = Game::new();
    game.make_move(sq("e2"), sq("e4")).unwrap();
    let text = game.render();
    let lines: Vec<&str> = text.split('\n').collect();
    assert_eq!(lines.len(), 8);
    assert!(!text.ends_with('\n'));
    assert_eq!(lines[4], " __  __  __  __  w\u{2659}  __  __  __ ");
    assert_eq!(lines[6], " w\u{2659}  w\u{2659}  w\u{2659}  w\u{2659}  __  w\u{2659}  w\u{2659}  w\u{2659} ");
}

#[test]
fn black_pawn_on_home_rank() {
    let mut game = Game::new();
    game.make_move(sq("a2"), sq("a3")).unwrap();
    assert_eq!(game.moves_available(sq("d7")), vec![sq("d5"), sq("d6")]);
}

#[test]
fn pawn_blocked_straight_ahead() {
    let mut game = Game::new();
    game.make_move(sq("e2"), sq("e4")).unwrap();
    game.make_move(sq("e7"), sq("e5")).unwrap();
    assert_eq!(game.moves_available(sq("e4")), Vec::<Position>::new());
}

#[test]
fn pawn_capture_leaves_out_empty_diagonal() {
    let mut game = Game::new();
    game.make_move(sq("d2"), sq("d4")).unwrap();
    game.make_move(sq("e7"), sq("e5")).unwrap();
    assert_eq!(game.moves_available(sq("d4")), squares(&["d5", "e5"]));
}

#[test]
fn knight_on_its_starting_square() {
    let game = Game::new();
    assert_eq!(game.moves_available(sq("b1")), squares(&["a3", "c3"]));
    assert_eq!(game.moves_available(sq("g1")), squares(&["f3", "h3"]));
}

#[test]
fn queen_stops_at_first_obstruction() {
    let mut game = Game::new();
    game.make_move(sq("e2"), sq("e3")).unwrap();
    game.make_move(sq("h7"), sq("h5")).unwrap();
    assert_eq!(game.moves_available(sq("d1")), squares(&["e2", "f3", "g4", "h5"]));
}

#[test]
fn rook_scans_open_lines() {
    let mut game = Game::new();
    game.make_move(sq("a2"), sq("a4")).unwrap();
    game.make_move(sq("b7"), sq("b5")).unwrap();
    game.make_move(sq("a1"), sq("a3")).unwrap();
    game.make_move(sq("b5"), sq("a4")).unwrap();
    assert_eq!(
        game.moves_available(sq("a3")),
        squares(&["a1", "a2", "a4", "b3", "c3", "d3", "e3", "f3", "g3", "h3"])
    );
}

#[test]
fn king_steps_one_square() {
    let mut game = Game::new();
    game.make_move(sq("e2"), sq("e4")).unwrap();
    game.make_move(sq("e7"), sq("e5")).unwrap();
    assert_eq!(game.moves_available(sq("e1")), vec![sq("e2")]);
}

#[test]
fn no_moves_from_empty_or_enemy_square() {
    let game = Game::new();
    assert!(game.moves_available(sq("e4")).is_empty());
    assert!(game.moves_available(sq("e7")).is_empty());
    assert!(game.field.moves_available(sq("e7"), Color::White).is_empty());
    assert_eq!(game.field.moves_available(sq("e7"), Color::Black), vec![sq("e5"), sq("e6")]);
}

#[test]
fn refused_move_changes_nothing() {
    let mut game = Game::new();
    let before = game.render();
    assert_eq!(game.make_move(sq("e2"), sq("e5")), Err(()));
    assert_eq!(game.make_move(sq("e7"), sq("e5")), Err(()));
    assert_eq!(game.make_move(sq("e4"), sq("e5")), Err(()));
    assert_eq!(game.render(), before);
    assert_eq!(game.turn, Color::White);
    assert_eq!(game.make_move(sq("e2"), sq("e4")), Ok(()));
    assert_eq!(game.field.get(sq("e4")), Tile::Occupied(Color::White, Figure::Pawn));
    assert_eq!(game.field.get(sq("e2")), Tile::Empty);
}

#[test]
fn turn_alternates_on_each_move() {
    let mut game = Game::new();
    assert_eq!(game.turn, Color::White);
    game.make_move(sq("g1"), sq("f3")).unwrap();
    assert_eq!(game.turn, Color::Black);
    assert_eq!(game.make_move(sq("g1"), sq("g3")), Err(()));
    assert_eq!(game.turn, Color::Black);
    game.make_move(sq("g8"), sq("f6")).unwrap();
    assert_eq!(game.turn, Color::White);
}

#[test]
fn capture_replaces_the_piece() {
    let mut game = Game::new();
    game.make_move(sq("e2"), sq("e4")).unwrap();
    game.make_move(sq("d7"), sq("d5")).unwrap();
    game.make_move(sq("e4"), sq("d5")).unwrap();
    assert_eq!(game.field.get(sq("d5")), Tile::Occupied(Color::White, Figure::Pawn));
    assert_eq!(game.field.get(sq("e4")), Tile::Empty);
}

#[test]
fn board_move_is_unconditional() {
    let mut field: Field = Game::new().field;
    field.make_move(sq("a1"), sq("a8"));
    assert_eq!(field.get(sq("a8")), Tile::Occupied(Color::White, Figure::Rook));
    assert_eq!(field.get(sq("a1")), Tile::Empty);
}

#[test]
fn steps_off_the_board_give_nothing() {
    assert_eq!(sq("h8").add((1, 0)), None);
    assert_eq!(sq("h8").add((0, 1)), None);
    assert_eq!(sq("a1").add((-1, 0)), None);
    assert_eq!(sq("a1").add((0, -1)), None);
    assert_eq!(sq("a8").add((1, 1)), None);
    assert_eq!(sq("d4").add((127, 0)), None);
    assert_eq!(sq("d4").add((-128, -128)), None);
    assert_eq!(sq("b2").add((-1, -1)), Some(sq("a1")));
    assert_eq!(sq("g7").add((1, 1)), Some(sq("h8")));
    assert_eq!(sq("c3").add((2, -1)), Some(sq("b5")));
}

#[test]
fn square_notation() {
    assert_eq!(sq("e2"), Position { rank: Rank::Two, file: File::E });
    assert_eq!(sq("h8"), Position { rank: Rank::Eight, file: File::H });
    assert_eq!(Position::parse("e9"), None);
    assert_eq!(Position::parse("i2"), None);
    assert_eq!(Position::parse("E2"), None);
    assert_eq!(Position::parse("e"), None);
    assert_eq!(Position::parse("e22"), None);
    assert_eq!(Position::parse(""), None);
    assert_eq!(Position::parse("\u{e9}2"), None);
}

#[test]
fn coordinate_conversions() {
    assert_eq!(Rank::from_u8(0), None);
    assert_eq!(Rank::from_u8(9), None);
    assert_eq!(Rank::from_u8(3), Some(Rank::Three));
    assert_eq!(File::from_u8(8), Some(File::H));
    assert_eq!(File::from_u8(255), None);
    assert_eq!(Rank::from_char('8'), Some(Rank::Eight));
    assert_eq!(Rank::from_char('0'), None);
    assert_eq!(File::from_char('a'), Some(File::A));
    assert_eq!(File::from_char('z'), None);
    assert_eq!(Rank::Five.as_u8(), 5);
    assert_eq!(File::C.as_u8(), 3);
    assert_eq!(Rank::iter().len(), 8);
    assert_eq!(Rank::iter()[0], Rank::One);
    assert_eq!(File::iter()[7], File::H);
}

#[test]
fn tiles_and_colors() {
    assert_eq!(Color::White.opposite(), Color::Black);
    assert_eq!(Color::Black.opposite(), Color::White);
    assert_eq!(Tile::default(), Tile::Empty);
    assert_eq!(Tile::Empty.text(), "__");
    assert_eq!(Tile::Occupied(Color::Black, Figure::Queen).text(), "b\u{2655}");
    assert_eq!(Figure::Knight.glyph(), "\u{2658}");
    assert_eq!(Color::White.code(), "w");
}
