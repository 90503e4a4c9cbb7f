use chess::{Color, Figure, Game, Position, Tile};

fn pos(text: &str) -> Position {
    Position::parse(text).unwrap()
}

fn pos_list(texts: &[&str]) -> Vec<Position> {
    let mut list: Vec<Position> = texts.iter().map(|t| pos(t)).collect();
    list.sort();
    list
}

#[test]
fn test_display_newly_created_field() {
    let game = Game::new();
    let displayed = game.render();
    let displayed_lines: Vec<_> = displayed.split('\n').collect();

    assert_eq!(
        displayed_lines,
        vec![
            " b\u{2656}  b\u{2658}  b\u{2657}  b\u{2655}  b\u{2654}  b\u{2657}  b\u{2658}  b\u{2656} ",
            " b\u{2659}  b\u{2659}  b\u{2659}  b\u{2659}  b\u{2659}  b\u{2659}  b\u{2659}  b\u{2659} ",
            " __  __  __  __  __  __  __  __ ",
            " __  __  __  __  __  __  __  __ ",
            " __  __  __  __  __  __  __  __ ",
            " __  __  __  __  __  __  __  __ ",
            " w\u{2659}  w\u{2659}  w\u{2659}  w\u{2659}  w\u{2659}  w\u{2659}  w\u{2659}  w\u{2659} ",
            " w\u{2656}  w\u{2658}  w\u{2657}  w\u{2655}  w\u{2654}  w\u{2657}  w\u{2658}  w\u{2656} ",
        ]
    );
}

#[test]
fn test_black_queen_initial_position() {
    let game = Game::new();
    let queen_tile = game.field.get(pos("d8"));
    assert_eq!(queen_tile, Tile::Occupied(Color::Black, Figure::Queen))
}

#[test]
fn test_white_rooks_initial_position() {
    let game = Game::new();
    let first_rook_tile = game.field.get(pos("a1"));
    let second_rook_tile = game.field.get(pos("h1"));
    let white_rook = Tile::Occupied(Color::White, Figure::Rook);
    assert_eq!(first_rook_tile, white_rook);
    assert_eq!(second_rook_tile, white_rook);
}

#[test]
fn test_white_pawn_first_move() {
    let game = Game::new();
    let moves = game.moves_available(pos("e2"));
    assert_eq!(moves, vec![pos("e3"), pos("e4")]);
}

#[test]
fn test_white_pawn_second_move_or_capture() {
    let mut game = Game::new();
    game.make_move(pos("e2"), pos("e4")).unwrap();
    game.make_move(pos("d7"), pos("d5")).unwrap();
    let moves = game.moves_available(pos("e4"));
    assert_eq!(moves, pos_list(&["e5", "d5"]));
}

#[test]
fn test_knight_moves() {
    let mut game = Game::new();
    game.make_move(pos("b1"), pos("c3")).unwrap();
    game.make_move(pos("d7"), pos("d5")).unwrap();
    let moves = game.moves_available(pos("c3"));
    assert_eq!(moves, pos_list(&["b1", "a4", "b5", "d5", "e4"]));
}

#[test]
fn test_bishop_moves() {
    let mut game = Game::new();
    game.make_move(pos("e2"), pos("e3")).unwrap();
    game.make_move(pos("f7"), pos("f5")).unwrap();
    game.make_move(pos("f1"), pos("d3")).unwrap();
    game.make_move(pos("e7"), pos("e6")).unwrap();
    let moves = game.moves_available(pos("d3"));
    assert_eq!(moves, pos_list(&["a6", "b5", "c4", "e2", "f1", "e4", "f5"]));
}
