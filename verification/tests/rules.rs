use chess::{format_coord, parse_coord, ChessError, Color, Game, GameState, Piece, PieceType};

fn sorted(mut v: Vec<String>) -> Vec<String> {
    v.sort();
    v
}

fn strings(v: &[&str]) -> Vec<String> {
    let mut out: Vec<String> = v.iter().map(|s| s.to_string()).collect();
    out.sort();
    out
}

fn clear_board(game: &mut Game) {
    for r in 0..8 {
        for c in 0..8 {
            game.board.clear(r, c);
        }
    }
}

fn put(game: &mut Game, row: usize, col: usize, color: Color, piece: PieceType) {
    game.board.place(
        row,
        col,
        Piece {
            color,
            piece,
            untouched: true,
        },
    );
}

// round trip: every square survives format-then-parse
#[test]
fn coordinate_round_trip_all_squares() {
    let game = Game::new();
    for r in 0..8 {
        for c in 0..8 {
            let text = game.index_to_pos((r, c));
            assert_eq!(game.pos_to_index(text), (r, c));
        }
    }
}

// round trip: a valid text parses and formats back to its upper-case form
#[test]
fn coordinate_round_trip_uppercases() {
    for (lower, upper) in [("a1", "A1"), ("e2", "E2"), ("h8", "H8"), ("C7", "C7")] {
        let (r, c) = parse_coord(lower).unwrap();
        assert_eq!(format_coord(r, c), upper);
    }
}

#[test]
fn coordinate_rejects_malformed_text() {
    for bad in ["", "e", "e22", "i2", "a9", "a0", "11", "ab", "2e", "e 2"] {
        assert_eq!(parse_coord(bad), None);
    }
}

// from the standard starting position: king pawn, knight, boxed-in king
#[test]
fn starting_position_moves() {
    let game = Game::new();
    assert_eq!(
        sorted(game.get_possible_moves("E2".to_string()).unwrap()),
        strings(&["E3", "E4"])
    );
    assert_eq!(
        sorted(game.get_possible_moves("B1".to_string()).unwrap()),
        strings(&["A3", "C3"])
    );
    assert_eq!(game.get_possible_moves("E1".to_string()), Some(vec![]));
}

// an empty square has no moves, and the answer is not an error
#[test]
fn empty_square_has_no_moves() {
    let game = Game::new();
    assert_eq!(game.get_possible_moves("E4".to_string()), Some(vec![]));
}

// a moved pawn loses its double step
#[test]
fn pawn_double_step_spent() {
    let mut game = Game::new();
    assert_eq!(
        game.make_move("E2".to_string(), "E4".to_string()),
        Ok(GameState::InProgress)
    );
    assert_eq!(
        sorted(game.get_possible_moves("E4".to_string()).unwrap()),
        strings(&["E5"])
    );
}

// a blocked pawn can make neither the single nor the double step
#[test]
fn pawn_blocked_cannot_advance() {
    let mut game = Game::new();
    put(&mut game, 5, 3, Color::Black, PieceType::Knight);
    assert_eq!(game.get_possible_moves("D2".to_string()), Some(vec![]));
}

// a pawn captures only diagonally
#[test]
fn pawn_captures_diagonally() {
    let mut game = Game::new();
    assert_eq!(
        game.make_move("E2".to_string(), "E4".to_string()),
        Ok(GameState::InProgress)
    );
    assert_eq!(
        game.make_move("D7".to_string(), "D5".to_string()),
        Ok(GameState::InProgress)
    );
    assert_eq!(
        sorted(game.get_possible_moves("E4".to_string()).unwrap()),
        strings(&["E5", "D5"])
    );
    assert_eq!(
        game.make_move("E4".to_string(), "D5".to_string()),
        Ok(GameState::InProgress)
    );
    assert_eq!(
        game.board.at(3, 3),
        Some(Piece {
            color: Color::White,
            piece: PieceType::Pawn,
            untouched: false,
        })
    );
}

// a rook slides along the opened file and stops on the first capture
#[test]
fn rook_slides_and_stops_on_capture() {
    let mut game = Game::new();
    assert_eq!(game.get_possible_moves("A1".to_string()), Some(vec![]));
    game.board.clear(6, 0); // lift the pawn off A2
    assert_eq!(
        sorted(game.get_possible_moves("A1".to_string()).unwrap()),
        strings(&["A2", "A3", "A4", "A5", "A6", "A7"])
    );
}

// a bishop slides along its opened diagonal
#[test]
fn bishop_slides_on_open_diagonal() {
    let mut game = Game::new();
    assert_eq!(
        game.make_move("E2".to_string(), "E4".to_string()),
        Ok(GameState::InProgress)
    );
    assert_eq!(
        sorted(game.get_possible_moves("F1".to_string()).unwrap()),
        strings(&["E2", "D3", "C4", "B5", "A6"])
    );
}

// a queen combines the rook's and bishop's rays
#[test]
fn queen_slides_on_open_lines() {
    let mut game = Game::new();
    assert_eq!(
        game.make_move("E2".to_string(), "E4".to_string()),
        Ok(GameState::InProgress)
    );
    assert_eq!(
        sorted(game.get_possible_moves("D1".to_string()).unwrap()),
        strings(&["E2", "F3", "G4", "H5"])
    );
}

// a piece shielding its king from a rook may not leave the line
#[test]
fn pinned_piece_cannot_expose_king() {
    let mut game = Game::new();
    clear_board(&mut game);
    put(&mut game, 7, 4, Color::White, PieceType::King); // E1
    put(&mut game, 6, 4, Color::White, PieceType::Knight); // E2
    put(&mut game, 0, 4, Color::Black, PieceType::Rook); // E8
    put(&mut game, 0, 0, Color::Black, PieceType::King); // A8
    assert_eq!(game.get_possible_moves("E2".to_string()), Some(vec![]));
}

// a pinned queen may still move along the pinning line, up to the capture
#[test]
fn pinned_queen_moves_along_the_line() {
    let mut game = Game::new();
    clear_board(&mut game);
    put(&mut game, 7, 4, Color::White, PieceType::King); // E1
    put(&mut game, 6, 4, Color::White, PieceType::Queen); // E2
    put(&mut game, 0, 4, Color::Black, PieceType::Rook); // E8
    put(&mut game, 0, 0, Color::Black, PieceType::King); // A8
    assert_eq!(
        sorted(game.get_possible_moves("E2".to_string()).unwrap()),
        strings(&["E3", "E4", "E5", "E6", "E7", "E8"])
    );
}

// a queen giving check leaves the defender only the blocking move
#[test]
fn check_narrows_the_defence() {
    let mut game = Game::new();
    assert_eq!(
        game.make_move("E2".to_string(), "E4".to_string()),
        Ok(GameState::InProgress)
    );
    assert_eq!(
        game.make_move("F7".to_string(), "F6".to_string()),
        Ok(GameState::InProgress)
    );
    assert_eq!(
        game.make_move("D1".to_string(), "H5".to_string()),
        Ok(GameState::Check)
    );
    assert_eq!(game.get_game_state(), GameState::Check);
    // only the pawn step to G6 blocks the queen's diagonal
    assert_eq!(
        sorted(game.get_possible_moves("G7".to_string()).unwrap()),
        strings(&["G6"])
    );
}

// the fastest checkmate: the game ends and takes no more moves
#[test]
fn fools_mate_is_checkmate() {
    let mut game = Game::new();
    assert_eq!(
        game.make_move("F2".to_string(), "F3".to_string()),
        Ok(GameState::InProgress)
    );
    assert_eq!(
        game.make_move("E7".to_string(), "E5".to_string()),
        Ok(GameState::InProgress)
    );
    assert_eq!(
        game.make_move("G2".to_string(), "G4".to_string()),
        Ok(GameState::InProgress)
    );
    assert_eq!(
        game.make_move("D8".to_string(), "H4".to_string()),
        Ok(GameState::Checkmate)
    );
    assert_eq!(game.get_game_state(), GameState::Checkmate);
    assert_eq!(
        game.make_move("E2".to_string(), "E3".to_string()),
        Err(ChessError::IllegalMove)
    );
}

// a side left without moves but not in check is stalemated
#[test]
fn cornered_king_is_stalemate() {
    let mut game = Game::new();
    clear_board(&mut game);
    put(&mut game, 0, 0, Color::Black, PieceType::King); // A8
    put(&mut game, 2, 1, Color::White, PieceType::King); // B6
    put(&mut game, 1, 7, Color::White, PieceType::Queen); // H7
    game.turn = Color::White;
    assert_eq!(
        game.make_move("H7".to_string(), "C7".to_string()),
        Ok(GameState::Stalemate)
    );
    assert_eq!(game.get_game_state(), GameState::Stalemate);
}

// an illegal move is rejected and the game is exactly as before
#[test]
fn rejected_move_changes_nothing() {
    let mut game = Game::new();
    let before = game;
    assert_eq!(
        game.make_move("E2".to_string(), "E5".to_string()),
        Err(ChessError::IllegalMove)
    );
    assert_eq!(game, before);
}

#[test]
fn malformed_coordinates_are_rejected() {
    let mut game = Game::new();
    let before = game;
    assert_eq!(
        game.make_move("Z9".to_string(), "E4".to_string()),
        Err(ChessError::InvalidCoordinate)
    );
    assert_eq!(
        game.make_move("E2".to_string(), "E44".to_string()),
        Err(ChessError::InvalidCoordinate)
    );
    assert_eq!(game, before);
    assert_eq!(game.get_possible_moves("E9".to_string()), None);
}

#[test]
fn moving_from_an_empty_square_is_rejected() {
    let mut game = Game::new();
    let before = game;
    assert_eq!(
        game.make_move("E4".to_string(), "E5".to_string()),
        Err(ChessError::EmptySource)
    );
    assert_eq!(game, before);
}

#[test]
fn moving_the_opponents_piece_is_rejected() {
    let mut game = Game::new();
    let before = game;
    assert_eq!(
        game.make_move("E7".to_string(), "E5".to_string()),
        Err(ChessError::NotYourTurn)
    );
    assert_eq!(game, before);
}

// a side without a king is a corrupted position and says so
#[test]
fn missing_king_is_reported() {
    let mut game = Game::new();
    game.board.clear(7, 4); // lift the white king off E1
    assert_eq!(game.get_possible_moves("E2".to_string()), None);
    let before = game;
    assert_eq!(
        game.make_move("E2".to_string(), "E3".to_string()),
        Err(ChessError::KingMissing)
    );
    assert_eq!(game, before);
}

// a pawn reaching the far rank needs a promotion choice, then takes it
#[test]
fn promotion_needs_a_choice_and_applies_it() {
    let mut game = Game::new();
    game.board.clear(0, 0); // lift the black rook off A8
    put(&mut game, 1, 0, Color::White, PieceType::Pawn); // white pawn on A7
    let before = game;
    assert_eq!(
        game.make_move("A7".to_string(), "A8".to_string()),
        Err(ChessError::PromotionRequired)
    );
    assert_eq!(game, before);
    game.set_promotion(PieceType::Queen);
    assert_eq!(
        game.make_move("A7".to_string(), "A8".to_string()),
        Ok(GameState::InProgress)
    );
    assert_eq!(
        game.board.at(0, 0),
        Some(Piece {
            color: Color::White,
            piece: PieceType::Queen,
            untouched: false,
        })
    );
}

// a promotion choice on an ordinary move is refused; a king or pawn
// choice clears the pending choice instead of setting one
#[test]
fn stray_promotion_choice_is_refused() {
    let mut game = Game::new();
    game.set_promotion(PieceType::Rook);
    let before = game;
    assert_eq!(
        game.make_move("E2".to_string(), "E4".to_string()),
        Err(ChessError::PromotionNotApplicable)
    );
    assert_eq!(game, before);
    game.set_promotion(PieceType::King); // refused: clears the choice
    assert_eq!(
        game.make_move("E2".to_string(), "E4".to_string()),
        Ok(GameState::InProgress)
    );
}

// whoever's turn it is, both sides' destinations can be inspected
#[test]
fn moves_shown_for_both_sides() {
    let game = Game::new();
    assert_eq!(
        sorted(game.get_possible_moves("B8".to_string()).unwrap()),
        strings(&["A6", "C6"])
    );
    assert_eq!(
        sorted(game.get_possible_moves("D7".to_string()).unwrap()),
        strings(&["D6", "D5"])
    );
}
