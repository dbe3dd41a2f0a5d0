use chess::{Color, Game, GameState, Piece, PieceType};

// check test framework
#[test]
fn it_works() {
    assert_eq!(2 + 2, 4);
}

// check that game state is in progress after initialisation
#[test]
fn game_in_progress_after_init() {
    let game = Game::new();

    println!("{:?}", game);

    assert_eq!(game.get_game_state(), GameState::InProgress);
}

// test converting pos to index
#[test]
fn convert_pos_to_index() {
    let game = Game::new();

    assert_eq!(game.pos_to_index("a1".to_string()), (7, 0));
    assert_eq!(game.pos_to_index("B1".to_string()), (7, 1));
    assert_eq!(game.pos_to_index("A8".to_string()), (0, 0));
    assert_eq!(game.pos_to_index("H8".to_string()), (0, 7));
    assert_eq!(game.pos_to_index("H1".to_string()), (7, 7));
}

// test index to pos
#[test]
fn convert_index_to_pos() {
    let game = Game::new();

    assert_eq!(game.index_to_pos((0, 0)), "A8");
    assert_eq!(game.index_to_pos((7, 0)), "A1");
    assert_eq!(game.index_to_pos((0, 7)), "H8");
    assert_eq!(game.index_to_pos((7, 7)), "H1");
}

// test some pawn moves
#[test]
fn test_pawn_moves() {
    let mut game = Game::new();

    // try white pawn
    assert_eq!(
        game.get_possible_moves("D2".to_string()).unwrap().sort(),
        vec!["D3".to_string(), "D4".to_string()].sort()
    );
    // try black pawn
    assert_eq!(
        game.get_possible_moves("D7".to_string()).unwrap().sort(),
        vec!["D6".to_string(), "D5".to_string()].sort()
    );

    // try white pawn at the very left
    assert_eq!(
        game.get_possible_moves("D2".to_string()).unwrap().sort(),
        vec!["D3".to_string(), "D4".to_string()].sort()
    );

    // try moving D2 pawn to D4
    assert_eq!(
        game.make_move("D2".to_string(), "D4".to_string()),
        Ok(GameState::InProgress)
    );

    println!("{:?}", game);

    // check that we have right moves for this newly moved pawn
    assert_eq!(
        game.get_possible_moves("D4".to_string()).unwrap().sort(),
        vec!["D5".to_string(), "D3".to_string()].sort()
    );
    // then move a black pawn down, C7 to C5
    assert_eq!(
        game.make_move("C7".to_string(), "C5".to_string()),
        Ok(GameState::InProgress)
    );
    println!("{:?}", game);

    // now check that the white pawn has right moves, that it can attack the black pawn
    assert_eq!(
        game.get_possible_moves("D4".to_string()).unwrap().sort(),
        vec!["D5".to_string(), "D3".to_string(), "C5".to_string()].sort()
    );
    // then attack the black pawn
    assert_eq!(
        game.make_move("D4".to_string(), "C5".to_string()),
        Ok(GameState::InProgress)
    );
    println!("{:?}", game);
}

// test some knight moves
#[test]
fn test_knight_moves() {
    let mut game = Game::new();

    println!("{:?}", game);

    assert_eq!(
        game.get_possible_moves("B1".to_string()).unwrap().sort(),
        vec!["A3".to_string(), "C3".to_string()].sort()
    );
    // move B1 to C3
    assert_eq!(
        game.make_move("B1".to_string(), "C3".to_string()),
        Ok(GameState::InProgress)
    );
    assert_eq!(
        game.get_possible_moves("C3".to_string()).unwrap().sort(),
        vec![
            "B5".to_string(),
            "D5".to_string(),
            "A4".to_string(),
            "E4".to_string(),
        ]
        .sort()
    );
    println!("{:?}", game);
    // move B7 to B5
    assert_eq!(
        game.make_move("B7".to_string(), "B5".to_string()),
        Ok(GameState::InProgress)
    );
    println!("{:?}", game);
    // get the pawn with the knight by moving it to B5
    assert_eq!(
        game.make_move("C3".to_string(), "B5".to_string()),
        Ok(GameState::InProgress)
    );
    println!("{:?}", game);
}

// test some king moves
#[test]
fn test_king_moves() {
    let mut game = Game::new();

    // assert that king cannot move
    assert_eq!(game.get_possible_moves("E1".to_string()), Some(vec![]));

    // create fake king in middle of board
    game.board.place(
        3,
        3,
        Piece {
            piece: PieceType::King,
            color: Color::White,
            untouched: true,
        },
    );

    // assert that this newly created (fake) king can move only one square in any direction
    assert_eq!(
        game.get_possible_moves("D5".to_string()).unwrap().sort(),
        vec![
            "D6".to_string(),
            "D4".to_string(),
            "C6".to_string(),
            "C5".to_string(),
            "C4".to_string(),
            "E6".to_string(),
            "E5".to_string(),
            "E4".to_string(),
        ]
        .sort()
    );

    println!("{:?}", game);
}
