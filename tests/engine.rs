use connect4lib::{ActionError, ActionResult, Cell, Connect4Game, Connect4ParseError, Player};

fn play_all(columns: &[usize]) -> Vec<ActionResult> {
    let mut game = Connect4Game::new_game();
    let mut results = Vec::new();
    for &c in columns {
        let result = game.play_piece(c).unwrap();
        if let ActionResult::Move(next) = result {
            game = next;
        }
        results.push(result);
    }
    results
}

fn state_of(result: &ActionResult) -> Connect4Game {
    match result {
        ActionResult::Win(g) | ActionResult::Tie(g) | ActionResult::Move(g) => *g,
    }
}

#[test]
fn player_alternates_after_each_move() {
    let game = Connect4Game::from_string("b\nr").unwrap();
    let next = state_of(&game.play_piece(3).unwrap());
    assert_eq!(next.get_current_player(), Player::Red);
    assert_eq!(next.get_board()[3][0], Cell::Piece(Player::Blue));
    let after = state_of(&next.play_piece(0).unwrap());
    assert_eq!(after.get_current_player(), Player::Blue);
    assert_eq!(after.get_board()[0][1], Cell::Piece(Player::Red));
}

#[test]
fn queries_return_the_same_value_each_time() {
    let game = Connect4Game::from_string("b\nrb\n\nr").unwrap();
    assert_eq!(game.get_board(), game.get_board());
    assert_eq!(game.get_current_player(), game.get_current_player());
    assert_eq!(game.board_to_string(), game.board_to_string());
}

#[test]
fn full_column_is_refused() {
    let game = Connect4Game::from_string("r\nrbrbrb").unwrap();
    assert!(matches!(game.play_piece(0), Err(ActionError::ColumnFull)));
    assert!(matches!(game.play_piece(1), Ok(ActionResult::Move(_))));
}

#[test]
fn column_past_the_board_is_refused() {
    let game = Connect4Game::new_game();
    assert!(matches!(game.play_piece(7), Err(ActionError::PositionOutOfBounds)));
    assert!(matches!(game.play_piece(usize::MAX), Err(ActionError::PositionOutOfBounds)));
    assert!(matches!(game.play_piece(6), Ok(ActionResult::Move(_))));
}

#[test]
fn filling_move_that_also_wins_is_a_tie() {
    let game = Connect4Game::from_string(
        "b\nrrbbb\nrrbbrr\nbbrrbb\nrrbbrr\nbbrrbb\nrrbbrr\nbbrrbb",
    )
    .unwrap();
    let expected = Connect4Game::from_string(
        "r\nrrbbbb\nrrbbrr\nbbrrbb\nrrbbrr\nbbrrbb\nrrbbrr\nbbrrbb",
    )
    .unwrap();
    assert_eq!(game.play_piece(0).unwrap(), ActionResult::Tie(expected));
}

#[test]
fn serialized_form_reads_back() {
    let states = [
        Connect4Game::new_game(),
        Connect4Game::from_string("b\nrb\n\nrrb\n\n\n\nbbbrrr").unwrap(),
        Connect4Game::from_string("r\nbbrrb\nrrbbrr\nbbrrbb\nrrbbrr\nbbrrbb\nrrbbrr\nbbrrbb").unwrap(),
    ];
    for game in states.iter() {
        let text = game.to_serialized();
        assert_eq!(Connect4Game::from_string(&text).unwrap(), *game);
    }
}

#[test]
fn serialized_form_lists_each_column() {
    let game = Connect4Game::from_string("b\nrb\n\nr").unwrap();
    assert_eq!(game.to_serialized(), "b\nrb\n\nr\n\n\n\n");
    assert_eq!(Connect4Game::new_game().to_serialized(), "r\n\n\n\n\n\n\n");
}

#[test]
fn horizontal_win_from_an_empty_board() {
    let results = play_all(&[0, 0, 1, 0, 3, 0, 2]);
    assert!(matches!(results[5], ActionResult::Move(_)));
    assert!(matches!(results[6], ActionResult::Win(_)));
}

#[test]
fn vertical_win_from_an_empty_board() {
    let results = play_all(&[0, 1, 0, 1, 0, 1, 0]);
    assert!(matches!(results[5], ActionResult::Move(_)));
    assert!(matches!(results[6], ActionResult::Win(_)));
}

#[test]
fn rising_diagonal_win_from_an_empty_board() {
    let results = play_all(&[0, 1, 1, 2, 3, 2, 2, 3, 6, 3, 3]);
    assert!(matches!(results[9], ActionResult::Move(_)));
    assert!(matches!(results[10], ActionResult::Win(_)));
}

#[test]
fn falling_diagonal_win_from_an_empty_board() {
    let results = play_all(&[6, 5, 5, 4, 3, 4, 4, 3, 0, 3, 3]);
    assert!(matches!(results[9], ActionResult::Move(_)));
    assert!(matches!(results[10], ActionResult::Win(_)));
}

#[test]
fn horizontal_win_reaching_the_last_column() {
    let game = Connect4Game::from_string("r\n\n\n\n\nr\nr\nr").unwrap();
    assert!(matches!(game.play_piece(3), Ok(ActionResult::Win(_))));
}

#[test]
fn three_in_a_row_is_no_win() {
    let game = Connect4Game::from_string("r\nrr\n\nb\nb").unwrap();
    assert!(matches!(game.play_piece(0), Ok(ActionResult::Move(_))));
}

#[test]
fn empty_text_is_missing_player() {
    assert!(matches!(Connect4Game::from_string(""), Err(Connect4ParseError::MissingPlayer)));
}

#[test]
fn bad_first_line_is_invalid_player() {
    assert!(matches!(Connect4Game::from_string("x"), Err(Connect4ParseError::InvalidPlayerCharacter)));
    assert!(matches!(Connect4Game::from_string("rb\nr"), Err(Connect4ParseError::InvalidPlayerCharacter)));
    assert!(matches!(Connect4Game::from_string("\nr"), Err(Connect4ParseError::InvalidPlayerCharacter)));
}

#[test]
fn bad_piece_is_invalid_piece() {
    assert!(matches!(Connect4Game::from_string("r\nrx"), Err(Connect4ParseError::InvalidPieceCharacter)));
    assert!(matches!(Connect4Game::from_string("r\nr b"), Err(Connect4ParseError::InvalidPieceCharacter)));
}

#[test]
fn long_column_line_is_row_too_long() {
    assert!(matches!(Connect4Game::from_string("r\nrrrrrrr"), Err(Connect4ParseError::RowTooLong)));
    assert!(matches!(Connect4Game::from_string("b\nrbrbrb\nrrrbbbr"), Err(Connect4ParseError::RowTooLong)));
}

#[test]
fn earlier_line_error_comes_first() {
    assert!(matches!(Connect4Game::from_string("r\nrx\nrrrrrrr"), Err(Connect4ParseError::InvalidPieceCharacter)));
    assert!(matches!(Connect4Game::from_string("r\nrrrrrrx"), Err(Connect4ParseError::RowTooLong)));
}

#[test]
fn nine_lines_are_too_many_rows() {
    assert!(matches!(Connect4Game::from_string("r\n\n\n\n\n\n\n\n"), Err(Connect4ParseError::TooManyRows)));
    assert!(Connect4Game::from_string("r\n\n\n\n\n\n\n").is_ok());
}

#[test]
fn parsed_columns_fill_from_the_floor() {
    let game = Connect4Game::from_string("b\nrb\n\nr").unwrap();
    let board = game.get_board();
    assert_eq!(game.get_current_player(), Player::Blue);
    assert_eq!(board[0][0], Cell::Piece(Player::Red));
    assert_eq!(board[0][1], Cell::Piece(Player::Blue));
    assert_eq!(board[0][2], Cell::Empty);
    assert_eq!(board[1][0], Cell::Empty);
    assert_eq!(board[2][0], Cell::Piece(Player::Red));
    assert_eq!(board[6][0], Cell::Empty);
}

#[test]
fn empty_board_draws_as_six_rows() {
    let row = "\u{26AB}".repeat(7);
    let expected = vec![row.as_str(); 6].join("\n");
    assert_eq!(Connect4Game::new_game().board_to_string(), expected);
}

#[test]
fn pieces_draw_on_the_bottom_row() {
    let game = Connect4Game::from_string("r\nr\n\n\n\n\n\nbr").unwrap();
    let text = game.board_to_string();
    let rows: Vec<&str> = text.split('\n').collect();
    assert_eq!(rows.len(), 6);
    assert_eq!(rows[5], "\u{1F534}\u{26AB}\u{26AB}\u{26AB}\u{26AB}\u{26AB}\u{1F535}");
    assert_eq!(rows[4], "\u{26AB}\u{26AB}\u{26AB}\u{26AB}\u{26AB}\u{26AB}\u{1F534}");
    assert_eq!(rows[0], "\u{26AB}".repeat(7));
}

#[test]
fn render_names_the_player_to_move() {
    let game = Connect4Game::from_string("b").unwrap();
    let text = game.render();
    assert!(text.starts_with(&game.board_to_string()));
    assert!(text.ends_with("\nCurrent player:\u{1F535}"));
    assert_eq!(Player::Red.glyph(), "\u{1F534}");
    assert_eq!(Cell::Empty.glyph(), "\u{26AB}");
}
