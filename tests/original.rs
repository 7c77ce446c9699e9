use connect4lib::{ActionResult, Cell, Connect4Game, Player};

#[test]
fn new_game_is_empty() {
    let new_game = Connect4Game::new_game();
    assert_eq!(new_game.get_current_player(), Player::Red);
}

#[test]
fn playing_a_piece_doesnt_change_the_original_object() {
    let game = Connect4Game::new_game();
    game.play_piece(0).unwrap();

    assert_eq!(game.get_board()[0][0], Cell::Empty);
    assert_eq!(game.get_current_player(), Player::Red);
}

#[test]
fn playing_a_piece_adds_it_to_the_column() {
    let game = Connect4Game::new_game();
    if let ActionResult::Move(game_after_move) = game.play_piece(0).unwrap() {
        assert_eq!(game_after_move.get_board()[0][0], Cell::Piece(Player::Red));
        assert_eq!(game_after_move.get_current_player(), Player::Blue);
    } else {
        panic!("Playing piece on empty board caused result other than 'Move'");
    }
}

#[test]
fn playing_a_piece_causing_a_full_board_results_in_a_tie() {
    // Col 0 has 1 missing piece
    let game = Connect4Game::from_string(
        "b
bbrrb
rrbbrr
bbrrbb
rrbbrr
bbrrbb
rrbbrr
bbrrbb",
    )
    .unwrap();

    let tied_game = ActionResult::Tie(
        Connect4Game::from_string(
            "r
bbrrbb
rrbbrr
bbrrbb
rrbbrr
bbrrbb
rrbbrr
bbrrbb",
        )
        .unwrap(),
    );
    assert_eq!(game.play_piece(0).unwrap(), tied_game)
}

#[test]
fn can_win_with_4_in_a_row_across() {
    let game = Connect4Game::from_string(
        "r
r
r

r
b
b
b",
    )
    .unwrap();

    let won_game = ActionResult::Win(
        Connect4Game::from_string(
            "b
r
r
r
r
b
b
b",
        )
        .unwrap(),
    );

    assert_eq!(game.play_piece(2).unwrap(), won_game);
}

#[test]
fn can_win_with_4_in_a_row_down() {
    let game = Connect4Game::from_string(
        "r
rrr
b
b
b",
    )
    .unwrap();

    let won_game = ActionResult::Win(
        Connect4Game::from_string(
            "b
rrrr
b
b
b",
        )
        .unwrap(),
    );

    assert_eq!(game.play_piece(0).unwrap(), won_game);
}

#[test]
fn can_win_with_4_in_a_row_left_up() {
    let game = Connect4Game::from_string(
        "r
bbbr
bb
br
r",
    )
    .unwrap();

    let won_game = ActionResult::Win(
        Connect4Game::from_string(
            "b
bbbr
bbr
br
r",
        )
        .unwrap(),
    );

    assert_eq!(game.play_piece(1).unwrap(), won_game);
}

#[test]
fn can_win_with_4_in_a_row_left_down() {
    let game = Connect4Game::from_string(
        "r
r
b
bbr
bbbr",
    )
    .unwrap();

    let won_game = ActionResult::Win(
        Connect4Game::from_string(
            "b
r
br
bbr
bbbr",
        )
        .unwrap(),
    );

    assert_eq!(game.play_piece(1).unwrap(), won_game);
}
