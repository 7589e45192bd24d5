use std::collections::hash_map::DefaultHasher;
use std::hash::Hash;
use std::hash::Hasher;

use board_games::board::Board;
use board_games::board::GameResult;
use board_games::bot::Bot;
use board_games::game::Game;
use board_games::player::Player;
use board_games::square::Square;

#[test]
fn test_flip() {
    let mut given = Square::Red;
    given.flip();
    assert_eq!(given, Square::Yellow);

    let mut given = Square::Yellow;
    given.flip();
    assert_eq!(given, Square::Red);

    let mut given = Square::Empty;
    given.flip();
    assert_eq!(given, Square::Empty);
}

#[test]
fn test_flip_into() {
    assert_eq!(Square::Red.flip_into(), Square::Yellow);
    assert_eq!(Square::Yellow.flip_into(), Square::Red);
    assert_eq!(Square::Empty.flip_into(), Square::Empty);
}

fn hash_of(board: &Board) -> u64 {
    let mut hasher = DefaultHasher::new();
    board.hash(&mut hasher);
    hasher.finish()
}

#[test]
fn test_transpositions_compare_and_hash_equal() {
    // Two different move orders, one final layout.
    let mut first = Board::new();
    first.apply_move(0, Square::Yellow).unwrap();
    first.apply_move(3, Square::Red).unwrap();
    first.apply_move(0, Square::Yellow).unwrap();

    let mut second = Board::new();
    second.apply_move(3, Square::Red).unwrap();
    second.apply_move(0, Square::Yellow).unwrap();
    second.apply_move(0, Square::Yellow).unwrap();

    assert_eq!(first, second);
    assert_eq!(hash_of(&first), hash_of(&second));

    second.apply_move(6, Square::Red).unwrap();
    assert_ne!(first, second);
}

#[test]
fn test_game_turns_alternate() {
    let mut game = Game::new();
    assert_eq!(game.color_to_be_played(), Square::Yellow);
    game.play_move(3).unwrap();
    assert_eq!(game.color_to_be_played(), Square::Yellow);
    game.flip_turn();
    assert_eq!(game.color_to_be_played(), Square::Red);

    let expected = Board::new_from_str_vec(&[
        "_______", "_______", "_______", "_______", "_______", "___Y___",
    ]);
    assert_eq!(game.board(), &expected);
}

#[test]
fn test_game_play_turn_reports_win() {
    let mut game = Game::new();
    // Yellow stacks column 0; Red stacks column 6.
    for _ in 0..3 {
        assert_eq!(game.play_turn(0).unwrap(), None);
        assert_eq!(game.play_turn(6).unwrap(), None);
    }
    let verdict = game.play_turn(0).unwrap();
    assert_eq!(verdict, Some(GameResult::Win(Square::Yellow)));
}

#[test]
fn test_game_rejects_bad_move() {
    let mut game = Game::new();
    let result = game.play_turn(9);
    assert_eq!(
        result,
        Err(board_games::game::Error::Board(
            board_games::board::Error::InvalidMove(9)
        ))
    );
    assert_eq!(game.color_to_be_played(), Square::Yellow);
    assert!(game.board().is_empty());
}

#[test]
fn test_bot_picks_best_scoring_column() {
    // With two yellow tokens on the bottom row, extending at column 1 or 2
    // scores the same as the best alternative; the leftmost best column
    // wins the tie.
    let board = Board::new_from_str_vec(&[
        "_______", "_______", "_______", "_______", "_______", "YY_____",
    ]);
    let bot = Bot::new(Square::Yellow);
    assert_eq!(bot.choose_move(&board), 1);
}

#[test]
fn test_bot_blocks_by_minimizing() {
    // Red prefers the position with the lowest score; on this board that
    // means breaking up the yellow pair.
    let board = Board::new_from_str_vec(&[
        "_______", "_______", "_______", "_______", "_______", "YY_____",
    ]);
    let bot = Bot::new(Square::Red);
    assert_eq!(bot.choose_move(&board), 2);
}

#[test]
fn test_bot_opening_move_is_valid() {
    // On an empty board the bot picks randomly: the move is always legal.
    let board = Board::new();
    let bot = Bot::new(Square::Yellow);
    for _ in 0..20 {
        let m = bot.choose_move(&board);
        assert!(board.is_valid_move(m));
    }
}

#[test]
fn test_bot_as_player_source() {
    let mut bot = Bot::new(Square::Red);
    assert!(!bot.is_human());

    let board = Board::new_from_str_vec(&[
        "_______", "_______", "_______", "_______", "_______", "YY_____",
    ]);
    assert_eq!(bot.get_move(&board), Ok(2));

    let full = Board::new_from_str_vec(&[
        "RYRYRYR", "RYRYRYR", "RYRYRYR", "YRYRYRY", "YRYRYRY", "YRYRYRY",
    ]);
    assert_eq!(
        bot.get_move(&full),
        Err(board_games::player::Error::NoValidMove)
    );
}
