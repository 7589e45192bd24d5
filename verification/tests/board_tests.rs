use board_games::board::Board;
use board_games::board::Error;
use board_games::square::Square;

#[test]
fn test_new_from_str_vec() {
    let data = &[
        "_______", "_______", "_______", "_______", "_______", "_______",
    ];
    let board = Board::new_from_str_vec(data);

    assert_eq!(board, Board::new());
    assert!(board.is_empty());
    assert!(!board.is_full());
}

#[test]
fn test_new_from_str_vec_with_moves() {
    let data = &[
        "_______", "_______", "R______", "R______", "R______", "R_YYYY_",
    ];
    let board = Board::new_from_str_vec(data);

    let mut expected_board = Board::new();

    expected_board.apply_move(0, Square::Red).unwrap();
    expected_board.apply_move(0, Square::Red).unwrap();
    expected_board.apply_move(0, Square::Red).unwrap();
    expected_board.apply_move(0, Square::Red).unwrap();

    expected_board.apply_move(2, Square::Yellow).unwrap();
    expected_board.apply_move(3, Square::Yellow).unwrap();
    expected_board.apply_move(4, Square::Yellow).unwrap();
    expected_board.apply_move(5, Square::Yellow).unwrap();

    assert_eq!(board, expected_board);
}

#[test]
fn test_apply_move() {
    let data = &[
        "_______", "_______", "_______", "_______", "_______", "Y______",
    ];

    let mut board = Board::new();

    board.apply_move(0, Square::Yellow).unwrap();

    assert_eq!(board, Board::new_from_str_vec(data));
}

#[test]
#[should_panic]
fn test_apply_move_fail() {
    let data = &[
        "Y______", "Y______", "Y______", "Y______", "Y______", "Y______",
    ];

    let mut board = Board::new_from_str_vec(data);

    board.apply_move(0, Square::Yellow).unwrap();
}

#[test]
fn test_remove_move() {
    let player_move = (0, Square::Yellow);
    let mut board = Board::new();

    board.apply_move(player_move.0, player_move.1).unwrap();

    board.remove_move(player_move.0, player_move.1).unwrap();

    assert_eq!(board, Board::new());
}

#[test]
fn test_remove_move_bound_test() {
    let data = &[
        "_______", "Y______", "Y______", "Y______", "Y______", "Y______",
    ];
    let player_move = (0, Square::Yellow);
    let mut board = Board::new_from_str_vec(data);

    board.apply_move(player_move.0, player_move.1).unwrap();

    board.remove_move(player_move.0, player_move.1).unwrap();

    assert_eq!(board, Board::new_from_str_vec(data));
}

#[test]
fn test_is_full() {
    let board = Board::new_from_str_vec(&[
        "_______", "_______", "_______", "_______", "_______", "YY_____",
    ]);

    assert_eq!(board.is_full(), false);

    let board = Board::new_from_str_vec(&[
        "YYYYYYY", "YYYYYYY", "YYYYYYY", "YYYYYYY", "YYYYYYY", "YYYYYYY",
    ]);

    assert_eq!(board.is_full(), true);
}

#[test]
fn test_apply_move_bad_column() {
    let mut board = Board::new();
    assert_eq!(board.apply_move(7, Square::Red), Err(Error::InvalidMove(7)));
    assert_eq!(board, Board::new());
}

#[test]
fn test_remove_move_without_matching_token() {
    let mut board = Board::new();
    assert_eq!(
        board.remove_move(3, Square::Yellow),
        Err(Error::InvalidMove(3))
    );

    board.apply_move(3, Square::Yellow).unwrap();
    assert_eq!(
        board.remove_move(3, Square::Red),
        Err(Error::InvalidMove(3))
    );
    assert_eq!(board.remove_move(9, Square::Yellow), Err(Error::InvalidMove(9)));
}

#[test]
fn test_column_fills_and_overflows() {
    // Every column accepts exactly six tokens; the seventh drop fails.
    for column in 0..7 {
        let mut board = Board::new();
        for _ in 0..6 {
            assert!(board.apply_move(column, Square::Red).is_ok());
        }
        assert!(!board.is_valid_move(column));
        assert_eq!(
            board.apply_move(column, Square::Red),
            Err(Error::InvalidMove(column))
        );
    }
}

#[test]
fn test_apply_then_remove_round_trip() {
    // At every stack height in every column the pair restores the board.
    for column in 0..7 {
        let mut board = Board::new();
        for height in 0..6 {
            let color = if height % 2 == 0 { Square::Yellow } else { Square::Red };
            let snapshot = board.clone();
            board.apply_move(column, color).unwrap();
            let mut undone = board.clone();
            undone.remove_move(column, color).unwrap();
            assert_eq!(undone, snapshot);
        }
    }
}

#[test]
fn test_full_board_has_no_moves() {
    // Full but without any line of four.
    let board = Board::new_from_str_vec(&[
        "RYRYRYR", "RYRYRYR", "RYRYRYR", "YRYRYRY", "YRYRYRY", "YRYRYRY",
    ]);

    assert!(board.is_full());
    assert_eq!(board.list_valid_moves(), Vec::<usize>::new());
    assert_eq!(
        board.check_for_win(),
        Some(board_games::board::GameResult::Draw)
    );
}

#[test]
fn test_list_valid_moves_ascending() {
    let board = Board::new_from_str_vec(&[
        "Y_Y_Y_Y", "YRYRYRY", "YRYRYRY", "RYRYRYR", "RYRYRYR", "RYRYRYR",
    ]);
    assert_eq!(board.list_valid_moves(), vec![1, 3, 5]);
    assert!(!board.is_valid_move(0));
    assert!(board.is_valid_move(1));
}

#[test]
fn test_default_board_is_empty() {
    let board: Board = Default::default();
    assert_eq!(board, Board::new());
    assert!(board.is_empty());
    assert_eq!(Square::default(), Square::Empty);
}

#[test]
fn test_square_at_reads_cells() {
    let board = Board::new_from_str_vec(&[
        "_______", "_______", "_______", "_______", "R______", "_Y_____",
    ]);
    assert_eq!(board.square_at(0, 1), Square::Yellow);
    assert_eq!(board.square_at(1, 0), Square::Red);
    assert_eq!(board.square_at(0, 0), Square::Empty);
    assert_eq!(board.square_at(5, 6), Square::Empty);
}

#[test]
fn test_play_move_known_legal() {
    let mut board = Board::new();
    board.play_move(4, Square::Red);
    let expected = Board::new_from_str_vec(&[
        "_______", "_______", "_______", "_______", "_______", "____R__",
    ]);
    assert_eq!(board, expected);
}
